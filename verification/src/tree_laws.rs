//! What is delivered and written of a tree, object by object.
//!
//! An object of a tree is told by its route: the names on the way to it from the
//! root. What the model says by going down a tree is said here of every object
//! in it at once.

use vstd::prelude::*;

use crate::disk_laws;
use crate::entries;
use crate::entries::EntryView;
use crate::laws;
use crate::model;
use crate::model::{EventView, Tree};
use crate::names;
use crate::path_laws;
use crate::path_laws::Route;

verus! {

// ---------------------------------------------------------------------------
// Objects and their routes
// ---------------------------------------------------------------------------

/// `object` stands in `tree` at the end of `route`.
pub open spec fn stands_at(tree: Tree, route: Route, object: Tree) -> bool
    decreases tree,
{
    if route.len() == 0 {
        object == tree
    } else {
        match tree {
            Tree::Directory(children) => stands_among(children, route, object),
            _ => false,
        }
    }
}

/// One of `children` has the first name of `route`, and `object` stands in it at
/// the end of the rest.
pub open spec fn stands_among(
    children: Seq<(Seq<u8>, Tree)>,
    route: Route,
    object: Tree,
) -> bool
    decreases children,
{
    children.len() > 0 && ((children[0].0 == route[0] && stands_at(
        children[0].1,
        route.skip(1),
        object,
    )) || stands_among(children.skip(1), route, object))
}

/// The routes of the objects in a tree, each directory behind what is in it.
spec fn routes(tree: Tree) -> Seq<Route>
    decreases tree,
{
    match tree {
        Tree::Directory(children) => routes_in(children).push(Seq::empty()),
        _ => seq![Seq::empty()],
    }
}

spec fn routes_in(children: Seq<(Seq<u8>, Tree)>) -> Seq<Route>
    decreases children,
{
    if children.len() == 0 {
        Seq::empty()
    } else {
        behind(children[0].0, routes(children[0].1)) + routes_in(children.skip(1))
    }
}

spec fn behind(name: Seq<u8>, more: Seq<Route>) -> Seq<Route> {
    Seq::new(more.len(), |k: int| seq![name] + more[k])
}

/// The objects in a tree, in the order of their routes.
spec fn objects(tree: Tree) -> Seq<Tree>
    decreases tree,
{
    match tree {
        Tree::Directory(children) => objects_in(children).push(tree),
        _ => seq![tree],
    }
}

spec fn objects_in(children: Seq<(Seq<u8>, Tree)>) -> Seq<Tree>
    decreases children,
{
    if children.len() == 0 {
        Seq::empty()
    } else {
        objects(children[0].1) + objects_in(children.skip(1))
    }
}

/// Each route listed leads to the object listed.
proof fn lemma_routes_lead(tree: Tree)
    ensures
        routes(tree).len() == objects(tree).len(),
        forall|k: int|
            0 <= k < routes(tree).len() ==> stands_at(
                tree,
                #[trigger] routes(tree)[k],
                objects(tree)[k],
            ),
    decreases tree, 0nat,
{
    if let Tree::Directory(children) = tree {
        lemma_routes_in_lead(children);
        assert forall|k: int| 0 <= k < routes(tree).len() implies stands_at(
            tree,
            #[trigger] routes(tree)[k],
            objects(tree)[k],
        ) by {
            if k < routes_in(children).len() {
                assert(routes(tree)[k] == routes_in(children)[k]);
            }
        }
    }
}

proof fn lemma_routes_in_lead(children: Seq<(Seq<u8>, Tree)>)
    ensures
        routes_in(children).len() == objects_in(children).len(),
        forall|k: int|
            0 <= k < routes_in(children).len() ==> (#[trigger] routes_in(children)[k]).len() > 0
                && stands_at(
                Tree::Directory(children),
                routes_in(children)[k],
                objects_in(children)[k],
            ),
    decreases children, 1nat,
{
    if children.len() > 0 {
        let first = routes(children[0].1);
        lemma_routes_lead(children[0].1);
        lemma_routes_in_lead(children.skip(1));
        let n = first.len() as int;
        assert forall|k: int| 0 <= k < routes_in(children).len() implies (#[trigger] routes_in(
            children,
        )[k]).len() > 0 && stands_at(
            Tree::Directory(children),
            routes_in(children)[k],
            objects_in(children)[k],
        ) by {
            if k < n {
                assert(routes_in(children)[k] == seq![children[0].0] + first[k]);
                assert(routes_in(children)[k].skip(1) =~= first[k]);
            } else {
                assert(routes_in(children)[k] == routes_in(children.skip(1))[k - n]);
                assert(stands_at(
                    Tree::Directory(children.skip(1)),
                    routes_in(children)[k],
                    objects_in(children.skip(1))[k - n],
                ));
            }
        }
    }
}

/// Each object is listed with each route that leads to it.
proof fn lemma_objects_listed(tree: Tree, route: Route, object: Tree) -> (k: int)
    requires
        stands_at(tree, route, object),
    ensures
        0 <= k < routes(tree).len(),
        routes(tree).len() == objects(tree).len(),
        routes(tree)[k] == route,
        objects(tree)[k] == object,
    decreases tree, 0nat,
{
    lemma_routes_lead(tree);
    if route.len() == 0 {
        assert(routes(tree)[routes(tree).len() - 1] =~= route);
        routes(tree).len() - 1
    } else {
        lemma_objects_in_listed(tree->Directory_0, route, object)
    }
}

proof fn lemma_objects_in_listed(
    children: Seq<(Seq<u8>, Tree)>,
    route: Route,
    object: Tree,
) -> (k: int)
    requires
        route.len() > 0,
        stands_among(children, route, object),
    ensures
        0 <= k < routes_in(children).len(),
        routes_in(children).len() == objects_in(children).len(),
        routes_in(children)[k] == route,
        objects_in(children)[k] == object,
    decreases children, 1nat,
{
    lemma_routes_in_lead(children);
    lemma_routes_lead(children[0].1);
    let first = routes(children[0].1);
    if children[0].0 == route[0] && stands_at(children[0].1, route.skip(1), object) {
        let k = lemma_objects_listed(children[0].1, route.skip(1), object);
        assert(routes_in(children)[k] == seq![children[0].0] + first[k]);
        assert(seq![children[0].0] + route.skip(1) =~= route);
        k
    } else {
        let rest = children.skip(1);
        let k = lemma_objects_in_listed(rest, route, object);
        assert(routes_in(children)[first.len() + k] == routes_in(rest)[k]);
        assert(objects_in(children)[first.len() + k] == objects_in(rest)[k]);
        first.len() + k
    }
}

// ---------------------------------------------------------------------------
// Collected entries
// ---------------------------------------------------------------------------

/// The entry of the object at `path`.
pub open spec fn entry_for(path: Seq<u8>, object: Tree) -> EntryView {
    match object {
        Tree::Regular { executable, contents } => EntryView::Regular { path, executable, contents },
        Tree::Symlink { target } => EntryView::Symlink { path, target },
        Tree::Directory(_) => EntryView::Directory { path },
    }
}

/// The object at the end of `a` is collected before the one at the end of `b`:
/// where the two part, `a` goes on below `b` or takes the lesser name.
pub open spec fn collected_before(a: Route, b: Route) -> bool
    decreases a.len(),
{
    a.len() > 0 && (b.len() == 0 || names::less(a[0], b[0]) || (a[0] == b[0] && collected_before(
        a.skip(1),
        b.skip(1),
    )))
}

proof fn lemma_not_before_itself(a: Route)
    ensures
        !collected_before(a, a),
    decreases a.len(),
{
    if a.len() > 0 {
        names::lemma_less_irreflexive(a[0]);
        lemma_not_before_itself(a.skip(1));
    }
}

proof fn lemma_led_on(path: Seq<u8>, name: Seq<u8>, route: Route)
    ensures
        path_laws::led(path, seq![name] + route) == path_laws::led(
            crate::paths::joined(path, name),
            route,
        ),
    decreases route.len(),
{
    let whole = seq![name] + route;
    if route.len() == 0 {
        assert(whole.drop_last() =~= Seq::<Seq<u8>>::empty());
        assert(path_laws::led(path, whole.drop_last()) == path);
    } else {
        assert(whole.drop_last() =~= seq![name] + route.drop_last());
        lemma_led_on(path, name, route.drop_last());
    }
}

proof fn lemma_entries_by_route(tree: Tree, path: Seq<u8>)
    ensures
        entries::post_order(tree, path).len() == routes(tree).len(),
        forall|k: int|
            0 <= k < routes(tree).len() ==> #[trigger] entries::post_order(tree, path)[k]
                == entry_for(path_laws::led(path, routes(tree)[k]), objects(tree)[k]),
    decreases tree, 0nat,
{
    lemma_routes_lead(tree);
    if let Tree::Directory(children) = tree {
        lemma_entries_in_by_route(children, path);
        lemma_routes_in_lead(children);
        assert forall|k: int| 0 <= k < routes(tree).len() implies #[trigger] entries::post_order(
            tree,
            path,
        )[k] == entry_for(path_laws::led(path, routes(tree)[k]), objects(tree)[k]) by {
            if k < routes_in(children).len() {
                assert(routes(tree)[k] == routes_in(children)[k]);
                assert(objects(tree)[k] == objects_in(children)[k]);
                assert(entries::post_order(tree, path)[k] == entries::post_order_children(
                    children,
                    path,
                )[k]);
            }
        }
    }
}

proof fn lemma_entries_in_by_route(children: Seq<(Seq<u8>, Tree)>, path: Seq<u8>)
    ensures
        entries::post_order_children(children, path).len() == routes_in(children).len(),
        forall|k: int|
            0 <= k < routes_in(children).len() ==> #[trigger] entries::post_order_children(
                children,
                path,
            )[k] == entry_for(
                path_laws::led(path, routes_in(children)[k]),
                objects_in(children)[k],
            ),
    decreases children, 1nat,
{
    lemma_routes_in_lead(children);
    if children.len() > 0 {
        let name = children[0].0;
        let below = crate::paths::joined(path, name);
        let first = routes(children[0].1);
        let n = first.len() as int;
        lemma_routes_lead(children[0].1);
        lemma_entries_by_route(children[0].1, below);
        lemma_entries_in_by_route(children.skip(1), path);
        let all = entries::post_order_children(children, path);
        assert forall|k: int| 0 <= k < routes_in(children).len() implies #[trigger] all[k]
            == entry_for(
            path_laws::led(path, routes_in(children)[k]),
            objects_in(children)[k],
        ) by {
            if k < n {
                assert(routes_in(children)[k] == seq![name] + first[k]);
                lemma_led_on(path, name, first[k]);
                assert(all[k] == entries::post_order(children[0].1, below)[k]);
            } else {
                assert(routes_in(children)[k] == routes_in(children.skip(1))[k - n]);
                assert(objects_in(children)[k] == objects_in(children.skip(1))[k - n]);
                assert(all[k] == entries::post_order_children(children.skip(1), path)[k - n]);
            }
        }
    }
}

/// In a valid tree the routes are those of the order of collection, and all of
/// their names are plain.
proof fn lemma_routes_in_order(tree: Tree, depth: nat)
    requires
        model::valid(tree, depth),
    ensures
        forall|j: int, k: int|
            0 <= j < k < routes(tree).len() ==> collected_before(
                #[trigger] routes(tree)[j],
                #[trigger] routes(tree)[k],
            ),
        forall|k: int|
            0 <= k < routes(tree).len() ==> path_laws::all_plain(#[trigger] routes(tree)[k]),
    decreases tree, 0nat,
{
    if let Tree::Directory(children) = tree {
        lemma_routes_in_in_order(children, None, depth + 1);
        lemma_routes_in_lead(children);
        assert forall|j: int, k: int| 0 <= j < k < routes(tree).len() implies collected_before(
            #[trigger] routes(tree)[j],
            #[trigger] routes(tree)[k],
        ) by {
            assert(routes(tree)[j] == routes_in(children)[j]);
            if k < routes_in(children).len() {
                assert(routes(tree)[k] == routes_in(children)[k]);
            }
        }
        assert forall|k: int| 0 <= k < routes(tree).len() implies path_laws::all_plain(
            #[trigger] routes(tree)[k],
        ) by {
            if k < routes_in(children).len() {
                assert(routes(tree)[k] == routes_in(children)[k]);
            }
        }
    }
}

proof fn lemma_routes_in_in_order(
    children: Seq<(Seq<u8>, Tree)>,
    previous: Option<Seq<u8>>,
    depth: nat,
)
    requires
        model::valid_children(children, previous, depth),
    ensures
        forall|j: int, k: int|
            0 <= j < k < routes_in(children).len() ==> collected_before(
                #[trigger] routes_in(children)[j],
                #[trigger] routes_in(children)[k],
            ),
        forall|k: int|
            0 <= k < routes_in(children).len() ==> path_laws::all_plain(
                #[trigger] routes_in(children)[k],
            ) && routes_in(children)[k].len() > 0 && (previous matches Some(p) ==> names::less(
                p,
                routes_in(children)[k][0],
            )),
    decreases children, 1nat,
{
    if children.len() > 0 {
        let name = children[0].0;
        let rest = children.skip(1);
        let first = routes(children[0].1);
        let n = first.len() as int;
        lemma_routes_in_order(children[0].1, depth);
        lemma_routes_in_in_order(rest, Some(name), depth);
        lemma_valid_is_plain(name);
        let all = routes_in(children);
        assert forall|k: int| 0 <= k < all.len() implies path_laws::all_plain(#[trigger] all[k])
            && all[k].len() > 0 && (previous matches Some(p) ==> names::less(p, all[k][0])) by {
            if k < n {
                assert(all[k] == seq![name] + first[k]);
                let route = all[k];
                assert forall|m: int| 0 <= m < route.len() implies path_laws::plain(
                    #[trigger] route[m],
                ) by {
                    if m > 0 {
                        assert(route[m] == first[k][m - 1]);
                    }
                }
            } else {
                assert(all[k] == routes_in(rest)[k - n]);
                if let Some(p) = previous {
                    names::lemma_less_transitive(p, name, all[k][0]);
                }
            }
        }
        assert forall|j: int, k: int| 0 <= j < k < all.len() implies collected_before(
            #[trigger] all[j],
            #[trigger] all[k],
        ) by {
            if j < n {
                assert(all[j] == seq![name] + first[j]);
                assert(all[j].skip(1) =~= first[j]);
                if k < n {
                    assert(all[k] == seq![name] + first[k]);
                    assert(all[k].skip(1) =~= first[k]);
                    assert(collected_before(first[j], first[k]));
                } else {
                    assert(all[k] == routes_in(rest)[k - n]);
                }
            } else {
                assert(all[j] == routes_in(rest)[j - n]);
                assert(all[k] == routes_in(rest)[k - n]);
            }
        }
    }
}

proof fn lemma_valid_is_plain(name: Seq<u8>)
    requires
        names::valid_name(name),
    ensures
        path_laws::plain(name),
{
    assert forall|i: int| 0 <= i < name.len() implies #[trigger] name[i] != 0x2f by {
        assert(name.contains(name[i]));
    }
}

/// `entry` is that of an object in `tree`, under the path that its route leads
/// to, with the object's own flag, contents or target.
pub open spec fn is_entry_in(tree: Tree, entry: EntryView) -> bool {
    exists|route: Route, object: Tree| #[trigger]
        stands_at(tree, route, object) && path_laws::all_plain(route) && entry == entry_for(
            path_laws::led(Seq::empty(), route),
            object,
        )
}

/// Collecting a tree gives entries of the objects in it and of nothing else, and
/// no two under one path.
pub proof fn law_entries_are_of_objects(tree: Tree, j: int, k: int)
    requires
        model::valid(tree, 0),
        0 <= j < entries::post_order(tree, Seq::empty()).len(),
        0 <= k < entries::post_order(tree, Seq::empty()).len(),
    ensures
        is_entry_in(tree, entries::post_order(tree, Seq::empty())[k]),
        j != k ==> laws::path_of(entries::post_order(tree, Seq::empty())[j]) != laws::path_of(
            entries::post_order(tree, Seq::empty())[k],
        ),
{
    let none = Seq::<u8>::empty();
    lemma_entries_by_route(tree, none);
    lemma_routes_lead(tree);
    lemma_routes_in_order(tree, 0);
    let a = routes(tree)[j];
    let b = routes(tree)[k];
    assert(path_laws::all_plain(a) && path_laws::all_plain(b));
    assert(stands_at(tree, b, objects(tree)[k]));
    assert(entries::post_order(tree, none)[j] == entry_for(
        path_laws::led(none, a),
        objects(tree)[j],
    ));
    assert(entries::post_order(tree, none)[k] == entry_for(
        path_laws::led(none, b),
        objects(tree)[k],
    ));
    if j != k && path_laws::led(none, a) == path_laws::led(none, b) {
        path_laws::law_different_routes_lead_apart(a, b);
        lemma_not_before_itself(a);
        assert(collected_before(a, b) || collected_before(b, a));
    }
}

/// Every object in a tree is collected.
pub proof fn law_objects_are_collected(tree: Tree, route: Route, object: Tree)
    requires
        stands_at(tree, route, object),
    ensures
        entries::post_order(tree, Seq::empty()).contains(
            entry_for(path_laws::led(Seq::empty(), route), object),
        ),
{
    let k = lemma_objects_listed(tree, route, object);
    lemma_entries_by_route(tree, Seq::empty());
    assert(entries::post_order(tree, Seq::empty())[k] == entry_for(
        path_laws::led(Seq::empty(), route),
        object,
    ));
}

/// What is in a directory is collected before the directory, and siblings are
/// collected by name, each with all that is in it.
pub proof fn law_order_of_collection(tree: Tree, j: int, k: int, a: Route, b: Route)
    requires
        model::valid(tree, 0),
        0 <= j < k < entries::post_order(tree, Seq::empty()).len(),
        path_laws::all_plain(a),
        path_laws::all_plain(b),
        laws::path_of(entries::post_order(tree, Seq::empty())[j]) == path_laws::led(
            Seq::empty(),
            a,
        ),
        laws::path_of(entries::post_order(tree, Seq::empty())[k]) == path_laws::led(
            Seq::empty(),
            b,
        ),
    ensures
        collected_before(a, b),
{
    let none = Seq::<u8>::empty();
    lemma_entries_by_route(tree, none);
    lemma_routes_lead(tree);
    lemma_routes_in_order(tree, 0);
    assert(path_laws::all_plain(routes(tree)[j]));
    assert(path_laws::all_plain(routes(tree)[k]));
    assert(entries::post_order(tree, none)[j] == entry_for(
        path_laws::led(none, routes(tree)[j]),
        objects(tree)[j],
    ));
    assert(entries::post_order(tree, none)[k] == entry_for(
        path_laws::led(none, routes(tree)[k]),
        objects(tree)[k],
    ));
    path_laws::law_different_routes_lead_apart(a, routes(tree)[j]);
    path_laws::law_different_routes_lead_apart(b, routes(tree)[k]);
}

// ---------------------------------------------------------------------------
// Events
// ---------------------------------------------------------------------------

/// `event` is one that an object known as `name` gives rise to: it has the
/// object's own flag, contents or target, or it starts or ends a directory.
pub open spec fn tells(event: EventView, name: Option<Seq<u8>>, object: Tree) -> bool {
    match object {
        Tree::Regular { executable, contents } => event == (EventView::Regular {
            name,
            executable,
            size: contents.len(),
            contents,
        }),
        Tree::Symlink { target } => event == (EventView::Symlink { name, target }),
        Tree::Directory(_) => event == (EventView::DirectoryStart { name }) || event == (
        EventView::DirectoryEnd { name }),
    }
}

/// What the object at the end of `route` is known as in a tree known as `name`.
pub open spec fn known_as(name: Option<Seq<u8>>, route: Route) -> Option<Seq<u8>> {
    if route.len() == 0 {
        name
    } else {
        Some(route[route.len() - 1])
    }
}

/// Every event of a walk is of an object in the tree.
pub proof fn law_events_are_of_objects(tree: Tree, name: Option<Seq<u8>>, k: int) -> (r: (
    Route,
    Tree,
))
    requires
        0 <= k < model::events(tree, name).len(),
    ensures
        stands_at(tree, r.0, r.1),
        tells(model::events(tree, name)[k], known_as(name, r.0), r.1),
    decreases tree, 0nat,
{
    let here: Route = Seq::empty();
    match tree {
        Tree::Directory(children) => {
            let inside = model::child_events(children);
            if 0 < k && k < inside.len() + 1 {
                assert(model::events(tree, name)[k] == inside[k - 1]);
                lemma_child_events_are_of_objects(children, k - 1)
            } else {
                (here, tree)
            }
        },
        _ => (here, tree),
    }
}

proof fn lemma_child_events_are_of_objects(children: Seq<(Seq<u8>, Tree)>, k: int) -> (r: (
    Route,
    Tree,
))
    requires
        0 <= k < model::child_events(children).len(),
    ensures
        r.0.len() > 0,
        stands_at(Tree::Directory(children), r.0, r.1),
        tells(model::child_events(children)[k], known_as(None, r.0), r.1),
    decreases children, 1nat,
{
    let first = model::events(children[0].1, Some(children[0].0));
    let all = model::child_events(children);
    if k < first.len() {
        assert(all[k] == first[k]);
        let (route, object) = law_events_are_of_objects(children[0].1, Some(children[0].0), k);
        let whole = seq![children[0].0] + route;
        assert(whole.skip(1) =~= route);
        (whole, object)
    } else {
        let rest = children.skip(1);
        assert(all[k] == model::child_events(rest)[k - first.len()]);
        let (route, object) = lemma_child_events_are_of_objects(rest, k - first.len());
        assert(stands_among(children, route, object));
        (route, object)
    }
}

/// Every object in a tree is told of in a walk over it.
pub proof fn law_objects_are_told_of(
    tree: Tree,
    name: Option<Seq<u8>>,
    route: Route,
    object: Tree,
) -> (k: int)
    requires
        stands_at(tree, route, object),
    ensures
        0 <= k < model::events(tree, name).len(),
        tells(model::events(tree, name)[k], known_as(name, route), object),
    decreases tree, 0nat,
{
    if route.len() == 0 {
        0
    } else {
        let children = tree->Directory_0;
        let k = lemma_children_are_told_of(children, route, object);
        assert(model::events(tree, name)[k + 1] == model::child_events(children)[k]);
        k + 1
    }
}

proof fn lemma_children_are_told_of(
    children: Seq<(Seq<u8>, Tree)>,
    route: Route,
    object: Tree,
) -> (k: int)
    requires
        route.len() > 0,
        stands_among(children, route, object),
    ensures
        0 <= k < model::child_events(children).len(),
        tells(model::child_events(children)[k], known_as(None, route), object),
    decreases children, 1nat,
{
    let first = model::events(children[0].1, Some(children[0].0));
    let all = model::child_events(children);
    if children[0].0 == route[0] && stands_at(children[0].1, route.skip(1), object) {
        let below = route.skip(1);
        let k = law_objects_are_told_of(children[0].1, Some(children[0].0), below, object);
        assert(all[k] == first[k]);
        if below.len() > 0 {
            assert(below[below.len() - 1] == route[route.len() - 1]);
        }
        k
    } else {
        let rest = children.skip(1);
        let k = lemma_children_are_told_of(rest, route, object);
        assert(all[first.len() + k] == model::child_events(rest)[k]);
        first.len() + k
    }
}

/// A directory starts before what is in it and ends after it, and a file or a
/// symbolic link is told of in one event.
pub proof fn law_directories_enclose(tree: Tree, name: Option<Seq<u8>>)
    ensures
        ({
            let walk = model::events(tree, name);
            match tree {
                Tree::Directory(children) => {
                    &&& walk.len() == model::child_events(children).len() + 2
                    &&& walk[0] == (EventView::DirectoryStart { name })
                    &&& walk[walk.len() - 1] == (EventView::DirectoryEnd { name })
                    &&& walk.subrange(1, walk.len() - 1) == model::child_events(children)
                },
                _ => walk.len() == 1,
            }
        }),
{
    if let Tree::Directory(children) = tree {
        let walk = model::events(tree, name);
        assert(walk.subrange(1, walk.len() - 1) =~= model::child_events(children));
    }
}

// ---------------------------------------------------------------------------
// Which trees there can be
// ---------------------------------------------------------------------------

/// An object is one that an archive can hold, as far as it shows by itself: a
/// length fits in eight bytes, and a directory has valid names in strictly
/// ascending order.
pub open spec fn holdable(object: Tree) -> bool {
    match object {
        Tree::Regular { contents, .. } => contents.len() < 0x1_0000_0000_0000_0000,
        Tree::Symlink { target } => target.len() < 0x1_0000_0000_0000_0000,
        Tree::Directory(children) => holdable_names(children),
    }
}

/// The names of `children` are valid, fit, and ascend.
pub open spec fn holdable_names(children: Seq<(Seq<u8>, Tree)>) -> bool {
    &&& forall|k: int|
        0 <= k < children.len() ==> names::valid_name((#[trigger] children[k]).0)
            && children[k].0.len() < 0x1_0000_0000_0000_0000
    &&& forall|k: int, l: int|
        0 <= k < l < children.len() ==> names::less(
            (#[trigger] children[k]).0,
            (#[trigger] children[l]).0,
        )
}

/// In a valid tree no object is below more than 63 directories, and each is one
/// that an archive can hold.
pub proof fn law_objects_of_valid_trees(tree: Tree, depth: nat, route: Route, object: Tree)
    requires
        model::valid(tree, depth),
        stands_at(tree, route, object),
    ensures
        depth + route.len() < 64,
        holdable(object),
    decreases tree, 0nat,
{
    if route.len() == 0 {
        if let Tree::Directory(children) = tree {
            disk_laws::lemma_children_ascend(children, None, depth + 1);
            lemma_children_fit(children, None, depth + 1);
        }
    } else {
        lemma_objects_among_valid(tree->Directory_0, None, depth + 1, route, object);
    }
}

proof fn lemma_children_fit(
    children: Seq<(Seq<u8>, Tree)>,
    previous: Option<Seq<u8>>,
    depth: nat,
)
    requires
        model::valid_children(children, previous, depth),
    ensures
        forall|k: int|
            0 <= k < children.len() ==> (#[trigger] children[k]).0.len() < 0x1_0000_0000_0000_0000,
    decreases children.len(),
{
    if children.len() > 0 {
        let rest = children.skip(1);
        lemma_children_fit(rest, Some(children[0].0), depth);
        assert forall|k: int| 0 <= k < children.len() implies (#[trigger] children[k]).0.len()
            < 0x1_0000_0000_0000_0000 by {
            if k > 0 {
                assert(children[k] == rest[k - 1]);
            }
        }
    }
}

proof fn lemma_objects_among_valid(
    children: Seq<(Seq<u8>, Tree)>,
    previous: Option<Seq<u8>>,
    depth: nat,
    route: Route,
    object: Tree,
)
    requires
        route.len() > 0,
        model::valid_children(children, previous, depth),
        stands_among(children, route, object),
    ensures
        depth + route.len() - 1 < 64,
        holdable(object),
    decreases children, 1nat,
{
    if children[0].0 == route[0] && stands_at(children[0].1, route.skip(1), object) {
        law_objects_of_valid_trees(children[0].1, depth, route.skip(1), object);
    } else {
        lemma_objects_among_valid(children.skip(1), Some(children[0].0), depth, route, object);
    }
}

/// A tree is valid where that holds of all its objects.
pub proof fn law_trees_of_holdable_objects_are_valid(tree: Tree, depth: nat)
    requires
        forall|route: Route, object: Tree| #[trigger]
            stands_at(tree, route, object) ==> depth + route.len() < 64 && holdable(object),
    ensures
        model::valid(tree, depth),
    decreases tree, 0nat,
{
    assert(stands_at(tree, Seq::empty(), tree));
    if let Tree::Directory(children) = tree {
        assert(holdable(tree));
        assert forall|route: Route, object: Tree|
            route.len() > 0 && #[trigger] stands_among(children, route, object) implies depth
            + route.len() < 64 && holdable(object) by {
            assert(stands_at(tree, route, object));
        }
        lemma_children_of_holdable_objects(children, None, depth + 1);
    }
}

proof fn lemma_children_of_holdable_objects(
    children: Seq<(Seq<u8>, Tree)>,
    previous: Option<Seq<u8>>,
    depth: nat,
)
    requires
        holdable_names(children),
        previous matches Some(p) ==> (children.len() > 0 ==> names::less(p, children[0].0)),
        forall|route: Route, object: Tree|
            route.len() > 0 && #[trigger] stands_among(children, route, object) ==> depth
                + route.len() - 1 < 64 && holdable(object),
    ensures
        model::valid_children(children, previous, depth),
    decreases children, 1nat,
{
    if children.len() > 0 {
        let name = children[0].0;
        let rest = children.skip(1);
        assert(names::valid_name(children[0].0));
        assert forall|route: Route, object: Tree| #[trigger]
            stands_at(children[0].1, route, object) implies depth + route.len() < 64 && holdable(
            object,
        ) by {
            let whole = seq![name] + route;
            assert(whole.skip(1) =~= route);
            assert(stands_among(children, whole, object));
        }
        law_trees_of_holdable_objects_are_valid(children[0].1, depth);
        assert forall|k: int| 0 <= k < rest.len() implies names::valid_name(
            (#[trigger] rest[k]).0,
        ) && rest[k].0.len() < 0x1_0000_0000_0000_0000 by {
            assert(rest[k] == children[k + 1]);
        }
        assert forall|k: int, l: int| 0 <= k < l < rest.len() implies names::less(
            (#[trigger] rest[k]).0,
            (#[trigger] rest[l]).0,
        ) by {
            assert(rest[k] == children[k + 1] && rest[l] == children[l + 1]);
        }
        if rest.len() > 0 {
            assert(names::less(children[0].0, children[1].0));
        }
        assert forall|route: Route, object: Tree|
            route.len() > 0 && #[trigger] stands_among(rest, route, object) implies depth
            + route.len() - 1 < 64 && holdable(object) by {
            assert(stands_among(children, route, object));
        }
        lemma_children_of_holdable_objects(rest, Some(name), depth);
    }
}

/// An object is one that a stream accepts, as far as it shows by itself: a name
/// or a target is of one mebibyte at most.
pub open spec fn streams(object: Tree) -> bool {
    match object {
        Tree::Regular { .. } => true,
        Tree::Symlink { target } => target.len() <= 1048576,
        Tree::Directory(children) => streaming_names(children),
    }
}

/// The names of `children` are short enough.
pub open spec fn streaming_names(children: Seq<(Seq<u8>, Tree)>) -> bool {
    forall|k: int| 0 <= k < children.len() ==> (#[trigger] children[k]).0.len() <= 1048576
}

/// In a tree that can be streamed each object is one that a stream accepts.
pub proof fn law_objects_of_streamable_trees(tree: Tree, route: Route, object: Tree)
    requires
        model::streamable(tree),
        stands_at(tree, route, object),
    ensures
        streams(object),
    decreases tree, 0nat,
{
    if route.len() == 0 {
        if let Tree::Directory(children) = tree {
            lemma_children_stream(children);
        }
    } else {
        lemma_objects_among_streamable(tree->Directory_0, route, object);
    }
}

proof fn lemma_children_stream(children: Seq<(Seq<u8>, Tree)>)
    requires
        model::streamable_children(children),
    ensures
        forall|k: int| 0 <= k < children.len() ==> (#[trigger] children[k]).0.len() <= 1048576,
    decreases children.len(),
{
    if children.len() > 0 {
        let rest = children.skip(1);
        lemma_children_stream(rest);
        assert forall|k: int| 0 <= k < children.len() implies (#[trigger] children[k]).0.len()
            <= 1048576 by {
            if k > 0 {
                assert(children[k] == rest[k - 1]);
            }
        }
    }
}

proof fn lemma_objects_among_streamable(
    children: Seq<(Seq<u8>, Tree)>,
    route: Route,
    object: Tree,
)
    requires
        route.len() > 0,
        model::streamable_children(children),
        stands_among(children, route, object),
    ensures
        streams(object),
    decreases children, 1nat,
{
    if children[0].0 == route[0] && stands_at(children[0].1, route.skip(1), object) {
        law_objects_of_streamable_trees(children[0].1, route.skip(1), object);
    } else {
        lemma_objects_among_streamable(children.skip(1), route, object);
    }
}

/// A tree can be streamed where a stream accepts all its objects.
pub proof fn law_trees_of_streaming_objects_are_streamable(tree: Tree)
    requires
        forall|route: Route, object: Tree| #[trigger]
            stands_at(tree, route, object) ==> streams(object),
    ensures
        model::streamable(tree),
    decreases tree, 0nat,
{
    assert(stands_at(tree, Seq::empty(), tree));
    if let Tree::Directory(children) = tree {
        assert(streams(tree));
        assert forall|route: Route, object: Tree|
            route.len() > 0 && #[trigger] stands_among(children, route, object) implies streams(
            object,
        ) by {
            assert(stands_at(tree, route, object));
        }
        lemma_children_of_streaming_objects(children);
    }
}

proof fn lemma_children_of_streaming_objects(children: Seq<(Seq<u8>, Tree)>)
    requires
        streaming_names(children),
        forall|route: Route, object: Tree|
            route.len() > 0 && #[trigger] stands_among(children, route, object) ==> streams(object),
    ensures
        model::streamable_children(children),
    decreases children, 1nat,
{
    if children.len() > 0 {
        let rest = children.skip(1);
        assert(children[0].0.len() <= 1048576);
        assert forall|route: Route, object: Tree| #[trigger]
            stands_at(children[0].1, route, object) implies streams(object) by {
            let whole = seq![children[0].0] + route;
            assert(whole.skip(1) =~= route);
            assert(stands_among(children, whole, object));
        }
        law_trees_of_streaming_objects_are_streamable(children[0].1);
        assert forall|k: int| 0 <= k < rest.len() implies (#[trigger] rest[k]).0.len()
            <= 1048576 by {
            assert(rest[k] == children[k + 1]);
        }
        assert forall|route: Route, object: Tree|
            route.len() > 0 && #[trigger] stands_among(rest, route, object) implies streams(
            object,
        ) by {
            assert(stands_among(children, route, object));
        }
        lemma_children_of_streaming_objects(rest);
    }
}

}
