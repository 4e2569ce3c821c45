//! What paths come to: names with one slash between each two.

use vstd::prelude::*;

use crate::io;
use crate::model;
use crate::paths;
use crate::restore;

verus! {

// ---------------------------------------------------------------------------
// Paths and names
// ---------------------------------------------------------------------------

/// The names on the way from a directory to an object in it.
pub type Route = Seq<Seq<u8>>;

/// Where `route` leads from the directory at `path`.
pub open spec fn led(path: Seq<u8>, route: Route) -> Seq<u8>
    decreases route.len(),
{
    if route.len() == 0 {
        path
    } else {
        paths::joined(led(path, route.drop_last()), route.last())
    }
}

/// A name that is not empty and has no slash in it.
pub open spec fn plain(name: Seq<u8>) -> bool {
    name.len() > 0 && forall|i: int| 0 <= i < name.len() ==> #[trigger] name[i] != 0x2f
}

/// All names of a route are such names.
pub open spec fn all_plain(route: Route) -> bool {
    forall|k: int| 0 <= k < route.len() ==> plain(#[trigger] route[k])
}

/// The last slash in `path` stands at `at`.
pub open spec fn last_slash(path: Seq<u8>, at: int) -> bool {
    &&& 0 <= at < path.len()
    &&& path[at] == 0x2f
    &&& forall|i: int| at < i < path.len() ==> #[trigger] path[i] != 0x2f
}

/// What stands between the slashes of `path`.
pub open spec fn pieces(path: Seq<u8>) -> Route
    decreases path.len(),
{
    let at = choose|at: int| last_slash(path, at);
    if last_slash(path, at) {
        pieces(path.take(at)).push(path.skip(at + 1))
    } else {
        seq![path]
    }
}

/// The path of an entry is that of its directory, a slash, and its name: a slash
/// is left out only behind a path that is empty or ends in one.
pub proof fn law_one_slash_between(path: Seq<u8>, name: Seq<u8>)
    ensures
        path.len() == 0 ==> paths::joined(path, name) == name,
        path.len() > 0 && path[path.len() - 1] == 0x2f ==> paths::joined(path, name) == path + name,
        path.len() > 0 && path[path.len() - 1] != 0x2f ==> paths::joined(path, name) == path
            + seq![0x2fu8] + name,
{
    assert(path.push(0x2f) + name =~= path + seq![0x2fu8] + name);
}

proof fn lemma_led_ends(route: Route)
    requires
        route.len() > 0,
        all_plain(route),
    ensures
        ({
            let path = led(Seq::empty(), route);
            path.len() > 0 && path[path.len() - 1] != 0x2f
        }),
{
    let last = route[route.len() - 1];
    assert(plain(last));
    assert(last[last.len() - 1] != 0x2f);
    let path = led(Seq::empty(), route);
    assert(path[path.len() - 1] == last[last.len() - 1]);
}

/// A path, taken apart at its slashes, gives back the names on the way.
pub proof fn law_paths_give_back_the_names(route: Route)
    requires
        route.len() > 0,
        all_plain(route),
    ensures
        pieces(led(Seq::empty(), route)) == route,
    decreases route.len(),
{
    let none = Seq::<u8>::empty();
    let path = led(none, route);
    let last = route.last();
    assert(plain(route[route.len() - 1]));
    let init = route.drop_last();
    assert forall|k: int| 0 <= k < init.len() implies plain(#[trigger] init[k]) by {
        assert(plain(route[k]));
    }
    let at = choose|at: int| last_slash(path, at);
    if init.len() == 0 {
        assert(led(none, init) == none);
        assert(path == last);
        assert(!last_slash(path, at));
        assert(pieces(path) =~= route);
    } else {
        let before = led(none, init);
        lemma_led_ends(init);
        law_one_slash_between(before, last);
        assert(path == before + seq![0x2fu8] + last);
        assert(last_slash(path, before.len() as int)) by {
            assert forall|i: int| before.len() < i < path.len() implies #[trigger] path[i]
                != 0x2f by {
                assert(path[i] == last[i - before.len() - 1]);
            }
        }
        assert(at == before.len());
        assert(path.take(at) =~= before);
        assert(path.skip(at + 1) =~= last);
        law_paths_give_back_the_names(init);
        assert(pieces(path) =~= route);
    }
}

/// Different routes lead to different paths.
pub proof fn law_different_routes_lead_apart(a: Route, b: Route)
    requires
        all_plain(a),
        all_plain(b),
        led(Seq::empty(), a) == led(Seq::empty(), b),
    ensures
        a == b,
{
    if a.len() > 0 {
        lemma_led_ends(a);
    }
    if b.len() > 0 {
        lemma_led_ends(b);
    }
    if a.len() > 0 && b.len() > 0 {
        law_paths_give_back_the_names(a);
        law_paths_give_back_the_names(b);
    } else {
        assert(a =~= b);
    }
}

// ---------------------------------------------------------------------------
// The destination of a restore
// ---------------------------------------------------------------------------

proof fn lemma_dots()
    ensures
        model::text(".") == seq![0x2eu8],
        model::text("..") == seq![0x2eu8, 0x2eu8],
{
    reveal_strlit(".");
    reveal_strlit("..");
    vstd::utf8::is_ascii_chars_encode_utf8("."@);
    vstd::utf8::is_ascii_chars_encode_utf8(".."@);
    assert(model::text(".") =~= seq![0x2eu8]);
    assert(model::text("..") =~= seq![0x2eu8, 0x2eu8]);
}

/// A path is a destination whatever its final component is, unless that is one
/// or two dots: the component is the name, what stands before it is the parent,
/// which is the current directory where nothing does, and slashes behind it do
/// not count.
pub proof fn law_destinations_are_taken(
    parent: Seq<u8>,
    name: Seq<u8>,
    slashes: nat,
    r: Result<(Seq<u8>, Seq<u8>), io::IoErrorView>,
)
    requires
        plain(name),
        parent.len() == 0 || parent[parent.len() - 1] == 0x2f,
        restore::taken_apart(parent + name + Seq::new(slashes, |i: int| 0x2fu8), r),
    ensures
        if name == seq![0x2eu8] || name == seq![0x2eu8, 0x2eu8] {
            r matches Err(e) && e.kind is InvalidInput
        } else {
            r == Ok::<_, io::IoErrorView>(
                (
                    if parent.len() == 0 {
                        seq![0x2eu8]
                    } else {
                        parent
                    },
                    name,
                ),
            )
        },
{
    let path = parent + name + Seq::new(slashes, |i: int| 0x2fu8);
    let start = parent.len() as int;
    let end = start + name.len();
    lemma_dots();
    assert(path.take(start) =~= parent);
    assert(path.subrange(start, end) =~= name);
    assert(path[end - 1] == name[name.len() - 1]);
    assert forall|i: int| start <= i < end implies path[i] != 0x2f by {
        assert(path[i] == name[i - start]);
    }
    assert(restore::final_component(path, start, end));
    let (a, b) = choose|a: int, b: int| #[trigger]
        restore::final_component(path, a, b) && match r {
            Ok((parent, name)) => {
                &&& restore::names_object(path.subrange(a, b))
                &&& name == path.subrange(a, b)
                &&& parent == (if a == 0 {
                    model::text(".")
                } else {
                    path.take(a)
                })
            },
            Err(e) => !restore::names_object(path.subrange(a, b)) && e
                == restore::destination_error(),
        };
    restore::law_final_component_is_unique(path, a, b, start, end);
}

/// A path of slashes alone, or of nothing, is no destination.
pub proof fn law_nothing_is_no_destination(
    slashes: nat,
    r: Result<(Seq<u8>, Seq<u8>), io::IoErrorView>,
)
    requires
        restore::taken_apart(Seq::new(slashes, |i: int| 0x2fu8), r),
    ensures
        r matches Err(e) && e.kind is InvalidInput,
{
}

}
