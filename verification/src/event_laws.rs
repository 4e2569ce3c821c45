//! What events, entries and nodes stand for, and what a visitor is owed.

use vstd::prelude::*;

use crate::dec;
use crate::dec::{Event, ReadEvent};
use crate::entries;
use crate::entries::{Entry, EntryView};
use crate::grammar;
use crate::grammar::{Mode, Parse};
use crate::io;
use crate::io::ByteSource;
use crate::laws;
use crate::model;
use crate::model::{EventView, Tree};
use crate::names;
use crate::nar::ErrorView;
use crate::restore;
use crate::roundtrip;
use crate::tree::Node;

verus! {

// ---------------------------------------------------------------------------
// Events
// ---------------------------------------------------------------------------

/// An event tells the name, the flag, the contents and the target that it holds,
/// and the size of a file is how long its contents are.
pub proof fn law_events_tell_what_they_hold<'a>(
    name: &'a [u8],
    executable: bool,
    contents: &'a [u8],
    target: &'a [u8],
)
    ensures
        dec::slice_event(Event::DirectoryStart { name: Some(name) }) == (EventView::DirectoryStart {
            name: Some(name@),
        }),
        dec::slice_event(Event::DirectoryStart { name: None }) == (EventView::DirectoryStart {
            name: None,
        }),
        dec::slice_event(Event::DirectoryEnd { name: Some(name) }) == (EventView::DirectoryEnd {
            name: Some(name@),
        }),
        dec::slice_event(Event::DirectoryEnd { name: None }) == (EventView::DirectoryEnd {
            name: None,
        }),
        dec::slice_event(Event::Regular { name: Some(name), executable, contents }) == (
        EventView::Regular {
            name: Some(name@),
            executable,
            size: contents@.len(),
            contents: contents@,
        }),
        dec::slice_event(Event::Regular { name: None, executable, contents }) == (
        EventView::Regular {
            name: None,
            executable,
            size: contents@.len(),
            contents: contents@,
        }),
        dec::slice_event(Event::Symlink { name: Some(name), target }) == (EventView::Symlink {
            name: Some(name@),
            target: target@,
        }),
        dec::slice_event(Event::Symlink { name: None, target }) == (EventView::Symlink {
            name: None,
            target: target@,
        }),
{
}

/// Two events tell the same exactly if they hold the same.
pub proof fn law_events_are_told_apart<'a>(a: Event<'a>, b: Event<'a>)
    ensures
        dec::slice_event(a) == dec::slice_event(b) <==> match (a, b) {
            (Event::DirectoryStart { name: m }, Event::DirectoryStart { name: n }) => same(m, n),
            (Event::DirectoryEnd { name: m }, Event::DirectoryEnd { name: n }) => same(m, n),
            (
                Event::Regular { name: m, executable: e, contents: c },
                Event::Regular { name: n, executable: f, contents: d },
            ) => same(m, n) && e == f && c@ == d@,
            (
                Event::Symlink { name: m, target: t },
                Event::Symlink { name: n, target: u },
            ) => same(m, n) && t@ == u@,
            _ => false,
        },
{
}

/// Two optional names are of the same bytes, or there is none of either.
pub open spec fn same(a: Option<&[u8]>, b: Option<&[u8]>) -> bool {
    match (a, b) {
        (Some(m), Some(n)) => m@ == n@,
        (None, None) => true,
        _ => false,
    }
}

/// A streamed event tells what an event in memory tells, with as many bytes of
/// the source as the file is declared to have.
pub proof fn law_streamed_events_tell_the_same<'a, R: ByteSource>(
    streamed: ReadEvent<'a, R>,
    sliced: Event<'a>,
    rest: Seq<u8>,
)
    requires
        match (streamed, sliced) {
            (Event::DirectoryStart { name: m }, Event::DirectoryStart { name: n }) => same(m, n),
            (Event::DirectoryEnd { name: m }, Event::DirectoryEnd { name: n }) => same(m, n),
            (
                Event::Regular { name: m, executable: e, contents: c },
                Event::Regular { name: n, executable: f, contents: d },
            ) => same(m, n) && e == f && c.size == d@.len() && c.reader.pending() == d@ + rest,
            (
                Event::Symlink { name: m, target: t },
                Event::Symlink { name: n, target: u },
            ) => same(m, n) && t@ == u@,
            _ => false,
        },
    ensures
        dec::read_event(streamed) == dec::slice_event(sliced),
        restore::outline(streamed) == restore::outline(sliced),
{
    if let Event::Regular { contents, .. } = sliced {
        assert((contents@ + rest).take(contents@.len() as int) =~= contents@);
    }
}

// ---------------------------------------------------------------------------
// Where events may stand
// ---------------------------------------------------------------------------

/// The root has no name and everything else has one; a directory ends under the
/// name that it has, and only where one is open.
pub proof fn law_where_events_may_stand(
    depth: nat,
    name: Seq<u8>,
    executable: bool,
    size: nat,
    contents: Seq<u8>,
    target: Seq<u8>,
)
    ensures
        model::nests(EventView::DirectoryStart { name: None }, depth) == (depth == 0),
        model::nests(EventView::DirectoryStart { name: Some(name) }, depth) == (depth > 0),
        model::nests(EventView::Regular { name: None, executable, size, contents }, depth) == (depth
            == 0),
        model::nests(EventView::Regular { name: Some(name), executable, size, contents }, depth)
            == (depth > 0),
        model::nests(EventView::Symlink { name: None, target }, depth) == (depth == 0),
        model::nests(EventView::Symlink { name: Some(name), target }, depth) == (depth > 0),
        model::nests(EventView::DirectoryEnd { name: None }, depth) == (depth == 1),
        model::nests(EventView::DirectoryEnd { name: Some(name) }, depth) == (depth > 1),
        model::depth_after(EventView::DirectoryStart { name: None }, depth) == depth + 1,
        model::depth_after(EventView::DirectoryStart { name: Some(name) }, depth) == depth + 1,
        model::depth_after(EventView::DirectoryEnd { name: None }, depth + 1) == depth,
        model::depth_after(EventView::DirectoryEnd { name: Some(name) }, depth + 1) == depth,
        model::depth_after(
            EventView::Regular { name: Some(name), executable, size, contents },
            depth,
        ) == depth,
        model::depth_after(EventView::Symlink { name: Some(name), target }, depth) == depth,
{
}

// ---------------------------------------------------------------------------
// What a visitor is owed
// ---------------------------------------------------------------------------

/// A decoder that nothing stops has told everything there is to tell, and ends
/// as it should.
pub proof fn law_nothing_is_kept_back(
    parse: Parse,
    before: Seq<EventView>,
    after: Seq<EventView>,
    r: Result<Seq<u8>, ErrorView>,
)
    requires
        dec::followed(parse, before, after, None, None, r),
    ensures
        after == before + parse.events,
        r == parse.rest,
{
    assert(parse.events.take(parse.events.len() as int) =~= parse.events);
}

/// A decoder that a visitor stops has told the first events and no others, and
/// hands on the error of the visitor.
pub proof fn law_visitors_are_heeded(
    parse: Parse,
    before: Seq<EventView>,
    after: Seq<EventView>,
    refusal: ErrorView,
    cause: Option<io::IoErrorView>,
    r: Result<Seq<u8>, ErrorView>,
)
    requires
        dec::followed(parse, before, after, Some(refusal), cause, r),
    ensures
        r == Err::<Seq<u8>, _>(refusal),
        exists|k: int|
            0 <= k <= parse.events.len() && after == before + #[trigger] parse.events.take(k),
{
    let k = after.len() - before.len();
    assert(after == before + parse.events.take(k));
}

/// The archive of a tree is told as the walk over the tree, to a visitor that
/// does not stop it.
pub proof fn law_archives_are_told_as_trees(
    tree: Tree,
    mode: Mode,
    before: Seq<EventView>,
    after: Seq<EventView>,
    r: Result<Seq<u8>, ErrorView>,
)
    requires
        model::valid(tree, 0),
        mode == Mode::Stream ==> model::streamable(tree),
        dec::followed(
            grammar::parse_archive(model::archive(tree), mode),
            before,
            after,
            None,
            None,
            r,
        ),
    ensures
        after == before + model::events(tree, None),
        r is Ok,
{
    roundtrip::law_decoding_undoes_encoding(tree, mode);
    law_nothing_is_kept_back(
        grammar::parse_archive(model::archive(tree), mode),
        before,
        after,
        r,
    );
}

/// The archive of a tree is collected as the entries of the tree.
pub proof fn law_archives_are_collected_as_trees(tree: Tree, r: Result<Seq<EntryView>, ErrorView>)
    requires
        model::valid(tree, 0),
        entries::collected(model::archive(tree), r),
    ensures
        r == Ok::<_, ErrorView>(entries::post_order(tree, Seq::empty())),
{
    roundtrip::law_decoding_undoes_encoding(tree, Mode::Slice);
    if let Ok(list) = r {
        let other = choose|other: Tree|
            {
                &&& model::valid(other, 0)
                &&& model::archive(tree) == #[trigger] model::archive(other)
                &&& list == entries::post_order(other, Seq::empty())
            };
        laws::law_archives_tell_trees_apart(tree, other);
    }
}

/// An entry shows the path, the flag, the contents and the target that it holds.
pub proof fn law_entries_show_what_they_hold<'a>(
    path: Vec<u8>,
    executable: bool,
    contents: &'a [u8],
    target: &'a [u8],
)
    ensures
        (Entry::Regular { path, executable, contents })@ == (EntryView::Regular {
            path: path@,
            executable,
            contents: contents@,
        }),
        (Entry::Symlink { path, target })@ == (EntryView::Symlink {
            path: path@,
            target: target@,
        }),
        (Entry::Directory { path })@ == (EntryView::Directory { path: path@ }),
{
}

// ---------------------------------------------------------------------------
// Nodes
// ---------------------------------------------------------------------------

/// A node of a tree is what it says, and the children of a directory are its
/// children, in their places and under their names.
pub proof fn law_nodes_stand_for_trees(node: Node<'_>, height: nat, i: int)
    ensures
        match node {
            Node::Regular { executable, contents } => node@ == (Tree::Regular {
                executable,
                contents: contents@,
            }),
            Node::Symlink { target } => node@ == (Tree::Symlink { target: target@ }),
            Node::Directory(children) => {
                &&& node@ == node.tree(64)
                &&& node.tree(height + 1) is Directory
                &&& node.tree(height + 1)->Directory_0.len() == children@.len()
                &&& 0 <= i < children@.len() ==> node.tree(height + 1)->Directory_0[i] == (
                    children@[i].name@,
                    children@[i].node.tree(height),
                )
            },
        },
{
}

// ---------------------------------------------------------------------------
// Names that a system does not take
// ---------------------------------------------------------------------------

/// `event` is that of an object called `name`.
pub open spec fn of_object(event: EventView, name: Seq<u8>) -> bool {
    match event {
        EventView::DirectoryStart { name: n } => n == Some(name),
        EventView::Regular { name: n, .. } => n == Some(name),
        EventView::Symlink { name: n, .. } => n == Some(name),
        EventView::DirectoryEnd { .. } => false,
    }
}

/// Windows takes `name` as one component of a path.
pub open spec fn fit(name: Seq<u8>) -> bool {
    vstd::utf8::valid_utf8(name) && forall|i: int|
        0 <= i < name.len() ==> #[trigger] name[i] != 0x5c && name[i] != 0x3a
}

proof fn lemma_fit(name: Seq<u8>)
    ensures
        entries::windows_syntax(name) == !fit(name),
{
    if entries::windows_syntax(name) && vstd::utf8::valid_utf8(name) {
        if name.contains(0x5c) {
            let i = name.index_of(0x5c);
            assert(name[i] == 0x5c);
        } else {
            let i = name.index_of(0x3a);
            assert(name[i] == 0x3a);
        }
    }
    if !fit(name) && vstd::utf8::valid_utf8(name) {
        let i = choose|i: int|
            0 <= i < name.len() && (#[trigger] name[i] == 0x5c || name[i] == 0x3a);
        assert(name.contains(name[i]));
    }
}

/// The name that is refused on Windows is that of some object, Windows does not
/// take it, and it takes those of all objects before that one.
pub proof fn law_the_first_unfit_name_is_refused(events: Seq<EventView>, name: Seq<u8>)
    requires
        entries::unfit_name(events) == Some(name),
    ensures
        !fit(name),
        exists|k: int|
            {
                &&& 0 <= k < events.len()
                &&& of_object(#[trigger] events[k], name)
                &&& forall|j: int, other: Seq<u8>|
                    0 <= j < k && #[trigger] of_object(events[j], other) ==> fit(other)
            },
    decreases events.len(),
{
    let more = events.skip(1);
    lemma_fit(name);
    if events.len() > 0 {
        if entries::naming(events[0]) is Some && entries::windows_syntax(
            entries::naming(events[0])->0,
        ) {
            assert(of_object(events[0], name));
        } else {
            law_the_first_unfit_name_is_refused(more, name);
            let k = choose|k: int|
                {
                    &&& 0 <= k < more.len()
                    &&& of_object(#[trigger] more[k], name)
                    &&& forall|j: int, other: Seq<u8>|
                        0 <= j < k && #[trigger] of_object(more[j], other) ==> fit(other)
                };
            assert(of_object(events[k + 1], name));
            assert forall|j: int, other: Seq<u8>|
                0 <= j < k + 1 && #[trigger] of_object(events[j], other) implies fit(other) by {
                lemma_fit(other);
                if j > 0 {
                    assert(of_object(more[j - 1], other));
                }
            }
        }
    }
}

/// Where no name is refused, Windows takes the names of all objects.
pub proof fn law_fit_names_are_taken(events: Seq<EventView>, k: int, name: Seq<u8>)
    requires
        entries::unfit_name(events) is None,
        0 <= k < events.len(),
        of_object(events[k], name),
    ensures
        fit(name),
    decreases events.len(),
{
    lemma_fit(name);
    if k > 0 {
        assert(events.skip(1)[k - 1] == events[k]);
        law_fit_names_are_taken(events.skip(1), k - 1, name);
    }
}

/// The archive of a tree is collected as the tree on every system whose name is
/// not spelled w, i, n, d, o, w, s, and on that one if it takes all the names.
pub proof fn law_systems_collect_alike(
    tree: Tree,
    os: Seq<char>,
    r: Result<Seq<EntryView>, ErrorView>,
)
    requires
        model::valid(tree, 0),
        entries::collected_for(model::archive(tree), os, r),
    ensures
        os != seq!['w', 'i', 'n', 'd', 'o', 'w', 's'] || (forall|k: int, name: Seq<u8>|
            0 <= k < model::events(tree, None).len() && #[trigger] of_object(
                model::events(tree, None)[k],
                name,
            ) ==> fit(name)) ==> r == Ok::<_, ErrorView>(
            entries::post_order(tree, Seq::empty()),
        ),
        os == seq!['w', 'i', 'n', 'd', 'o', 'w', 's'] && (exists|k: int, name: Seq<u8>|
            0 <= k < model::events(tree, None).len() && #[trigger] of_object(
                model::events(tree, None)[k],
                name,
            ) && !fit(name)) ==> r is Err && r->Err_0 is InvalidName,
{
    reveal_strlit("windows");
    assert("windows"@ =~= seq!['w', 'i', 'n', 'd', 'o', 'w', 's']);
    let events = model::events(tree, None);
    roundtrip::law_decoding_undoes_encoding(tree, Mode::Slice);
    match entries::unfit_name(events) {
        Some(name) => {
            law_the_first_unfit_name_is_refused(events, name);
            if os != "windows"@ {
                law_archives_are_collected_as_trees(tree, r);
            }
        },
        None => {
            law_archives_are_collected_as_trees(tree, r);
            assert forall|k: int, name: Seq<u8>|
                0 <= k < events.len() && #[trigger] of_object(events[k], name) implies fit(
                name,
            ) by {
                law_fit_names_are_taken(events, k, name);
            }
        },
    }
}

// ---------------------------------------------------------------------------
// Descriptions
// ---------------------------------------------------------------------------

/// A name is shown in full up to a thousand and twenty-four bytes. What is
/// behind those is left out, whatever it is, with an ellipsis in its place.
pub proof fn law_long_names_are_cut(name: Seq<u8>, more: Seq<u8>)
    requires
        name.len() <= 1024,
    ensures
        names::describe(name) == names::utf8_lossy(name),
        name.len() == 1024 && more.len() > 0 ==> names::describe(name + more) == names::describe(
            name,
        ).push('\u{2026}'),
{
    if name.len() == 1024 {
        assert((name + more).take(1024) =~= name);
    }
}

}
