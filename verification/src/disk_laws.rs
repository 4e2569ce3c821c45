//! What restoring leaves on disk, and what is read back from it.
//!
//! A tree on disk is a [`Tree`] whose names are names on disk.

use vstd::prelude::*;

use crate::agreement;
use crate::case_hack;
use crate::case_hack::CaseHack;
use crate::dec;
use crate::dec::{Event, ReadEvent};
use crate::grammar;
use crate::grammar::Mode;
use crate::io::ByteSource;
use crate::listing;
use crate::model;
use crate::model::{EventView, Tree};
use crate::names;
use crate::nar::ErrorView;
use crate::restore;
use crate::restore::{ActionView, CaseFold, NamesView, OpenView};
use crate::restored_names;

verus! {

// ---------------------------------------------------------------------------
// Restoring
// ---------------------------------------------------------------------------

/// What `tree` is restored as, or why it cannot be.
pub open spec fn restored_tree(tree: Tree, case_hack: CaseHack, fold: CaseFold) -> Result<
    Tree,
    ErrorView,
>
    decreases tree,
{
    match tree {
        Tree::Directory(children) => match restored_entries(
            children,
            Map::empty(),
            case_hack,
            fold,
        ) {
            Ok(entries) => Ok(Tree::Directory(entries)),
            Err(e) => Err(e),
        },
        _ => Ok(tree),
    }
}

/// What `children` are restored as in a directory that holds `held`.
pub open spec fn restored_entries(
    children: Seq<(Seq<u8>, Tree)>,
    held: NamesView,
    case_hack: CaseHack,
    fold: CaseFold,
) -> Result<Seq<(Seq<u8>, Tree)>, ErrorView>
    decreases children,
{
    if children.len() == 0 {
        Ok(Seq::empty())
    } else {
        let (held_next, name) = restore::disk_name(held, children[0].0, case_hack, fold);
        match name {
            Err(e) => Err(e),
            Ok(name) => match restored_tree(children[0].1, case_hack, fold) {
                Err(e) => Err(e),
                Ok(first) => match restored_entries(
                    children.skip(1),
                    held_next,
                    case_hack,
                    fold,
                ) {
                    Err(e) => Err(e),
                    Ok(more) => Ok(seq![(name, first)] + more),
                },
            },
        }
    }
}

/// What has to be done to create the tree `disk` at `place`.
pub open spec fn creation(disk: Tree, place: Option<Seq<u8>>) -> Seq<ActionView>
    decreases disk,
{
    match disk {
        Tree::Regular { executable, .. } => seq![
            ActionView::CreateRegular { place, mode: restore::restored_mode(executable) },
        ],
        Tree::Symlink { .. } => seq![ActionView::CreateSymlink(place)],
        Tree::Directory(entries) => seq![ActionView::CreateDirectory(place)] + creations(entries)
            + seq![ActionView::LeaveDirectory],
    }
}

/// What has to be done to create `entries` in the innermost open directory.
pub open spec fn creations(entries: Seq<(Seq<u8>, Tree)>) -> Seq<ActionView>
    decreases entries,
{
    if entries.len() == 0 {
        Seq::empty()
    } else {
        creation(entries[0].1, Some(entries[0].0)) + creations(entries.skip(1))
    }
}

/// What comes of a sequence of events, up to the first that fails.
pub struct Restoration {
    pub open: OpenView,
    pub actions: Seq<ActionView>,
    pub failure: Option<ErrorView>,
}

/// What a restore visitor does with `events`.
pub open spec fn restoration(
    open: OpenView,
    events: Seq<EventView>,
    case_hack: CaseHack,
    fold: CaseFold,
) -> Restoration
    decreases events.len(),
{
    if events.len() == 0 {
        Restoration { open, actions: Seq::empty(), failure: None }
    } else {
        let (next, action) = restore::restore_step(open, events[0], case_hack, fold);
        match action {
            Err(e) => Restoration { open: next, actions: Seq::empty(), failure: Some(e) },
            Ok(action) => {
                let more = restoration(next, events.skip(1), case_hack, fold);
                Restoration { actions: seq![action] + more.actions, ..more }
            },
        }
    }
}

/// Going on after a restoration.
pub open spec fn and_restoration(
    first: Restoration,
    events: Seq<EventView>,
    case_hack: CaseHack,
    fold: CaseFold,
) -> Restoration {
    if first.failure is Some {
        first
    } else {
        let more = restoration(first.open, events, case_hack, fold);
        Restoration { actions: first.actions + more.actions, ..more }
    }
}

proof fn lemma_restoration_concat(
    open: OpenView,
    a: Seq<EventView>,
    b: Seq<EventView>,
    case_hack: CaseHack,
    fold: CaseFold,
)
    ensures
        restoration(open, a + b, case_hack, fold) == and_restoration(
            restoration(open, a, case_hack, fold),
            b,
            case_hack,
            fold,
        ),
    decreases a.len(),
{
    if a.len() == 0 {
        let more = restoration(open, b, case_hack, fold);
        assert(a + b =~= b);
        assert(Seq::<ActionView>::empty() + more.actions =~= more.actions);
    } else {
        let (next, action) = restore::restore_step(open, a[0], case_hack, fold);
        assert((a + b).skip(1) =~= a.skip(1) + b);
        if let Ok(action) = action {
            lemma_restoration_concat(next, a.skip(1), b, case_hack, fold);
            let first = restoration(next, a.skip(1), case_hack, fold);
            if first.failure is None {
                let more = restoration(first.open, b, case_hack, fold);
                assert(seq![action] + (first.actions + more.actions) =~= seq![action]
                    + first.actions + more.actions);
            }
        }
    }
}

proof fn lemma_restoration_one(
    open: OpenView,
    event: EventView,
    case_hack: CaseHack,
    fold: CaseFold,
)
    ensures
        ({
            let (next, action) = restore::restore_step(open, event, case_hack, fold);
            restoration(open, seq![event], case_hack, fold) == match action {
                Err(e) => (Restoration {
                    open: next,
                    actions: Seq::empty(),
                    failure: Some(e),
                }),
                Ok(action) => (Restoration {
                    open: next,
                    actions: seq![action],
                    failure: None,
                }),
            }
        }),
{
    let (next, action) = restore::restore_step(open, event, case_hack, fold);
    assert(seq![event].skip(1) =~= Seq::<EventView>::empty());
    assert(restoration(next, seq![event].skip(1), case_hack, fold).actions =~= Seq::empty());
    if let Ok(action) = action {
        assert(seq![action] + Seq::<ActionView>::empty() =~= seq![action]);
    }
}

/// The walk over a tree known as `name` creates what the tree is restored as,
/// at its place, or fails as that does.
spec fn recreates(
    done: Restoration,
    placed: (OpenView, Result<Option<Seq<u8>>, ErrorView>),
    disk: Result<Tree, ErrorView>,
) -> bool {
    match placed.1 {
        Err(e) => done.failure == Some(e),
        Ok(place) => match disk {
            Err(e) => done.failure == Some(e),
            Ok(disk) => {
                &&& done.failure is None
                &&& done.open == placed.0
                &&& done.actions == creation(disk, place)
            },
        },
    }
}

proof fn lemma_tree_recreated(
    open: OpenView,
    tree: Tree,
    name: Option<Seq<u8>>,
    case_hack: CaseHack,
    fold: CaseFold,
)
    requires
        name is None <==> open.len() == 0,
    ensures
        recreates(
            restoration(open, model::events(tree, name), case_hack, fold),
            restore::placed(open, name, case_hack, fold),
            restored_tree(tree, case_hack, fold),
        ),
    decreases tree, 0nat,
{
    let walk = model::events(tree, name);
    let (next, place) = restore::placed(open, name, case_hack, fold);
    match tree {
        Tree::Directory(children) => {
            let start = EventView::DirectoryStart { name };
            let end = EventView::DirectoryEnd { name };
            let inside = model::child_events(children);
            lemma_restoration_concat(open, seq![start] + inside, seq![end], case_hack, fold);
            lemma_restoration_concat(open, seq![start], inside, case_hack, fold);
            lemma_restoration_one(open, start, case_hack, fold);
            if place is Ok {
                let opened = next.push(Map::empty());
                assert(opened.drop_last() =~= next);
                lemma_entries_recreated(next, Map::empty(), children, case_hack, fold);
                let within = restoration(opened, inside, case_hack, fold);
                if within.failure is None {
                    assert(within.open.drop_last() =~= next);
                    lemma_restoration_one(within.open, end, case_hack, fold);
                }
            }
        },
        _ => {
            lemma_restoration_one(open, walk[0], case_hack, fold);
            assert(walk =~= seq![walk[0]]);
        },
    }
}

/// The walks over the entries of a directory create what they are restored as,
/// and leave the directory open.
proof fn lemma_entries_recreated(
    outer: OpenView,
    held: NamesView,
    children: Seq<(Seq<u8>, Tree)>,
    case_hack: CaseHack,
    fold: CaseFold,
)
    ensures
        ({
            let done = restoration(
                outer.push(held),
                model::child_events(children),
                case_hack,
                fold,
            );
            match restored_entries(children, held, case_hack, fold) {
                Err(e) => done.failure == Some(e),
                Ok(entries) => {
                    &&& done.failure is None
                    &&& done.open.len() == outer.len() + 1
                    &&& done.open.drop_last() == outer
                    &&& done.actions == creations(entries)
                },
            }
        }),
    decreases children, 1nat,
{
    let open = outer.push(held);
    assert(open.drop_last() =~= outer);
    if children.len() > 0 {
        let (name, first) = children[0];
        let (held_next, disk) = restore::disk_name(held, name, case_hack, fold);
        let walk = model::events(first, Some(name));
        let others = model::child_events(children.skip(1));
        lemma_restoration_concat(open, walk, others, case_hack, fold);
        lemma_tree_recreated(open, first, Some(name), case_hack, fold);
        lemma_entries_recreated(outer, held_next, children.skip(1), case_hack, fold);
        if let Ok(entries) = restored_entries(children, held, case_hack, fold) {
            assert(entries.skip(1) =~= restored_entries(
                children.skip(1),
                held_next,
                case_hack,
                fold,
            )->Ok_0);
        }
    }
}

/// Restoring the walk over a tree does just what it takes to create the tree as
/// it is on disk, object by object, or fails where a name cannot be restored.
pub proof fn law_restoring_creates_the_tree(tree: Tree, case_hack: CaseHack, fold: CaseFold)
    ensures
        ({
            let done = restoration(Seq::empty(), model::events(tree, None), case_hack, fold);
            match restored_tree(tree, case_hack, fold) {
                Err(e) => done.failure == Some(e),
                Ok(disk) => {
                    &&& done.failure is None
                    &&& done.open == Seq::<NamesView>::empty()
                    &&& done.actions == creation(disk, None)
                },
            }
        }),
{
    lemma_tree_recreated(Seq::empty(), tree, None, case_hack, fold);
}

/// Without the hack a tree is restored as it is.
pub proof fn law_trees_are_kept_without_hack(tree: Tree, fold: CaseFold)
    ensures
        restored_tree(tree, CaseHack::Disabled, fold) == Ok::<_, ErrorView>(tree),
    decreases tree, 0nat,
{
    if let Tree::Directory(children) = tree {
        lemma_entries_are_kept(children, Map::empty(), fold);
    }
}

proof fn lemma_entries_are_kept(
    children: Seq<(Seq<u8>, Tree)>,
    held: NamesView,
    fold: CaseFold,
)
    ensures
        restored_entries(children, held, CaseHack::Disabled, fold) == Ok::<_, ErrorView>(children),
    decreases children, 1nat,
{
    if children.len() > 0 {
        law_trees_are_kept_without_hack(children[0].1, fold);
        lemma_entries_are_kept(children.skip(1), held, fold);
        assert(seq![(children[0].0, children[0].1)] + children.skip(1) =~= children);
    } else {
        assert(children =~= Seq::empty());
    }
}

/// The names of the children of a directory.
pub open spec fn child_names(children: Seq<(Seq<u8>, Tree)>) -> Seq<Seq<u8>> {
    children.map_values(|child: (Seq<u8>, Tree)| child.0)
}

proof fn lemma_names_go_on(
    before: Seq<Seq<u8>>,
    children: Seq<(Seq<u8>, Tree)>,
    case_hack: CaseHack,
    fold: CaseFold,
)
    requires
        ({
            let (held, disk) = restored_names::restored(before, case_hack, fold);
            disk is Ok && restored_entries(children, held, case_hack, fold) is Ok
        }),
    ensures
        ({
            let (held, disk) = restored_names::restored(before, case_hack, fold);
            let entries = restored_entries(children, held, case_hack, fold)->Ok_0;
            restored_names::restored(before + child_names(children), case_hack, fold).1 == Ok::<
                _,
                ErrorView,
            >(disk->Ok_0 + disk_names(entries))
        }),
    decreases children.len(),
{
    let (held, disk) = restored_names::restored(before, case_hack, fold);
    let entries = restored_entries(children, held, case_hack, fold)->Ok_0;
    if children.len() == 0 {
        assert(before + child_names(children) =~= before);
        assert(disk->Ok_0 + disk_names(entries) =~= disk->Ok_0);
    } else {
        let further = before.push(children[0].0);
        let (held_next, name) = restore::disk_name(held, children[0].0, case_hack, fold);
        assert(further.drop_last() =~= before);
        lemma_names_go_on(further, children.skip(1), case_hack, fold);
        assert(further + child_names(children.skip(1)) =~= before + child_names(children));
        let more = restored_entries(children.skip(1), held_next, case_hack, fold)->Ok_0;
        assert(disk->Ok_0.push(name->Ok_0) + disk_names(more) =~= disk->Ok_0 + disk_names(
            entries,
        ));
    }
}

/// The entries of a restored directory have the names that its children are
/// restored under in turn.
pub proof fn law_restored_entries_have_their_names(
    children: Seq<(Seq<u8>, Tree)>,
    case_hack: CaseHack,
    fold: CaseFold,
)
    requires
        restored_entries(children, Map::empty(), case_hack, fold) is Ok,
    ensures
        restored_names::restored(child_names(children), case_hack, fold).1 == Ok::<_, ErrorView>(
            disk_names(restored_entries(children, Map::empty(), case_hack, fold)->Ok_0),
        ),
{
    let none = Seq::<Seq<u8>>::empty();
    let entries = restored_entries(children, Map::empty(), case_hack, fold)->Ok_0;
    lemma_names_go_on(none, children, case_hack, fold);
    assert(none + child_names(children) =~= child_names(children));
    assert(none + disk_names(entries) =~= disk_names(entries));
}

// ---------------------------------------------------------------------------
// Restoring from a slice and from a stream
// ---------------------------------------------------------------------------

/// What an event leads to does not depend on how the contents of a file are
/// presented.
pub proof fn law_restoring_ignores_contents<'a, R: ByteSource>(
    sliced: Event<'a>,
    streamed: ReadEvent<'a, R>,
    open: OpenView,
    case_hack: CaseHack,
    fold: CaseFold,
)
    ensures
        restore::restore_step(open, restore::outline(sliced), case_hack, fold)
            == restore::restore_step(open, dec::slice_event(sliced), case_hack, fold),
        restore::restore_step(open, restore::outline(streamed), case_hack, fold)
            == restore::restore_step(open, dec::read_event(streamed), case_hack, fold),
{
}

/// `a` is a first part of `b`, but for the creation of a file at its end.
pub open spec fn first_actions_but_a_file(a: Seq<ActionView>, b: Seq<ActionView>) -> bool {
    ||| a.len() <= b.len() && b.take(a.len() as int) == a
    ||| a.len() > 0 && a.last() is CreateRegular && a.len() - 1 <= b.len() && b.take(a.len() - 1)
        == a.drop_last()
}

proof fn lemma_restoration_begins(
    a: Seq<EventView>,
    b: Seq<EventView>,
    case_hack: CaseHack,
    fold: CaseFold,
)
    requires
        agreement::first_part(a, b),
    ensures
        ({
            let first = restoration(Seq::empty(), a, case_hack, fold).actions;
            let whole = restoration(Seq::empty(), b, case_hack, fold).actions;
            first.len() <= whole.len() && whole.take(first.len() as int) == first
        }),
{
    let n = a.len() as int;
    assert(b =~= a + b.skip(n));
    lemma_restoration_concat(Seq::empty(), a, b.skip(n), case_hack, fold);
    let first = restoration(Seq::empty(), a, case_hack, fold).actions;
    let whole = restoration(Seq::empty(), b, case_hack, fold).actions;
    assert(whole.take(first.len() as int) =~= first);
}

/// Restoring an archive from a stream asks for what restoring it from a slice
/// asks for, in the same order. Where the stream ends in an error it asks for a
/// first part of that at most, but for a file whose end it has not seen.
pub proof fn law_slices_and_streams_restore_alike(nar: Seq<u8>, case_hack: CaseHack, fold: CaseFold)
    ensures
        ({
            let streamed = grammar::parse_archive(nar, Mode::Stream);
            let sliced = grammar::parse_archive(nar, Mode::Slice);
            let from_stream = restoration(Seq::empty(), streamed.events, case_hack, fold);
            let from_slice = restoration(Seq::empty(), sliced.events, case_hack, fold);
            &&& streamed.rest is Ok ==> sliced.rest == streamed.rest && from_slice == from_stream
            &&& first_actions_but_a_file(from_stream.actions, from_slice.actions)
        }),
{
    let streamed = grammar::parse_archive(nar, Mode::Stream).events;
    let sliced = grammar::parse_archive(nar, Mode::Slice).events;
    agreement::law_decoders_agree(nar);
    if agreement::first_part(streamed, sliced) {
        lemma_restoration_begins(streamed, sliced, case_hack, fold);
    } else {
        let known = streamed.drop_last();
        let file = streamed.last();
        lemma_restoration_begins(known, sliced, case_hack, fold);
        assert(streamed =~= known + seq![file]);
        lemma_restoration_concat(Seq::empty(), known, seq![file], case_hack, fold);
        let first = restoration(Seq::empty(), known, case_hack, fold);
        lemma_restoration_one(first.open, file, case_hack, fold);
        let whole = restoration(Seq::empty(), streamed, case_hack, fold).actions;
        let more = restoration(first.open, seq![file], case_hack, fold).actions;
        if first.failure is None && more.len() > 0 {
            assert(whole.drop_last() =~= first.actions);
        } else {
            assert(whole =~= first.actions);
        }
    }
}

// ---------------------------------------------------------------------------
// Reading back
// ---------------------------------------------------------------------------

/// The names of the entries of a directory on disk.
pub open spec fn disk_names(entries: Seq<(Seq<u8>, Tree)>) -> Seq<Seq<u8>> {
    entries.map_values(|entry: (Seq<u8>, Tree)| entry.0)
}

/// The names of the entries of a directory on disk, each with the archive name
/// that it stands for.
pub open spec fn listed(entries: Seq<(Seq<u8>, Tree)>, case_hack: CaseHack) -> Seq<
    (Seq<u8>, Seq<u8>),
> {
    entries.map_values(|entry: (Seq<u8>, Tree)| listing::entry_of(entry.0, case_hack))
}

/// The tree `disk` is read as `tree`: in each directory the entries are listed
/// in the order and under the names that they have in `tree`.
pub open spec fn reads_as(disk: Tree, tree: Tree, case_hack: CaseHack) -> bool
    decreases tree,
{
    match (disk, tree) {
        (Tree::Directory(entries), Tree::Directory(children)) => {
            &&& listing::is_listing(disk_names(entries), case_hack, listed(entries, case_hack))
            &&& entries_read_as(entries, children, case_hack)
        },
        (Tree::Directory(_), _) => false,
        _ => disk == tree,
    }
}

pub open spec fn entries_read_as(
    entries: Seq<(Seq<u8>, Tree)>,
    children: Seq<(Seq<u8>, Tree)>,
    case_hack: CaseHack,
) -> bool
    decreases children,
{
    &&& entries.len() == children.len()
    &&& children.len() > 0 ==> {
        &&& case_hack::archive_name(entries[0].0, case_hack) == children[0].0
        &&& reads_as(entries[0].1, children[0].1, case_hack)
        &&& entries_read_as(entries.skip(1), children.skip(1), case_hack)
    }
}

/// Every name in `disk` is legible as the name that it has in `tree`.
pub open spec fn all_legible(disk: Tree, tree: Tree) -> bool
    decreases tree,
{
    match (disk, tree) {
        (Tree::Directory(entries), Tree::Directory(children)) => entries_legible(
            entries,
            children,
        ),
        _ => true,
    }
}

pub open spec fn entries_legible(
    entries: Seq<(Seq<u8>, Tree)>,
    children: Seq<(Seq<u8>, Tree)>,
) -> bool
    decreases children,
{
    children.len() > 0 ==> {
        &&& restored_names::legible(entries[0].0, children[0].0)
        &&& all_legible(entries[0].1, children[0].1)
        &&& entries_legible(entries.skip(1), children.skip(1))
    }
}

pub proof fn lemma_children_ascend(
    children: Seq<(Seq<u8>, Tree)>,
    previous: Option<Seq<u8>>,
    depth: nat,
)
    requires
        model::valid_children(children, previous, depth),
    ensures
        forall|k: int|
            0 <= k < children.len() ==> names::valid_name((#[trigger] children[k]).0) && (
            previous matches Some(p) ==> names::less(p, children[k].0)),
        forall|k: int, l: int|
            0 <= k < l < children.len() ==> names::less(
                (#[trigger] children[k]).0,
                (#[trigger] children[l]).0,
            ),
    decreases children.len(),
{
    if children.len() > 0 {
        let others = children.skip(1);
        lemma_children_ascend(others, Some(children[0].0), depth);
        assert forall|k: int| 0 <= k < children.len() implies names::valid_name(
            (#[trigger] children[k]).0,
        ) && (previous matches Some(p) ==> names::less(p, children[k].0)) by {
            if k > 0 {
                assert(children[k] == others[k - 1]);
                if let Some(p) = previous {
                    names::lemma_less_transitive(p, children[0].0, children[k].0);
                }
            }
        }
        assert forall|k: int, l: int| 0 <= k < l < children.len() implies names::less(
            (#[trigger] children[k]).0,
            (#[trigger] children[l]).0,
        ) by {
            assert(children[l] == others[l - 1]);
            if k > 0 {
                assert(children[k] == others[k - 1]);
            }
        }
    }
}

/// What stands between each restored entry and the one that it was made from.
proof fn lemma_entries_read_back(
    children: Seq<(Seq<u8>, Tree)>,
    previous: Option<Seq<u8>>,
    depth: nat,
    held: NamesView,
    case_hack: CaseHack,
    fold: CaseFold,
)
    requires
        model::valid_children(children, previous, depth),
        restored_entries(children, held, case_hack, fold) is Ok,
        case_hack == CaseHack::Enabled ==> entries_legible(
            restored_entries(children, held, case_hack, fold)->Ok_0,
            children,
        ),
    ensures
        ({
            let entries = restored_entries(children, held, case_hack, fold)->Ok_0;
            &&& entries_read_as(entries, children, case_hack)
            &&& entries.len() == children.len()
            &&& forall|k: int|
                0 <= k < entries.len() ==> {
                    &&& listing::is_entry((#[trigger] entries[k]).0)
                    &&& case_hack::archive_name(entries[k].0, case_hack) == children[k].0
                }
        }),
    decreases children, 1nat,
{
    if children.len() > 0 {
        let name = children[0].0;
        let entries = restored_entries(children, held, case_hack, fold)->Ok_0;
        let (held_next, disk) = restore::disk_name(held, name, case_hack, fold);
        let others = restored_entries(children.skip(1), held_next, case_hack, fold)->Ok_0;
        assert(entries.skip(1) =~= others);
        restored_names::law_restored_name_reads_back(held, name, case_hack, fold);
        law_restored_trees_read_back(children[0].1, depth, case_hack, fold);
        lemma_entries_read_back(children.skip(1), Some(name), depth, held_next, case_hack, fold);
        lemma_restored_is_entry(held, name, case_hack, fold);
        assert forall|k: int| 0 <= k < entries.len() implies {
            &&& listing::is_entry((#[trigger] entries[k]).0)
            &&& case_hack::archive_name(entries[k].0, case_hack) == children[k].0
        } by {
            if k > 0 {
                assert(entries[k] == others[k - 1]);
                assert(children[k] == children.skip(1)[k - 1]);
            }
        }
    }
}

proof fn lemma_restored_is_entry(
    held: NamesView,
    name: Seq<u8>,
    case_hack: CaseHack,
    fold: CaseFold,
)
    requires
        names::valid_name(name),
        restore::disk_name(held, name, case_hack, fold).1 is Ok,
    ensures
        listing::is_entry(restore::disk_name(held, name, case_hack, fold).1->Ok_0),
{
    reveal_strlit(".");
    reveal_strlit("..");
    vstd::utf8::is_ascii_chars_encode_utf8("."@);
    vstd::utf8::is_ascii_chars_encode_utf8(".."@);
    assert(case_hack::CASE_HACK_SUFFIX@.len() == 15);
}

/// A restored tree is read back as the tree that it was restored from.
///
/// With the hack that holds where all names are legible on disk.
pub proof fn law_restored_trees_read_back(
    tree: Tree,
    depth: nat,
    case_hack: CaseHack,
    fold: CaseFold,
)
    requires
        model::valid(tree, depth),
        restored_tree(tree, case_hack, fold) is Ok,
        case_hack == CaseHack::Enabled ==> all_legible(
            restored_tree(tree, case_hack, fold)->Ok_0,
            tree,
        ),
    ensures
        reads_as(restored_tree(tree, case_hack, fold)->Ok_0, tree, case_hack),
    decreases tree, 0nat,
{
    if let Tree::Directory(children) = tree {
        let entries = restored_entries(children, Map::empty(), case_hack, fold)->Ok_0;
        lemma_entries_read_back(children, None, depth + 1, Map::empty(), case_hack, fold);
        lemma_children_ascend(children, None, depth + 1);
        let on_disk = disk_names(entries);
        let list = listed(entries, case_hack);
        assert forall|k: int| 0 <= k < list.len() implies {
            &&& on_disk.contains((#[trigger] list[k]).0)
            &&& listing::is_entry(list[k].0)
            &&& list[k] == listing::entry_of(list[k].0, case_hack)
        } by {
            assert(on_disk[k] == entries[k].0);
            assert(listing::is_entry(entries[k].0));
        }
        assert forall|i: int|
            0 <= i < on_disk.len() && listing::is_entry(
                #[trigger] on_disk[i],
            ) implies list.contains(listing::entry_of(on_disk[i], case_hack)) by {
            assert(list[i] == listing::entry_of(on_disk[i], case_hack));
        }
        assert forall|k: int, l: int| 0 <= k < l < list.len() implies names::less(
            (#[trigger] list[k]).1,
            (#[trigger] list[l]).1,
        ) by {
            assert(listing::is_entry(entries[k].0));
            assert(listing::is_entry(entries[l].0));
            assert(names::less(children[k].0, children[l].0));
        }
    }
}

// ---------------------------------------------------------------------------
// Listings
// ---------------------------------------------------------------------------

/// The same entries are read, in whatever order.
pub open spec fn same_entries(a: Seq<Seq<u8>>, b: Seq<Seq<u8>>) -> bool {
    forall|name: Seq<u8>|
        listing::is_entry(name) ==> #[trigger] a.contains(name) == #[trigger] b.contains(name)
}

/// A directory has one listing only, in whatever order its names are read.
pub proof fn law_listings_are_unique(
    one: Seq<Seq<u8>>,
    other: Seq<Seq<u8>>,
    case_hack: CaseHack,
    a: Seq<(Seq<u8>, Seq<u8>)>,
    b: Seq<(Seq<u8>, Seq<u8>)>,
)
    requires
        same_entries(one, other),
        listing::is_listing(one, case_hack, a),
        listing::is_listing(other, case_hack, b),
    ensures
        a == b,
{
    lemma_listing_goes_on(one, other, case_hack, a, b, a.len() as int);
    lemma_listing_goes_on(other, one, case_hack, b, a, b.len() as int);
    assert(a =~= b);
}

/// What is in one listing is in the other.
proof fn lemma_listed_in_both(
    one: Seq<Seq<u8>>,
    other: Seq<Seq<u8>>,
    case_hack: CaseHack,
    a: Seq<(Seq<u8>, Seq<u8>)>,
    b: Seq<(Seq<u8>, Seq<u8>)>,
    k: int,
) -> (j: int)
    requires
        same_entries(one, other),
        listing::is_listing(one, case_hack, a),
        listing::is_listing(other, case_hack, b),
        0 <= k < a.len(),
    ensures
        0 <= j < b.len(),
        b[j] == a[k],
{
    assert(one.contains(a[k].0));
    assert(other.contains(a[k].0));
    let i = choose|i: int| 0 <= i < other.len() && other[i] == a[k].0;
    assert(listing::is_entry(other[i]));
    assert(b.contains(listing::entry_of(other[i], case_hack)));
    choose|j: int| 0 <= j < b.len() && b[j] == a[k]
}

proof fn lemma_listing_goes_on(
    one: Seq<Seq<u8>>,
    other: Seq<Seq<u8>>,
    case_hack: CaseHack,
    a: Seq<(Seq<u8>, Seq<u8>)>,
    b: Seq<(Seq<u8>, Seq<u8>)>,
    n: int,
)
    requires
        same_entries(one, other),
        listing::is_listing(one, case_hack, a),
        listing::is_listing(other, case_hack, b),
        0 <= n <= a.len(),
    ensures
        n <= b.len(),
        forall|k: int| 0 <= k < n ==> #[trigger] a[k] == b[k],
    decreases n,
{
    if n > 0 {
        lemma_listing_goes_on(one, other, case_hack, a, b, n - 1);
        let j = lemma_listed_in_both(one, other, case_hack, a, b, n - 1);
        names::lemma_less_irreflexive(a[n - 1].1);
        if j < n - 1 {
            assert(a[j] == b[j]);
            assert(names::less(a[j].1, a[n - 1].1));
        } else if j > n - 1 {
            let i = lemma_listed_in_both(other, one, case_hack, b, a, n - 1);
            names::lemma_less_irreflexive(b[n - 1].1);
            assert(names::less(b[n - 1].1, b[j].1));
            if i < n - 1 {
                assert(a[i] == b[i]);
                assert(names::less(b[i].1, b[n - 1].1));
            } else if i > n - 1 {
                assert(names::less(a[n - 1].1, a[i].1));
                names::lemma_less_transitive(a[n - 1].1, a[i].1, b[j].1);
            }
        }
    }
}

/// The names of a directory that reads as `children` are listed, in whatever
/// order they are read, under the names of `children` and in their order.
pub proof fn law_listing_reads_as_children(
    entries: Seq<(Seq<u8>, Tree)>,
    children: Seq<(Seq<u8>, Tree)>,
    case_hack: CaseHack,
    read: Seq<Seq<u8>>,
    list: Seq<(Seq<u8>, Seq<u8>)>,
)
    requires
        reads_as(Tree::Directory(entries), Tree::Directory(children), case_hack),
        same_entries(read, disk_names(entries)),
        listing::is_listing(read, case_hack, list),
    ensures
        list.len() == children.len(),
        forall|k: int|
            0 <= k < list.len() ==> (#[trigger] list[k]).0 == entries[k].0 && list[k].1
                == children[k].0 && reads_as(entries[k].1, children[k].1, case_hack),
{
    law_listings_are_unique(
        read,
        disk_names(entries),
        case_hack,
        list,
        listed(entries, case_hack),
    );
    assert forall|k: int| 0 <= k < list.len() implies (#[trigger] list[k]).0 == entries[k].0
        && list[k].1 == children[k].0 && reads_as(
        entries[k].1,
        children[k].1,
        case_hack,
    ) by {
        lemma_entry_reads_as(entries, children, case_hack, k);
    }
}

proof fn lemma_entry_reads_as(
    entries: Seq<(Seq<u8>, Tree)>,
    children: Seq<(Seq<u8>, Tree)>,
    case_hack: CaseHack,
    k: int,
)
    requires
        entries_read_as(entries, children, case_hack),
        0 <= k < entries.len(),
    ensures
        case_hack::archive_name(entries[k].0, case_hack) == children[k].0,
        reads_as(entries[k].1, children[k].1, case_hack),
    decreases k,
{
    if k > 0 {
        lemma_entry_reads_as(entries.skip(1), children.skip(1), case_hack, k - 1);
    }
}

}
