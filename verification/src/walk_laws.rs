//! A walk over a filesystem tree writes the archive of that tree.
//!
//! The answers that a [`PathEncoder`](crate::walk::PathEncoder) is given speak
//! of one object at a time. Here they are put together: as long as each of them
//! is true of one and the same tree, what is told, with what lies ahead, is the
//! walk over that tree, from the first question to the last.

use vstd::prelude::*;

use crate::encoder;
use crate::laws;
use crate::model;
use crate::model::{EventView, Tree};
use crate::runs;
use crate::walk;
use crate::walk::{FrameView, PathAction, Stage, WalkView};

verus! {

/// What a walk has yet to see: the object that it stands at, and in each open
/// directory the objects that are left, in the order of the archive.
pub struct Ahead {
    pub current: Tree,
    pub rest: Seq<Seq<Tree>>,
}

/// The entries that are left in a directory, under their names in the archive.
pub open spec fn entries_left(frame: FrameView, trees: Seq<Tree>) -> Seq<(Seq<u8>, Tree)> {
    Seq::new(trees.len(), |k: int| (frame.left[k].1, trees[k]))
}

/// What is yet to be told of the open directories, the innermost first.
pub open spec fn frames_ahead(frames: Seq<FrameView>, rest: Seq<Seq<Tree>>) -> Seq<EventView>
    decreases frames.len(),
{
    if frames.len() == 0 {
        Seq::empty()
    } else {
        model::child_events(entries_left(frames.last(), rest.last()))
            + seq![EventView::DirectoryEnd { name: None }]
            + frames_ahead(frames.drop_last(), rest.drop_last())
    }
}

/// There is an object ahead for each entry that is left.
pub open spec fn matched(frames: Seq<FrameView>, rest: Seq<Seq<Tree>>) -> bool {
    &&& rest.len() == frames.len()
    &&& forall|i: int|
        0 <= i < frames.len() ==> (#[trigger] rest[i]).len() == frames[i].left.len()
}

/// What the walk has told, `next`, and what is left of the open directories make
/// up the walk over `tree`.
pub open spec fn adds_up(
    told: Seq<EventView>,
    next: Seq<EventView>,
    frames: Seq<FrameView>,
    rest: Seq<Seq<Tree>>,
    tree: Tree,
) -> bool {
    &&& matched(frames, rest)
    &&& runs::all_told(told + next + frames_ahead(frames, rest)) == runs::all_told(
        model::events(tree, None),
    )
}

/// A walk that stands at an object, with `ahead` yet to see, tells `tree` in all.
pub open spec fn tells(view: WalkView, ahead: Ahead, tree: Tree) -> bool {
    adds_up(view.told, model::events(ahead.current, view.name), view.frames, ahead.rest, tree)
}

/// What lies ahead once a walk with `rest` ahead has ended `count` directories
/// and gone on to the next object.
pub open spec fn moved_ahead(rest: Seq<Seq<Tree>>, count: nat) -> Ahead {
    let depth = rest.len() - count;
    Ahead {
        current: rest[depth - 1][0],
        rest: rest.take(depth - 1).push(rest[depth - 1].skip(1)),
    }
}

/// Directories without any entries left just end.
proof fn lemma_frames_end(frames: Seq<FrameView>, rest: Seq<Seq<Tree>>, count: nat)
    requires
        matched(frames, rest),
        count <= frames.len(),
        forall|i: int|
            frames.len() - count <= i < frames.len() ==> (#[trigger] frames[i]).left.len() == 0,
    ensures
        frames_ahead(frames, rest) == walk::ends(count) + frames_ahead(
            frames.take(frames.len() - count),
            rest.take(frames.len() - count),
        ),
    decreases count,
{
    if count == 0 {
        assert(frames.take(frames.len() as int) =~= frames);
        assert(rest.take(frames.len() as int) =~= rest);
        assert(walk::ends(0) + frames_ahead(frames, rest) =~= frames_ahead(frames, rest));
    } else {
        let outer = frames.drop_last();
        let outer_rest = rest.drop_last();
        let depth = frames.len() - count;
        assert(frames[frames.len() - 1].left.len() == 0);
        assert(rest[frames.len() - 1].len() == 0);
        assert(model::child_events(entries_left(frames.last(), rest.last())) =~= Seq::empty());
        lemma_frames_end(outer, outer_rest, (count - 1) as nat);
        assert(outer.take(depth) =~= frames.take(depth));
        assert(outer_rest.take(depth) =~= rest.take(depth));
        let end = seq![EventView::DirectoryEnd { name: None }];
        assert(end + walk::ends((count - 1) as nat) =~= walk::ends(count));
        let more = frames_ahead(frames.take(depth), rest.take(depth));
        assert(Seq::<EventView>::empty() + end + (walk::ends((count - 1) as nat) + more)
            =~= walk::ends(count) + more);
    }
}

/// The next entry of the innermost directory comes next.
proof fn lemma_next_entry(frames: Seq<FrameView>, rest: Seq<Seq<Tree>>)
    requires
        matched(frames, rest),
        frames.len() > 0,
        frames.last().left.len() > 0,
    ensures
        ({
            let top = frames.last();
            let trees = rest.last();
            frames_ahead(frames, rest) == model::events(trees[0], Some(top.left[0].1))
                + frames_ahead(
                frames.drop_last().push(FrameView { left: top.left.skip(1), ..top }),
                rest.drop_last().push(trees.skip(1)),
            )
        }),
{
    let top = frames.last();
    let trees = rest.last();
    assert(rest[frames.len() - 1].len() == top.left.len());
    let after = frames.drop_last().push(FrameView { left: top.left.skip(1), ..top });
    let after_rest = rest.drop_last().push(trees.skip(1));
    let entries = entries_left(top, trees);
    assert(entries.skip(1) =~= entries_left(after.last(), after_rest.last()));
    assert(after.drop_last() =~= frames.drop_last());
    assert(after_rest.drop_last() =~= rest.drop_last());
    let first = model::events(trees[0], Some(top.left[0].1));
    let others = model::child_events(entries.skip(1));
    let end = seq![EventView::DirectoryEnd { name: None }];
    let outer = frames_ahead(frames.drop_last(), rest.drop_last());
    assert(entries[0] == (top.left[0].1, trees[0]));
    assert(first + others + end + outer =~= first + (others + end + outer));
}

/// Moving on loses nothing: the walk stands at the next object, with the rest
/// ahead, or has told everything.
pub proof fn law_moving_on_loses_nothing(
    before: Seq<FrameView>,
    told: Seq<EventView>,
    rest: Seq<Seq<Tree>>,
    tree: Tree,
    count: nat,
    after: WalkView,
    action: PathAction,
)
    requires
        adds_up(told, Seq::empty(), before, rest, tree),
        walk::moved_on(before, told, count, after, action),
    ensures
        if after.stage == Stage::Complete {
            runs::all_told(after.told) == runs::all_told(model::events(tree, None))
        } else {
            tells(after, moved_ahead(rest, count), tree)
        },
{
    let depth = before.len() - count;
    let left = frames_ahead(before, rest);
    lemma_frames_end(before, rest, count);
    let outer = frames_ahead(before.take(depth), rest.take(depth));
    assert(told + Seq::<EventView>::empty() + left =~= after.told + outer);
    if depth == 0 {
        assert(after.told + outer =~= after.told);
    } else {
        let frames = before.take(depth);
        let trees = rest.take(depth);
        let ahead = moved_ahead(rest, count);
        let top = before[depth - 1];
        assert forall|i: int| 0 <= i < frames.len() implies (#[trigger] trees[i]).len()
            == frames[i].left.len() by {
            assert(rest[i].len() == before[i].left.len());
        }
        lemma_next_entry(frames, trees);
        assert(frames.last() == top);
        assert(frames.drop_last() =~= before.take(depth - 1));
        assert(trees.drop_last() =~= rest.take(depth - 1));
        let first = model::events(ahead.current, after.name);
        let others = frames_ahead(after.frames, ahead.rest);
        assert(after.told + (first + others) =~= after.told + first + others);
        assert forall|i: int| 0 <= i < after.frames.len() implies (#[trigger] ahead.rest[i]).len()
            == after.frames[i].left.len() by {
            assert(rest[i].len() == before[i].left.len());
        }
    }
}

/// At first a walk has the whole tree ahead.
pub proof fn law_walk_begins_with_the_tree(view: WalkView, tree: Tree)
    requires
        view.frames.len() == 0,
        view.name is None,
        view.told.len() == 0,
    ensures
        tells(view, (Ahead { current: tree, rest: Seq::empty() }), tree),
{
    let walk = model::events(tree, None);
    assert(view.told + walk + frames_ahead(view.frames, Seq::empty()) =~= walk);
}

/// A file or a symbolic link that is told as it is goes from what lies ahead to
/// what is told.
pub proof fn law_leaf_goes_to_what_is_told(
    before: WalkView,
    ahead: Ahead,
    tree: Tree,
    event: EventView,
    count: nat,
    after: WalkView,
    action: PathAction,
)
    requires
        tells(before, ahead, tree),
        match ahead.current {
            Tree::Regular { executable, contents } => event == model::regular_event(
                before.name,
                executable,
                contents,
            ),
            Tree::Symlink { target } => event == (EventView::Symlink { name: before.name, target }),
            Tree::Directory(_) => false,
        },
        walk::moved_on(before.frames, before.told.push(event), count, after, action),
    ensures
        if after.stage == Stage::Complete {
            runs::all_told(after.told) == runs::all_told(model::events(tree, None))
        } else {
            tells(after, moved_ahead(ahead.rest, count), tree)
        },
{
    let told = before.told.push(event);
    let left = frames_ahead(before.frames, ahead.rest);
    assert(model::events(ahead.current, before.name) =~= seq![event]);
    assert(before.told + seq![event] + left =~= told + Seq::<EventView>::empty() + left);
    law_moving_on_loses_nothing(before.frames, told, ahead.rest, tree, count, after, action);
}

/// A directory goes to what is told and what lies ahead in it, where its entries
/// are listed under the names that they have in the tree.
pub proof fn law_directory_opens_up(
    before: WalkView,
    ahead: Ahead,
    tree: Tree,
    children: Seq<(Seq<u8>, Tree)>,
    list: Seq<(Seq<u8>, Seq<u8>)>,
    count: nat,
    after: WalkView,
    action: PathAction,
)
    requires
        tells(before, ahead, tree),
        ahead.current == Tree::Directory(children),
        list.len() == children.len(),
        forall|k: int| 0 <= k < list.len() ==> (#[trigger] list[k]).1 == children[k].0,
        walk::moved_on(
            before.frames.push(FrameView { path: before.path, left: list }),
            before.told.push(EventView::DirectoryStart { name: before.name }),
            count,
            after,
            action,
        ),
    ensures
        ({
            let inside = children.map_values(|child: (Seq<u8>, Tree)| child.1);
            if after.stage == Stage::Complete {
                runs::all_told(after.told) == runs::all_told(model::events(tree, None))
            } else {
                tells(after, moved_ahead(ahead.rest.push(inside), count), tree)
            }
        }),
{
    let inside = children.map_values(|child: (Seq<u8>, Tree)| child.1);
    let frame = FrameView { path: before.path, left: list };
    let frames = before.frames.push(frame);
    let rest = ahead.rest.push(inside);
    let start = EventView::DirectoryStart { name: before.name };
    let told = before.told.push(start);
    assert(entries_left(frame, inside) =~= children);
    assert(frames.drop_last() =~= before.frames);
    assert(rest.drop_last() =~= ahead.rest);
    let entries = model::child_events(children);
    let outer = frames_ahead(before.frames, ahead.rest);
    let end = EventView::DirectoryEnd { name: before.name };
    let some_end = EventView::DirectoryEnd { name: None };
    let whole = before.told + (seq![start] + entries + seq![end]) + outer;
    let told_whole = told + Seq::<EventView>::empty() + (entries + seq![some_end] + outer);
    assert(runs::all_told(whole) =~= runs::all_told(told_whole)) by {
        let n = (before.told.len() + 1 + entries.len()) as int;
        assert(told_whole =~= whole.update(n, some_end));
        assert(whole[n] == end);
    }
    assert forall|i: int| 0 <= i < frames.len() implies (#[trigger] rest[i]).len()
        == frames[i].left.len() by {
        if i < before.frames.len() {
            assert(ahead.rest[i].len() == before.frames[i].left.len());
        }
    }
    law_moving_on_loses_nothing(frames, told, rest, tree, count, after, action);
}

pub proof fn lemma_valid_is_sized(tree: Tree, depth: nat)
    requires
        model::valid(tree, depth),
    ensures
        model::sized(tree),
    decreases tree, 0nat,
{
    if let Tree::Directory(children) = tree {
        lemma_valid_children_are_sized(children, depth + 1, None);
    }
}

proof fn lemma_valid_children_are_sized(
    children: Seq<(Seq<u8>, Tree)>,
    depth: nat,
    previous: Option<Seq<u8>>,
)
    requires
        model::valid_children(children, previous, depth),
    ensures
        model::sized_children(children),
    decreases children, 1nat,
{
    if children.len() > 0 {
        lemma_valid_is_sized(children[0].1, depth);
        lemma_valid_children_are_sized(children.skip(1), depth, Some(children[0].0));
    }
}

/// A walk that has told a tree has written its archive: there is no other valid
/// tree of which the same is told.
pub proof fn law_told_trees_are_one(tree: Tree, written: Tree)
    requires
        model::sized(tree),
        model::valid(written, 0),
        runs::all_told(model::events(tree, None)) == runs::all_told(model::events(written, None)),
    ensures
        tree == written,
{
    runs::lemma_run_told(
        encoder::fresh(),
        model::events(tree, None),
        model::events(written, None),
    );
    lemma_valid_is_sized(written, 0);
    runs::law_encoder_accepts_valid_trees(tree);
    runs::law_encoder_accepts_valid_trees(written);
    laws::law_archives_tell_trees_apart(tree, written);
}

}
