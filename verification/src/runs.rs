//! What an encoder makes of the walk over a tree.

use vstd::prelude::*;

use crate::encoder;
use crate::encoder::{EncoderView, Run};
use crate::model;
use crate::model::{EventView, Tree, MAX_DEPTH};
use crate::nar::ErrorView;

verus! {

/// What an entry adds behind its node.
pub open spec fn entry_end(named: bool) -> Seq<u8> {
    if named {
        model::word(")")
    } else {
        Seq::empty()
    }
}

/// The state behind the entries `children` of the innermost directory.
pub open spec fn behind(v: EncoderView, children: Seq<(Seq<u8>, Tree)>) -> EncoderView {
    if children.len() == 0 {
        v
    } else {
        encoder::started(v, Some(children.last().0))
    }
}

proof fn lemma_leaf(v: EncoderView, event: EventView, name: Option<Seq<u8>>, body: Seq<u8>)
    requires
        encoder::step(v, event) == encoder::leaf(v, name, body),
        encoder::placement_error(v, name) is None,
    ensures
        encoder::run(v, seq![event]) == (Run {
            bytes: encoder::opening(name) + (body + model::word(")")) + entry_end(name is Some),
            end: Ok(encoder::ended(encoder::started(v, name), name is Some)),
        }),
{
    encoder::lemma_run_one(v, event);
    assert(encoder::opening(name) + body + encoder::closing(name is Some) =~= encoder::opening(name)
        + (body + model::word(")")) + entry_end(name is Some));
}

/// A valid tree in a place where it may stand is encoded in full.
pub proof fn lemma_valid_tree_runs(v: EncoderView, tree: Tree, name: Option<Seq<u8>>)
    requires
        encoder::placement_error(v, name) is None,
        model::valid(tree, v.open.len()),
    ensures
        encoder::run(v, model::events(tree, name)) == (Run {
            bytes: encoder::opening(name) + model::node(tree) + entry_end(name is Some),
            end: Ok(encoder::ended(encoder::started(v, name), name is Some)),
        }),
    decreases tree, 0nat,
{
    let named = name is Some;
    match tree {
        Tree::Regular { executable, contents } => {
            lemma_leaf(
                v,
                model::regular_event(name, executable, contents),
                name,
                model::regular_head(executable) + model::token(contents),
            );
        },
        Tree::Symlink { target } => {
            lemma_leaf(
                v,
                EventView::Symlink { name, target },
                name,
                model::node_head("symlink") + model::word("target") + model::token(target),
            );
        },
        Tree::Directory(children) => {
            let start = seq![EventView::DirectoryStart { name }];
            let end = seq![EventView::DirectoryEnd { name }];
            let inside = model::child_events(children);
            let s = encoder::started(v, name);
            let v1 = EncoderView { open: s.open.push(None), ..s };
            encoder::lemma_run_one(v, start[0]);
            encoder::lemma_run_concat(v, start + inside, end);
            encoder::lemma_run_concat(v, start, inside);
            assert(v1.open.len() == v.open.len() + 1);
            lemma_valid_children_run(v1, children);
            let v2 = behind(v1, children);
            encoder::lemma_run_one(v2, end[0]);
            assert(v2.open.drop_last() =~= s.open);
            let opened = encoder::opening(name);
            let head = model::node_head("directory");
            let body = model::entries(children);
            assert(opened + head + body + encoder::closing(named) =~= opened + (head + body
                + model::word(")")) + entry_end(named));
        },
    }
}

/// Valid entries that may come next in the innermost directory are encoded in
/// full.
pub proof fn lemma_valid_children_run(v: EncoderView, children: Seq<(Seq<u8>, Tree)>)
    requires
        encoder::usage_error(v) is None,
        v.open.len() > 0,
        model::valid_children(children, v.open.last(), v.open.len()),
    ensures
        encoder::run(v, model::child_events(children)) == (Run {
            bytes: model::entries(children),
            end: Ok(behind(v, children)),
        }),
    decreases children, 1nat,
{
    if children.len() > 0 {
        let name = children[0].0;
        let tree = children[0].1;
        let more = children.skip(1);
        let v1 = encoder::started(v, Some(name));
        assert(model::valid(tree, v.open.len()));
        lemma_valid_tree_runs(v, tree, Some(name));
        encoder::lemma_run_concat(v, model::events(tree, Some(name)), model::child_events(more));
        lemma_valid_children_run(v1, more);
        assert(model::entry_head(name) + model::node(tree) + model::word(")") + model::entries(more)
            =~= model::entries(children));
        if more.len() > 0 {
            assert(more.last() == children.last());
            assert(behind(v1, more).open =~= behind(v, children).open);
        }
    }
}

/// A tree that is encoded in full is valid and stands where it may.
pub proof fn lemma_tree_that_runs_is_valid(v: EncoderView, tree: Tree, name: Option<Seq<u8>>)
    requires
        model::sized(tree),
        encoder::run(v, model::events(tree, name)).end is Ok,
        v.open.len() <= MAX_DEPTH,
    ensures
        encoder::placement_error(v, name) is None,
        model::valid(tree, v.open.len()),
    decreases tree, 0nat,
{
    let walk = model::events(tree, name);
    match tree {
        Tree::Regular { executable, contents } => {
            encoder::lemma_run_one(v, walk[0]);
        },
        Tree::Symlink { target } => {
            encoder::lemma_run_one(v, walk[0]);
        },
        Tree::Directory(children) => {
            let start = seq![EventView::DirectoryStart { name }];
            let end = seq![EventView::DirectoryEnd { name }];
            let inside = model::child_events(children);
            let s = encoder::started(v, name);
            let v1 = EncoderView { open: s.open.push(None), ..s };
            encoder::lemma_run_one(v, start[0]);
            encoder::lemma_run_concat(v, start + inside, end);
            encoder::lemma_run_concat(v, start, inside);
            assert(v1.open.len() == v.open.len() + 1);
            lemma_children_that_run_are_valid(v1, children);
        },
    }
}

proof fn lemma_children_that_run_are_valid(v: EncoderView, children: Seq<(Seq<u8>, Tree)>)
    requires
        model::sized_children(children),
        encoder::run(v, model::child_events(children)).end is Ok,
        0 < v.open.len() <= MAX_DEPTH,
    ensures
        model::valid_children(children, v.open.last(), v.open.len()),
    decreases children, 1nat,
{
    if children.len() > 0 {
        let name = children[0].0;
        let tree = children[0].1;
        let more = children.skip(1);
        let v1 = encoder::started(v, Some(name));
        encoder::lemma_run_concat(v, model::events(tree, Some(name)), model::child_events(more));
        lemma_tree_that_runs_is_valid(v, tree, Some(name));
        lemma_valid_tree_runs(v, tree, Some(name));
        lemma_children_that_run_are_valid(v1, more);
    }
}

/// An encoder takes the walk over a tree to its end exactly where the tree is
/// valid, and what it has written then, behind the magic, is the archive of the
/// tree.
///
/// A tree here is one whose parts fit in tokens, as all that is in memory does.
pub proof fn law_encoder_accepts_valid_trees(tree: Tree)
    requires
        model::sized(tree),
    ensures
        ({
            let run = encoder::run(encoder::fresh(), model::events(tree, None));
            &&& run.end is Ok <==> model::valid(tree, 0)
            &&& run.end matches Ok(v) ==> {
                &&& encoder::finish_error(v) is None
                &&& model::token(model::magic()) + run.bytes == model::archive(tree)
            }
        }),
{
    let v = encoder::fresh();
    let run = encoder::run(v, model::events(tree, None));
    if run.end is Ok {
        lemma_tree_that_runs_is_valid(v, tree, None);
    }
    if model::valid(tree, 0) {
        lemma_valid_tree_runs(v, tree, None);
        assert(run.bytes =~= model::node(tree));
    }
}

// ---------------------------------------------------------------------------
// Whatever is finished is an archive
// ---------------------------------------------------------------------------

/// An event that an encoder can be given: of a file that is there in full, and
/// in parts that fit in tokens.
pub open spec fn proper(event: EventView) -> bool {
    match event {
        EventView::DirectoryStart { name } => name matches Some(n) ==> model::fits(n),
        EventView::DirectoryEnd { .. } => true,
        EventView::Regular { name, size, contents, .. } => {
            &&& name matches Some(n) ==> model::fits(n)
            &&& size == contents.len()
            &&& model::fits(contents)
        },
        EventView::Symlink { name, target } => {
            &&& name matches Some(n) ==> model::fits(n)
            &&& model::fits(target)
        },
    }
}

/// An event without what an encoder is not told: which directory ends.
pub open spec fn told(event: EventView) -> EventView {
    match event {
        EventView::DirectoryEnd { .. } => EventView::DirectoryEnd { name: None },
        _ => event,
    }
}

/// Events without what an encoder is not told.
pub open spec fn all_told(events: Seq<EventView>) -> Seq<EventView> {
    events.map_values(|e: EventView| told(e))
}

/// An encoder goes by what it is told.
pub proof fn lemma_run_told(v: EncoderView, a: Seq<EventView>, b: Seq<EventView>)
    requires
        all_told(a) == all_told(b),
    ensures
        encoder::run(v, a) == encoder::run(v, b),
    decreases a.len(),
{
    assert(all_told(a).len() == a.len() && all_told(b).len() == b.len());
    if a.len() > 0 {
        assert(all_told(a)[0] == told(a[0]));
        assert(all_told(b)[0] == told(b[0]));
        assert(all_told(a.skip(1)) =~= all_told(a).skip(1));
        assert(all_told(b.skip(1)) =~= all_told(b).skip(1));
        if let Ok((next, _)) = encoder::step(v, a[0]) {
            lemma_run_told(next, a.skip(1), b.skip(1));
        }
    }
}

/// The first part of a run that ends well ends well, and the rest goes on from
/// there.
proof fn lemma_run_split(v: EncoderView, events: Seq<EventView>, k: int)
    requires
        0 <= k <= events.len(),
        encoder::run(v, events).end is Ok,
    ensures
        encoder::run(v, events.take(k)).end is Ok,
        encoder::run(encoder::run(v, events.take(k)).end->Ok_0, events.skip(k)).end
            == encoder::run(v, events).end,
{
    assert(events =~= events.take(k) + events.skip(k));
    encoder::lemma_run_concat(v, events.take(k), events.skip(k));
}

/// A run that leaves the innermost directory of `v` starts with the walks over
/// the rest of that directory and its end.
proof fn lemma_run_that_leaves(v: EncoderView, events: Seq<EventView>) -> (r: (
    Seq<(Seq<u8>, Tree)>,
    int,
))
    requires
        0 < v.open.len() <= MAX_DEPTH,
        forall|i: int| 0 <= i < events.len() ==> proper(#[trigger] events[i]),
        encoder::run(v, events).end matches Ok(w) && w.open.len() < v.open.len(),
    ensures
        0 < r.1 <= events.len(),
        model::sized_children(r.0),
        all_told(events.take(r.1)) == all_told(
            model::child_events(r.0).push(EventView::DirectoryEnd { name: None }),
        ),
    decreases events.len(),
{
    let end = EventView::DirectoryEnd { name: None };
    let rest = events.skip(1);
    let (v1, _) = encoder::step(v, events[0])->Ok_0;
    lemma_run_split(v, events, 1);
    assert(events.take(1) =~= seq![events[0]]);
    encoder::lemma_run_one(v, events[0]);
    match events[0] {
        EventView::DirectoryEnd { .. } => {
            let none: Seq<(Seq<u8>, Tree)> = Seq::empty();
            assert(all_told(events.take(1)) =~= all_told(model::child_events(none).push(end)));
            (none, 1)
        },
        EventView::DirectoryStart { name } => {
            let (inside, k) = lemma_run_that_leaves(v1, rest);
            let walk = model::child_events(inside).push(end);
            lemma_run_split(v1, rest, k);
            lemma_run_told(v1, rest.take(k), walk);
            lemma_run_split(v1, walk, walk.len() - 1);
            assert(walk.take(walk.len() - 1) =~= model::child_events(inside));
            lemma_children_that_run_are_valid(v1, inside);
            lemma_valid_children_run(v1, inside);
            assert(walk.skip(walk.len() - 1) =~= seq![end]);
            encoder::lemma_run_one(behind(v1, inside), end);
            let v2 = encoder::run(v1, rest.take(k)).end->Ok_0;
            assert(v2.open.len() == v.open.len());
            let (more, m) = lemma_run_that_leaves(v2, rest.skip(k));
            let child = (name->0, Tree::Directory(inside));
            let ended = model::child_events(inside).push(EventView::DirectoryEnd { name });
            assert(model::events(child.1, name) =~= seq![events[0]] + ended);
            assert(events.take(1 + k) =~= seq![events[0]] + rest.take(k));
            assert(all_told(ended) =~= all_told(walk));
            lemma_told_concat(seq![events[0]], ended);
            lemma_told_concat(seq![events[0]], rest.take(k));
            assert(events.skip(1 + k) =~= rest.skip(k));
            lemma_walk_joined(events, child, more, 1 + k, m);
            (seq![child] + more, 1 + k + m)
        },
        EventView::Regular { name, executable, contents, .. } => {
            let (more, m) = lemma_run_that_leaves(v1, rest);
            let child = (name->0, Tree::Regular { executable, contents });
            lemma_walk_joined(events, child, more, 1, m);
            (seq![child] + more, 1 + m)
        },
        EventView::Symlink { name, target } => {
            let (more, m) = lemma_run_that_leaves(v1, rest);
            let child = (name->0, Tree::Symlink { target });
            lemma_walk_joined(events, child, more, 1, m);
            (seq![child] + more, 1 + m)
        },
    }
}

/// The walk over an entry and those over the entries behind it, in one.
proof fn lemma_walk_joined(
    events: Seq<EventView>,
    child: (Seq<u8>, Tree),
    more: Seq<(Seq<u8>, Tree)>,
    k: int,
    m: int,
)
    requires
        0 <= k,
        0 <= m,
        k + m <= events.len(),
        model::fits(child.0),
        model::sized(child.1),
        model::sized_children(more),
        all_told(events.take(k)) == all_told(model::events(child.1, Some(child.0))),
        all_told(events.skip(k).take(m)) == all_told(
            model::child_events(more).push(EventView::DirectoryEnd { name: None }),
        ),
    ensures
        model::sized_children(seq![child] + more),
        all_told(events.take(k + m)) == all_told(
            model::child_events(seq![child] + more).push(EventView::DirectoryEnd { name: None }),
        ),
{
    let children = seq![child] + more;
    let end = EventView::DirectoryEnd { name: None };
    assert(children.skip(1) =~= more);
    let first = model::events(child.1, Some(child.0));
    let second = model::child_events(more).push(end);
    assert(model::child_events(children).push(end) =~= first + second);
    assert(events.take(k + m) =~= events.take(k) + events.skip(k).take(m));
    lemma_told_concat(events.take(k), events.skip(k).take(m));
    lemma_told_concat(first, second);
}

proof fn lemma_told_concat(a: Seq<EventView>, b: Seq<EventView>)
    ensures
        all_told(a + b) == all_told(a) + all_told(b),
{
    assert(all_told(a + b) =~= all_told(a) + all_told(b));
}

/// Whatever an encoder finishes is the archive of a valid tree, and the events
/// that it was given were the walk over that tree.
pub proof fn law_finished_archives_are_valid(events: Seq<EventView>) -> (tree: Tree)
    requires
        forall|i: int| 0 <= i < events.len() ==> proper(#[trigger] events[i]),
        encoder::run(encoder::fresh(), events).end matches Ok(v) && encoder::finish_error(
            v,
        ) is None,
    ensures
        model::valid(tree, 0),
        all_told(events) == all_told(model::events(tree, None)),
        model::token(model::magic()) + encoder::run(encoder::fresh(), events).bytes
            == model::archive(tree),
{
    let v = encoder::fresh();
    let rest = events.skip(1);
    let (v1, _) = encoder::step(v, events[0])->Ok_0;
    lemma_run_split(v, events, 1);
    assert(events.take(1) =~= seq![events[0]]);
    encoder::lemma_run_one(v, events[0]);
    let tree = match events[0] {
        EventView::DirectoryStart { name } => {
            let (inside, k) = lemma_run_that_leaves(v1, rest);
            let end = EventView::DirectoryEnd { name: None };
            let walk = model::child_events(inside).push(end);
            lemma_run_split(v1, rest, k);
            lemma_run_told(v1, rest.take(k), walk);
            lemma_run_split(v1, walk, walk.len() - 1);
            assert(walk.take(walk.len() - 1) =~= model::child_events(inside));
            lemma_children_that_run_are_valid(v1, inside);
            lemma_valid_children_run(v1, inside);
            assert(walk.skip(walk.len() - 1) =~= seq![end]);
            encoder::lemma_run_one(behind(v1, inside), end);
            assert(rest.skip(k).len() == 0);
            assert(rest.take(k) =~= rest);
            let tree = Tree::Directory(inside);
            assert(model::events(tree, None) =~= seq![events[0]] + walk);
            assert(events =~= seq![events[0]] + rest);
            lemma_told_concat(seq![events[0]], rest);
            lemma_told_concat(seq![events[0]], walk);
            tree
        },
        EventView::Regular { executable, contents, .. } => {
            assert(rest.len() == 0);
            assert(events =~= seq![events[0]]);
            Tree::Regular { executable, contents }
        },
        EventView::Symlink { target, .. } => {
            assert(rest.len() == 0);
            assert(events =~= seq![events[0]]);
            Tree::Symlink { target }
        },
        EventView::DirectoryEnd { .. } => Tree::Symlink { target: Seq::empty() },
    };
    lemma_run_told(v, events, model::events(tree, None));
    law_encoder_accepts_valid_trees(tree);
    tree
}

// ---------------------------------------------------------------------------
// Events that are missing, and events that are refused
// ---------------------------------------------------------------------------

/// No event poisons an encoder.
proof fn lemma_run_unpoisoned(v: EncoderView, events: Seq<EventView>)
    requires
        !v.poisoned,
    ensures
        encoder::run(v, events).end matches Ok(w) ==> !w.poisoned,
    decreases events.len(),
{
    if events.len() > 0 {
        if let Ok((next, _)) = encoder::step(v, events[0]) {
            lemma_run_unpoisoned(next, events.skip(1));
        }
    }
}

/// An archive is complete with the last event of its walk and not before: an
/// encoder that was given only the first `k` of them has taken each, has written
/// a first part of the archive, and cannot be finished.
pub proof fn law_no_event_can_be_missing(tree: Tree, k: int)
    requires
        model::valid(tree, 0),
        0 <= k < model::events(tree, None).len(),
    ensures
        ({
            let run = encoder::run(encoder::fresh(), model::events(tree, None).take(k));
            let written = model::token(model::magic()) + run.bytes;
            &&& run.end matches Ok(v) && encoder::finish_error(v) == Some(
                ErrorView::UnfinishedArchive,
            )
            &&& written.len() <= model::archive(tree).len()
            &&& written == model::archive(tree).take(written.len() as int)
        }),
{
    let v = encoder::fresh();
    let events = model::events(tree, None);
    lemma_valid_tree_runs(v, tree, None);
    lemma_run_split(v, events, k);
    let first = encoder::run(v, events.take(k));
    let w = first.end->Ok_0;
    lemma_run_unpoisoned(v, events.take(k));
    assert(events.skip(k)[0] == events[k]);
    assert(encoder::step(w, events[k]) is Ok);
    assert(events =~= events.take(k) + events.skip(k));
    encoder::lemma_run_concat(v, events.take(k), events.skip(k));
    let rest = encoder::run(w, events.skip(k)).bytes;
    let magic = model::token(model::magic());
    assert(Seq::<u8>::empty() + model::node(tree) + Seq::<u8>::empty() =~= model::node(tree));
    assert(model::archive(tree) =~= magic + first.bytes + rest);
    assert(model::archive(tree).take((magic + first.bytes).len() as int) =~= magic + first.bytes);
}

/// What comes of events that are all offered, whether or not an earlier one was
/// refused: the state and the bytes written.
pub open spec fn offered(v: EncoderView, events: Seq<EventView>) -> (EncoderView, Seq<u8>)
    decreases events.len(),
{
    if events.len() == 0 {
        (v, Seq::empty())
    } else {
        match encoder::step(v, events[0]) {
            Err(_) => offered(v, events.skip(1)),
            Ok((next, bytes)) => {
                let (last, more) = offered(next, events.skip(1));
                (last, bytes + more)
            },
        }
    }
}

/// Those of the events offered that are taken.
pub open spec fn taken(v: EncoderView, events: Seq<EventView>) -> Seq<EventView>
    decreases events.len(),
{
    if events.len() == 0 {
        Seq::empty()
    } else {
        match encoder::step(v, events[0]) {
            Err(_) => taken(v, events.skip(1)),
            Ok((next, _)) => seq![events[0]] + taken(next, events.skip(1)),
        }
    }
}

/// Refused events leave no trace: an encoder goes on as if it had been given
/// only the events that it took.
pub proof fn law_refused_events_leave_no_trace(v: EncoderView, events: Seq<EventView>)
    ensures
        ({
            let run = encoder::run(v, taken(v, events));
            run.end == Ok::<_, ErrorView>(offered(v, events).0) && run.bytes == offered(
                v,
                events,
            ).1
        }),
    decreases events.len(),
{
    if events.len() > 0 {
        let rest = events.skip(1);
        match encoder::step(v, events[0]) {
            Err(_) => law_refused_events_leave_no_trace(v, rest),
            Ok((next, _)) => {
                law_refused_events_leave_no_trace(next, rest);
                assert(taken(v, events).skip(1) =~= taken(next, rest));
            },
        }
    }
}

/// A refused event may be left out, wherever it stands, and a file that cannot
/// be started in pieces is refused as a whole with the same error.
pub proof fn law_refused_event_may_be_left_out(
    v: EncoderView,
    before: Seq<EventView>,
    event: EventView,
    after: Seq<EventView>,
)
    requires
        encoder::step(offered(v, before).0, event) is Err,
    ensures
        offered(v, before + seq![event] + after) == offered(v, before + after),
        event matches EventView::Regular { name, executable, size, .. } ==> encoder::file_started(
            offered(v, before).0,
            name,
            executable,
            size,
        ) == encoder::step(offered(v, before).0, event),
    decreases before.len(),
{
    let long = before + seq![event] + after;
    let short = before + after;
    if before.len() == 0 {
        assert(long.skip(1) =~= after);
        assert(short =~= after);
        assert(long[0] == event);
    } else {
        let rest = before.skip(1);
        assert(long.skip(1) =~= rest + seq![event] + after);
        assert(short.skip(1) =~= rest + after);
        match encoder::step(v, before[0]) {
            Err(_) => law_refused_event_may_be_left_out(v, rest, event, after),
            Ok((next, _)) => law_refused_event_may_be_left_out(next, rest, event, after),
        }
    }
}

}
