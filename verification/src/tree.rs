//! Encoding and hashing of borrowed trees.

use vstd::prelude::*;

use crate::encoder;
use crate::encoder::{BorrowedNames, EncoderCore, EncoderView, Run};
use crate::hash::{HashSink, NarHash};
use crate::io;
use crate::io::ByteSink;
use crate::model;
use crate::model::{EventView, Tree, MAX_DEPTH};
use crate::names;
use crate::nar::{Error, ErrorView};
use crate::runs;
use crate::wire;
use crate::wire::write_token;

verus! {

/// One borrowed node for allocation-free NAR encoding.
#[derive(Clone, Copy, Debug, PartialEq, Eq)]
pub enum Node<'a> {
    Regular { executable: bool, contents: &'a [u8] },
    Symlink { target: &'a [u8] },
    /// Children must be in strictly ascending byte order by name.
    Directory(&'a [NamedNode<'a>]),
}

/// A named child in a borrowed [`Node::Directory`].
#[derive(Clone, Copy, Debug, PartialEq, Eq)]
pub struct NamedNode<'a> {
    pub name: &'a [u8],
    pub node: Node<'a>,
}

impl<'a> Node<'a> {
    /// The tree that the node stands for, down to `height` levels of
    /// directories below it.
    pub open spec fn tree(self, height: nat) -> Tree
        decreases height,
    {
        match self {
            Node::Regular { executable, contents } => Tree::Regular {
                executable,
                contents: contents@,
            },
            Node::Symlink { target } => Tree::Symlink { target: target@ },
            Node::Directory(children) => Tree::Directory(
                if height == 0 {
                    Seq::empty()
                } else {
                    Seq::new(
                        children@.len(),
                        |i: int|
                            (children@[i].name@, children@[i].node.tree((height - 1) as nat)),
                    )
                },
            ),
        }
    }
}

/// The tree that the node stands for. What is in a directory too deep for an
/// archive is left out, since no encoder gets that far.
impl<'a> View for Node<'a> {
    type V = Tree;

    open spec fn view(&self) -> Tree {
        self.tree(MAX_DEPTH as nat)
    }
}

// ---------------------------------------------------------------------------
// What encoding a tree comes to
// ---------------------------------------------------------------------------

/// An encoder has gone through a run: to its end, or until the sink failed.
pub open spec fn ran(
    run: Run,
    after: EncoderView,
    sent: Seq<u8>,
    now: Seq<u8>,
    failure: Option<ErrorView>,
) -> bool {
    match failure {
        None => run.end == Ok::<_, ErrorView>(after) && now == sent + run.bytes,
        Some(e) => if e is Io {
            after.poisoned && io::extended_by_prefix(sent, now, run.bytes)
        } else {
            run.end == Err::<EncoderView, _>(e) && now == sent + run.bytes
        },
    }
}

/// The run of an encoder over a whole tree.
pub open spec fn tree_run(tree: Tree) -> Run {
    encoder::run(encoder::fresh(), model::events(tree, None))
}

/// No step of an encoder is refused with a failure of the sink.
proof fn lemma_run_refusals(v: EncoderView, events: Seq<EventView>)
    ensures
        encoder::run(v, events).end matches Err(e) ==> !(e is Io),
    decreases events.len(),
{
    if events.len() > 0 {
        if let Ok((next, _)) = encoder::step(v, events[0]) {
            lemma_run_refusals(next, events.skip(1));
        }
    }
}

/// One step is a run of one event.
proof fn lemma_ran_one(
    v: EncoderView,
    event: EventView,
    after: EncoderView,
    sent: Seq<u8>,
    now: Seq<u8>,
    failure: Option<ErrorView>,
)
    requires
        encoder::stepped(encoder::step(v, event), v, after, sent, now, failure),
    ensures
        ran(encoder::run(v, seq![event]), after, sent, now, failure),
        failure is None ==> encoder::step(v, event) is Ok,
{
    encoder::lemma_run_one(v, event);
    lemma_run_refusals(v, seq![event]);
    assert(sent + Seq::<u8>::empty() =~= sent);
}

/// What stops a run stops any run that starts with it.
proof fn lemma_ran_short(
    v: EncoderView,
    a: Seq<EventView>,
    b: Seq<EventView>,
    after: EncoderView,
    sent: Seq<u8>,
    now: Seq<u8>,
    e: ErrorView,
)
    requires
        ran(encoder::run(v, a), after, sent, now, Some(e)),
    ensures
        ran(encoder::run(v, a + b), after, sent, now, Some(e)),
{
    encoder::lemma_run_concat(v, a, b);
    if e is Io {
        if let Ok(v1) = encoder::run(v, a).end {
            io::lemma_cut_short(
                sent,
                now,
                encoder::run(v, a).bytes,
                encoder::run(v1, b).bytes,
            );
        }
    }
}

/// A run goes on from where another ended.
proof fn lemma_ran_on(
    v: EncoderView,
    a: Seq<EventView>,
    v1: EncoderView,
    b: Seq<EventView>,
    after: EncoderView,
    sent: Seq<u8>,
    now: Seq<u8>,
    failure: Option<ErrorView>,
)
    requires
        encoder::run(v, a).end == Ok::<_, ErrorView>(v1),
        ran(encoder::run(v1, b), after, sent + encoder::run(v, a).bytes, now, failure),
    ensures
        ran(encoder::run(v, a + b), after, sent, now, failure),
{
    encoder::lemma_run_concat(v, a, b);
    let first = encoder::run(v, a).bytes;
    let second = encoder::run(v1, b).bytes;
    assert(sent + first + second =~= sent + (first + second));
    if failure matches Some(e) && e is Io {
        io::lemma_cut_short_behind(sent, first, now, second);
    }
}

// ---------------------------------------------------------------------------
// Encoding
// ---------------------------------------------------------------------------

fn encode_tree_node<'tree, W: ByteSink>(
    core: &mut EncoderCore<BorrowedNames<'tree>>,
    w: &mut W,
    name: Option<&'tree [u8]>,
    node: &Node<'tree>,
) -> (r: Result<(), Error>)
    requires
        old(core).wf(),
        old(w).sound(),
    ensures
        final(core).wf(),
        wire::unharmed(*old(w), *final(w)),
        wire::reported(*final(w), wire::error_of(r)),
        ran(
            encoder::run(
                old(core)@,
                model::events(
                    node.tree((MAX_DEPTH - old(core)@.open.len()) as nat),
                    names::optional(name),
                ),
            ),
            final(core)@,
            old(w).written(),
            final(w).written(),
            wire::error_of(r),
        ),
        old(w).reliable() ==> !(wire::error_of(r) matches Some(e) && e is Io),
        r is Ok ==> final(core)@.open.len() == old(core)@.open.len(),
    decreases MAX_DEPTH - old(core)@.open.len(), 1nat,
{
    let ghost v = core@;
    let ghost label = names::optional(name);
    let ghost height = (MAX_DEPTH - v.open.len()) as nat;
    let ghost walk = model::events(node.tree(height), label);
    let ghost before = w.written();
    match node {
        Node::Regular { executable, contents } => {
            let r = core.regular(w, name, *executable, contents);
            proof {
                assert(walk =~= seq![walk[0]]);
                lemma_ran_one(v, walk[0], core@, before, w.written(), wire::error_of(r));
                lemma_run_refusals(v, walk);
            }
            r
        },
        Node::Symlink { target } => {
            let r = core.symlink(w, name, target);
            proof {
                assert(walk =~= seq![walk[0]]);
                lemma_ran_one(v, walk[0], core@, before, w.written(), wire::error_of(r));
                lemma_run_refusals(v, walk);
            }
            r
        },
        Node::Directory(children) => encode_directory(core, w, name, children),
    }
}

fn encode_directory<'tree, W: ByteSink>(
    core: &mut EncoderCore<BorrowedNames<'tree>>,
    w: &mut W,
    name: Option<&'tree [u8]>,
    children: &'tree [NamedNode<'tree>],
) -> (r: Result<(), Error>)
    requires
        old(core).wf(),
        old(w).sound(),
    ensures
        final(core).wf(),
        wire::unharmed(*old(w), *final(w)),
        wire::reported(*final(w), wire::error_of(r)),
        ran(
            encoder::run(
                old(core)@,
                model::events(
                    Node::Directory(children).tree((MAX_DEPTH - old(core)@.open.len()) as nat),
                    names::optional(name),
                ),
            ),
            final(core)@,
            old(w).written(),
            final(w).written(),
            wire::error_of(r),
        ),
        old(w).reliable() ==> !(wire::error_of(r) matches Some(e) && e is Io),
        r is Ok ==> final(core)@.open.len() == old(core)@.open.len(),
    decreases MAX_DEPTH - old(core)@.open.len(), 0nat,
{
    let ghost v = core@;
    let ghost label = names::optional(name);
    let ghost height = (MAX_DEPTH - v.open.len()) as nat;
    let ghost kids = Node::Directory(children).tree(height)->Directory_0;
    let ghost walk = model::events(Node::Directory(children).tree(height), label);
    let ghost start = seq![EventView::DirectoryStart { name: label }];
    let ghost end = seq![EventView::DirectoryEnd { name: label }];
    let ghost before = w.written();
    let started = core.start_directory(w, name);
    proof {
        lemma_ran_one(v, start[0], core@, before, w.written(), wire::error_of(started));
        lemma_run_refusals(v, start);
    }
    match started {
        Ok(()) => {},
        Err(e) => {
            proof {
                assert(walk =~= start + (model::child_events(kids) + end));
                lemma_ran_short(
                    v,
                    start,
                    model::child_events(kids) + end,
                    core@,
                    before,
                    w.written(),
                    e@,
                );
            }
            return Err(e);
        },
    }
    let mut i: usize = 0;
    let ghost mut done = start;
    proof {
        assert(height > 0);
        assert(kids.take(0) =~= Seq::empty());
        assert(start =~= start + model::child_events(kids.take(0)));
    }
    while i < children.len()
        invariant
            i <= children@.len(),
            core.wf(),
            w.sound(),
            wire::unharmed(*old(w), *w),
            before == old(w).written(),
            v == old(core)@,
            height > 0,
            height == MAX_DEPTH - v.open.len(),
            core@.open.len() == v.open.len() + 1,
            kids == Node::Directory(children).tree(height)->Directory_0,
            walk == start + model::child_events(kids) + end,
            walk == model::events(Node::Directory(children).tree(height), label),
            label == names::optional(name),
            done == start + model::child_events(kids.take(i as int)),
            encoder::run(v, done).end == Ok::<_, ErrorView>(core@),
            w.written() == before + encoder::run(v, done).bytes,
        decreases children.len() - i,
    {
        let child = &children[i];
        let ghost v1 = core@;
        let ghost part = model::events(kids[i as int].1, Some(kids[i as int].0));
        proof {
            assert(kids[i as int].1 == child.node.tree((height - 1) as nat));
            model::lemma_child_events_take(kids, i as int);
            assert(start + (model::child_events(kids.take(i as int)) + part) =~= done + part);
        }
        let r = encode_tree_node(core, w, Some(child.name), &child.node);
        proof {
            lemma_ran_on(
                v,
                done,
                v1,
                part,
                core@,
                before,
                w.written(),
                wire::error_of(r),
            );
        }
        match r {
            Ok(()) => {},
            Err(e) => {
                proof {
                    let rest = walk.skip((done + part).len() as int);
                    lemma_children_walk(kids, i + 1);
                    assert(walk =~= done + part + rest);
                    lemma_ran_short(v, done + part, rest, core@, before, w.written(), e@);
                }
                return Err(e);
            },
        }
        proof {
            done = done + part;
        }
        i = i + 1;
    }
    let ghost v1 = core@;
    let r = core.end_directory(w);
    proof {
        assert(kids.take(i as int) =~= kids);
        assert(walk =~= done + end);
        lemma_ran_one(
            v1,
            end[0],
            core@,
            before + encoder::run(v, done).bytes,
            w.written(),
            wire::error_of(r),
        );
        lemma_run_refusals(v1, end);
        lemma_ran_on(v, done, v1, end, core@, before, w.written(), wire::error_of(r));
    }
    r
}

/// The walks over the first entries come first.
proof fn lemma_children_walk(children: Seq<(Seq<u8>, Tree)>, n: int)
    requires
        0 <= n <= children.len(),
    ensures
        model::child_events(children.take(n)).len() <= model::child_events(children).len(),
        model::child_events(children).take(model::child_events(children.take(n)).len() as int)
            == model::child_events(children.take(n)),
    decreases children.len() - n,
{
    let front = model::child_events(children.take(n));
    if n == children.len() {
        assert(children.take(n) =~= children);
        assert(front.take(front.len() as int) =~= front);
    } else {
        lemma_children_walk(children, n + 1);
        model::lemma_child_events_take(children, n);
        let longer = model::child_events(children.take(n + 1));
        assert(model::child_events(children).take(front.len() as int) =~= model::child_events(
            children,
        ).take(longer.len() as int).take(front.len() as int));
        assert(longer.take(front.len() as int) =~= front);
    }
}

/// What is in memory fits in tokens.
pub proof fn lemma_sized(node: Node<'_>, height: nat)
    ensures
        model::sized(node.tree(height)),
    decreases height, 0int,
{
    match node {
        Node::Regular { contents, .. } => {
            assert(contents.len() == contents@.len());
        },
        Node::Symlink { target } => {
            assert(target.len() == target@.len());
        },
        Node::Directory(_) => {
            if height > 0 {
                let kids = node.tree(height)->Directory_0;
                lemma_sized_children(node, height, 0);
                assert(kids.skip(0) =~= kids);
            }
        },
    }
}

proof fn lemma_sized_children(node: Node<'_>, height: nat, i: int)
    requires
        node is Directory,
        height > 0,
        0 <= i <= node->Directory_0@.len(),
    ensures
        model::sized_children(node.tree(height)->Directory_0.skip(i)),
    decreases height - 1, node->Directory_0@.len() - i + 1,
{
    let children = node->Directory_0;
    let kids = node.tree(height)->Directory_0;
    if i < children@.len() {
        lemma_sized(children@[i].node, (height - 1) as nat);
        lemma_sized_children(node, height, i + 1);
        assert(kids.skip(i).skip(1) =~= kids.skip(i + 1));
        assert(children@[i].name.len() == children@[i].name@.len());
    }
}

/// Serialize an already-sorted borrowed tree without allocating.
///
/// Allocation freedom assumes that `w` itself does not allocate. Names are
/// validated and directory order is checked while the tree is written.
pub fn encode_tree<'tree, W: ByteSink>(w: &mut W, tree: &Node<'tree>) -> (r: Result<(), Error>)
    requires
        old(w).sound(),
    ensures
        wire::unharmed(*old(w), *final(w)),
        wire::reported(*final(w), wire::error_of(r)),
        match r {
            Ok(()) => model::valid(tree@, 0) && final(w).written() == old(w).written()
                + model::archive(tree@),
            Err(e) => if e@ is Io {
                &&& !old(w).reliable()
                &&& io::extended_by_prefix(
                    old(w).written(),
                    final(w).written(),
                    model::token(model::magic()) + tree_run(tree@).bytes,
                )
            } else {
                &&& tree_run(tree@).end == Err::<EncoderView, _>(e@)
                &&& final(w).written() == old(w).written() + model::token(model::magic())
                    + tree_run(tree@).bytes
            },
        },
        old(w).reliable() ==> (r is Ok <==> model::valid(tree@, 0)),
{
    let ghost before = w.written();
    let ghost magic = model::token(model::magic());
    let ghost run = tree_run(tree@);
    proof {
        lemma_sized(*tree, MAX_DEPTH as nat);
        runs::law_encoder_accepts_valid_trees(tree@);
    }
    match write_token(w, "nix-archive-1".as_bytes()) {
        Ok(()) => {},
        Err(e) => {
            proof {
                io::lemma_cut_short(before, w.written(), magic, run.bytes);
            }
            return Err(Error::Io(e));
        },
    }
    let mut core = EncoderCore::new(BorrowedNames::new());
    let r = encode_tree_node(&mut core, w, None, tree);
    proof {
        assert(before + magic + run.bytes =~= before + (magic + run.bytes));
        if wire::error_of(r) matches Some(e) && e is Io {
            io::lemma_cut_short_behind(before, magic, w.written(), run.bytes);
        }
    }
    r
}

/// NAR size and SHA-256 for [`encode_tree`], without allocation.
pub fn hash_tree(tree: &Node<'_>) -> (r: Result<NarHash, Error>)
    ensures
        match r {
            Ok(hash) => model::valid(tree@, 0) && hash.describes(model::archive(tree@)),
            Err(e) => !model::valid(tree@, 0) && tree_run(tree@).end == Err::<EncoderView, _>(e@),
        },
{
    let mut sink = HashSink::new();
    encode_tree(&mut sink, tree)?;
    assert(Seq::<u8>::empty() + model::archive(tree@) =~= model::archive(tree@));
    Ok(sink.finish())
}

/// Serialize a single regular file from in-memory bytes as a complete NAR.
pub fn encode_regular<W: ByteSink>(w: &mut W, contents: &[u8], executable: bool) -> (r: Result<
    (),
    Error,
>)
    requires
        old(w).sound(),
    ensures
        wire::unharmed(*old(w), *final(w)),
        wire::reported(*final(w), wire::error_of(r)),
        old(w).reliable() ==> r is Ok,
        ({
            let archive = model::archive(Tree::Regular { executable, contents: contents@ });
            match r {
                Ok(()) => final(w).written() == old(w).written() + archive,
                Err(e) => e@ is Io && io::extended_by_prefix(
                    old(w).written(),
                    final(w).written(),
                    archive,
                ),
            }
        }),
{
    let tree = Node::Regular { executable, contents };
    proof {
        lemma_regular_valid(tree);
        runs::law_encoder_accepts_valid_trees(tree@);
    }
    encode_tree(w, &tree)
}

/// NAR size and SHA-256 for [`encode_regular`].
pub fn hash_regular(contents: &[u8], executable: bool) -> (r: NarHash)
    ensures
        r.describes(model::archive(Tree::Regular { executable, contents: contents@ })),
{
    let tree = Node::Regular { executable, contents };
    let mut sink = HashSink::new();
    proof {
        lemma_regular_valid(tree);
    }
    let encoded = encode_tree(&mut sink, &tree);
    assert(encoded is Ok);
    assert(Seq::<u8>::empty() + model::archive(tree@) =~= model::archive(tree@));
    sink.finish()
}

proof fn lemma_regular_valid(node: Node<'_>)
    requires
        node is Regular,
    ensures
        model::valid(node@, 0),
        model::sized(node@),
{
    lemma_sized(node, MAX_DEPTH as nat);
}

}
