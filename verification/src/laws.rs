//! What holds of the format and of the decoders as a whole.

use vstd::prelude::*;

use crate::encoder;
use crate::encoder::{EncoderView, RootState};
use crate::entries;
use crate::entries::EntryView;
use crate::grammar;
use crate::grammar::{Mode, Parse};
use crate::model;
use crate::model::{EventView, Tree};
use crate::nar::ErrorView;
use crate::refscan;
use crate::refscan::ReferenceScanner;
use crate::roundtrip;

verus! {

// ---------------------------------------------------------------------------
// The shape of an archive
// ---------------------------------------------------------------------------

#[verifier::opaque]
spec fn aligned(s: Seq<u8>) -> bool {
    s.len() % 8 == 0
}

proof fn lemma_token_aligned(bytes: Seq<u8>)
    ensures
        aligned(model::token(bytes)),
{
    let n = bytes.len();
    let p = model::padding(n);
    assert(model::token(bytes).len() == 8 + n + p) by {
        reveal(model::token);
        assert(model::le64(n).len() == 8);
    }
    lemma_padding_aligns(n);
    reveal(aligned);
}

proof fn lemma_padding_aligns(n: nat)
    ensures
        (8 + n + model::padding(n)) % 8 == 0,
{
    let q = n / 8;
    let r = n % 8;
    assert(n == 8 * q + r);
    if r == 0 {
        assert(model::padding(n) == 0);
    } else {
        assert(model::padding(n) == 8 - r);
        assert(8 + n + model::padding(n) == 8 * (q + 2));
    }
}

proof fn lemma_aligned(a: Seq<u8>, b: Seq<u8>)
    requires
        aligned(a),
        aligned(b),
    ensures
        aligned(a + b),
{
    reveal(aligned);
}

proof fn lemma_head_aligned(kind: &str)
    ensures
        aligned(model::node_head(kind)),
{
    lemma_token_aligned(model::text("("));
    lemma_token_aligned(model::text("type"));
    lemma_token_aligned(model::text(kind));
    lemma_aligned(model::word("("), model::word("type"));
    lemma_aligned(model::word("(") + model::word("type"), model::word(kind));
}

proof fn lemma_file_head_aligned(executable: bool)
    ensures
        aligned(model::regular_head(executable)),
{
    let flags = if executable {
        model::word("executable") + model::word("")
    } else {
        Seq::empty()
    };
    lemma_head_aligned("regular");
    lemma_token_aligned(model::text("executable"));
    lemma_token_aligned(model::text(""));
    lemma_token_aligned(model::text("contents"));
    lemma_aligned(model::word("executable"), model::word(""));
    assert(aligned(flags)) by {
        reveal(aligned);
    }
    lemma_aligned(model::node_head("regular"), flags);
    lemma_aligned(model::node_head("regular") + flags, model::word("contents"));
}

proof fn lemma_entry_head_aligned(name: Seq<u8>)
    ensures
        aligned(model::entry_head(name)),
{
    let a = model::word("entry");
    let b = model::word("(");
    let c = model::word("name");
    let d = model::token(name);
    lemma_token_aligned(model::text("entry"));
    lemma_token_aligned(model::text("("));
    lemma_token_aligned(model::text("name"));
    lemma_token_aligned(name);
    lemma_token_aligned(model::text("node"));
    lemma_aligned(a, b);
    lemma_aligned(a + b, c);
    lemma_aligned(a + b + c, d);
    lemma_aligned(a + b + c + d, model::word("node"));
}

proof fn lemma_node_aligned(tree: Tree)
    ensures
        aligned(model::node(tree)),
    decreases tree, 0nat,
{
    lemma_token_aligned(model::text(")"));
    let body = match tree {
        Tree::Regular { executable, contents } => {
            lemma_file_head_aligned(executable);
            lemma_token_aligned(contents);
            lemma_aligned(model::regular_head(executable), model::token(contents));
            model::regular_head(executable) + model::token(contents)
        },
        Tree::Symlink { target } => {
            let head = model::node_head("symlink");
            lemma_head_aligned("symlink");
            lemma_token_aligned(model::text("target"));
            lemma_token_aligned(target);
            lemma_aligned(head, model::word("target"));
            lemma_aligned(head + model::word("target"), model::token(target));
            head + model::word("target") + model::token(target)
        },
        Tree::Directory(children) => {
            lemma_head_aligned("directory");
            lemma_entries_aligned(children);
            lemma_aligned(model::node_head("directory"), model::entries(children));
            model::node_head("directory") + model::entries(children)
        },
    };
    lemma_aligned(body, model::word(")"));
}

proof fn lemma_entries_aligned(children: Seq<(Seq<u8>, Tree)>)
    ensures
        aligned(model::entries(children)),
    decreases children, 1nat,
{
    if children.len() == 0 {
        reveal(aligned);
    } else {
        let head = model::entry_head(children[0].0);
        let node = model::node(children[0].1);
        let end = model::word(")");
        lemma_entry_head_aligned(children[0].0);
        lemma_node_aligned(children[0].1);
        lemma_token_aligned(model::text(")"));
        lemma_entries_aligned(children.skip(1));
        lemma_aligned(head, node);
        lemma_aligned(head + node, end);
        lemma_aligned(head + node + end, model::entries(children.skip(1)));
    }
}

/// The length of every archive is a multiple of eight.
pub proof fn law_archives_are_aligned(tree: Tree)
    ensures
        model::archive(tree).len() % 8 == 0,
{
    lemma_token_aligned(model::magic());
    lemma_node_aligned(tree);
    lemma_aligned(model::token(model::magic()), model::node(tree));
    reveal(aligned);
}

// ---------------------------------------------------------------------------
// One archive, one tree
// ---------------------------------------------------------------------------

proof fn lemma_walk_starts(tree: Tree, name: Option<Seq<u8>>)
    ensures
        model::events(tree, name).len() >= 1,
        match tree {
            Tree::Regular { executable, contents } => model::events(tree, name)
                == seq![model::regular_event(name, executable, contents)],
            Tree::Symlink { target } => model::events(tree, name)
                == seq![EventView::Symlink { name, target }],
            Tree::Directory(_) => model::events(tree, name)[0] == (EventView::DirectoryStart {
                name,
            }),
        },
{
}

proof fn lemma_same_node(a: Tree, b: Tree, after_a: Seq<u8>, after_b: Seq<u8>, depth: nat)
    requires
        model::valid(a, depth),
        model::valid(b, depth),
        model::node(a) + after_a == model::node(b) + after_b,
    ensures
        a == b,
        after_a == after_b,
    decreases a, 0nat,
{
    let name: Option<Seq<u8>> = None;
    roundtrip::lemma_node_parsed(a, name, depth, after_a, Mode::Slice);
    roundtrip::lemma_node_parsed(b, name, depth, after_b, Mode::Slice);
    lemma_walk_starts(a, name);
    lemma_walk_starts(b, name);
    assert(model::events(a, name)[0] == model::events(b, name)[0]);
    if let Tree::Directory(kids_a) = a {
        let kids_b = b->Directory_0;
        let head = model::node_head("directory");
        let rest_a = model::entries(kids_a) + (model::word(")") + after_a);
        let rest_b = model::entries(kids_b) + (model::word(")") + after_b);
        assert(model::node(a) + after_a =~= head + rest_a);
        assert(model::node(b) + after_b =~= head + rest_b);
        assert(rest_a =~= (head + rest_a).skip(head.len() as int));
        assert(rest_b =~= (head + rest_b).skip(head.len() as int));
        lemma_same_entries(kids_a, kids_b, None, after_a, after_b, depth);
    }
}

proof fn lemma_same_entries(
    a: Seq<(Seq<u8>, Tree)>,
    b: Seq<(Seq<u8>, Tree)>,
    previous: Option<Seq<u8>>,
    after_a: Seq<u8>,
    after_b: Seq<u8>,
    depth: nat,
)
    requires
        model::valid_children(a, previous, depth + 1),
        model::valid_children(b, previous, depth + 1),
        model::entries(a) + (model::word(")") + after_a) == model::entries(b) + (model::word(")")
            + after_b),
    ensures
        a == b,
        after_a == after_b,
    decreases a, 1nat,
{
    roundtrip::lemma_entries_parsed(a, previous, depth, after_a, Mode::Slice);
    roundtrip::lemma_entries_parsed(b, previous, depth, after_b, Mode::Slice);
    if a.len() > 0 {
        lemma_walk_starts(a[0].1, Some(a[0].0));
    }
    if b.len() > 0 {
        lemma_walk_starts(b[0].1, Some(b[0].0));
    }
    assert(model::child_events(a).len() == model::child_events(b).len());
    if a.len() == 0 || b.len() == 0 {
        assert(a =~= b);
    } else {
        let more_a = a.skip(1);
        let more_b = b.skip(1);
        let tail_a = model::word(")") + (model::entries(more_a) + (model::word(")") + after_a));
        let tail_b = model::word(")") + (model::entries(more_b) + (model::word(")") + after_b));
        roundtrip::lemma_entry_split(
            a[0].0,
            model::node(a[0].1),
            model::entries(more_a),
            model::word(")") + after_a,
        );
        roundtrip::lemma_entry_split(
            b[0].0,
            model::node(b[0].1),
            model::entries(more_b),
            model::word(")") + after_b,
        );
        lemma_first_event(a, b);
        let name = a[0].0;
        let head = model::entry_head(name);
        let rest_a = model::node(a[0].1) + tail_a;
        let rest_b = model::node(b[0].1) + tail_b;
        let s = model::entries(a) + (model::word(")") + after_a);
        roundtrip::lemma_entry_regrouped(name, rest_a);
        roundtrip::lemma_entry_regrouped(name, rest_b);
        assert(s == head + rest_a);
        assert(s == head + rest_b);
        assert(rest_a =~= s.skip(head.len() as int));
        assert(rest_b =~= s.skip(head.len() as int));
        lemma_same_node(a[0].1, b[0].1, tail_a, tail_b, depth + 1);
        let word = model::word(")");
        let end_a = model::entries(more_a) + (word + after_a);
        let end_b = model::entries(more_b) + (word + after_b);
        assert(end_a =~= tail_a.skip(word.len() as int));
        assert(end_b =~= tail_b.skip(word.len() as int));
        lemma_same_entries(more_a, more_b, Some(name), after_a, after_b, depth);
        assert(a =~= seq![a[0]] + more_a);
        assert(b =~= seq![b[0]] + more_b);
    }
}

/// Walks that are the same start with the same name.
proof fn lemma_first_event(a: Seq<(Seq<u8>, Tree)>, b: Seq<(Seq<u8>, Tree)>)
    requires
        a.len() > 0,
        b.len() > 0,
        model::child_events(a) == model::child_events(b),
    ensures
        a[0].0 == b[0].0,
{
    let walk_a = model::events(a[0].1, Some(a[0].0));
    let walk_b = model::events(b[0].1, Some(b[0].0));
    lemma_walk_starts(a[0].1, Some(a[0].0));
    lemma_walk_starts(b[0].1, Some(b[0].0));
    assert(model::child_events(a)[0] == walk_a[0]);
    assert(model::child_events(b)[0] == walk_b[0]);
}

/// Different trees have different archives.
pub proof fn law_archives_tell_trees_apart(a: Tree, b: Tree)
    requires
        model::valid(a, 0),
        model::valid(b, 0),
        model::archive(a) == model::archive(b),
    ensures
        a == b,
{
    let magic = model::token(model::magic());
    assert(model::node(a) =~= model::archive(a).skip(magic.len() as int));
    assert(model::node(b) =~= model::archive(b).skip(magic.len() as int));
    assert(model::node(a) + Seq::<u8>::empty() =~= model::node(a));
    assert(model::node(b) + Seq::<u8>::empty() =~= model::node(b));
    lemma_same_node(a, b, Seq::empty(), Seq::empty(), 0);
}

// ---------------------------------------------------------------------------
// Too much and too little
// ---------------------------------------------------------------------------

/// Whatever follows an archive is an error, though all of the archive has been
/// delivered by then.
pub proof fn law_trailing_bytes_are_rejected(tree: Tree, junk: Seq<u8>, mode: Mode)
    requires
        model::valid(tree, 0),
        mode == Mode::Stream ==> model::streamable(tree),
        junk.len() > 0,
    ensures
        grammar::parse_archive(model::archive(tree) + junk, mode) == (Parse {
            events: model::events(tree, None),
            rest: Err(ErrorView::TrailingBytes),
        }),
{
    let body = model::node(tree) + junk;
    model::lemma_magic_length();
    grammar::lemma_token_taken(model::magic(), body);
    assert(model::archive(tree) + junk =~= model::token(model::magic()) + body);
    roundtrip::lemma_node_parsed(tree, None, 0, junk, mode);
}

// ---------------------------------------------------------------------------
// Order
// ---------------------------------------------------------------------------

/// The path of an entry.
pub open spec fn path_of(entry: EntryView) -> Seq<u8> {
    match entry {
        EntryView::Regular { path, .. } => path,
        EntryView::Symlink { path, .. } => path,
        EntryView::Directory { path } => path,
    }
}

/// The root comes last among the entries of a tree, and has the path of the
/// tree.
pub proof fn law_root_comes_last(tree: Tree, path: Seq<u8>)
    ensures
        entries::post_order(tree, path).len() > 0,
        path_of(entries::post_order(tree, path).last()) == path,
        tree is Directory ==> entries::post_order(tree, path).last() is Directory,
{
}

// ---------------------------------------------------------------------------
// Encoders
// ---------------------------------------------------------------------------

/// A poisoned encoder takes no event, starts no file, and cannot be finished.
pub proof fn law_poison_is_final(
    v: EncoderView,
    events: Seq<EventView>,
    name: Option<Seq<u8>>,
    executable: bool,
    size: nat,
)
    requires
        v.poisoned,
        events.len() > 0,
    ensures
        encoder::run(v, events) == (encoder::Run {
            bytes: Seq::empty(),
            end: Err(ErrorView::EncoderPoisoned),
        }),
        encoder::file_started(v, name, executable, size) == Err::<(EncoderView, Seq<u8>), _>(
            ErrorView::EncoderPoisoned,
        ),
        encoder::finish_error(v) == Some(ErrorView::EncoderPoisoned),
{
}

/// A node that is refused because of its name or its place leaves no trace: not
/// in the state, nor in the output, nor in what comes of any later events. That
/// holds of every kind of node, and of files that are streamed.
pub proof fn law_refused_node_leaves_no_trace(
    name: Option<Seq<u8>>,
    before: EncoderView,
    after: EncoderView,
    sent: Seq<u8>,
    now: Seq<u8>,
    failure: Option<ErrorView>,
    executable: bool,
    contents: Seq<u8>,
    target: Seq<u8>,
    later: Seq<EventView>,
)
    requires
        encoder::placement_error(before, name) is Some,
        encoder::stepped(
            Err(encoder::placement_error(before, name)->0),
            before,
            after,
            sent,
            now,
            failure,
        ),
    ensures
        failure == encoder::placement_error(before, name),
        failure == Some(ErrorView::EncoderPoisoned) <==> before.poisoned,
        after == before,
        now == sent,
        encoder::run(after, later) == encoder::run(before, later),
        ({
            let refused = Err::<(EncoderView, Seq<u8>), _>(failure->0);
            &&& encoder::step(before, EventView::DirectoryStart { name }) == refused
            &&& encoder::step(before, EventView::Symlink { name, target }) == refused
            &&& encoder::step(before, model::regular_event(name, executable, contents)) == refused
            &&& encoder::file_started(before, name, executable, contents.len()) == refused
        }),
{
}

/// After a named root is refused an unnamed one is accepted.
pub proof fn law_refused_root_can_be_mended(name: Seq<u8>)
    ensures
        encoder::placement_error(encoder::fresh(), Some(name)) == Some(
            ErrorView::InvalidEncoderEvent("the root must be unnamed"@),
        ),
        encoder::placement_error(encoder::fresh(), None) is None,
{
}

/// Once the root is complete an encoder takes no further event.
pub proof fn law_complete_archive_takes_no_event(v: EncoderView, event: EventView)
    requires
        !v.poisoned,
        v.root == RootState::Complete,
    ensures
        encoder::step(v, event) == Err::<(EncoderView, Seq<u8>), _>(
            ErrorView::InvalidEncoderEvent("archive is already complete"@),
        ),
{
}

/// A file that is streamed in pieces comes to the same bytes and the same state
/// as one that is there in full, and is refused where that one is.
pub proof fn law_streamed_file_is_the_file(
    v: EncoderView,
    name: Option<Seq<u8>>,
    executable: bool,
    contents: Seq<u8>,
)
    ensures
        encoder::step(v, model::regular_event(name, executable, contents))
            == match encoder::file_started(v, name, executable, contents.len()) {
            Err(e) => Err(e),
            Ok((next, start)) => Ok(
                (
                    encoder::ended(next, name is Some),
                    start + (contents + encoder::file_end(name is Some, contents.len())),
                ),
            ),
        },
{
    encoder::lemma_file_bytes(name, executable, contents);
}

// ---------------------------------------------------------------------------
// Scanning for references
// ---------------------------------------------------------------------------

/// What is found depends on the bytes alone, not on how they were cut into
/// chunks.
pub proof fn law_chunks_do_not_matter(
    a: &ReferenceScanner,
    b: &ReferenceScanner,
    stream: Seq<u8>,
)
    requires
        a.candidates() == b.candidates(),
        a.follows(stream),
        b.follows(stream),
    ensures
        a.found() == b.found(),
{
    assert(a.found() =~= b.found());
}

/// Equal candidates are found together.
pub proof fn law_duplicates_match_together(
    scanner: &ReferenceScanner,
    stream: Seq<u8>,
    i: int,
    j: int,
)
    requires
        scanner.follows(stream),
        0 <= i < scanner.candidates().len(),
        0 <= j < scanner.candidates().len(),
        scanner.candidates()[i] == scanner.candidates()[j],
    ensures
        scanner.found()[i] == scanner.found()[j],
{
}

/// What has been found stays found, whatever follows.
pub proof fn law_matches_stay(
    before: &ReferenceScanner,
    after: &ReferenceScanner,
    stream: Seq<u8>,
    more: Seq<u8>,
    i: int,
)
    requires
        before.candidates() == after.candidates(),
        before.follows(stream),
        after.follows(stream + more),
        0 <= i < before.candidates().len(),
        before.found()[i],
    ensures
        after.found()[i],
{
    let needle = before.candidates()[i];
    let at = choose|at: int| refscan::occurs_at(stream, needle, at);
    assert((stream + more).subrange(at, at + needle.len()) =~= stream.subrange(
        at,
        at + needle.len(),
    ));
    assert(refscan::occurs_at(stream + more, needle, at));
}

}
