//! The mathematical model of the NAR format.
//!
//! Nothing here is executed. An archive is a sequence of bytes, a filesystem
//! object is a [`Tree`], and the functions below say which bytes encode which
//! tree. The contracts of the encoder and of both decoders are stated over
//! these definitions.

use vstd::prelude::*;

use crate::names;

verus! {

/// Nix rejects a node at this depth.
pub const MAX_DEPTH: usize = 64;

/// The bytes of a piece of program text, such as a keyword of the grammar.
pub open spec fn text(s: &str) -> Seq<u8> {
    vstd::utf8::encode_utf8(s@)
}

// ---------------------------------------------------------------------------
// Tokens
// ---------------------------------------------------------------------------

/// The eight bytes of `n`, least significant first.
pub open spec fn le64(n: nat) -> Seq<u8> {
    seq![
        (n % 256) as u8,
        (n / 0x100 % 256) as u8,
        (n / 0x1_0000 % 256) as u8,
        (n / 0x100_0000 % 256) as u8,
        (n / 0x1_0000_0000 % 256) as u8,
        (n / 0x100_0000_0000 % 256) as u8,
        (n / 0x1_0000_0000_0000 % 256) as u8,
        (n / 0x100_0000_0000_0000 % 256) as u8,
    ]
}

/// The number whose eight bytes, least significant first, start `s`.
pub open spec fn le64_value(s: Seq<u8>) -> nat {
    (s[0] + s[1] * 0x100 + s[2] * 0x1_0000 + s[3] * 0x100_0000 + s[4] * 0x1_0000_0000 + s[5]
        * 0x100_0000_0000 + s[6] * 0x1_0000_0000_0000 + s[7] * 0x100_0000_0000_0000) as nat
}

/// The first `n` bytes of `s`, or all of it where it is shorter.
pub open spec fn up_to(s: Seq<u8>, n: nat) -> Seq<u8> {
    if s.len() < n {
        s
    } else {
        s.take(n as int)
    }
}

/// How many bytes bring `len` up to a multiple of eight.
pub open spec fn padding(len: nat) -> nat {
    ((8 - len % 8) % 8) as nat
}

/// `n` zero bytes.
pub open spec fn zeros(n: nat) -> Seq<u8> {
    Seq::new(n, |i: int| 0u8)
}

/// One token: its length, its bytes, and zeros up to the next multiple of
/// eight.
#[verifier::opaque]
pub open spec fn token(bytes: Seq<u8>) -> Seq<u8> {
    le64(bytes.len()) + bytes + zeros(padding(bytes.len()))
}

pub proof fn lemma_le64_inverse(n: nat)
    requires
        n <= u64::MAX,
    ensures
        le64(n).len() == 8,
        le64_value(le64(n)) == n,
{
    let q1 = n / 0x100;
    let q2 = q1 / 0x100;
    let q3 = q2 / 0x100;
    let q4 = q3 / 0x100;
    let q5 = q4 / 0x100;
    let q6 = q5 / 0x100;
    let q7 = q6 / 0x100;
    assert(q2 == n / 0x1_0000);
    assert(q3 == n / 0x100_0000);
    assert(q4 == n / 0x1_0000_0000);
    assert(q5 == n / 0x100_0000_0000);
    assert(q6 == n / 0x1_0000_0000_0000);
    assert(q7 == n / 0x100_0000_0000_0000);
    assert(q7 < 256);
    assert(n == n % 256 + 0x100 * q1);
    assert(q1 == q1 % 256 + 0x100 * q2);
    assert(q2 == q2 % 256 + 0x100 * q3);
    assert(q3 == q3 % 256 + 0x100 * q4);
    assert(q4 == q4 % 256 + 0x100 * q5);
    assert(q5 == q5 % 256 + 0x100 * q6);
    assert(q6 == q6 % 256 + 0x100 * q7);
    let s = le64(n);
    assert(s[0] == n % 256 && s[1] == q1 % 256 && s[2] == q2 % 256 && s[3] == q3 % 256 && s[4] == q4
        % 256 && s[5] == q5 % 256 && s[6] == q6 % 256 && s[7] == q7);
}

proof fn lemma_low_byte(v: nat, low: u8, high: nat)
    requires
        v == low + 0x100 * high,
    ensures
        v % 256 == low,
        v / 0x100 == high,
{
}

pub proof fn lemma_le64_value_inverse(s: Seq<u8>)
    requires
        s.len() >= 8,
    ensures
        le64_value(s) <= u64::MAX,
        le64(le64_value(s)) == s.take(8),
{
    let v7 = s[7] as nat;
    let v6 = (s[6] + 0x100 * v7) as nat;
    let v5 = (s[5] + 0x100 * v6) as nat;
    let v4 = (s[4] + 0x100 * v5) as nat;
    let v3 = (s[3] + 0x100 * v4) as nat;
    let v2 = (s[2] + 0x100 * v3) as nat;
    let v1 = (s[1] + 0x100 * v2) as nat;
    let v = le64_value(s);
    assert(v == s[0] + 0x100 * v1);
    lemma_low_byte(v, s[0], v1);
    lemma_low_byte(v1, s[1], v2);
    lemma_low_byte(v2, s[2], v3);
    lemma_low_byte(v3, s[3], v4);
    lemma_low_byte(v4, s[4], v5);
    lemma_low_byte(v5, s[5], v6);
    lemma_low_byte(v6, s[6], v7);
    assert(v2 == v / 0x1_0000);
    assert(v3 == v2 / 0x100 == v / 0x100_0000);
    assert(v4 == v3 / 0x100 == v / 0x1_0000_0000);
    assert(v5 == v4 / 0x100 == v / 0x100_0000_0000);
    assert(v6 == v5 / 0x100 == v / 0x1_0000_0000_0000);
    assert(v7 == v6 / 0x100 == v / 0x100_0000_0000_0000);
    let b = le64(v);
    assert(b[0] == s[0] && b[1] == s[1] && b[2] == s[2] && b[3] == s[3] && b[4] == s[4] && b[5]
        == s[5] && b[6] == s[6] && b[7] == s[7]);
    assert(b =~= s.take(8));
}

// ---------------------------------------------------------------------------
// Trees
// ---------------------------------------------------------------------------

/// A filesystem object as an archive represents it.
pub enum Tree {
    Regular { executable: bool, contents: Seq<u8> },
    Symlink { target: Seq<u8> },
    Directory(Seq<(Seq<u8>, Tree)>),
}

/// A byte string whose length a token can carry.
pub open spec fn fits(bytes: Seq<u8>) -> bool {
    bytes.len() <= u64::MAX
}

/// `tree` can stand at `depth` in an archive.
pub open spec fn valid(tree: Tree, depth: nat) -> bool
    decreases tree,
{
    &&& depth < MAX_DEPTH
    &&& match tree {
        Tree::Regular { contents, .. } => fits(contents),
        Tree::Symlink { target } => fits(target),
        Tree::Directory(children) => valid_children(children, None, depth + 1),
    }
}

/// `children` can follow the entry `previous` in a directory whose entries are
/// at `depth`: their names are valid and strictly ascending.
pub open spec fn valid_children(
    children: Seq<(Seq<u8>, Tree)>,
    previous: Option<Seq<u8>>,
    depth: nat,
) -> bool
    decreases children,
{
    children.len() > 0 ==> {
        &&& fits(children[0].0)
        &&& names::name_error(children[0].0, previous) is None
        &&& valid(children[0].1, depth)
        &&& valid_children(children.skip(1), Some(children[0].0), depth)
    }
}

/// Every name, symlink target and file in `tree` fits in a token.
pub open spec fn sized(tree: Tree) -> bool
    decreases tree,
{
    match tree {
        Tree::Regular { contents, .. } => fits(contents),
        Tree::Symlink { target } => fits(target),
        Tree::Directory(children) => sized_children(children),
    }
}

pub open spec fn sized_children(children: Seq<(Seq<u8>, Tree)>) -> bool
    decreases children,
{
    children.len() > 0 ==> {
        &&& fits(children[0].0)
        &&& sized(children[0].1)
        &&& sized_children(children.skip(1))
    }
}

/// The longest name or symlink target that the streaming decoder accepts.
pub const MAX_METADATA_TOKEN: usize = 1024 * 1024;

/// Every name and symlink target in `tree` is short enough to be streamed.
pub open spec fn streamable(tree: Tree) -> bool
    decreases tree,
{
    match tree {
        Tree::Regular { .. } => true,
        Tree::Symlink { target } => target.len() <= MAX_METADATA_TOKEN,
        Tree::Directory(children) => streamable_children(children),
    }
}

pub open spec fn streamable_children(children: Seq<(Seq<u8>, Tree)>) -> bool
    decreases children,
{
    children.len() > 0 ==> {
        &&& children[0].0.len() <= MAX_METADATA_TOKEN
        &&& streamable(children[0].1)
        &&& streamable_children(children.skip(1))
    }
}

// ---------------------------------------------------------------------------
// Archives
// ---------------------------------------------------------------------------

/// The token of a word of the grammar.
pub open spec fn word(s: &str) -> Seq<u8> {
    token(text(s))
}

/// What introduces an archive.
pub open spec fn magic() -> Seq<u8> {
    text("nix-archive-1")
}

pub proof fn lemma_magic_length()
    ensures
        magic().len() == 13,
{
    reveal_strlit("nix-archive-1");
    vstd::utf8::is_ascii_chars_encode_utf8("nix-archive-1"@);
}

/// What introduces a node of the given type.
pub open spec fn node_head(kind: &str) -> Seq<u8> {
    word("(") + word("type") + word(kind)
}

/// What introduces the contents of a regular file.
pub open spec fn regular_head(executable: bool) -> Seq<u8> {
    node_head("regular") + (if executable {
        word("executable") + word("")
    } else {
        Seq::empty()
    }) + word("contents")
}

/// What introduces the entry `name` of a directory.
pub open spec fn entry_head(name: Seq<u8>) -> Seq<u8> {
    word("entry") + word("(") + word("name") + token(name) + word("node")
}

/// The encoding of a node.
pub open spec fn node(tree: Tree) -> Seq<u8>
    decreases tree,
{
    match tree {
        Tree::Regular { executable, contents } => regular_head(executable) + token(contents) + word(
            ")",
        ),
        Tree::Symlink { target } => node_head("symlink") + word("target") + token(target) + word(
            ")",
        ),
        Tree::Directory(children) => node_head("directory") + entries(children) + word(")"),
    }
}

/// The encoding of the entries of a directory.
pub open spec fn entries(children: Seq<(Seq<u8>, Tree)>) -> Seq<u8>
    decreases children,
{
    if children.len() == 0 {
        Seq::empty()
    } else {
        entry_head(children[0].0) + node(children[0].1) + word(")") + entries(children.skip(1))
    }
}

/// The archive that holds `tree`.
pub open spec fn archive(tree: Tree) -> Seq<u8> {
    token(magic()) + node(tree)
}

// ---------------------------------------------------------------------------
// Events
// ---------------------------------------------------------------------------

/// One step of a root-first walk over a tree. The root has no name.
///
/// `size` is what an archive declares of a regular file and `contents` is what
/// there is of it, which falls short only where the archive breaks off.
pub enum EventView {
    DirectoryStart { name: Option<Seq<u8>> },
    DirectoryEnd { name: Option<Seq<u8>> },
    Regular { name: Option<Seq<u8>>, executable: bool, size: nat, contents: Seq<u8> },
    Symlink { name: Option<Seq<u8>>, target: Seq<u8> },
}

/// The event of a regular file that is there in full.
pub open spec fn regular_event(
    name: Option<Seq<u8>>,
    executable: bool,
    contents: Seq<u8>,
) -> EventView {
    EventView::Regular { name, executable, size: contents.len(), contents }
}

/// The root-first walk over `tree`, which is known as `name`.
pub open spec fn events(tree: Tree, name: Option<Seq<u8>>) -> Seq<EventView>
    decreases tree,
{
    match tree {
        Tree::Regular { executable, contents } => seq![regular_event(name, executable, contents)],
        Tree::Symlink { target } => seq![EventView::Symlink { name, target }],
        Tree::Directory(children) => seq![EventView::DirectoryStart { name }] + child_events(
            children,
        ) + seq![EventView::DirectoryEnd { name }],
    }
}

/// The walks over the entries of a directory, one after the other.
pub open spec fn child_events(children: Seq<(Seq<u8>, Tree)>) -> Seq<EventView>
    decreases children,
{
    if children.len() == 0 {
        Seq::empty()
    } else {
        events(children[0].1, Some(children[0].0)) + child_events(children.skip(1))
    }
}

/// `event` can come where `depth` directories are open: exactly the root has no
/// name, and only what is open is ended.
pub open spec fn nests(event: EventView, depth: nat) -> bool {
    match event {
        EventView::DirectoryStart { name } => name is None <==> depth == 0,
        EventView::DirectoryEnd { name } => depth > 0 && (name is None <==> depth == 1),
        EventView::Regular { name, .. } => name is None <==> depth == 0,
        EventView::Symlink { name, .. } => name is None <==> depth == 0,
    }
}

/// How many directories are open after `event` where `depth` were before.
pub open spec fn depth_after(event: EventView, depth: nat) -> nat {
    match event {
        EventView::DirectoryStart { .. } => depth + 1,
        EventView::DirectoryEnd { .. } => (depth - 1) as nat,
        _ => depth,
    }
}

/// How many directories are open after `events`, if each of them can come where
/// it does.
pub open spec fn nesting(events: Seq<EventView>, depth: nat) -> Option<nat>
    decreases events.len(),
{
    if events.len() == 0 {
        Some(depth)
    } else if nests(events[0], depth) {
        nesting(events.skip(1), depth_after(events[0], depth))
    } else {
        None
    }
}

pub proof fn lemma_nesting_concat(a: Seq<EventView>, b: Seq<EventView>, depth: nat)
    ensures
        nesting(a + b, depth) == match nesting(a, depth) {
            Some(d) => nesting(b, d),
            None => None,
        },
    decreases a.len(),
{
    if a.len() == 0 {
        assert(a + b =~= b);
    } else {
        assert((a + b).skip(1) =~= a.skip(1) + b);
        lemma_nesting_concat(a.skip(1), b, depth_after(a[0], depth));
    }
}

pub proof fn lemma_nesting_one(event: EventView, depth: nat)
    ensures
        nesting(seq![event], depth) == (if nests(event, depth) {
            Some(depth_after(event, depth))
        } else {
            None
        }),
{
    reveal_with_fuel(nesting, 2);
    assert(seq![event].skip(1) =~= Seq::<EventView>::empty());
}

pub proof fn lemma_child_events_take(children: Seq<(Seq<u8>, Tree)>, i: int)
    requires
        0 <= i < children.len(),
    ensures
        child_events(children.take(i + 1)) == child_events(children.take(i)) + events(
            children[i].1,
            Some(children[i].0),
        ),
    decreases i,
{
    let first = events(children[0].1, Some(children[0].0));
    let more = children.skip(1);
    assert(children.take(i + 1).skip(1) =~= more.take(i));
    if i == 0 {
        assert(children.take(0) =~= Seq::empty());
        assert(more.take(0) =~= Seq::empty());
        assert(first + Seq::<EventView>::empty() =~= Seq::<EventView>::empty() + first);
    } else {
        assert(children.take(i).skip(1) =~= more.take(i - 1));
        lemma_child_events_take(more, i - 1);
        assert(more[i - 1] == children[i]);
        let last = events(children[i].1, Some(children[i].0));
        assert(first + (child_events(more.take(i - 1)) + last) =~= first + child_events(
            more.take(i - 1),
        ) + last);
    }
}

}
