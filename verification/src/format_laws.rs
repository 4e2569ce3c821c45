//! What the archive format comes to, byte by byte.
//!
//! The model says which bytes encode which tree in terms of a few definitions of
//! its own. Here those are held against plain arithmetic, indices and text.

use vstd::arithmetic::power::pow;
use vstd::prelude::*;

use crate::model;
use crate::model::Tree;

verus! {

// ---------------------------------------------------------------------------
// Lengths
// ---------------------------------------------------------------------------

proof fn lemma_powers()
    ensures
        pow(256, 0) == 1,
        pow(256, 1) == 0x100,
        pow(256, 2) == 0x1_0000,
        pow(256, 3) == 0x100_0000,
        pow(256, 4) == 0x1_0000_0000,
        pow(256, 5) == 0x100_0000_0000,
        pow(256, 6) == 0x1_0000_0000_0000,
        pow(256, 7) == 0x100_0000_0000_0000,
{
    reveal(pow);
    reveal_with_fuel(pow, 9);
}

/// The digit of `n` to the base 256 that stands for the `i`th power of it.
pub open spec fn digit256(n: nat, i: int) -> int {
    n as int / pow(256, i as nat) % 256
}

/// The bytes of a length are its digits to the base 256, the least significant
/// first.
pub proof fn law_length_bytes_are_its_digits(n: nat, i: int)
    requires
        0 <= i < 8,
    ensures
        model::le64(n).len() == 8,
        model::le64(n)[i] as int == digit256(n, i),
{
    lemma_powers();
}

/// A length is the sum of its bytes, each times the power of 256 that its place
/// stands for.
pub proof fn law_length_is_the_sum_of_its_bytes(s: Seq<u8>)
    requires
        s.len() >= 8,
    ensures
        model::le64_value(s) == s[0] * pow(256, 0) + s[1] * pow(256, 1) + s[2] * pow(256, 2) + s[3]
            * pow(256, 3) + s[4] * pow(256, 4) + s[5] * pow(256, 5) + s[6] * pow(256, 6) + s[7]
            * pow(256, 7),
        model::le64_value(s) == s[0] + 256 * model::le64_value(s.subrange(1, 8).push(0)),
{
    lemma_powers();
    let t = s.subrange(1, 8).push(0);
    assert(t[0] == s[1] && t[1] == s[2] && t[2] == s[3] && t[3] == s[4] && t[4] == s[5] && t[5]
        == s[6] && t[6] == s[7] && t[7] == 0);
}

// ---------------------------------------------------------------------------
// Tokens
// ---------------------------------------------------------------------------

/// A token is a multiple of eight bytes long, and no shorter one would do: its
/// first eight bytes are the digits of its length, then come its bytes, and
/// zeros fill up the last block.
pub proof fn law_token_layout(bytes: Seq<u8>)
    ensures
        ({
            let token = model::token(bytes);
            let n = bytes.len();
            &&& token.len() % 8 == 0
            &&& 8 + n <= token.len() < 16 + n
            &&& forall|i: int| 0 <= i < 8 ==> #[trigger] token[i] as int == digit256(n, i)
            &&& forall|i: int| 0 <= i < n ==> token[8 + i] == #[trigger] bytes[i]
            &&& forall|i: int| 8 + n <= i < token.len() ==> #[trigger] token[i] == 0
        }),
{
    let n = bytes.len();
    let zeros = model::zeros(model::padding(n));
    assert(model::token(bytes) == model::le64(n) + bytes + zeros) by {
        reveal(model::token);
    }
    assert((8 + n + model::padding(n)) % 8 == 0);
    lemma_digits(n, bytes + zeros);
    assert(model::le64(n) + (bytes + zeros) =~= model::le64(n) + bytes + zeros);
    lemma_parts(model::le64(n), bytes, zeros);
}

proof fn lemma_digits(n: nat, more: Seq<u8>)
    ensures
        model::le64(n).len() == 8,
        forall|i: int|
            0 <= i < 8 ==> #[trigger] (model::le64(n) + more)[i] as int == digit256(n, i),
{
    law_length_bytes_are_its_digits(n, 0);
    assert forall|i: int| 0 <= i < 8 implies #[trigger] (model::le64(n) + more)[i] as int
        == digit256(n, i) by {
        law_length_bytes_are_its_digits(n, i);
        assert((model::le64(n) + more)[i] == model::le64(n)[i]);
    }
}

proof fn lemma_parts(head: Seq<u8>, bytes: Seq<u8>, zeros: Seq<u8>)
    requires
        head.len() == 8,
        forall|i: int| 0 <= i < zeros.len() ==> #[trigger] zeros[i] == 0,
    ensures
        forall|i: int| 0 <= i < bytes.len() ==> (head + bytes + zeros)[8 + i] == #[trigger] bytes[i],
        forall|i: int|
            8 + bytes.len() <= i < (head + bytes + zeros).len() ==> #[trigger] (head + bytes
                + zeros)[i] == 0,
{
    assert forall|i: int| 8 + bytes.len() <= i < (head + bytes + zeros).len() implies #[trigger] (
    head + bytes + zeros)[i] == 0 by {
        assert((head + bytes + zeros)[i] == zeros[i - 8 - bytes.len()]);
    }
}

/// The bytes of `s`, one for each character.
pub open spec fn ascii(s: &str) -> Seq<u8> {
    s@.map_values(|c: char| c as u8)
}

/// The bytes of a word are its characters.
pub proof fn law_words_are_their_characters(s: &str)
    requires
        vstd::utf8::is_ascii_chars(s@),
    ensures
        model::text(s) == ascii(s),
{
    vstd::utf8::is_ascii_chars_encode_utf8(s@);
    assert(model::text(s) =~= ascii(s));
}

// ---------------------------------------------------------------------------
// Archives as lists of tokens
// ---------------------------------------------------------------------------

/// Tokens one after the other.
pub open spec fn framed(list: Seq<Seq<u8>>) -> Seq<u8>
    decreases list.len(),
{
    if list.len() == 0 {
        Seq::empty()
    } else {
        framed(list.drop_last()) + model::token(list.last())
    }
}

proof fn lemma_framed_push(list: Seq<Seq<u8>>, bytes: Seq<u8>)
    ensures
        framed(list.push(bytes)) == framed(list) + model::token(bytes),
{
    assert(list.push(bytes).drop_last() =~= list);
}

proof fn lemma_words_are_plain()
    ensures
        model::magic() == ascii("nix-archive-1"),
        model::text("(") == ascii("("),
        model::text(")") == ascii(")"),
        model::text("type") == ascii("type"),
        model::text("regular") == ascii("regular"),
        model::text("symlink") == ascii("symlink"),
        model::text("directory") == ascii("directory"),
        model::text("executable") == ascii("executable"),
        model::text("") == Seq::<u8>::empty(),
        model::text("contents") == ascii("contents"),
        model::text("target") == ascii("target"),
        model::text("entry") == ascii("entry"),
        model::text("name") == ascii("name"),
        model::text("node") == ascii("node"),
{
    reveal_strlit("nix-archive-1");
    reveal_strlit("(");
    reveal_strlit(")");
    reveal_strlit("type");
    reveal_strlit("regular");
    reveal_strlit("symlink");
    reveal_strlit("directory");
    reveal_strlit("executable");
    reveal_strlit("");
    reveal_strlit("contents");
    reveal_strlit("target");
    reveal_strlit("entry");
    reveal_strlit("name");
    reveal_strlit("node");
    law_words_are_their_characters("nix-archive-1");
    law_words_are_their_characters("(");
    law_words_are_their_characters(")");
    law_words_are_their_characters("type");
    law_words_are_their_characters("regular");
    law_words_are_their_characters("symlink");
    law_words_are_their_characters("directory");
    law_words_are_their_characters("executable");
    law_words_are_their_characters("");
    law_words_are_their_characters("contents");
    law_words_are_their_characters("target");
    law_words_are_their_characters("entry");
    law_words_are_their_characters("name");
    law_words_are_their_characters("node");
    assert(ascii("") =~= Seq::<u8>::empty());
}

/// An archive is its magic and then the node of its root.
pub proof fn law_archive_begins_with_the_magic(tree: Tree)
    ensures
        model::archive(tree) == model::token(ascii("nix-archive-1")) + model::node(tree),
{
    lemma_words_are_plain();
}

/// The node of a file is these tokens, whatever its contents are; a file that is
/// executable has two more, in front of its contents.
pub proof fn law_node_of_a_file(contents: Seq<u8>)
    ensures
        model::node(Tree::Regular { executable: false, contents }) == framed(
            seq![
                ascii("("),
                ascii("type"),
                ascii("regular"),
                ascii("contents"),
                contents,
                ascii(")"),
            ],
        ),
        model::node(Tree::Regular { executable: true, contents }) == framed(
            seq![
                ascii("("),
                ascii("type"),
                ascii("regular"),
                ascii("executable"),
                Seq::empty(),
                ascii("contents"),
                contents,
                ascii(")"),
            ],
        ),
{
    lemma_words_are_plain();
    let none = Seq::<Seq<u8>>::empty();
    let empty = Seq::<u8>::empty();
    let head = none.push(ascii("(")).push(ascii("type")).push(ascii("regular"));
    lemma_framed_push(none, ascii("("));
    lemma_framed_push(none.push(ascii("(")), ascii("type"));
    lemma_framed_push(none.push(ascii("(")).push(ascii("type")), ascii("regular"));
    assert(framed(none) + model::token(ascii("(")) =~= model::token(ascii("(")));
    lemma_framed_push(head, ascii("contents"));
    lemma_framed_push(head.push(ascii("contents")), contents);
    lemma_framed_push(head.push(ascii("contents")).push(contents), ascii(")"));
    assert(seq![
        ascii("("),
        ascii("type"),
        ascii("regular"),
        ascii("contents"),
        contents,
        ascii(")"),
    ] =~= head.push(ascii("contents")).push(contents).push(ascii(")")));
    let more = head.push(ascii("executable")).push(empty);
    lemma_framed_push(head, ascii("executable"));
    lemma_framed_push(head.push(ascii("executable")), empty);
    lemma_framed_push(more, ascii("contents"));
    lemma_framed_push(more.push(ascii("contents")), contents);
    lemma_framed_push(more.push(ascii("contents")).push(contents), ascii(")"));
    assert(seq![
        ascii("("),
        ascii("type"),
        ascii("regular"),
        ascii("executable"),
        empty,
        ascii("contents"),
        contents,
        ascii(")"),
    ] =~= more.push(ascii("contents")).push(contents).push(ascii(")")));
    assert(model::regular_head(false) =~= framed(head.push(ascii("contents"))));
    assert(model::regular_head(true) =~= framed(more.push(ascii("contents"))));
}

/// The node of a symbolic link is these tokens, whatever its target is.
pub proof fn law_node_of_a_symlink(target: Seq<u8>)
    ensures
        model::node(Tree::Symlink { target }) == framed(
            seq![
                ascii("("),
                ascii("type"),
                ascii("symlink"),
                ascii("target"),
                target,
                ascii(")"),
            ],
        ),
{
    lemma_words_are_plain();
    let none = Seq::<Seq<u8>>::empty();
    let a = none.push(ascii("("));
    let b = a.push(ascii("type"));
    let c = b.push(ascii("symlink"));
    let d = c.push(ascii("target"));
    lemma_framed_push(none, ascii("("));
    lemma_framed_push(a, ascii("type"));
    lemma_framed_push(b, ascii("symlink"));
    lemma_framed_push(c, ascii("target"));
    lemma_framed_push(d, target);
    lemma_framed_push(d.push(target), ascii(")"));
    assert(framed(none) + model::token(ascii("(")) =~= model::token(ascii("(")));
    assert(seq![
        ascii("("),
        ascii("type"),
        ascii("symlink"),
        ascii("target"),
        target,
        ascii(")"),
    ] =~= d.push(target).push(ascii(")")));
}

/// The node of a directory is its entries between these tokens.
pub proof fn law_node_of_a_directory(children: Seq<(Seq<u8>, Tree)>)
    ensures
        model::node(Tree::Directory(children)) == framed(
            seq![ascii("("), ascii("type"), ascii("directory")],
        ) + model::entries(children) + framed(seq![ascii(")")]),
{
    lemma_words_are_plain();
    let none = Seq::<Seq<u8>>::empty();
    let a = none.push(ascii("("));
    let b = a.push(ascii("type"));
    lemma_framed_push(none, ascii("("));
    lemma_framed_push(a, ascii("type"));
    lemma_framed_push(b, ascii("directory"));
    lemma_framed_push(none, ascii(")"));
    assert(framed(none) + model::token(ascii("(")) =~= model::token(ascii("(")));
    assert(framed(none) + model::token(ascii(")")) =~= model::token(ascii(")")));
    assert(seq![ascii("("), ascii("type"), ascii("directory")] =~= b.push(ascii("directory")));
    assert(seq![ascii(")")] =~= none.push(ascii(")")));
}

/// An entry is its name and the node of what it is called, between these tokens.
pub proof fn law_entry_of_a_directory(name: Seq<u8>, tree: Tree)
    ensures
        model::entries(seq![(name, tree)]) == framed(
            seq![ascii("entry"), ascii("("), ascii("name"), name, ascii("node")],
        ) + model::node(tree) + framed(seq![ascii(")")]),
{
    lemma_words_are_plain();
    let none = Seq::<Seq<u8>>::empty();
    let a = none.push(ascii("entry"));
    let b = a.push(ascii("("));
    let c = b.push(ascii("name"));
    let d = c.push(name);
    lemma_framed_push(none, ascii("entry"));
    lemma_framed_push(a, ascii("("));
    lemma_framed_push(b, ascii("name"));
    lemma_framed_push(c, name);
    lemma_framed_push(d, ascii("node"));
    lemma_framed_push(none, ascii(")"));
    assert(framed(none) + model::token(ascii("entry")) =~= model::token(ascii("entry")));
    assert(framed(none) + model::token(ascii(")")) =~= model::token(ascii(")")));
    assert(seq![ascii("entry"), ascii("("), ascii("name"), name, ascii("node")] =~= d.push(
        ascii("node"),
    ));
    assert(seq![ascii(")")] =~= none.push(ascii(")")));
    let one = seq![(name, tree)];
    assert(one.skip(1) =~= Seq::<(Seq<u8>, Tree)>::empty());
    assert(model::entries(one.skip(1)) =~= Seq::<u8>::empty());
    let end = model::word(")");
    assert(model::entry_head(name) + model::node(tree) + end + Seq::<u8>::empty()
        =~= model::entry_head(name) + model::node(tree) + end);
}

/// Entries come one after the other: what is written of some does not depend on
/// those before or behind them.
pub proof fn law_entries_follow_each_other(
    a: Seq<(Seq<u8>, Tree)>,
    b: Seq<(Seq<u8>, Tree)>,
)
    ensures
        model::entries(a + b) == model::entries(a) + model::entries(b),
        model::child_events(a + b) == model::child_events(a) + model::child_events(b),
    decreases a.len(),
{
    if a.len() == 0 {
        assert(a + b =~= b);
        assert(model::entries(a) + model::entries(b) =~= model::entries(b));
        assert(model::child_events(a) + model::child_events(b) =~= model::child_events(b));
    } else {
        assert((a + b).skip(1) =~= a.skip(1) + b);
        law_entries_follow_each_other(a.skip(1), b);
        let first = model::entry_head(a[0].0) + model::node(a[0].1) + model::word(")");
        let walk = model::events(a[0].1, Some(a[0].0));
        assert(first + (model::entries(a.skip(1)) + model::entries(b)) =~= first + model::entries(
            a.skip(1),
        ) + model::entries(b));
        assert(walk + (model::child_events(a.skip(1)) + model::child_events(b)) =~= walk
            + model::child_events(a.skip(1)) + model::child_events(b));
    }
}

}
