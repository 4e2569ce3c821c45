//! What is said of bytes that are no archive: which error is owed for what is
//! wrong, and where.

use vstd::prelude::*;

use crate::decimal;
use crate::format_laws;
use crate::grammar;
use crate::grammar::{Mode, Parse};
use crate::model;
use crate::model::EventView;
use crate::names;
use crate::nar::ErrorView;
use crate::roundtrip;
use crate::wire;

verus! {

// ---------------------------------------------------------------------------
// Tokens
// ---------------------------------------------------------------------------

proof fn lemma_declared(n: nat, more: Seq<u8>)
    requires
        n <= u64::MAX,
    ensures
        (model::le64(n) + more).len() == 8 + more.len(),
        model::le64_value(model::le64(n) + more) == n,
        (model::le64(n) + more).skip(8) == more,
{
    model::lemma_le64_inverse(n);
    let s = model::le64(n) + more;
    assert(model::le64_value(s) == model::le64_value(model::le64(n)));
    assert(s.skip(8) =~= more);
}

proof fn lemma_blocks(n: nat)
    ensures
        n + model::padding(n) == (n + 7) / 8 * 8,
{
}

/// A token is refused exactly if one of the bytes that fill up its last block is
/// not zero, whatever else is in them, and what is behind it is left alone.
pub proof fn law_padding_must_be_zero(bytes: Seq<u8>, fill: Seq<u8>, rest: Seq<u8>)
    requires
        bytes.len() <= u64::MAX,
        fill.len() < 8,
        (bytes.len() + fill.len()) % 8 == 0,
    ensures
        (forall|i: int| 0 <= i < fill.len() ==> #[trigger] fill[i] == 0) ==> grammar::take_token(
            model::le64(bytes.len()) + (bytes + fill + rest),
        ) == Ok::<_, ErrorView>((bytes, rest)),
        (exists|i: int| 0 <= i < fill.len() && #[trigger] fill[i] != 0) ==> grammar::take_token(
            model::le64(bytes.len()) + (bytes + fill + rest),
        ) == Err::<(Seq<u8>, Seq<u8>), _>(ErrorView::BadPadding),
{
    lemma_filled(bytes, fill, rest);
    let zeros = model::zeros(fill.len());
    if forall|i: int| 0 <= i < fill.len() ==> #[trigger] fill[i] == 0 {
        assert(fill =~= zeros);
    }
    if exists|i: int| 0 <= i < fill.len() && #[trigger] fill[i] != 0 {
        let i = choose|i: int| 0 <= i < fill.len() && #[trigger] fill[i] != 0;
        assert(fill[i] != zeros[i]);
    }
}

proof fn lemma_filled(bytes: Seq<u8>, fill: Seq<u8>, rest: Seq<u8>)
    requires
        bytes.len() <= u64::MAX,
        fill.len() < 8,
        (bytes.len() + fill.len()) % 8 == 0,
    ensures
        grammar::take_token(model::le64(bytes.len()) + (bytes + fill + rest)) == if fill
            == model::zeros(fill.len()) {
            Ok((bytes, rest))
        } else {
            Err(ErrorView::BadPadding)
        },
{
    let n = bytes.len();
    let body = bytes + fill + rest;
    let after = fill + rest;
    lemma_declared(n, body);
    assert(model::padding(n) == fill.len());
    assert(body.take(n as int) =~= bytes);
    assert(body.skip(n as int) =~= after);
    assert(after.take(fill.len() as int) =~= fill);
    assert(after.skip(fill.len() as int) =~= rest);
    assert(grammar::take_token(model::le64(n) + body) == grammar::take_payload(body, n)) by {
        reveal(grammar::take_token);
    }
}

/// A token that is cut short, in its length, its bytes or its last block, is an
/// early end, whatever is in it.
pub proof fn law_short_tokens_end_early(n: nat, part: Seq<u8>, s: Seq<u8>)
    requires
        n <= u64::MAX,
        part.len() < (n + 7) / 8 * 8,
        s.len() < 8,
    ensures
        grammar::take_token(s) == Err::<(Seq<u8>, Seq<u8>), _>(ErrorView::UnexpectedEof),
        grammar::take_token(model::le64(n) + part) == Err::<(Seq<u8>, Seq<u8>), _>(
            ErrorView::UnexpectedEof,
        ),
{
    reveal(grammar::take_token);
    lemma_declared(n, part);
    lemma_blocks(n);
}

/// How a token that is not due is shown: by its beginning, or by its size alone
/// where a stream does not take so long a word.
pub open spec fn shown(got: Seq<u8>, mode: Mode) -> Seq<char> {
    if mode == Mode::Stream && got.len() > 16 {
        "<"@ + decimal::numeral(got.len()) + "-byte token>"@
    } else {
        names::describe(got)
    }
}

/// `got` stands where `expected` is due.
pub open spec fn not_due(expected: &str, got: Seq<u8>, mode: Mode) -> ErrorView {
    ErrorView::UnexpectedToken { expected: expected@, got: shown(got, mode) }
}

proof fn lemma_control(got: Seq<u8>, rest: Seq<u8>, expected: &str, mode: Mode)
    requires
        model::fits(got),
    ensures
        grammar::take_control(model::token(got) + rest, expected, mode) == if mode == Mode::Stream
            && got.len() > 16 {
            Err(not_due(expected, got, mode))
        } else {
            Ok((got, rest))
        },
{
    reveal(grammar::take_control);
    grammar::lemma_token_taken(got, rest);
}

proof fn lemma_word(got: Seq<u8>, rest: Seq<u8>, expected: &str, mode: Mode)
    requires
        model::fits(got),
        model::text(expected).len() <= 16,
    ensures
        grammar::take_word(model::token(got) + rest, expected, mode) == if got == model::text(
            expected,
        ) {
            Ok(rest)
        } else {
            Err(not_due(expected, got, mode))
        },
{
    reveal(grammar::take_word);
    lemma_control(got, rest, expected, mode);
}

/// In a stream a length that no word has is refused before the bytes are asked
/// for, and so is one that no name or target may have.
pub proof fn law_long_tokens_are_refused_unread(n: nat, rest: Seq<u8>, expected: &str)
    requires
        n <= u64::MAX,
    ensures
        n > 16 ==> grammar::take_word(model::le64(n) + rest, expected, Mode::Stream) == Err::<
            Seq<u8>,
            _,
        >(
            ErrorView::UnexpectedToken {
                expected: expected@,
                got: "<"@ + decimal::numeral(n) + "-byte token>"@,
            },
        ),
        n > 1048576 ==> grammar::take_metadata(model::le64(n) + rest, Mode::Stream) == Err::<
            (Seq<u8>, Seq<u8>),
            _,
        >(ErrorView::TokenTooLarge { size: n, limit: 1048576 }),
{
    reveal(grammar::take_control);
    reveal(grammar::take_word);
    reveal(grammar::take_metadata);
    lemma_declared(n, rest);
}

proof fn lemma_metadata(got: Seq<u8>, rest: Seq<u8>, mode: Mode)
    requires
        model::fits(got),
    ensures
        grammar::take_metadata(model::token(got) + rest, mode) == if mode == Mode::Stream
            && got.len() > 1048576 {
            Err(ErrorView::TokenTooLarge { size: got.len(), limit: 1048576 })
        } else {
            Ok((got, rest))
        },
{
    reveal(grammar::take_metadata);
    grammar::lemma_token_taken(got, rest);
}

// ---------------------------------------------------------------------------
// Nodes
// ---------------------------------------------------------------------------

/// A node opens with two words and a type, and whatever stands in the place of
/// one of them is reported. None is read below sixty-four directories.
pub proof fn law_nodes_that_do_not_open(
    got: Seq<u8>,
    rest: Seq<u8>,
    name: Option<Seq<u8>>,
    depth: nat,
    mode: Mode,
)
    requires
        model::fits(got),
    ensures
        depth >= 64 ==> grammar::parse_node(rest, name, depth, mode) == (Parse {
            events: Seq::empty(),
            rest: Err(ErrorView::MaxDepth(64)),
        }),
        depth < 64 && got != model::text("(") ==> grammar::parse_node(
            model::token(got) + rest,
            name,
            depth,
            mode,
        ) == (Parse { events: Seq::empty(), rest: Err(not_due("(", got, mode)) }),
        depth < 64 && got != model::text("type") ==> grammar::parse_node(
            model::word("(") + (model::token(got) + rest),
            name,
            depth,
            mode,
        ) == (Parse { events: Seq::empty(), rest: Err(not_due("type", got, mode)) }),
        depth < 64 && got != model::text("regular") && got != model::text("symlink") && got
            != model::text("directory") ==> grammar::parse_node(
            model::word("(") + (model::word("type") + (model::token(got) + rest)),
            name,
            depth,
            mode,
        ) == (Parse {
            events: Seq::empty(),
            rest: Err(not_due("regular, symlink or directory", got, mode)),
        }),
{
    roundtrip::lemma_words();
    let tail = model::token(got) + rest;
    let inner = model::word("type") + tail;
    lemma_word(got, rest, "(", mode);
    lemma_word(model::text("("), tail, "(", mode);
    lemma_word(got, rest, "type", mode);
    lemma_word(model::text("("), inner, "(", mode);
    lemma_word(model::text("type"), tail, "type", mode);
    lemma_control(got, rest, "regular, symlink or directory", mode);
}

/// A file has its contents behind its type, possibly behind a flag of two words,
/// and ends there. A stream has told of the file by the time its end is read.
pub proof fn law_files_that_go_wrong(
    got: Seq<u8>,
    rest: Seq<u8>,
    contents: Seq<u8>,
    name: Option<Seq<u8>>,
    mode: Mode,
)
    requires
        model::fits(got),
        model::fits(contents),
    ensures
        got != model::text("executable") && got != model::text("contents")
            ==> grammar::parse_regular(model::token(got) + rest, name, mode) == (Parse {
            events: Seq::empty(),
            rest: Err(not_due("contents", got, mode)),
        }),
        got != model::text("") ==> grammar::parse_regular(
            model::word("executable") + (model::token(got) + rest),
            name,
            mode,
        ) == (Parse { events: Seq::empty(), rest: Err(not_due("", got, mode)) }),
        got != model::text("contents") ==> grammar::parse_regular(
            model::word("executable") + (model::word("") + (model::token(got) + rest)),
            name,
            mode,
        ) == (Parse { events: Seq::empty(), rest: Err(not_due("contents", got, mode)) }),
        got != model::text(")") ==> grammar::parse_regular(
            model::word("contents") + (model::token(contents) + (model::token(got) + rest)),
            name,
            mode,
        ) == (Parse {
            events: if mode == Mode::Stream {
                seq![
                    EventView::Regular {
                        name,
                        executable: false,
                        size: contents.len(),
                        contents,
                    },
                ]
            } else {
                Seq::empty()
            },
            rest: Err(not_due(")", got, mode)),
        }),
{
    reveal(grammar::parse_regular);
    reveal(grammar::take_flags);
    roundtrip::lemma_words();
    assert(model::text("executable").len() != model::text("contents").len());
    let tail = model::token(got) + rest;
    let body = model::token(contents) + tail;
    lemma_control(got, rest, "contents", mode);
    lemma_control(model::text("executable"), tail, "contents", mode);
    lemma_control(model::text("executable"), model::word("") + tail, "contents", mode);
    lemma_control(model::text("contents"), body, "contents", mode);
    lemma_word(got, rest, "", mode);
    lemma_word(model::text(""), tail, "", mode);
    lemma_word(got, rest, "contents", mode);
    lemma_word(got, rest, ")", mode);
    grammar::lemma_token_taken(contents, tail);
    reveal(grammar::parse_contents);
    assert(model::up_to(body.skip(8), contents.len()) =~= contents) by {
        reveal(grammar::take_token);
    }
}

/// A link has its target behind its type, and ends there. Neither is told of
/// before its end is read.
pub proof fn law_links_that_go_wrong(
    got: Seq<u8>,
    rest: Seq<u8>,
    target: Seq<u8>,
    name: Option<Seq<u8>>,
    mode: Mode,
)
    requires
        model::fits(got),
        model::fits(target),
    ensures
        got != model::text("target") ==> grammar::parse_symlink(
            model::token(got) + rest,
            name,
            mode,
        ) == (Parse { events: Seq::empty(), rest: Err(not_due("target", got, mode)) }),
        mode == Mode::Stream && target.len() > 1048576 ==> grammar::parse_symlink(
            model::word("target") + (model::token(target) + rest),
            name,
            mode,
        ) == (Parse {
            events: Seq::empty(),
            rest: Err(ErrorView::TokenTooLarge { size: target.len(), limit: 1048576 }),
        }),
        got != model::text(")") && target.len() <= 1048576 ==> grammar::parse_symlink(
            model::word("target") + (model::token(target) + (model::token(got) + rest)),
            name,
            mode,
        ) == (Parse { events: Seq::empty(), rest: Err(not_due(")", got, mode)) }),
{
    reveal(grammar::parse_symlink);
    roundtrip::lemma_words();
    let tail = model::token(got) + rest;
    lemma_word(got, rest, "target", mode);
    lemma_word(model::text("target"), model::token(target) + rest, "target", mode);
    lemma_word(model::text("target"), model::token(target) + tail, "target", mode);
    lemma_metadata(target, rest, mode);
    lemma_metadata(target, tail, mode);
    lemma_word(got, rest, ")", mode);
}

// ---------------------------------------------------------------------------
// Entries
// ---------------------------------------------------------------------------

/// Another entry or the end stands behind an entry, and nothing else does.
pub proof fn law_entries_that_do_not_open(
    got: Seq<u8>,
    rest: Seq<u8>,
    previous: Option<Seq<u8>>,
    depth: nat,
    mode: Mode,
)
    requires
        model::fits(got),
    ensures
        grammar::parse_entries(model::word(")") + rest, previous, depth, mode) == (Parse {
            events: Seq::empty(),
            rest: Ok(rest),
        }),
        got != model::text(")") && got != model::text("entry") ==> grammar::parse_entries(
            model::token(got) + rest,
            previous,
            depth,
            mode,
        ) == (Parse { events: Seq::empty(), rest: Err(not_due("entry or )", got, mode)) }),
{
    roundtrip::lemma_words();
    lemma_control(model::text(")"), rest, "entry or )", mode);
    lemma_control(got, rest, "entry or )", mode);
}

/// An entry opens with a name between two words, and whatever stands in the
/// place of one of them is reported. The name is checked before the word behind
/// it is read.
pub proof fn law_entry_heads_that_go_wrong(
    got: Seq<u8>,
    rest: Seq<u8>,
    name: Seq<u8>,
    previous: Option<Seq<u8>>,
    mode: Mode,
)
    requires
        model::fits(got),
        model::fits(name),
    ensures
        got != model::text("(") ==> grammar::take_entry_head(
            model::token(got) + rest,
            previous,
            mode,
        ) == Err::<(Seq<u8>, Seq<u8>), _>(not_due("(", got, mode)),
        got != model::text("name") ==> grammar::take_entry_head(
            model::word("(") + (model::token(got) + rest),
            previous,
            mode,
        ) == Err::<(Seq<u8>, Seq<u8>), _>(not_due("name", got, mode)),
        mode == Mode::Stream && name.len() > 1048576 ==> grammar::take_entry_head(
            model::word("(") + (model::word("name") + (model::token(name) + rest)),
            previous,
            mode,
        ) == Err::<(Seq<u8>, Seq<u8>), _>(
            ErrorView::TokenTooLarge { size: name.len(), limit: 1048576 },
        ),
        name.len() <= 1048576 && !names::valid_name(name) ==> grammar::take_entry_head(
            model::word("(") + (model::word("name") + (model::token(name) + rest)),
            previous,
            mode,
        ) == Err::<(Seq<u8>, Seq<u8>), _>(ErrorView::InvalidName(names::describe(name))),
        name.len() <= 1048576 && names::valid_name(name) && previous is Some && !names::less(
            previous->0,
            name,
        ) ==> grammar::take_entry_head(
            model::word("(") + (model::word("name") + (model::token(name) + rest)),
            previous,
            mode,
        ) == Err::<(Seq<u8>, Seq<u8>), _>(
            ErrorView::UnsortedEntries(names::describe(name), names::describe(previous->0)),
        ),
        name.len() <= 1048576 && names::valid_name(name) && (previous is Some ==> names::less(
            previous->0,
            name,
        )) && got != model::text("node") ==> grammar::take_entry_head(
            model::word("(") + (model::word("name") + (model::token(name) + (model::token(got)
                + rest))),
            previous,
            mode,
        ) == Err::<(Seq<u8>, Seq<u8>), _>(not_due("node", got, mode)),
{
    reveal(grammar::take_entry_head);
    roundtrip::lemma_words();
    let tail = model::token(got) + rest;
    let short = model::token(name) + rest;
    let long = model::token(name) + tail;
    lemma_word(got, rest, "(", mode);
    lemma_word(model::text("("), tail, "(", mode);
    lemma_word(got, rest, "name", mode);
    lemma_word(model::text("("), model::word("name") + short, "(", mode);
    lemma_word(model::text("("), model::word("name") + long, "(", mode);
    lemma_word(model::text("name"), short, "name", mode);
    lemma_word(model::text("name"), long, "name", mode);
    lemma_metadata(name, rest, mode);
    lemma_metadata(name, tail, mode);
    lemma_word(got, rest, "node", mode);
}

/// What is wrong with an entry is what is wrong with the directory, behind the
/// entries that were told of before.
pub proof fn law_entries_fail_as_their_heads_do(
    rest: Seq<u8>,
    previous: Option<Seq<u8>>,
    depth: nat,
    mode: Mode,
    error: ErrorView,
)
    requires
        grammar::take_entry_head(rest, previous, mode) == Err::<(Seq<u8>, Seq<u8>), _>(error),
    ensures
        grammar::parse_entries(model::word("entry") + rest, previous, depth, mode) == (Parse {
            events: Seq::empty(),
            rest: Err(error),
        }),
{
    roundtrip::lemma_words();
    lemma_control(model::text("entry"), rest, "entry or )", mode);
    assert(model::text("entry").len() != model::text(")").len());
}

// ---------------------------------------------------------------------------
// Archives
// ---------------------------------------------------------------------------

/// Bytes that do not begin with the token of the magic are refused as such,
/// whatever they are, and nothing is told of them.
pub proof fn law_archives_begin_with_the_magic(s: Seq<u8>, mode: Mode)
    ensures
        (forall|rest: Seq<u8>|
            s != #[trigger] (model::token(format_laws::ascii("nix-archive-1")) + rest))
            ==> grammar::parse_archive(s, mode) == (Parse {
            events: Seq::empty(),
            rest: Err(ErrorView::BadMagic),
        }),
{
    reveal_strlit("nix-archive-1");
    format_laws::law_words_are_their_characters("nix-archive-1");
    grammar::lemma_taken_token(s);
    if let Ok((got, rest)) = grammar::take_token(s) {
        if got == model::magic() {
            assert(s == model::token(format_laws::ascii("nix-archive-1")) + rest);
        }
    }
}

/// Behind the magic an archive is its root, and goes wrong as that does.
pub proof fn law_archives_fail_as_their_roots_do(rest: Seq<u8>, mode: Mode, error: ErrorView)
    requires
        grammar::parse_node(rest, None, 0, mode).rest == Err::<Seq<u8>, _>(error),
    ensures
        grammar::parse_archive(
            model::token(format_laws::ascii("nix-archive-1")) + rest,
            mode,
        ) == grammar::parse_node(rest, None, 0, mode),
{
    reveal_strlit("nix-archive-1");
    format_laws::law_words_are_their_characters("nix-archive-1");
    grammar::lemma_token_taken(model::magic(), rest);
}

// ---------------------------------------------------------------------------
// What a refusal leaves of a source
// ---------------------------------------------------------------------------

proof fn lemma_behind_token(bytes: Seq<u8>, rest: Seq<u8>)
    ensures
        ({
            let n = bytes.len();
            let s = model::token(bytes) + rest;
            &&& s.len() == 8 + n + model::padding(n) + rest.len()
            &&& s.skip(8).skip((n + model::padding(n)) as int) == rest
        }),
{
    reveal(model::token);
    let n = bytes.len();
    let s = model::token(bytes) + rest;
    assert(s.skip(8).skip((n + model::padding(n)) as int) =~= rest);
}

/// A source has been read past a token that is not too long.
pub proof fn law_what_a_refused_token_leaves(bytes: Seq<u8>, rest: Seq<u8>, limit: nat)
    requires
        bytes.len() <= limit,
        bytes.len() <= u64::MAX,
    ensures
        wire::token_left(model::token(bytes) + rest, limit) == rest,
        wire::bytes_left(bytes + rest, bytes.len()) == rest,
{
    grammar::lemma_token_taken(bytes, rest);
    lemma_behind_token(bytes, rest);
    assert((bytes + rest).skip(bytes.len() as int) =~= rest);
}

/// A source has been read past the length of a token that is too long.
pub proof fn law_what_a_long_token_leaves(n: nat, rest: Seq<u8>, limit: nat)
    requires
        limit < n <= u64::MAX,
    ensures
        wire::token_left(model::le64(n) + rest, limit) == rest,
{
    lemma_declared(n, rest);
}

/// A source that ends within a token has nothing left.
pub proof fn law_what_a_short_token_leaves(n: nat, part: Seq<u8>, limit: nat)
    requires
        n <= limit,
        n <= u64::MAX,
        part.len() < (n + 7) / 8 * 8,
    ensures
        wire::token_left(model::le64(n) + part, limit) == Seq::<u8>::empty(),
        part.len() < 8 ==> wire::token_left(part, limit) == Seq::<u8>::empty(),
        part.len() < n ==> wire::bytes_left(part, n) == Seq::<u8>::empty(),
{
    lemma_declared(n, part);
    lemma_blocks(n);
    assert(model::le64_value(model::le64(n) + part) <= limit);
}

/// The part of a stream that belongs to a file is its first bytes, as many as
/// the file has, or all there are.
pub proof fn law_files_have_the_first_bytes(contents: Seq<u8>, rest: Seq<u8>, n: nat)
    ensures
        model::up_to(contents + rest, contents.len()) == contents,
        n >= rest.len() ==> model::up_to(rest, n) == rest,
{
    assert((contents + rest).take(contents.len() as int) =~= contents);
    assert(rest.take(rest.len() as int) =~= rest);
}

}
