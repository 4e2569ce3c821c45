//! What a decoder makes of a sequence of bytes.
//!
//! Nothing here is executed. Each function reads from the front of a sequence
//! and says what remains, or which error is owed.

use vstd::prelude::*;

use crate::decimal;
use crate::model;
use crate::model::EventView;
use crate::names;
use crate::nar::ErrorView;

verus! {

/// How the archive reaches the decoder: as one slice, or piece by piece from a
/// source, which bounds every token but file contents.
#[derive(PartialEq, Eq, Structural)]
pub enum Mode {
    Slice,
    Stream,
}

/// The longest token that can be a word of the grammar in a stream.
pub const MAX_CONTROL_TOKEN: usize = 16;

/// What was read, and what remains.
pub type Taken = Result<(Seq<u8>, Seq<u8>), ErrorView>;

/// The events delivered, and then what remains or the error owed.
pub struct Parse {
    pub events: Seq<EventView>,
    pub rest: Result<Seq<u8>, ErrorView>,
}

/// Nothing delivered, and an error.
pub open spec fn failed(error: ErrorView) -> Parse {
    Parse { events: Seq::empty(), rest: Err(error) }
}

/// Deliver `event`, then go on as `rest` says.
pub open spec fn delivered(event: EventView, rest: Result<Seq<u8>, ErrorView>) -> Parse {
    Parse { events: seq![event], rest }
}

/// Read one token.
#[verifier::opaque]
pub open spec fn take_token(s: Seq<u8>) -> Taken {
    if s.len() < 8 {
        Err(ErrorView::UnexpectedEof)
    } else {
        take_payload(s.skip(8), model::le64_value(s))
    }
}

/// Read the `n` bytes of a token and its padding.
pub open spec fn take_payload(s: Seq<u8>, n: nat) -> Taken {
    if s.len() < n {
        Err(ErrorView::UnexpectedEof)
    } else {
        match take_padding(s.skip(n as int), n) {
            Ok(rest) => Ok((s.take(n as int), rest)),
            Err(e) => Err(e),
        }
    }
}

/// Read the padding behind `n` bytes.
pub open spec fn take_padding(s: Seq<u8>, n: nat) -> Result<Seq<u8>, ErrorView> {
    let p = model::padding(n);
    if s.len() < p {
        Err(ErrorView::UnexpectedEof)
    } else if s.take(p as int) != model::zeros(p) {
        Err(ErrorView::BadPadding)
    } else {
        Ok(s.skip(p as int))
    }
}

/// How a diagnostic shows a token that is too long to be a word of the grammar:
/// by its size alone.
pub open spec fn oversized(n: nat) -> Seq<char> {
    "<"@ + decimal::numeral(n) + "-byte token>"@
}

/// Read a token where a word of the grammar is due.
#[verifier::opaque]
pub open spec fn take_control(s: Seq<u8>, expected: &str, mode: Mode) -> Taken {
    if s.len() < 8 {
        Err(ErrorView::UnexpectedEof)
    } else if mode == Mode::Stream && model::le64_value(s) > MAX_CONTROL_TOKEN {
        Err(
            ErrorView::UnexpectedToken {
                expected: expected@,
                got: oversized(model::le64_value(s)),
            },
        )
    } else {
        take_token(s)
    }
}

/// The error for the token `got` where `expected` is due.
pub open spec fn unexpected(expected: &str, got: Seq<u8>) -> ErrorView {
    ErrorView::UnexpectedToken { expected: expected@, got: names::describe(got) }
}

/// Read the word `expected`.
#[verifier::opaque]
pub open spec fn take_word(s: Seq<u8>, expected: &str, mode: Mode) -> Result<Seq<u8>, ErrorView> {
    match take_control(s, expected, mode) {
        Err(e) => Err(e),
        Ok((got, rest)) => if got == model::text(expected) {
            Ok(rest)
        } else {
            Err(unexpected(expected, got))
        },
    }
}

/// Read two words in turn.
pub open spec fn take_words(s: Seq<u8>, first: &str, second: &str, mode: Mode) -> Result<
    Seq<u8>,
    ErrorView,
> {
    match take_word(s, first, mode) {
        Err(e) => Err(e),
        Ok(rest) => take_word(rest, second, mode),
    }
}

/// Read a name or a symlink target.
#[verifier::opaque]
pub open spec fn take_metadata(s: Seq<u8>, mode: Mode) -> Taken {
    if s.len() < 8 {
        Err(ErrorView::UnexpectedEof)
    } else if mode == Mode::Stream && model::le64_value(s) > model::MAX_METADATA_TOKEN {
        Err(
            ErrorView::TokenTooLarge {
                size: model::le64_value(s),
                limit: model::MAX_METADATA_TOKEN as nat,
            },
        )
    } else {
        take_token(s)
    }
}

/// Read what stands between the type and the contents of a regular file: whether
/// it is executable.
#[verifier::opaque]
pub open spec fn take_flags(s: Seq<u8>, mode: Mode) -> Result<(bool, Seq<u8>), ErrorView> {
    match take_control(s, "contents", mode) {
        Err(e) => Err(e),
        Ok((got, rest)) => if got == model::text("executable") {
            match take_words(rest, "", "contents", mode) {
                Err(e) => Err(e),
                Ok(rest) => Ok((true, rest)),
            }
        } else if got == model::text("contents") {
            Ok((false, rest))
        } else {
            Err(unexpected("contents", got))
        },
    }
}

/// Read the contents of a regular file and the end of its node. A slice is
/// checked before the file is delivered; a stream delivers it first.
#[verifier::opaque]
pub open spec fn parse_contents(
    s: Seq<u8>,
    name: Option<Seq<u8>>,
    executable: bool,
    mode: Mode,
) -> Parse {
    if s.len() < 8 {
        failed(ErrorView::UnexpectedEof)
    } else {
        let size = model::le64_value(s);
        let contents = model::up_to(s.skip(8), size);
        let event = EventView::Regular { name, executable, size, contents };
        let rest = match take_token(s) {
            Err(e) => Err(e),
            Ok((_, after)) => take_word(after, ")", mode),
        };
        if mode == Mode::Stream || rest is Ok {
            delivered(event, rest)
        } else {
            Parse { events: Seq::empty(), rest }
        }
    }
}

/// Read a regular file from behind its type.
#[verifier::opaque]
pub open spec fn parse_regular(s: Seq<u8>, name: Option<Seq<u8>>, mode: Mode) -> Parse {
    match take_flags(s, mode) {
        Err(e) => failed(e),
        Ok((executable, rest)) => parse_contents(rest, name, executable, mode),
    }
}

/// Read a symlink from behind its type.
#[verifier::opaque]
pub open spec fn parse_symlink(s: Seq<u8>, name: Option<Seq<u8>>, mode: Mode) -> Parse {
    match take_word(s, "target", mode) {
        Err(e) => failed(e),
        Ok(rest) => match take_metadata(rest, mode) {
            Err(e) => failed(e),
            Ok((target, rest)) => match take_word(rest, ")", mode) {
                Err(e) => failed(e),
                Ok(rest) => delivered(EventView::Symlink { name, target }, Ok(rest)),
            },
        },
    }
}

/// Read the head of the entry that follows `previous`, up to its node: the
/// name, and what remains.
#[verifier::opaque]
pub open spec fn take_entry_head(s: Seq<u8>, previous: Option<Seq<u8>>, mode: Mode) -> Taken {
    match take_words(s, "(", "name", mode) {
        Err(e) => Err(e),
        Ok(rest) => match take_metadata(rest, mode) {
            Err(e) => Err(e),
            Ok((child, rest)) => match names::name_error(child, previous) {
                Some(e) => Err(e),
                None => match take_word(rest, "node", mode) {
                    Err(e) => Err(e),
                    Ok(rest) => Ok((child, rest)),
                },
            },
        },
    }
}

/// Deliver the start of a directory before what is in it, and the end of it
/// after.
pub open spec fn enclosed(name: Option<Seq<u8>>, inner: Parse) -> Parse {
    Parse {
        events: seq![EventView::DirectoryStart { name }] + inner.events + (if inner.rest is Ok {
            seq![EventView::DirectoryEnd { name }]
        } else {
            Seq::empty()
        }),
        rest: inner.rest,
    }
}

/// Read a node known as `name` at `depth`.
pub open spec fn parse_node(s: Seq<u8>, name: Option<Seq<u8>>, depth: nat, mode: Mode) -> Parse
    decreases s.len(), 0nat,
{
    if depth >= model::MAX_DEPTH {
        failed(ErrorView::MaxDepth(model::MAX_DEPTH as nat))
    } else {
        match take_words(s, "(", "type", mode) {
            Err(e) => failed(e),
            Ok(rest) => match take_control(rest, "regular, symlink or directory", mode) {
                Err(e) => failed(e),
                Ok((kind, rest)) => if kind == model::text("regular") {
                    parse_regular(rest, name, mode)
                } else if kind == model::text("symlink") {
                    parse_symlink(rest, name, mode)
                } else if kind == model::text("directory") {
                    if rest.len() < s.len() {
                        enclosed(name, parse_entries(rest, None, depth, mode))
                    } else {
                        arbitrary()
                    }
                } else {
                    failed(unexpected("regular, symlink or directory", kind))
                },
            },
        }
    }
}

/// Read the entries that follow `previous` in a directory at `depth`, and the
/// end of its node.
pub open spec fn parse_entries(
    s: Seq<u8>,
    previous: Option<Seq<u8>>,
    depth: nat,
    mode: Mode,
) -> Parse
    decreases s.len(), 1nat,
{
    match take_control(s, "entry or )", mode) {
        Err(e) => failed(e),
        Ok((got, rest)) => if got == model::text(")") {
            Parse { events: Seq::empty(), rest: Ok(rest) }
        } else if got != model::text("entry") {
            failed(unexpected("entry or )", got))
        } else {
            match take_entry_head(rest, previous, mode) {
                Err(e) => failed(e),
                Ok((child, rest)) => if rest.len() < s.len() {
                    let inner = parse_node(rest, Some(child), depth + 1, mode);
                    let after = match inner.rest {
                        Err(e) => Err(e),
                        Ok(rest) => take_word(rest, ")", mode),
                    };
                    match after {
                        Err(e) => Parse { events: inner.events, rest: Err(e) },
                        Ok(rest) => if rest.len() < s.len() {
                            let more = parse_entries(rest, Some(child), depth, mode);
                            Parse { events: inner.events + more.events, rest: more.rest }
                        } else {
                            arbitrary()
                        },
                    }
                } else {
                    arbitrary()
                },
            }
        },
    }
}

/// Decode a whole archive. Whatever is wrong with the magic is one error, and
/// nothing may follow the archive.
pub open spec fn parse_archive(s: Seq<u8>, mode: Mode) -> Parse {
    match take_token(s) {
        Ok((got, rest)) if got == model::magic() => {
            let root = parse_node(rest, None, 0, mode);
            match root.rest {
                Ok(rest) if rest.len() > 0 => Parse {
                    events: root.events,
                    rest: Err(ErrorView::TrailingBytes),
                },
                _ => root,
            }
        },
        _ => failed(ErrorView::BadMagic),
    }
}

// ---------------------------------------------------------------------------
// Reading makes progress
// ---------------------------------------------------------------------------

/// A token is read back from the front of what it was put in front of.
pub proof fn lemma_token_taken(bytes: Seq<u8>, rest: Seq<u8>)
    requires
        model::fits(bytes),
    ensures
        take_token(model::token(bytes) + rest) == Ok::<_, ErrorView>((bytes, rest)),
        (model::token(bytes) + rest).len() >= 8,
        model::le64_value(model::token(bytes) + rest) == bytes.len(),
{
    reveal(take_token);
    reveal(model::token);
    let n = bytes.len();
    let p = model::padding(n);
    let s = model::token(bytes) + rest;
    model::lemma_le64_inverse(n);
    assert(model::le64_value(s) == model::le64_value(model::le64(n)));
    let body = s.skip(8);
    assert(body =~= bytes + model::zeros(p) + rest);
    assert(body.take(n as int) =~= bytes);
    let after = body.skip(n as int);
    assert(after =~= model::zeros(p) + rest);
    assert(after.take(p as int) =~= model::zeros(p));
    assert(after.skip(p as int) =~= rest);
}

/// Whatever is read as a token is one.
pub proof fn lemma_taken_token(s: Seq<u8>)
    ensures
        take_token(s) matches Ok((bytes, rest)) ==> {
            &&& s == model::token(bytes) + rest
            &&& model::fits(bytes)
            &&& rest.len() + 8 <= s.len()
        },
{
    reveal(take_token);
    reveal(model::token);
    if let Ok((bytes, rest)) = take_token(s) {
        let n = model::le64_value(s);
        let p = model::padding(n);
        model::lemma_le64_value_inverse(s);
        let body = s.skip(8);
        let after = body.skip(n as int);
        assert(bytes.len() == n);
        assert(s =~= s.take(8) + body);
        assert(body =~= bytes + after);
        assert(after =~= model::zeros(p) + rest);
        assert(s =~= model::token(bytes) + rest);
    }
}

/// In a slice no token is bounded.
pub proof fn lemma_slice_tokens(s: Seq<u8>, expected: &str)
    ensures
        take_control(s, expected, Mode::Slice) == take_token(s),
        take_metadata(s, Mode::Slice) == take_token(s),
{
    reveal(take_control);
    reveal(take_metadata);
    reveal(take_token);
}

/// Reading a token where a word is due consumes it.
pub proof fn lemma_take_control_shrinks(s: Seq<u8>, expected: &str, mode: Mode)
    ensures
        take_control(s, expected, mode) matches Ok((bytes, rest)) ==> {
            &&& s == model::token(bytes) + rest
            &&& model::fits(bytes)
            &&& rest.len() + 8 <= s.len()
        },
{
    reveal(take_control);
    lemma_taken_token(s);
}

/// Reading a name or a symlink target consumes it.
pub proof fn lemma_take_metadata_shrinks(s: Seq<u8>, mode: Mode)
    ensures
        take_metadata(s, mode) matches Ok((bytes, rest)) ==> {
            &&& s == model::token(bytes) + rest
            &&& model::fits(bytes)
            &&& rest.len() + 8 <= s.len()
            &&& mode == Mode::Stream ==> bytes.len() <= model::MAX_METADATA_TOKEN
        },
{
    reveal(take_metadata);
    reveal(take_token);
    lemma_taken_token(s);
}

/// Reading a word consumes it.
pub proof fn lemma_take_word_shrinks(s: Seq<u8>, expected: &str, mode: Mode)
    ensures
        take_word(s, expected, mode) matches Ok(rest) ==> rest.len() + 8 <= s.len() && s
            == model::word(expected) + rest,
{
    reveal(take_control);
    reveal(take_word);
    lemma_taken_token(s);
}

pub proof fn lemma_take_words_shrinks(s: Seq<u8>, first: &str, second: &str, mode: Mode)
    ensures
        take_words(s, first, second, mode) matches Ok(rest) ==> rest.len() + 8 <= s.len() && s
            == model::word(first) + model::word(second) + rest,
{
    lemma_take_word_shrinks(s, first, mode);
    if let Ok(rest) = take_word(s, first, mode) {
        lemma_take_word_shrinks(rest, second, mode);
        if let Ok(end) = take_word(rest, second, mode) {
            assert(s =~= model::word(first) + model::word(second) + end);
        }
    }
}

pub proof fn lemma_take_entry_head_shrinks(s: Seq<u8>, previous: Option<Seq<u8>>, mode: Mode)
    ensures
        take_entry_head(s, previous, mode) matches Ok((child, rest)) ==> {
            &&& rest.len() + 8 <= s.len()
            &&& s == model::word("(") + model::word("name") + model::token(child) + model::word(
                "node",
            ) + rest
            &&& names::name_error(child, previous) is None
            &&& model::fits(child)
            &&& mode == Mode::Stream ==> child.len() <= model::MAX_METADATA_TOKEN
        },
{
    reveal(take_entry_head);
    lemma_take_words_shrinks(s, "(", "name", mode);
    if let Ok(r1) = take_words(s, "(", "name", mode) {
        lemma_take_metadata_shrinks(r1, mode);
        if let Ok((child, r2)) = take_metadata(r1, mode) {
            lemma_take_word_shrinks(r2, "node", mode);
            if let Ok(r3) = take_word(r2, "node", mode) {
                assert(s =~= model::word("(") + model::word("name") + model::token(child)
                    + model::word("node") + r3);
            }
        }
    }
}

pub proof fn lemma_take_flags_shrinks(s: Seq<u8>, mode: Mode)
    ensures
        take_flags(s, mode) matches Ok((executable, rest)) ==> {
            &&& rest.len() + 8 <= s.len()
            &&& s == (if executable {
                model::word("executable") + model::word("")
            } else {
                Seq::empty()
            }) + model::word("contents") + rest
        },
{
    reveal(take_flags);
    reveal(take_control);
    lemma_taken_token(s);
    if let Ok((got, r1)) = take_control(s, "contents", mode) {
        lemma_take_words_shrinks(r1, "", "contents", mode);
        if let Ok((executable, rest)) = take_flags(s, mode) {
            if executable {
                assert(s =~= model::word("executable") + model::word("") + model::word("contents")
                    + rest);
            } else {
                assert(s =~= Seq::<u8>::empty() + model::word("contents") + rest);
            }
        }
    }
}

/// A node leaves less than there was.
pub proof fn lemma_parse_node_shrinks(s: Seq<u8>, name: Option<Seq<u8>>, depth: nat, mode: Mode)
    ensures
        parse_node(s, name, depth, mode).rest matches Ok(rest) ==> rest.len() < s.len(),
    decreases s.len(), 0nat,
{
    reveal(take_control);
    reveal(take_metadata);
    reveal(parse_regular);
    reveal(parse_contents);
    reveal(parse_symlink);
    lemma_take_words_shrinks(s, "(", "type", mode);
    if let Ok(r1) = take_words(s, "(", "type", mode) {
        lemma_taken_token(r1);
        if let Ok((kind, r2)) = take_control(r1, "regular, symlink or directory", mode) {
            lemma_take_flags_shrinks(r2, mode);
            if let Ok((_, r3)) = take_flags(r2, mode) {
                lemma_taken_token(r3);
                if let Ok((_, r4)) = take_token(r3) {
                    lemma_take_word_shrinks(r4, ")", mode);
                }
            }
            lemma_take_word_shrinks(r2, "target", mode);
            if let Ok(r3) = take_word(r2, "target", mode) {
                lemma_taken_token(r3);
                if let Ok((_, r4)) = take_metadata(r3, mode) {
                    lemma_take_word_shrinks(r4, ")", mode);
                }
            }
            lemma_parse_entries_shrinks(r2, None, depth, mode);
        }
    }
}

/// The entries of a directory leave less than there was.
pub proof fn lemma_parse_entries_shrinks(
    s: Seq<u8>,
    previous: Option<Seq<u8>>,
    depth: nat,
    mode: Mode,
)
    ensures
        parse_entries(s, previous, depth, mode).rest matches Ok(rest) ==> rest.len() < s.len(),
    decreases s.len(), 1nat,
{
    reveal(take_control);
    lemma_taken_token(s);
    if let Ok((got, r1)) = take_control(s, "entry or )", mode) {
        lemma_take_entry_head_shrinks(r1, previous, mode);
        if let Ok((child, r2)) = take_entry_head(r1, previous, mode) {
            lemma_parse_node_shrinks(r2, Some(child), depth + 1, mode);
            if let Ok(r3) = parse_node(r2, Some(child), depth + 1, mode).rest {
                lemma_take_word_shrinks(r3, ")", mode);
                if let Ok(r4) = take_word(r3, ")", mode) {
                    lemma_parse_entries_shrinks(r4, Some(child), depth, mode);
                }
            }
        }
    }
}

/// What reading one more entry amounts to.
pub proof fn lemma_parse_one_entry(s: Seq<u8>, previous: Option<Seq<u8>>, depth: nat, mode: Mode)
    requires
        take_control(s, "entry or )", mode) matches Ok((got, r1)) && got != model::text(")") && got
            == model::text("entry") && take_entry_head(r1, previous, mode) is Ok,
    ensures
        ({
            let r1 = take_control(s, "entry or )", mode)->Ok_0.1;
            let (child, r2) = take_entry_head(r1, previous, mode)->Ok_0;
            let left = parse_entries(s, previous, depth, mode);
            let inner = parse_node(r2, Some(child), depth + 1, mode);
            &&& left.events.len() >= inner.events.len()
            &&& left.events.take(inner.events.len() as int) == inner.events
            &&& match inner.rest {
                Err(e) => left == inner,
                Ok(r3) => match take_word(r3, ")", mode) {
                    Err(e) => left.events == inner.events && left.rest == Err::<Seq<u8>, _>(e),
                    Ok(r4) => {
                        let more = parse_entries(r4, Some(child), depth, mode);
                        &&& r4.len() < s.len()
                        &&& left.events == inner.events + more.events
                        &&& left.rest == more.rest
                    },
                },
            }
        }),
{
    lemma_take_control_shrinks(s, "entry or )", mode);
    let r1 = take_control(s, "entry or )", mode)->Ok_0.1;
    let (child, r2) = take_entry_head(r1, previous, mode)->Ok_0;
    lemma_take_entry_head_shrinks(r1, previous, mode);
    let inner = parse_node(r2, Some(child), depth + 1, mode);
    lemma_parse_node_shrinks(r2, Some(child), depth + 1, mode);
    if let Ok(r3) = inner.rest {
        lemma_take_word_shrinks(r3, ")", mode);
    }
    let left = parse_entries(s, previous, depth, mode);
    assert(left.events.take(inner.events.len() as int) =~= inner.events);
}

}
