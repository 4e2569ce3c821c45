//! NAR decoding, either as allocation-free borrowed events or as a collected
//! post-order entry stream.

use vstd::prelude::*;

use crate::grammar;
use crate::grammar::{Mode, Parse};
use crate::io;
use crate::io::{ByteSink, ByteSource, IoError, IoErrorKind};
use crate::model;
use crate::model::{EventView, MAX_DEPTH};
use crate::names;
use crate::names::{describe_bytes, same_bytes, validate_child_name};
use crate::nar::{Error, ErrorView};
use crate::wire;
use crate::wire::{
    expect_magic, expect_word, read_bytes, read_control, read_len, read_padding, skip_bytes,
    source_exhausted, Cursor,
};

verus! {

/// A root-first decoding event.
///
/// The root object's `name` is `None`; every child has the raw name from its
/// containing directory. Directories produce a balanced start/end pair.
///
/// `C` is how a regular file's contents are presented, and it is the only
/// thing that differs between the decoders. [`decode_events`] fills it with
/// `&'a [u8]` borrowed straight from the archive; [`decode_events_reader`] fills
/// it with [`FileContents`], a reader valid only for the duration of the visit.
#[derive(Clone, Copy, Debug, PartialEq, Eq)]
pub enum Event<'a, C = &'a [u8]> {
    DirectoryStart { name: Option<&'a [u8]> },
    DirectoryEnd { name: Option<&'a [u8]> },
    Regular { name: Option<&'a [u8]>, executable: bool, contents: C },
    Symlink { name: Option<&'a [u8]>, target: &'a [u8] },
}

/// The model of an event whose contents are in memory.
pub open spec fn slice_event(event: Event<'_>) -> EventView {
    match event {
        Event::DirectoryStart { name } => EventView::DirectoryStart { name: names::optional(name) },
        Event::DirectoryEnd { name } => EventView::DirectoryEnd { name: names::optional(name) },
        Event::Regular { name, executable, contents } => model::regular_event(
            names::optional(name),
            executable,
            contents@,
        ),
        Event::Symlink { name, target } => EventView::Symlink {
            name: names::optional(name),
            target: target@,
        },
    }
}

/// Something that [`decode_events`] delivers events to.
///
/// Only contracts speak of what has a body here; a visitor itself is `visit`.
pub trait EventVisitor<'a> {
    /// The events delivered so far.
    closed spec fn seen(&self) -> Seq<EventView> {
        arbitrary()
    }

    /// What the visitor needs to hold of itself to take an event.
    closed spec fn sound(&self) -> bool {
        arbitrary()
    }

    /// The error with which the visitor has stopped the decoder, if it has.
    closed spec fn refusal(&self) -> Option<ErrorView> {
        arbitrary()
    }

    /// The visitor never stops the decoder.
    closed spec fn tireless(&self) -> bool {
        arbitrary()
    }

    /// Take one event. An error stops the decoder, which returns it.
    fn visit(&mut self, event: Event<'a>) -> (r: Result<(), Error>)
        requires
            old(self).sound(),
            old(self).refusal() is None,
        ensures
            final(self).sound(),
            final(self).seen() == old(self).seen().push(slice_event(event)),
            old(self).tireless() ==> final(self).tireless() && r is Ok,
            match r {
                Ok(()) => final(self).refusal() is None,
                Err(e) => final(self).refusal() == Some(e@),
            },
    ;
}

/// A decoder that owes `parse` has delivered to a visitor what it should: all
/// of the events, with the outcome owed, unless the visitor stopped it or the
/// source broke down part way.
pub open spec fn followed(
    parse: Parse,
    before: Seq<EventView>,
    after: Seq<EventView>,
    refusal: Option<ErrorView>,
    cause: Option<io::IoErrorView>,
    r: Result<Seq<u8>, ErrorView>,
) -> bool {
    let count = after.len() - before.len();
    &&& 0 <= count <= parse.events.len()
    &&& after == before + parse.events.take(count)
    &&& match r {
        Ok(rest) => refusal is None && count == parse.events.len() && parse.rest == Ok::<
            _,
            ErrorView,
        >(rest),
        Err(e) => match refusal {
            Some(refused) => e == refused,
            None => wire::source_failure(cause, e) || (count == parse.events.len() && parse.rest
                == Err::<Seq<u8>, _>(e)),
        },
    }
}

/// The outcome of a decoder that has `rest` left where it succeeds.
pub open spec fn outcome(r: Result<(), Error>, rest: Seq<u8>) -> Result<Seq<u8>, ErrorView> {
    match r {
        Ok(()) => Ok(rest),
        Err(e) => Err(e@),
    }
}

/// What goes wrong in a part of an archive goes wrong in the whole.
proof fn lemma_followed_inner(
    whole: Parse,
    delivered: Seq<EventView>,
    part: Parse,
    before: Seq<EventView>,
    after: Seq<EventView>,
    refusal: Option<ErrorView>,
    cause: Option<io::IoErrorView>,
    e: ErrorView,
)
    requires
        followed(part, before + delivered, after, refusal, cause, Err(e)),
        whole.events.len() >= delivered.len() + part.events.len(),
        whole.events.take((delivered.len() + part.events.len()) as int) == delivered + part.events,
        part.rest is Err ==> whole.events == delivered + part.events && whole.rest == part.rest,
    ensures
        followed(whole, before, after, refusal, cause, Err(e)),
{
    let count = after.len() - (before + delivered).len();
    let total = after.len() - before.len();
    assert(after =~= before + whole.events.take(total)) by {
        let head = delivered + part.events;
        assert(head.take(total) =~= delivered + part.events.take(count));
        assert(whole.events.take(total) =~= whole.events.take(head.len() as int).take(total));
    }
}

/// What has been delivered is a first part of what is owed, and all of it where
/// nothing is left.
proof fn lemma_followed_so_far(
    whole: Parse,
    delivered: Seq<EventView>,
    left: Parse,
    before: Seq<EventView>,
)
    requires
        whole.events == delivered + left.events,
    ensures
        before + whole.events.take(delivered.len() as int) == before + delivered,
        left.events.len() == 0 ==> whole.events == delivered,
{
    assert(whole.events.take(delivered.len() as int) =~= delivered);
    if left.events.len() == 0 {
        assert(whole.events =~= delivered);
    }
}

/// What a part of an archive delivers comes first among what is left.
proof fn lemma_part_of(whole: Parse, delivered: Seq<EventView>, part: Parse, left: Parse)
    requires
        whole.events == delivered + left.events,
        left.events.len() >= part.events.len(),
        left.events.take(part.events.len() as int) == part.events,
    ensures
        whole.events.len() >= delivered.len() + part.events.len(),
        whole.events.take((delivered.len() + part.events.len()) as int) == delivered + part.events,
        left.events == part.events ==> whole.events == delivered + part.events,
{
    assert(whole.events.take((delivered.len() + part.events.len()) as int) =~= delivered
        + left.events.take(part.events.len() as int));
}

/// A directory whose start the visitor refused.
proof fn lemma_followed_start(name: Option<Seq<u8>>, inner: Parse, before: Seq<EventView>)
    ensures
        before.push(EventView::DirectoryStart { name }) == before + grammar::enclosed(
            name,
            inner,
        ).events.take(1),
        grammar::enclosed(name, inner).events.len() >= 1,
{
    assert(before.push(EventView::DirectoryStart { name }) =~= before + grammar::enclosed(
        name,
        inner,
    ).events.take(1));
}

/// A directory that went wrong among its entries.
proof fn lemma_followed_inside(
    name: Option<Seq<u8>>,
    inner: Parse,
    before: Seq<EventView>,
    after: Seq<EventView>,
    refusal: Option<ErrorView>,
    cause: Option<io::IoErrorView>,
    e: ErrorView,
)
    requires
        followed(
            inner,
            before.push(EventView::DirectoryStart { name }),
            after,
            refusal,
            cause,
            Err(e),
        ),
    ensures
        followed(grammar::enclosed(name, inner), before, after, refusal, cause, Err(e)),
{
    let whole = grammar::enclosed(name, inner);
    let start = seq![EventView::DirectoryStart { name }];
    assert(before.push(EventView::DirectoryStart { name }) =~= before + start);
    assert(whole.events.take((start.len() + inner.events.len()) as int) =~= start + inner.events);
    if inner.rest is Err {
        assert(whole.events =~= start + inner.events);
    }
    lemma_followed_inner(whole, start, inner, before, after, refusal, cause, e);
}

/// A directory that was delivered up to its end.
proof fn lemma_followed_end(name: Option<Seq<u8>>, inner: Parse, before: Seq<EventView>)
    requires
        inner.rest is Ok,
    ensures
        ({
            let whole = grammar::enclosed(name, inner);
            let inside = before.push(EventView::DirectoryStart { name }) + inner.events.take(
                inner.events.len() as int,
            );
            inside.push(EventView::DirectoryEnd { name }) == before + whole.events.take(
                whole.events.len() as int,
            )
        }),
{
    let whole = grammar::enclosed(name, inner);
    let inside = before.push(EventView::DirectoryStart { name }) + inner.events.take(
        inner.events.len() as int,
    );
    assert(inside.push(EventView::DirectoryEnd { name }) =~= before + whole.events.take(
        whole.events.len() as int,
    ));
}

// ---------------------------------------------------------------------------
// Decoding a slice
// ---------------------------------------------------------------------------

/// Visit a NAR in its root-first wire order without allocating on valid input.
///
/// **Choose this when the archive is already in memory.** It is the only
/// decoder that hands you contents you are allowed to keep.
///
/// Pros: zero allocation on valid input, the visitor permitting; names,
/// targets, and contents are borrowed straight from `nar` rather than copied,
/// and stay valid as long as `nar` does, so they can outlive the visit; a
/// whole payload is one slice, so hashing or writing it is a single call; no
/// bound on token sizes beyond the slice itself.
///
/// Cons: `nar` must be fully in memory, so peak memory is at least the size of
/// the archive. Use [`decode_events_reader`] when the archive is still
/// arriving, or when it does not fit.
///
/// Events already delivered before a malformed archive is detected are not
/// rolled back.
pub fn decode_events<'a, V: EventVisitor<'a>>(nar: &'a [u8], visitor: &mut V) -> (r: Result<
    (),
    Error,
>)
    requires
        old(visitor).sound(),
        old(visitor).refusal() is None,
    ensures
        followed(
            grammar::parse_archive(nar@, Mode::Slice),
            old(visitor).seen(),
            final(visitor).seen(),
            final(visitor).refusal(),
            None,
            outcome(r, Seq::empty()),
        ),
        final(visitor).sound(),
        old(visitor).tireless() ==> final(visitor).tireless() && final(visitor).refusal() is None,
{
    let ghost parse = grammar::parse_archive(nar@, Mode::Slice);
    let mut cursor = Cursor::new(nar);
    let found = match cursor.read_token() {
        Ok(token) => same_bytes(token, "nix-archive-1".as_bytes()),
        Err(_) => false,
    };
    if !found {
        assert(visitor.seen() =~= old(visitor).seen() + parse.events.take(0));
        return Err(Error::BadMagic);
    }
    let ghost root = grammar::parse_node(cursor.rest(), None, 0, Mode::Slice);
    assert(root.events == parse.events);
    parse_node(&mut cursor, None, 0, visitor)?;
    if !cursor.is_exhausted() {
        return Err(Error::TrailingBytes);
    }
    assert(cursor.rest() =~= Seq::<u8>::empty());
    Ok(())
}

fn parse_node<'a, V: EventVisitor<'a>>(
    cursor: &mut Cursor<'a>,
    name: Option<&'a [u8]>,
    depth: usize,
    visitor: &mut V,
) -> (r: Result<(), Error>)
    requires
        old(cursor).wf(),
        old(visitor).sound(),
        old(visitor).refusal() is None,
        depth <= MAX_DEPTH,
    ensures
        final(cursor).wf(),
        followed(
            grammar::parse_node(
                old(cursor).rest(),
                names::optional(name),
                depth as nat,
                Mode::Slice,
            ),
            old(visitor).seen(),
            final(visitor).seen(),
            final(visitor).refusal(),
            None,
            outcome(r, final(cursor).rest()),
        ),
        final(visitor).sound(),
        old(visitor).tireless() ==> final(visitor).tireless() && final(visitor).refusal() is None,
    decreases MAX_DEPTH - depth, 2nat,
{
    let ghost s = cursor.rest();
    let ghost label = names::optional(name);
    let ghost parse = grammar::parse_node(s, label, depth as nat, Mode::Slice);
    assert(visitor.seen() =~= visitor.seen() + parse.events.take(0));
    if depth >= MAX_DEPTH {
        return Err(Error::MaxDepth(MAX_DEPTH));
    }
    cursor.expect("(")?;
    cursor.expect("type")?;
    proof {
        grammar::lemma_take_words_shrinks(s, "(", "type", Mode::Slice);
        grammar::lemma_slice_tokens(cursor.rest(), "regular, symlink or directory");
        grammar::lemma_taken_token(cursor.rest());
    }
    let kind = cursor.read_token()?;
    if same_bytes(kind, "regular".as_bytes()) {
        parse_regular(cursor, name, visitor)
    } else if same_bytes(kind, "symlink".as_bytes()) {
        parse_symlink(cursor, name, visitor)
    } else if same_bytes(kind, "directory".as_bytes()) {
        parse_directory(cursor, name, depth, visitor)
    } else {
        Err(
            Error::UnexpectedToken {
                expected: "regular, symlink or directory",
                got: describe_bytes(kind),
            },
        )
    }
}

fn parse_regular<'a, V: EventVisitor<'a>>(
    cursor: &mut Cursor<'a>,
    name: Option<&'a [u8]>,
    visitor: &mut V,
) -> (r: Result<(), Error>)
    requires
        old(cursor).wf(),
        old(visitor).sound(),
        old(visitor).refusal() is None,
    ensures
        final(cursor).wf(),
        followed(
            grammar::parse_regular(old(cursor).rest(), names::optional(name), Mode::Slice),
            old(visitor).seen(),
            final(visitor).seen(),
            final(visitor).refusal(),
            None,
            outcome(r, final(cursor).rest()),
        ),
        final(visitor).sound(),
        old(visitor).tireless() ==> final(visitor).tireless() && final(visitor).refusal() is None,
{
    let ghost parse = grammar::parse_regular(cursor.rest(), names::optional(name), Mode::Slice);
    assert(visitor.seen() =~= visitor.seen() + parse.events.take(0));
    proof {
        reveal(grammar::parse_regular);
        reveal(grammar::parse_contents);
        reveal(grammar::take_flags);
        reveal(grammar::take_word);
        grammar::lemma_slice_tokens(cursor.rest(), "contents");
    }
    let mut executable = false;
    let mut token = cursor.read_token()?;
    if same_bytes(token, "executable".as_bytes()) {
        executable = true;
        cursor.expect("")?;
        proof {
            grammar::lemma_slice_tokens(cursor.rest(), "contents");
        }
        token = cursor.read_token()?;
    }
    if !same_bytes(token, "contents".as_bytes()) {
        return Err(Error::UnexpectedToken { expected: "contents", got: describe_bytes(token) });
    }
    proof {
        reveal(grammar::take_token);
    }
    let contents = cursor.read_token()?;
    cursor.expect(")")?;
    let ghost before = visitor.seen();
    let r = visitor.visit(Event::Regular { name, executable, contents });
    assert(visitor.seen() =~= before + parse.events.take(1));
    r
}

fn parse_symlink<'a, V: EventVisitor<'a>>(
    cursor: &mut Cursor<'a>,
    name: Option<&'a [u8]>,
    visitor: &mut V,
) -> (r: Result<(), Error>)
    requires
        old(cursor).wf(),
        old(visitor).sound(),
        old(visitor).refusal() is None,
    ensures
        final(cursor).wf(),
        followed(
            grammar::parse_symlink(old(cursor).rest(), names::optional(name), Mode::Slice),
            old(visitor).seen(),
            final(visitor).seen(),
            final(visitor).refusal(),
            None,
            outcome(r, final(cursor).rest()),
        ),
        final(visitor).sound(),
        old(visitor).tireless() ==> final(visitor).tireless() && final(visitor).refusal() is None,
{
    let ghost parse = grammar::parse_symlink(cursor.rest(), names::optional(name), Mode::Slice);
    assert(visitor.seen() =~= visitor.seen() + parse.events.take(0));
    proof {
        reveal(grammar::parse_symlink);
    }
    cursor.expect("target")?;
    proof {
        grammar::lemma_slice_tokens(cursor.rest(), "");
    }
    let target = cursor.read_token()?;
    cursor.expect(")")?;
    let ghost before = visitor.seen();
    let r = visitor.visit(Event::Symlink { name, target });
    assert(visitor.seen() =~= before + parse.events.take(1));
    r
}

fn parse_directory<'a, V: EventVisitor<'a>>(
    cursor: &mut Cursor<'a>,
    name: Option<&'a [u8]>,
    depth: usize,
    visitor: &mut V,
) -> (r: Result<(), Error>)
    requires
        old(cursor).wf(),
        old(visitor).sound(),
        old(visitor).refusal() is None,
        depth < MAX_DEPTH,
    ensures
        final(cursor).wf(),
        followed(
            grammar::enclosed(
                names::optional(name),
                grammar::parse_entries(old(cursor).rest(), None, depth as nat, Mode::Slice),
            ),
            old(visitor).seen(),
            final(visitor).seen(),
            final(visitor).refusal(),
            None,
            outcome(r, final(cursor).rest()),
        ),
        final(visitor).sound(),
        old(visitor).tireless() ==> final(visitor).tireless() && final(visitor).refusal() is None,
    decreases MAX_DEPTH - depth, 1nat,
{
    let ghost inner = grammar::parse_entries(cursor.rest(), None, depth as nat, Mode::Slice);
    let ghost before = visitor.seen();
    match visitor.visit(Event::DirectoryStart { name }) {
        Ok(()) => {},
        Err(e) => {
            proof {
                lemma_followed_start(names::optional(name), inner, before);
            }
            return Err(e);
        },
    }
    match parse_entries(cursor, depth, visitor) {
        Ok(()) => {},
        Err(e) => {
            proof {
                lemma_followed_inside(
                    names::optional(name),
                    inner,
                    before,
                    visitor.seen(),
                    visitor.refusal(),
                    None,
                    e@,
                );
            }
            return Err(e);
        },
    }
    let r = visitor.visit(Event::DirectoryEnd { name });
    proof {
        lemma_followed_end(names::optional(name), inner, before);
    }
    r
}

fn parse_entries<'a, V: EventVisitor<'a>>(
    cursor: &mut Cursor<'a>,
    depth: usize,
    visitor: &mut V,
) -> (r: Result<(), Error>)
    requires
        old(cursor).wf(),
        old(visitor).sound(),
        old(visitor).refusal() is None,
        depth < MAX_DEPTH,
    ensures
        final(cursor).wf(),
        followed(
            grammar::parse_entries(old(cursor).rest(), None, depth as nat, Mode::Slice),
            old(visitor).seen(),
            final(visitor).seen(),
            final(visitor).refusal(),
            None,
            outcome(r, final(cursor).rest()),
        ),
        final(visitor).sound(),
        old(visitor).tireless() ==> final(visitor).tireless() && final(visitor).refusal() is None,
    decreases MAX_DEPTH - depth, 0nat,
{
    let ghost whole = grammar::parse_entries(cursor.rest(), None, depth as nat, Mode::Slice);
    let ghost before = visitor.seen();
    let ghost mut delivered: Seq<EventView> = Seq::empty();
    let mut previous: Option<&'a [u8]> = None;
    assert(whole.events =~= delivered + whole.events);
    assert(visitor.seen() =~= before + delivered);
    loop
        invariant
            cursor.wf(),
            visitor.sound(),
            visitor.refusal() is None,
            old(visitor).tireless() ==> visitor.tireless(),
            depth < MAX_DEPTH,
            before == old(visitor).seen(),
            whole == grammar::parse_entries(old(cursor).rest(), None, depth as nat, Mode::Slice),
            visitor.seen() == before + delivered,
            whole.events == delivered + grammar::parse_entries(
                cursor.rest(),
                names::optional(previous),
                depth as nat,
                Mode::Slice,
            ).events,
            whole.rest == grammar::parse_entries(
                cursor.rest(),
                names::optional(previous),
                depth as nat,
                Mode::Slice,
            ).rest,
        decreases cursor.rest().len(),
    {
        let ghost s = cursor.rest();
        let ghost left = grammar::parse_entries(
            s,
            names::optional(previous),
            depth as nat,
            Mode::Slice,
        );
        proof {
            lemma_followed_so_far(whole, delivered, left, before);
            grammar::lemma_slice_tokens(s, "entry or )");
            grammar::lemma_taken_token(s);
        }
        let token = cursor.read_token()?;
        if same_bytes(token, ")".as_bytes()) {
            return Ok(());
        }
        if !same_bytes(token, "entry".as_bytes()) {
            return Err(
                Error::UnexpectedToken { expected: "entry or )", got: describe_bytes(token) },
            );
        }
        let child_name = parse_entry_head(cursor, previous)?;
        let ghost part = grammar::parse_node(
            cursor.rest(),
            Some(child_name@),
            (depth + 1) as nat,
            Mode::Slice,
        );
        proof {
            grammar::lemma_parse_one_entry(
                s,
                names::optional(previous),
                depth as nat,
                Mode::Slice,
            );
        }
        match parse_node(cursor, Some(child_name), depth + 1, visitor) {
            Ok(()) => {},
            Err(e) => {
                proof {
                    lemma_part_of(whole, delivered, part, left);
                    lemma_followed_inner(
                        whole,
                        delivered,
                        part,
                        before,
                        visitor.seen(),
                        visitor.refusal(),
                        None,
                        e@,
                    );
                }
                return Err(e);
            },
        }
        proof {
            lemma_part_of(whole, delivered, part, left);
            assert(part.events.take(part.events.len() as int) =~= part.events);
            assert(visitor.seen() =~= before + (delivered + part.events));
            assert(whole.events.take((delivered + part.events).len() as int) =~= delivered
                + part.events);
            delivered = delivered + part.events;
        }
        cursor.expect(")")?;
        previous = Some(child_name);
        assert(whole.events =~= delivered + grammar::parse_entries(
            cursor.rest(),
            Some(child_name@),
            depth as nat,
            Mode::Slice,
        ).events);
    }
}

fn parse_entry_head<'a>(cursor: &mut Cursor<'a>, previous: Option<&'a [u8]>) -> (r: Result<
    &'a [u8],
    Error,
>)
    requires
        old(cursor).wf(),
    ensures
        final(cursor).wf(),
        match grammar::take_entry_head(
            old(cursor).rest(),
            names::optional(previous),
            Mode::Slice,
        ) {
            Ok((child, rest)) => r matches Ok(name) && name@ == child && final(cursor).rest()
                == rest,
            Err(e) => r matches Err(error) && error@ == e,
        },
{
    proof {
        reveal(grammar::take_entry_head);
    }
    cursor.expect("(")?;
    cursor.expect("name")?;
    proof {
        grammar::lemma_slice_tokens(cursor.rest(), "");
    }
    let child_name = cursor.read_token()?;
    validate_child_name(child_name, previous)?;
    cursor.expect("node")?;
    Ok(child_name)
}

// ---------------------------------------------------------------------------
// Decoding a stream
// ---------------------------------------------------------------------------

/// A streamed regular file's contents: [`size`](Self::size) bytes, readable
/// once, in order.
///
/// Yielded by [`decode_events_reader`] as the `contents` of [`Event::Regular`].
/// Reading less than `size` is not an error; the decoder skips the rest and
/// the stream stays positioned for the rest of the archive.
///
/// The bytes arrive before the decoder has checked the token's padding or the
/// node's closing parenthesis, so a truncated or tampered archive can hand
/// over plausible looking contents and only then fail, and an inflated length
/// makes the framing that follows the file look like part of it. A visitor
/// that must not act on unverified bytes should hold them until
/// [`decode_events_reader`] returns, or decode from a slice with
/// [`decode_events`].
#[derive(Debug)]
pub struct FileContents<'a, R: ByteSource> {
    /// Declared length of the contents.
    pub size: u64,
    /// How much of the contents has not been read.
    pub remaining: &'a mut u64,
    /// The archive, positioned at what has not been read.
    pub reader: &'a mut R,
}

/// What [`decode_events_reader`] yields: an [`Event`] whose contents are a
/// [`FileContents`] reader rather than a borrowed slice.
pub type ReadEvent<'a, R> = Event<'a, FileContents<'a, R>>;

/// The model of an event whose contents are yet to be read.
pub open spec fn read_event<R: ByteSource>(event: ReadEvent<'_, R>) -> EventView {
    match event {
        Event::DirectoryStart { name } => EventView::DirectoryStart { name: names::optional(name) },
        Event::DirectoryEnd { name } => EventView::DirectoryEnd { name: names::optional(name) },
        Event::Regular { name, executable, contents } => EventView::Regular {
            name: names::optional(name),
            executable,
            size: contents.size as nat,
            contents: model::up_to(contents.reader.pending(), contents.size as nat),
        },
        Event::Symlink { name, target } => EventView::Symlink {
            name: names::optional(name),
            target: target@,
        },
    }
}

/// Part of the contents has been read, and the count of what remains is honest.
pub open spec fn drained<R: ByteSource>(
    remaining_before: u64,
    before: R,
    remaining_after: u64,
    after: R,
) -> bool {
    let count = remaining_before - remaining_after;
    &&& 0 <= count <= before.pending().len()
    &&& after.pending() == before.pending().skip(count)
    &&& wire::undisturbed(before, after)
}

/// Something that [`decode_events_reader`] delivers events to.
///
/// Only contracts speak of what has a body here; a visitor itself is `visit`.
pub trait ReadVisitor<R: ByteSource> {
    /// The events delivered so far.
    closed spec fn seen(&self) -> Seq<EventView> {
        arbitrary()
    }

    /// What the visitor needs to hold of itself to take an event.
    closed spec fn sound(&self) -> bool {
        arbitrary()
    }

    /// The error with which the visitor has stopped the decoder, if it has.
    closed spec fn refusal(&self) -> Option<ErrorView> {
        arbitrary()
    }

    /// The visitor never stops the decoder.
    closed spec fn tireless(&self) -> bool {
        arbitrary()
    }

    /// Take one event. An error stops the decoder, which returns it.
    fn visit<'e>(&mut self, event: ReadEvent<'e, R>) -> (r: Result<(), Error>)
        requires
            old(self).sound(),
            old(self).refusal() is None,
            event matches Event::Regular { contents, .. } ==> *contents.remaining == contents.size,
        ensures
            final(self).sound(),
            final(self).seen() == old(self).seen().push(read_event(event)),
            event matches Event::Regular { contents, .. } ==> drained(
                *contents.remaining,
                *contents.reader,
                *final(contents.remaining),
                *final(contents.reader),
            ),
            old(self).tireless() ==> final(self).tireless() && r is Ok,
            match r {
                Ok(()) => final(self).refusal() is None,
                Err(e) => final(self).refusal() == Some(e@),
            },
    ;
}

impl<'a, R: ByteSource> FileContents<'a, R> {
    /// Declared length of the contents, known before any of it is read.
    ///
    /// This is what the archive claims. It is confirmed only once the whole
    /// token and its padding have been consumed, which happens after the visit
    /// returns.
    pub fn size(&self) -> (r: u64)
        ensures
            r == self.size,
    {
        self.size
    }

    /// Read what comes next of the contents into the front of `buf`.
    pub fn read(&mut self, buf: &mut [u8]) -> (r: Result<usize, IoError>)
        ensures
            final(self).size == old(self).size,
            *final(final(self).remaining) == *final(old(self).remaining),
            *final(final(self).reader) == *final(old(self).reader),
            final(buf)@.len() == old(buf)@.len(),
            drained(
                *old(self).remaining,
                *old(self).reader,
                *final(self).remaining,
                *final(self).reader,
            ),
            old(self).reader.reliable() ==> r is Ok,
            match r {
                Ok(n) => {
                    &&& n == *old(self).remaining - *final(self).remaining
                    &&& n <= old(buf)@.len()
                    &&& final(buf)@.take(n as int) == old(self).reader.pending().take(n as int)
                    &&& n == 0 ==> old(buf)@.len() == 0 || *old(self).remaining == 0 || old(
                        self,
                    ).reader.pending().len() == 0
                },
                Err(e) => {
                    &&& *final(self).remaining == *old(self).remaining
                    &&& e.kind is Interrupted ==> final(self).reader.interruptions() < old(
                        self,
                    ).reader.interruptions()
                    &&& !(e.kind is Interrupted) ==> final(self).reader.broken()
                    &&& final(self).reader.failure() == Some(e@)
                },
            },
    {
        assert(self.reader.pending() =~= self.reader.pending().skip(0));
        if *self.remaining == 0 {
            return Ok(0);
        }
        let wanted: usize = if *self.remaining < buf.len() as u64 {
            *self.remaining as usize
        } else {
            buf.len()
        };
        let (front, _) = buf.split_at_mut(wanted);
        let count = self.reader.read(front)?;
        *self.remaining = *self.remaining - count as u64;
        Ok(count)
    }

    /// Copy whatever is left of the contents into `writer`, and report how much
    /// that was.
    ///
    /// A failing `writer` is reported as it arrives, but the count is settled
    /// first: whatever had already been drained out of the archive is
    /// subtracted before the error leaves. Dropping that would leave the
    /// decoder skipping bytes it has already handed over, landing it inside the
    /// framing that follows the file.
    pub fn copy_to<W: ByteSink>(&mut self, writer: &mut W) -> (r: Result<u64, IoError>)
        requires
            old(writer).sound(),
        ensures
            wire::unharmed(*old(writer), *final(writer)),
            final(self).size == old(self).size,
            *final(final(self).remaining) == *final(old(self).remaining),
            *final(final(self).reader) == *final(old(self).reader),
            drained(
                *old(self).remaining,
                *old(self).reader,
                *final(self).remaining,
                *final(self).reader,
            ),
            old(writer).reliable() && old(self).reader.reliable() ==> r is Ok,
            match r {
                Ok(n) => {
                    let left = model::up_to(
                        old(self).reader.pending(),
                        *old(self).remaining as nat,
                    );
                    &&& n == left.len()
                    &&& n == *old(self).remaining - *final(self).remaining
                    &&& final(writer).written() == old(writer).written() + left
                },
                Err(e) => {
                    &&& wire::handed_on(*final(writer), e@) || wire::cause(*final(self).reader)
                        == Some(e@)
                    &&& io::extended_by_prefix(
                        old(writer).written(),
                        final(writer).written(),
                        old(self).reader.pending().take(
                            *old(self).remaining - *final(self).remaining,
                        ),
                    )
                },
            },
    {
        let mut buffer: [u8; 8192] = [0; 8192];
        let mut copied: u64 = 0;
        let ghost pending = self.reader.pending();
        proof {
            assert(pending.skip(0) =~= pending);
            assert(writer.written() =~= writer.written() + pending.take(0));
        }
        loop
            invariant
                pending == old(self).reader.pending(),
                writer.sound(),
                wire::unharmed(*old(writer), *writer),
                self.size == old(self).size,
                *final(self.remaining) == *final(old(self).remaining),
                *final(self.reader) == *final(old(self).reader),
                drained(*old(self).remaining, *old(self).reader, *self.remaining, *self.reader),
                copied == *old(self).remaining - *self.remaining,
                writer.written() == old(writer).written() + pending.take(copied as int),
            decreases *self.remaining, self.reader.interruptions(),
        {
            let ghost left = self.reader.pending();
            let ghost sent = writer.written();
            match self.read(&mut buffer) {
                Ok(n) => {
                    proof {
                        assert(left.skip(n as int) =~= pending.skip(copied + n));
                        assert(buffer@.take(n as int) =~= pending.subrange(
                            copied as int,
                            copied + n,
                        ));
                    }
                    if n == 0 {
                        assert(pending.take(copied as int) =~= model::up_to(
                            pending,
                            *old(self).remaining as nat,
                        ));
                        return Ok(copied);
                    }
                    let chunk = &buffer[0..n];
                    assert(chunk@ =~= pending.subrange(copied as int, copied + n));
                    match writer.write_all(chunk) {
                        Ok(()) => {
                            assert(writer.written() =~= old(writer).written() + pending.take(
                                copied + n,
                            ));
                        },
                        Err(e) => {
                            proof {
                                let k = choose|k: int|
                                    0 <= k <= chunk@.len() && writer.written() == sent
                                        + #[trigger] chunk@.take(k);
                                assert(writer.written() =~= old(writer).written() + pending.take(
                                    copied + n,
                                ).take(copied + k));
                            }
                            return Err(e);
                        },
                    }
                    copied = copied + n as u64;
                },
                Err(e) => {
                    assert(left.skip(0) =~= left);
                    if e.kind != IoErrorKind::Interrupted {
                        assert(writer.written() =~= old(writer).written() + pending.take(
                            copied as int,
                        ).take(copied as int));
                        return Err(e);
                    }
                },
            }
        }
    }
}

/// What a stream holds behind its root object, where that is whole.
pub open spec fn after_root(s: Seq<u8>) -> Option<Seq<u8>> {
    match grammar::take_token(s) {
        Ok((_, body)) => match grammar::parse_node(body, None, 0, Mode::Stream).rest {
            Ok(rest) => Some(rest),
            Err(_) => None,
        },
        Err(_) => None,
    }
}

/// Visit a NAR in its root-first wire order without holding the archive in
/// memory.
///
/// **Choose this when the archive is arriving, or is too large to hold.** It
/// is the streaming counterpart of [`decode_events`].
///
/// Pros: memory use follows directory depth and metadata, never payload size,
/// so an archive of any size passes through; contents can be copied straight
/// into their destination as they arrive; metadata tokens are bounded, so a
/// malformed archive cannot ask for an unbounded allocation.
///
/// Cons: contents are a one-pass reader valid only during the visit, so
/// nothing can be kept without copying it; a payload crosses in small chunks
/// rather than as one slice; it allocates depth-bounded name buffers and one
/// reused symlink-target buffer where [`decode_events`] allocates nothing; the
/// metadata bounds make it reject a few archives [`decode_events`] accepts; and
/// a file's bytes reach the visitor before the node around them has been
/// validated.
///
/// `reader` is consumed in small pieces, one per length prefix and one per
/// token. The archive must be the whole of what remains on `reader`: anything
/// after it is [`Error::TrailingBytes`], and noticing that consumes the first
/// byte of it, so a NAR embedded in a longer framed stream needs a reader
/// bounded by that framing rather than the underlying stream itself.
///
/// Events already delivered before a malformed archive is detected are not
/// rolled back. See [`FileContents`].
pub fn decode_events_reader<R: ByteSource, V: ReadVisitor<R>>(
    reader: &mut R,
    visitor: &mut V,
) -> (r: Result<(), Error>)
    requires
        old(visitor).sound(),
        old(visitor).refusal() is None,
    ensures
        wire::undisturbed(*old(reader), *final(reader)),
        followed(
            grammar::parse_archive(old(reader).pending(), Mode::Stream),
            old(visitor).seen(),
            final(visitor).seen(),
            final(visitor).refusal(),
            wire::cause(*final(reader)),
            outcome(r, Seq::empty()),
        ),
        final(visitor).sound(),
        old(visitor).tireless() ==> final(visitor).tireless() && final(visitor).refusal() is None,
        r is Ok ==> final(reader).pending() == Seq::<u8>::empty(),
        r matches Err(e) && e@ is TrailingBytes && final(visitor).refusal() is None ==> (after_root(
            old(reader).pending(),
        ) matches Some(rest) ==> final(reader).pending() == rest.skip(1)),
{
    let ghost parse = grammar::parse_archive(reader.pending(), Mode::Stream);
    assert(visitor.seen() =~= visitor.seen() + parse.events.take(0));
    expect_magic(reader)?;
    let mut target: Vec<u8> = Vec::new();
    parse_reader_node(reader, None, 0, &mut target, visitor)?;
    let ghost rest = reader.pending();
    if source_exhausted(reader)? {
        assert(rest =~= Seq::<u8>::empty());
        Ok(())
    } else {
        Err(Error::TrailingBytes)
    }
}

fn parse_reader_node<R: ByteSource, V: ReadVisitor<R>>(
    reader: &mut R,
    name: Option<&[u8]>,
    depth: usize,
    target: &mut Vec<u8>,
    visitor: &mut V,
) -> (r: Result<(), Error>)
    requires
        old(visitor).sound(),
        old(visitor).refusal() is None,
        depth <= MAX_DEPTH,
    ensures
        wire::undisturbed(*old(reader), *final(reader)),
        followed(
            grammar::parse_node(
                old(reader).pending(),
                names::optional(name),
                depth as nat,
                Mode::Stream,
            ),
            old(visitor).seen(),
            final(visitor).seen(),
            final(visitor).refusal(),
            wire::cause(*final(reader)),
            outcome(r, final(reader).pending()),
        ),
        final(visitor).sound(),
        old(visitor).tireless() ==> final(visitor).tireless() && final(visitor).refusal() is None,
    decreases MAX_DEPTH - depth, 2nat,
{
    let ghost s = reader.pending();
    let ghost label = names::optional(name);
    let ghost parse = grammar::parse_node(s, label, depth as nat, Mode::Stream);
    assert(visitor.seen() =~= visitor.seen() + parse.events.take(0));
    if depth >= MAX_DEPTH {
        return Err(Error::MaxDepth(MAX_DEPTH));
    }
    expect_word(reader, "(")?;
    expect_word(reader, "type")?;
    proof {
        grammar::lemma_take_words_shrinks(s, "(", "type", Mode::Stream);
        grammar::lemma_take_control_shrinks(
            reader.pending(),
            "regular, symlink or directory",
            Mode::Stream,
        );
    }
    let kind = read_control(reader, "regular, symlink or directory")?;
    if kind.is("regular") {
        parse_reader_regular(reader, name, visitor)
    } else if kind.is("symlink") {
        parse_reader_symlink(reader, name, target, visitor)
    } else if kind.is("directory") {
        parse_reader_directory(reader, name, depth, target, visitor)
    } else {
        Err(
            Error::UnexpectedToken {
                expected: "regular, symlink or directory",
                got: describe_bytes(kind.as_bytes()),
            },
        )
    }
}

fn read_flags<R: ByteSource>(reader: &mut R) -> (r: Result<bool, Error>)
    ensures
        wire::undisturbed(*old(reader), *final(reader)),
        match r {
            Ok(executable) => grammar::take_flags(old(reader).pending(), Mode::Stream) == Ok::<
                _,
                ErrorView,
            >((executable, final(reader).pending())),
            Err(e) => wire::breakdown(*final(reader), e@) || grammar::take_flags(
                old(reader).pending(),
                Mode::Stream,
            ) == Err::<(bool, Seq<u8>), _>(e@),
        },
{
    proof {
        reveal(grammar::take_flags);
    }
    let token = read_control(reader, "contents")?;
    if token.is("executable") {
        expect_word(reader, "")?;
        expect_word(reader, "contents")?;
        Ok(true)
    } else if token.is("contents") {
        Ok(false)
    } else {
        Err(
            Error::UnexpectedToken {
                expected: "contents",
                got: describe_bytes(token.as_bytes()),
            },
        )
    }
}

fn parse_reader_regular<R: ByteSource, V: ReadVisitor<R>>(
    reader: &mut R,
    name: Option<&[u8]>,
    visitor: &mut V,
) -> (r: Result<(), Error>)
    requires
        old(visitor).sound(),
        old(visitor).refusal() is None,
    ensures
        wire::undisturbed(*old(reader), *final(reader)),
        followed(
            grammar::parse_regular(old(reader).pending(), names::optional(name), Mode::Stream),
            old(visitor).seen(),
            final(visitor).seen(),
            final(visitor).refusal(),
            wire::cause(*final(reader)),
            outcome(r, final(reader).pending()),
        ),
        final(visitor).sound(),
        old(visitor).tireless() ==> final(visitor).tireless() && final(visitor).refusal() is None,
{
    let ghost parse = grammar::parse_regular(
        reader.pending(),
        names::optional(name),
        Mode::Stream,
    );
    let ghost before = visitor.seen();
    proof {
        assert(before =~= before + parse.events.take(0));
        reveal(grammar::parse_regular);
        reveal(grammar::parse_contents);
        reveal(grammar::take_token);
    }
    let executable = read_flags(reader)?;
    let size = read_len(reader)?;
    let ghost body = reader.pending();
    let mut remaining: u64 = size;
    let contents = FileContents { size, remaining: &mut remaining, reader: &mut *reader };
    let visited = visitor.visit(Event::Regular { name, executable, contents });
    assert(visitor.seen() =~= before + parse.events.take(1));
    visited?;
    skip_bytes(reader, remaining)?;
    assert(body.skip(size - remaining).skip(remaining as int) =~= body.skip(size as int));
    read_padding(reader, size)?;
    expect_word(reader, ")")
}

fn parse_reader_symlink<R: ByteSource, V: ReadVisitor<R>>(
    reader: &mut R,
    name: Option<&[u8]>,
    target: &mut Vec<u8>,
    visitor: &mut V,
) -> (r: Result<(), Error>)
    requires
        old(visitor).sound(),
        old(visitor).refusal() is None,
    ensures
        wire::undisturbed(*old(reader), *final(reader)),
        followed(
            grammar::parse_symlink(old(reader).pending(), names::optional(name), Mode::Stream),
            old(visitor).seen(),
            final(visitor).seen(),
            final(visitor).refusal(),
            wire::cause(*final(reader)),
            outcome(r, final(reader).pending()),
        ),
        final(visitor).sound(),
        old(visitor).tireless() ==> final(visitor).tireless() && final(visitor).refusal() is None,
{
    let ghost parse = grammar::parse_symlink(
        reader.pending(),
        names::optional(name),
        Mode::Stream,
    );
    let ghost before = visitor.seen();
    proof {
        assert(before =~= before + parse.events.take(0));
        reveal(grammar::parse_symlink);
    }
    expect_word(reader, "target")?;
    read_bytes(reader, target)?;
    expect_word(reader, ")")?;
    let r = visitor.visit(Event::Symlink { name, target: target.as_slice() });
    assert(visitor.seen() =~= before + parse.events.take(1));
    r
}

fn parse_reader_directory<R: ByteSource, V: ReadVisitor<R>>(
    reader: &mut R,
    name: Option<&[u8]>,
    depth: usize,
    target: &mut Vec<u8>,
    visitor: &mut V,
) -> (r: Result<(), Error>)
    requires
        old(visitor).sound(),
        old(visitor).refusal() is None,
        depth < MAX_DEPTH,
    ensures
        wire::undisturbed(*old(reader), *final(reader)),
        followed(
            grammar::enclosed(
                names::optional(name),
                grammar::parse_entries(old(reader).pending(), None, depth as nat, Mode::Stream),
            ),
            old(visitor).seen(),
            final(visitor).seen(),
            final(visitor).refusal(),
            wire::cause(*final(reader)),
            outcome(r, final(reader).pending()),
        ),
        final(visitor).sound(),
        old(visitor).tireless() ==> final(visitor).tireless() && final(visitor).refusal() is None,
    decreases MAX_DEPTH - depth, 1nat,
{
    let ghost inner = grammar::parse_entries(reader.pending(), None, depth as nat, Mode::Stream);
    let ghost before = visitor.seen();
    match visitor.visit(Event::DirectoryStart { name }) {
        Ok(()) => {},
        Err(e) => {
            proof {
                lemma_followed_start(names::optional(name), inner, before);
            }
            return Err(e);
        },
    }
    match parse_reader_entries(reader, depth, target, visitor) {
        Ok(()) => {},
        Err(e) => {
            proof {
                lemma_followed_inside(
                    names::optional(name),
                    inner,
                    before,
                    visitor.seen(),
                    visitor.refusal(),
                    wire::cause(*reader),
                    e@,
                );
            }
            return Err(e);
        },
    }
    let r = visitor.visit(Event::DirectoryEnd { name });
    proof {
        lemma_followed_end(names::optional(name), inner, before);
    }
    r
}

fn parse_reader_entries<R: ByteSource, V: ReadVisitor<R>>(
    reader: &mut R,
    depth: usize,
    target: &mut Vec<u8>,
    visitor: &mut V,
) -> (r: Result<(), Error>)
    requires
        old(visitor).sound(),
        old(visitor).refusal() is None,
        depth < MAX_DEPTH,
    ensures
        wire::undisturbed(*old(reader), *final(reader)),
        followed(
            grammar::parse_entries(old(reader).pending(), None, depth as nat, Mode::Stream),
            old(visitor).seen(),
            final(visitor).seen(),
            final(visitor).refusal(),
            wire::cause(*final(reader)),
            outcome(r, final(reader).pending()),
        ),
        final(visitor).sound(),
        old(visitor).tireless() ==> final(visitor).tireless() && final(visitor).refusal() is None,
    decreases MAX_DEPTH - depth, 0nat,
{
    let ghost whole = grammar::parse_entries(reader.pending(), None, depth as nat, Mode::Stream);
    let ghost before = visitor.seen();
    let ghost mut delivered: Seq<EventView> = Seq::empty();
    let mut previous_name: Vec<u8> = Vec::new();
    let mut child_name: Vec<u8> = Vec::new();
    let mut have_previous = false;
    assert(whole.events =~= delivered + whole.events);
    assert(visitor.seen() =~= before + delivered);
    loop
        invariant
            visitor.sound(),
            visitor.refusal() is None,
            old(visitor).tireless() ==> visitor.tireless(),
            wire::undisturbed(*old(reader), *reader),
            depth < MAX_DEPTH,
            before == old(visitor).seen(),
            whole == grammar::parse_entries(
                old(reader).pending(),
                None,
                depth as nat,
                Mode::Stream,
            ),
            visitor.seen() == before + delivered,
            whole.events == delivered + grammar::parse_entries(
                reader.pending(),
                last_name(have_previous, previous_name@),
                depth as nat,
                Mode::Stream,
            ).events,
            whole.rest == grammar::parse_entries(
                reader.pending(),
                last_name(have_previous, previous_name@),
                depth as nat,
                Mode::Stream,
            ).rest,
        decreases reader.pending().len(),
    {
        let ghost s = reader.pending();
        let ghost last = last_name(have_previous, previous_name@);
        let ghost left = grammar::parse_entries(s, last, depth as nat, Mode::Stream);
        proof {
            lemma_followed_so_far(whole, delivered, left, before);
        }
        let token = read_control(reader, "entry or )")?;
        if token.is(")") {
            return Ok(());
        }
        if !token.is("entry") {
            return Err(
                Error::UnexpectedToken {
                    expected: "entry or )",
                    got: describe_bytes(token.as_bytes()),
                },
            );
        }
        let previous = if have_previous {
            Some(previous_name.as_slice())
        } else {
            None
        };
        read_entry_head(reader, &mut child_name, previous)?;
        have_previous = true;
        let ghost part = grammar::parse_node(
            reader.pending(),
            Some(child_name@),
            (depth + 1) as nat,
            Mode::Stream,
        );
        proof {
            grammar::lemma_parse_one_entry(s, last, depth as nat, Mode::Stream);
        }
        match parse_reader_node(
            reader,
            Some(child_name.as_slice()),
            depth + 1,
            target,
            visitor,
        ) {
            Ok(()) => {},
            Err(e) => {
                proof {
                    lemma_part_of(whole, delivered, part, left);
                    lemma_followed_inner(
                        whole,
                        delivered,
                        part,
                        before,
                        visitor.seen(),
                        visitor.refusal(),
                        wire::cause(*reader),
                        e@,
                    );
                }
                return Err(e);
            },
        }
        proof {
            lemma_part_of(whole, delivered, part, left);
            assert(part.events.take(part.events.len() as int) =~= part.events);
            assert(visitor.seen() =~= before + (delivered + part.events));
            assert(whole.events.take((delivered + part.events).len() as int) =~= delivered
                + part.events);
            delivered = delivered + part.events;
        }
        expect_word(reader, ")")?;
        // `read_entry_head` clears the buffer it fills, so trading the two
        // names round keeps both allocations and copies neither.
        std::mem::swap(&mut previous_name, &mut child_name);
        assert(whole.events =~= delivered + grammar::parse_entries(
            reader.pending(),
            Some(previous_name@),
            depth as nat,
            Mode::Stream,
        ).events);
    }
}

/// The name that the next entry must follow.
pub open spec fn last_name(have_previous: bool, previous: Seq<u8>) -> Option<Seq<u8>> {
    if have_previous {
        Some(previous)
    } else {
        None
    }
}

fn read_entry_head<R: ByteSource>(
    reader: &mut R,
    child_name: &mut Vec<u8>,
    previous: Option<&[u8]>,
) -> (r: Result<(), Error>)
    ensures
        wire::undisturbed(*old(reader), *final(reader)),
        match r {
            Ok(()) => grammar::take_entry_head(
                old(reader).pending(),
                names::optional(previous),
                Mode::Stream,
            ) == Ok::<_, ErrorView>((final(child_name)@, final(reader).pending())),
            Err(e) => wire::breakdown(*final(reader), e@) || grammar::take_entry_head(
                old(reader).pending(),
                names::optional(previous),
                Mode::Stream,
            ) == Err::<(Seq<u8>, Seq<u8>), _>(e@),
        },
{
    proof {
        reveal(grammar::take_entry_head);
    }
    expect_word(reader, "(")?;
    expect_word(reader, "name")?;
    read_bytes(reader, child_name)?;
    validate_child_name(child_name.as_slice(), previous)?;
    expect_word(reader, "node")
}

}
