//! The NAR token layer: length-prefixed byte strings, zero-padded to 8 bytes.
//!
//! Every token is a little-endian 64-bit length, the bytes, and zeros up to a
//! multiple of eight. The whole format is a stream of these.

use vstd::prelude::*;

use crate::decimal::append_number;
use crate::grammar;
use crate::grammar::{Mode, MAX_CONTROL_TOKEN};
use crate::io;
use crate::io::{ByteSink, ByteSource, IoError, IoErrorKind};
use crate::model;
use crate::names::{describe_bytes, same_bytes};
use crate::nar::{Error, ErrorView};

verus! {

/// How many bytes bring `len` up to a multiple of eight.
pub fn pad_len(len: usize) -> (r: usize)
    ensures
        r == model::padding(len as nat),
{
    (8 - len % 8) % 8
}

/// The number that eight bytes spell, least significant first.
pub fn read_le64(bytes: &[u8]) -> (r: u64)
    requires
        bytes@.len() >= 8,
    ensures
        r == model::le64_value(bytes@),
{
    proof {
        model::lemma_le64_value_inverse(bytes@);
    }
    bytes[0] as u64 + bytes[1] as u64 * 0x100 + bytes[2] as u64 * 0x1_0000 + bytes[3] as u64
        * 0x100_0000 + bytes[4] as u64 * 0x1_0000_0000 + bytes[5] as u64 * 0x100_0000_0000
        + bytes[6] as u64 * 0x1_0000_0000_0000 + bytes[7] as u64 * 0x100_0000_0000_0000
}

/// The eight bytes of `n`, least significant first.
pub fn le64_bytes(n: u64) -> (r: [u8; 8])
    ensures
        r@ == model::le64(n as nat),
{
    let r: [u8; 8] = [
        (n % 256) as u8,
        (n / 0x100 % 256) as u8,
        (n / 0x1_0000 % 256) as u8,
        (n / 0x100_0000 % 256) as u8,
        (n / 0x1_0000_0000 % 256) as u8,
        (n / 0x100_0000_0000 % 256) as u8,
        (n / 0x1_0000_0000_0000 % 256) as u8,
        (n / 0x100_0000_0000_0000 % 256) as u8,
    ];
    assert(r@ =~= model::le64(n as nat));
    r
}

/// The view of a result whose error is an [`Error`].
pub open spec fn error_of<T>(r: Result<T, Error>) -> Option<ErrorView> {
    match r {
        Ok(_) => None,
        Err(e) => Some(e@),
    }
}

fn all_zero(bytes: &[u8]) -> (r: bool)
    ensures
        r == (bytes@ == model::zeros(bytes@.len())),
{
    let mut i: usize = 0;
    while i < bytes.len()
        invariant
            i <= bytes.len(),
            forall|j: int| 0 <= j < i ==> bytes@[j] == 0,
        decreases bytes.len() - i,
    {
        if bytes[i] != 0 {
            assert(bytes@[i as int] != model::zeros(bytes@.len())[i as int]);
            return false;
        }
        i = i + 1;
    }
    assert(bytes@ =~= model::zeros(bytes@.len()));
    true
}

// ---------------------------------------------------------------------------
// Writing
// ---------------------------------------------------------------------------

/// What every write to a sink keeps.
pub open spec fn unharmed<W: ByteSink>(before: W, after: W) -> bool {
    &&& after.sound()
    &&& before.in_step() ==> after.in_step()
    &&& after.setup() == before.setup()
    &&& before.reliable() ==> after.reliable()
}

/// Where `error` is one of writing, it is what came of the sink.
pub open spec fn reported<W: ByteSink>(sink: W, error: Option<ErrorView>) -> bool {
    error matches Some(ErrorView::Io(e)) ==> handed_on(sink, e)
}

/// `error` is the failure that the sink reported, or says that it accepts
/// nothing or has claimed too much.
pub open spec fn handed_on<W: ByteSink>(sink: W, error: io::IoErrorView) -> bool {
    io::handed_on(sink.failure(), sink.overcounted(), error)
}

/// A sink that was in the state `before` has failed with `error`, and is lost.
pub open spec fn lost<W: ByteSink>(before: W, error: ErrorView) -> bool {
    exists|after: W|
        #[trigger] unharmed(before, after) && (error matches ErrorView::Io(e) && handed_on(
            after,
            e,
        ))
}

/// Write one token.
pub fn write_token<W: ByteSink>(w: &mut W, bytes: &[u8]) -> (r: Result<(), IoError>)
    requires
        old(w).sound(),
    ensures
        unharmed(*old(w), *final(w)),
        old(w).reliable() ==> r is Ok,
        match r {
            Ok(()) => final(w).written() == old(w).written() + model::token(bytes@),
            Err(e) => handed_on(*final(w), e@) && io::extended_by_prefix(
                old(w).written(),
                final(w).written(),
                model::token(bytes@),
            ),
        },
{
    let ghost before = w.written();
    let prefix = le64_bytes(bytes.len() as u64);
    let zeros: [u8; 8] = [0; 8];
    let padding = &zeros[0..pad_len(bytes.len())];
    proof {
        reveal(model::token);
        assert(padding@ =~= model::zeros(model::padding(bytes@.len())));
    }
    match w.write_all(&prefix) {
        Ok(()) => {},
        Err(e) => {
            proof {
                io::lemma_cut_short(before, w.written(), prefix@, bytes@);
                io::lemma_cut_short(before, w.written(), prefix@ + bytes@, padding@);
            }
            return Err(e);
        },
    }
    match w.write_all(bytes) {
        Ok(()) => {},
        Err(e) => {
            proof {
                io::lemma_cut_short_behind(before, prefix@, w.written(), bytes@);
                io::lemma_cut_short(before, w.written(), prefix@ + bytes@, padding@);
            }
            return Err(e);
        },
    }
    assert(w.written() =~= before + (prefix@ + bytes@));
    match w.write_all(padding) {
        Ok(()) => {
            assert(w.written() =~= before + model::token(bytes@));
            Ok(())
        },
        Err(e) => {
            proof {
                io::lemma_cut_short_behind(before, prefix@ + bytes@, w.written(), padding@);
            }
            Err(e)
        },
    }
}

/// The tokens of `list`, one after the other.
pub open spec fn all_tokens(list: Seq<&[u8]>) -> Seq<u8>
    decreases list.len(),
{
    if list.len() == 0 {
        Seq::empty()
    } else {
        all_tokens(list.drop_last()) + model::token(list.last()@)
    }
}

proof fn lemma_all_tokens_prefix(list: Seq<&[u8]>, n: int)
    requires
        0 <= n <= list.len(),
    ensures
        all_tokens(list.take(n)).len() <= all_tokens(list).len(),
        all_tokens(list) == all_tokens(list.take(n)) + all_tokens(list).skip(
            all_tokens(list.take(n)).len() as int,
        ),
    decreases list.len(),
{
    if n == list.len() {
        assert(list.take(n) =~= list);
        assert(all_tokens(list) =~= all_tokens(list) + all_tokens(list).skip(
            all_tokens(list).len() as int,
        ));
    } else {
        let init = list.drop_last();
        lemma_all_tokens_prefix(init, n);
        assert(init.take(n) =~= list.take(n));
        assert(all_tokens(list) =~= all_tokens(list.take(n)) + all_tokens(list).skip(
            all_tokens(list.take(n)).len() as int,
        ));
    }
}

/// Write several tokens.
pub fn write_tokens<W: ByteSink>(w: &mut W, list: &[&[u8]]) -> (r: Result<(), IoError>)
    requires
        old(w).sound(),
    ensures
        unharmed(*old(w), *final(w)),
        old(w).reliable() ==> r is Ok,
        match r {
            Ok(()) => final(w).written() == old(w).written() + all_tokens(list@),
            Err(e) => handed_on(*final(w), e@) && io::extended_by_prefix(
                old(w).written(),
                final(w).written(),
                all_tokens(list@),
            ),
        },
{
    let ghost before = w.written();
    let mut i: usize = 0;
    assert(before =~= before + all_tokens(list@.take(0)));
    while i < list.len()
        invariant
            i <= list@.len(),
            before == old(w).written(),
            w.sound(),
            unharmed(*old(w), *w),
            w.written() == before + all_tokens(list@.take(i as int)),
        decreases list.len() - i,
    {
        let ghost done = all_tokens(list@.take(i as int));
        let ghost this = model::token(list@[i as int]@);
        proof {
            lemma_all_tokens_prefix(list@, i + 1);
            assert(list@.take(i + 1).drop_last() =~= list@.take(i as int));
        }
        match write_token(w, list[i]) {
            Ok(()) => {
                assert(w.written() =~= before + all_tokens(list@.take(i + 1)));
            },
            Err(e) => {
                proof {
                    io::lemma_cut_short_behind(before, done, w.written(), this);
                    io::lemma_cut_short(
                        before,
                        w.written(),
                        done + this,
                        all_tokens(list@).skip((done + this).len() as int),
                    );
                }
                return Err(e);
            },
        }
        i = i + 1;
    }
    assert(list@.take(list@.len() as int) =~= list@);
    Ok(())
}

// ---------------------------------------------------------------------------
// Reading from a slice
// ---------------------------------------------------------------------------

/// A borrowing reader over NAR bytes.
pub struct Cursor<'a> {
    data: &'a [u8],
    pos: usize,
}

impl<'a> Cursor<'a> {
    /// What is left to read.
    pub closed spec fn rest(&self) -> Seq<u8> {
        self.data@.skip(self.pos as int)
    }

    pub closed spec fn wf(&self) -> bool {
        self.pos <= self.data@.len()
    }

    pub fn new(data: &'a [u8]) -> (r: Self)
        ensures
            r.wf(),
            r.rest() == data@,
    {
        assert(data@.skip(0) =~= data@);
        Cursor { data, pos: 0 }
    }

    pub fn is_exhausted(&self) -> (r: bool)
        requires
            self.wf(),
        ensures
            r == (self.rest().len() == 0),
    {
        self.pos == self.data.len()
    }

    fn take(&mut self, n: usize) -> (r: Result<&'a [u8], Error>)
        requires
            old(self).wf(),
        ensures
            final(self).wf(),
            match r {
                Ok(bytes) => {
                    &&& n <= old(self).rest().len()
                    &&& bytes@ == old(self).rest().take(n as int)
                    &&& final(self).rest() == old(self).rest().skip(n as int)
                },
                Err(e) => e@ == ErrorView::UnexpectedEof && n > old(self).rest().len(),
            },
    {
        if n > self.data.len() - self.pos {
            return Err(Error::UnexpectedEof);
        }
        let end = self.pos + n;
        let slice = &self.data[self.pos..end];
        assert(slice@ =~= self.rest().take(n as int));
        self.pos = end;
        assert(self.rest() =~= old(self).rest().skip(n as int));
        Ok(slice)
    }

    /// Read one token, borrowed from the input.
    pub fn read_token(&mut self) -> (r: Result<&'a [u8], Error>)
        requires
            old(self).wf(),
        ensures
            final(self).wf(),
            match grammar::take_token(old(self).rest()) {
                Ok((bytes, rest)) => r matches Ok(got) && got@ == bytes && final(self).rest()
                    == rest,
                Err(e) => r matches Err(error) && error@ == e,
            },
    {
        proof {
            reveal(grammar::take_token);
        }
        let prefix = self.take(8)?;
        let len = read_le64(prefix);
        assert(model::le64_value(prefix@) == model::le64_value(old(self).rest()));
        if len > (self.data.len() - self.pos) as u64 {
            return Err(Error::UnexpectedEof);
        }
        let bytes = self.take(len as usize)?;
        let padding = self.take(pad_len(len as usize))?;
        if !all_zero(padding) {
            return Err(Error::BadPadding);
        }
        Ok(bytes)
    }

    /// Read one token and require it to be exactly `expected`.
    pub fn expect(&mut self, expected: &'static str) -> (r: Result<(), Error>)
        requires
            old(self).wf(),
        ensures
            final(self).wf(),
            match grammar::take_word(old(self).rest(), expected, Mode::Slice) {
                Ok(rest) => r is Ok && final(self).rest() == rest,
                Err(e) => r matches Err(error) && error@ == e,
            },
    {
        proof {
            reveal(grammar::take_word);
            grammar::lemma_slice_tokens(self.rest(), expected);
        }
        let got = self.read_token()?;
        if same_bytes(got, expected.as_bytes()) {
            Ok(())
        } else {
            Err(Error::UnexpectedToken { expected, got: describe_bytes(got) })
        }
    }
}

// ---------------------------------------------------------------------------
// Reading from a source
// ---------------------------------------------------------------------------

/// The failure with which a source has broken down, if it has.
pub open spec fn cause<R: ByteSource>(reader: R) -> Option<io::IoErrorView> {
    if reader.broken() {
        reader.failure()
    } else {
        None
    }
}

/// The error with which a source that has broken down ends a decoder: its own
/// failure, or where that is an early end, what an early end gives.
pub open spec fn source_failure(cause: Option<io::IoErrorView>, error: ErrorView) -> bool {
    cause matches Some(failure) && (error == ErrorView::Io(failure) || (
    failure.kind is UnexpectedEof && (error == ErrorView::UnexpectedEof || error
        == ErrorView::BadMagic)))
}

/// The source has broken down, and `error` says so.
pub open spec fn breakdown<R: ByteSource>(reader: R, error: ErrorView) -> bool {
    source_failure(cause(reader), error)
}

/// What a source is left with once `n` bytes of it have been asked for.
pub open spec fn bytes_left(s: Seq<u8>, n: nat) -> Seq<u8> {
    if s.len() < n {
        Seq::empty()
    } else {
        s.skip(n as int)
    }
}

/// What a source is left with where a token of more than `limit` bytes, or
/// whatever is wrong with another, is refused.
pub open spec fn token_left(s: Seq<u8>, limit: nat) -> Seq<u8> {
    let n = model::le64_value(s);
    if s.len() >= 8 && n > limit {
        s.skip(8)
    } else if s.len() < 8 {
        Seq::empty()
    } else {
        bytes_left(s.skip(8), n + model::padding(n))
    }
}

/// What every read of a source keeps: a source that never fails goes on that
/// way, and a failure is not forgotten.
pub open spec fn undisturbed<R: ByteSource>(before: R, after: R) -> bool {
    &&& before.reliable() ==> after.reliable() && after.broken() == before.broken()
    &&& before.broken() ==> after.broken()
}

/// Fill `buf` from the source, repeating interrupted reads.
pub fn read_exact<R: ByteSource>(reader: &mut R, buf: &mut [u8]) -> (r: Result<(), Error>)
    ensures
        undisturbed(*old(reader), *final(reader)),
        final(buf)@.len() == old(buf)@.len(),
        match r {
            Ok(()) => {
                &&& old(buf)@.len() <= old(reader).pending().len()
                &&& final(buf)@ == old(reader).pending().take(old(buf)@.len() as int)
                &&& final(reader).pending() == old(reader).pending().skip(old(buf)@.len() as int)
            },
            Err(e) => breakdown(*final(reader), e@) || {
                &&& e@ == ErrorView::UnexpectedEof
                &&& old(buf)@.len() > old(reader).pending().len()
                &&& final(reader).pending() == Seq::<u8>::empty()
            },
        },
{
    let n = buf.len();
    let mut done: usize = 0;
    assert(reader.pending() =~= old(reader).pending().skip(0));
    while done < n
        invariant
            n == buf@.len(),
            n == old(buf)@.len(),
            done <= n,
            done <= old(reader).pending().len(),
            undisturbed(*old(reader), *reader),
            buf@.take(done as int) == old(reader).pending().take(done as int),
            reader.pending() == old(reader).pending().skip(done as int),
        decreases n - done, reader.interruptions(),
    {
        let ghost filled = buf@.take(done as int);
        let (front, tail) = buf.split_at_mut(done);
        let ghost head = front@;
        match reader.read(tail) {
            Ok(0) => {
                return Err(Error::UnexpectedEof);
            },
            Ok(count) => {
                proof {
                    let pending = old(reader).pending();
                    assert(buf@.take(done + count) =~= pending.take(done + count)) by {
                        assert(pending.skip(done as int).take(count as int)
                            =~= pending.subrange(done as int, done + count));
                        assert forall|i: int| 0 <= i < done + count implies buf@[i]
                            == pending[i] by {
                            if i < done {
                                assert(buf@[i] == head[i]);
                                assert(head[i] == filled[i]);
                                assert(filled[i] == pending.take(done as int)[i]);
                            } else {
                                assert(buf@[i] == tail@[i - done]);
                                assert(tail@.take(count as int)[i - done] == pending.skip(
                                    done as int,
                                ).take(count as int)[i - done]);
                            }
                        }
                    }
                    assert(pending.skip(done as int).skip(count as int) =~= pending.skip(
                        done + count,
                    ));
                }
                done = done + count;
            },
            Err(e) => {
                if e.kind == IoErrorKind::Interrupted {
                    proof {
                        assert(buf@.take(done as int) =~= old(reader).pending().take(done as int)) by {
                            assert forall|i: int| 0 <= i < done implies buf@[i] == filled[i] by {
                                assert(buf@[i] == head[i]);
                            }
                        }
                    }
                } else if e.kind == IoErrorKind::UnexpectedEof {
                    return Err(Error::UnexpectedEof);
                } else {
                    return Err(Error::Io(e));
                }
            },
        }
    }
    assert(buf@.take(n as int) =~= buf@);
    Ok(())
}

/// Read the length of a token.
pub fn read_len<R: ByteSource>(reader: &mut R) -> (r: Result<u64, Error>)
    ensures
        undisturbed(*old(reader), *final(reader)),
        match r {
            Ok(len) => {
                &&& old(reader).pending().len() >= 8
                &&& len == model::le64_value(old(reader).pending())
                &&& final(reader).pending() == old(reader).pending().skip(8)
            },
            Err(e) => breakdown(*final(reader), e@) || {
                &&& e@ == ErrorView::UnexpectedEof
                &&& old(reader).pending().len() < 8
                &&& final(reader).pending() == Seq::<u8>::empty()
            },
        },
{
    let mut bytes: [u8; 8] = [0; 8];
    read_exact(reader, &mut bytes)?;
    assert(model::le64_value(bytes@) == model::le64_value(old(reader).pending()));
    Ok(read_le64(&bytes))
}

/// Read the padding behind `len` bytes.
pub fn read_padding<R: ByteSource>(reader: &mut R, len: u64) -> (r: Result<(), Error>)
    ensures
        undisturbed(*old(reader), *final(reader)),
        match r {
            Ok(()) => grammar::take_padding(old(reader).pending(), len as nat) == Ok::<_, ErrorView>(
                final(reader).pending(),
            ),
            Err(e) => breakdown(*final(reader), e@) || {
                &&& grammar::take_padding(old(reader).pending(), len as nat) == Err::<Seq<u8>, _>(
                    e@,
                )
                &&& final(reader).pending() == bytes_left(
                    old(reader).pending(),
                    model::padding(len as nat),
                )
            },
        },
{
    let padding_len = pad_len((len % 8) as usize);
    let mut buffer: [u8; 7] = [0; 7];
    let (padding, _) = buffer.split_at_mut(padding_len);
    read_exact(reader, padding)?;
    if all_zero(padding) {
        Ok(())
    } else {
        Err(Error::BadPadding)
    }
}

/// A token short enough to be a word of the grammar.
pub struct ControlToken {
    bytes: [u8; 16],
    len: usize,
}

impl View for ControlToken {
    type V = Seq<u8>;

    closed spec fn view(&self) -> Seq<u8> {
        self.bytes@.take(self.len as int)
    }
}

impl ControlToken {
    pub closed spec fn wf(&self) -> bool {
        self.len <= MAX_CONTROL_TOKEN
    }

    pub fn as_bytes(&self) -> (r: &[u8])
        requires
            self.wf(),
        ensures
            r@ == self@,
    {
        let r = &self.bytes[0..self.len];
        assert(r@ =~= self@);
        r
    }

    /// Whether this is the word `expected`.
    pub fn is(&self, expected: &str) -> (r: bool)
        requires
            self.wf(),
        ensures
            r == (self@ == model::text(expected)),
    {
        same_bytes(self.as_bytes(), expected.as_bytes())
    }
}

/// Read the bytes and padding of a token of at most sixteen bytes.
fn read_short<R: ByteSource>(reader: &mut R, len: usize) -> (r: Result<ControlToken, Error>)
    requires
        len <= MAX_CONTROL_TOKEN,
    ensures
        undisturbed(*old(reader), *final(reader)),
        match r {
            Ok(token) => token.wf() && grammar::take_payload(old(reader).pending(), len as nat)
                == Ok::<_, ErrorView>((token@, final(reader).pending())),
            Err(e) => breakdown(*final(reader), e@) || {
                &&& grammar::take_payload(old(reader).pending(), len as nat) == Err::<
                    (Seq<u8>, Seq<u8>),
                    _,
                >(e@)
                &&& final(reader).pending() == bytes_left(
                    old(reader).pending(),
                    len as nat + model::padding(len as nat),
                )
            },
        },
{
    let mut bytes: [u8; 16] = [0; 16];
    let (front, _) = bytes.split_at_mut(len);
    read_exact(reader, front)?;
    assert(bytes@.take(len as int) =~= old(reader).pending().take(len as int));
    read_padding(reader, len as u64)?;
    Ok(ControlToken { bytes, len })
}

/// Read the next token, which must be short enough to still be one of the
/// grammar's words.
///
/// A longer token is not a word under any reading, and by then the length
/// prefix is suspect too: the bytes after it are as likely to be file payload
/// or framing as they are to be the token. An oversized token is therefore
/// reported by size alone.
pub fn read_control<R: ByteSource>(reader: &mut R, expected: &'static str) -> (r: Result<
    ControlToken,
    Error,
>)
    ensures
        undisturbed(*old(reader), *final(reader)),
        match r {
            Ok(token) => token.wf() && grammar::take_control(
                old(reader).pending(),
                expected,
                Mode::Stream,
            ) == Ok::<_, ErrorView>((token@, final(reader).pending())),
            Err(e) => breakdown(*final(reader), e@) || {
                &&& grammar::take_control(old(reader).pending(), expected, Mode::Stream) == Err::<
                    (Seq<u8>, Seq<u8>),
                    _,
                >(e@)
                &&& final(reader).pending() == token_left(
                    old(reader).pending(),
                    MAX_CONTROL_TOKEN as nat,
                )
            },
        },
{
    proof {
        reveal(grammar::take_token);
        reveal(grammar::take_control);
    }
    let len = read_len(reader)?;
    if len > MAX_CONTROL_TOKEN as u64 {
        let mut got = "<".to_owned();
        append_number(&mut got, len);
        got.append("-byte token>");
        return Err(Error::UnexpectedToken { expected, got });
    }
    read_short(reader, len as usize)
}

/// Read the word `expected`.
pub fn expect_word<R: ByteSource>(reader: &mut R, expected: &'static str) -> (r: Result<(), Error>)
    ensures
        undisturbed(*old(reader), *final(reader)),
        match r {
            Ok(()) => grammar::take_word(old(reader).pending(), expected, Mode::Stream) == Ok::<
                _,
                ErrorView,
            >(final(reader).pending()),
            Err(e) => breakdown(*final(reader), e@) || {
                &&& grammar::take_word(old(reader).pending(), expected, Mode::Stream) == Err::<
                    Seq<u8>,
                    _,
                >(e@)
                &&& final(reader).pending() == token_left(
                    old(reader).pending(),
                    MAX_CONTROL_TOKEN as nat,
                )
            },
        },
{
    proof {
        reveal(grammar::take_word);
        reveal(grammar::take_control);
        reveal(grammar::take_token);
    }
    let token = read_control(reader, expected)?;
    if token.is(expected) {
        Ok(())
    } else {
        Err(Error::UnexpectedToken { expected, got: describe_bytes(token.as_bytes()) })
    }
}

/// Read the magic that introduces an archive. Unless the source fails, whatever
/// is wrong with it is one error.
pub fn expect_magic<R: ByteSource>(reader: &mut R) -> (r: Result<(), Error>)
    ensures
        undisturbed(*old(reader), *final(reader)),
        match r {
            Ok(()) => grammar::take_token(old(reader).pending()) == Ok::<_, ErrorView>(
                (model::magic(), final(reader).pending()),
            ),
            Err(e) => breakdown(*final(reader), e@) || {
                let s = old(reader).pending();
                &&& e@ == ErrorView::BadMagic
                &&& !(grammar::take_token(s) matches Ok((got, _)) && got == model::magic())
                &&& final(reader).pending() == if s.len() >= 8 && model::le64_value(s)
                    != model::magic().len() {
                    s.skip(8)
                } else {
                    token_left(s, model::magic().len())
                }
            },
        },
{
    proof {
        reveal(grammar::take_token);
        model::lemma_magic_length();
    }
    let magic = "nix-archive-1".as_bytes();
    let len = match read_len(reader) {
        Ok(len) => len,
        Err(Error::Io(e)) => return Err(Error::Io(e)),
        Err(_) => return Err(Error::BadMagic),
    };
    if len != magic.len() as u64 {
        return Err(Error::BadMagic);
    }
    match read_short(reader, len as usize) {
        Ok(token) => if same_bytes(token.as_bytes(), magic) {
            Ok(())
        } else {
            Err(Error::BadMagic)
        },
        Err(Error::Io(e)) => Err(Error::Io(e)),
        Err(_) => Err(Error::BadMagic),
    }
}

/// Read a name or a symlink target into `bytes`.
pub fn read_bytes<R: ByteSource>(reader: &mut R, bytes: &mut Vec<u8>) -> (r: Result<(), Error>)
    ensures
        undisturbed(*old(reader), *final(reader)),
        match r {
            Ok(()) => grammar::take_metadata(old(reader).pending(), Mode::Stream) == Ok::<
                _,
                ErrorView,
            >((final(bytes)@, final(reader).pending())),
            Err(e) => breakdown(*final(reader), e@) || {
                &&& grammar::take_metadata(old(reader).pending(), Mode::Stream) == Err::<
                    (Seq<u8>, Seq<u8>),
                    _,
                >(e@)
                &&& final(reader).pending() == token_left(
                    old(reader).pending(),
                    model::MAX_METADATA_TOKEN as nat,
                )
            },
        },
{
    proof {
        reveal(grammar::take_token);
        reveal(grammar::take_metadata);
    }
    let len = read_len(reader)?;
    if len > model::MAX_METADATA_TOKEN as u64 {
        return Err(Error::TokenTooLarge { size: len, limit: model::MAX_METADATA_TOKEN });
    }
    bytes.clear();
    bytes.resize(len as usize, 0);
    read_exact(reader, bytes.as_mut_slice())?;
    read_padding(reader, len)
}

/// Whether the source has nothing left. Finding out consumes a byte if not.
pub fn source_exhausted<R: ByteSource>(reader: &mut R) -> (r: Result<bool, Error>)
    ensures
        undisturbed(*old(reader), *final(reader)),
        match r {
            Ok(exhausted) => {
                &&& exhausted == (old(reader).pending().len() == 0)
                &&& final(reader).pending() == bytes_left(old(reader).pending(), 1)
            },
            Err(e) => breakdown(*final(reader), e@),
        },
{
    let mut byte: [u8; 1] = [0; 1];
    loop
        invariant
            undisturbed(*old(reader), *reader),
            reader.pending() == old(reader).pending(),
        decreases reader.interruptions(),
    {
        match reader.read(&mut byte) {
            Ok(n) => return Ok(n == 0),
            Err(e) => {
                if e.kind != IoErrorKind::Interrupted {
                    return Err(Error::Io(e));
                }
            },
        }
    }
}

/// Read and drop `count` bytes.
pub fn skip_bytes<R: ByteSource>(reader: &mut R, count: u64) -> (r: Result<(), Error>)
    ensures
        undisturbed(*old(reader), *final(reader)),
        match r {
            Ok(()) => count <= old(reader).pending().len() && final(reader).pending() == old(
                reader,
            ).pending().skip(count as int),
            Err(e) => breakdown(*final(reader), e@) || {
                &&& e@ == ErrorView::UnexpectedEof
                &&& count > old(reader).pending().len()
                &&& final(reader).pending() == Seq::<u8>::empty()
            },
        },
{
    let mut buffer: [u8; 8192] = [0; 8192];
    let mut left: u64 = count;
    assert(reader.pending() =~= old(reader).pending().skip(0));
    while left > 0
        invariant
            left <= count,
            count - left <= old(reader).pending().len(),
            reader.pending() == old(reader).pending().skip(count - left),
            undisturbed(*old(reader), *reader),
        decreases left, reader.interruptions(),
    {
        let wanted: usize = if left < 8192 {
            left as usize
        } else {
            8192
        };
        let (front, _) = buffer.split_at_mut(wanted);
        match reader.read(front) {
            Ok(0) => return Err(Error::UnexpectedEof),
            Ok(n) => {
                assert(old(reader).pending().skip(count - left).skip(n as int) =~= old(
                    reader,
                ).pending().skip(count - (left - n)));
                left = left - n as u64;
            },
            Err(e) => {
                if e.kind != IoErrorKind::Interrupted {
                    return Err(Error::Io(e));
                }
            },
        }
    }
    Ok(())
}

}
