//! Byte sinks and byte sources.
//!
//! [`ByteSink`] and [`ByteSource`] are what the encoders write to and the
//! streaming decoder reads from. They carry the obligations of a well-behaved
//! writer and reader, so an encoder can say which bytes reached its sink and a
//! decoder can say what it made of the bytes that its source held.

use vstd::prelude::*;

verus! {

/// What went wrong, as far as the library tells failures apart.
#[derive(Clone, Copy, Debug, PartialEq, Eq, Structural)]
pub enum IoErrorKind {
    /// Nothing happened and the call may be repeated.
    Interrupted,
    UnexpectedEof,
    WriteZero,
    InvalidInput,
    InvalidData,
    AlreadyExists,
    NotFound,
    PermissionDenied,
    Other,
}

/// A failed read, write or filesystem operation.
#[derive(Debug)]
pub struct IoError {
    pub kind: IoErrorKind,
    pub message: String,
}

/// The kind and text of an [`IoError`].
pub struct IoErrorView {
    pub kind: IoErrorKind,
    pub message: Seq<char>,
}

impl View for IoError {
    type V = IoErrorView;

    open spec fn view(&self) -> IoErrorView {
        IoErrorView { kind: self.kind, message: self.message@ }
    }
}

impl IoError {
    pub fn new(kind: IoErrorKind, message: &str) -> (r: Self)
        ensures
            r@ == (IoErrorView { kind, message: message@ }),
    {
        IoError { kind, message: message.to_owned() }
    }

    pub fn kind(&self) -> (r: IoErrorKind)
        ensures
            r == self@.kind,
    {
        self.kind
    }
}

/// The failure of a sink that accepts nothing of a buffer that is not empty.
pub open spec fn write_zero_error() -> IoErrorView {
    IoErrorView { kind: IoErrorKind::WriteZero, message: "failed to write whole buffer"@ }
}

/// The failure of a sink that claims to have accepted more than it was given.
pub open spec fn overcount_error() -> IoErrorView {
    IoErrorView {
        kind: IoErrorKind::InvalidData,
        message: "underlying writer reported writing more bytes than supplied"@,
    }
}

/// `after` is `before` with some first part of `bytes` appended.
pub open spec fn extended_by_prefix(before: Seq<u8>, after: Seq<u8>, bytes: Seq<u8>) -> bool {
    exists|k: int| 0 <= k <= bytes.len() && after == before + #[trigger] bytes.take(k)
}

/// What is cut short before `more` is reached was cut short in all.
pub proof fn lemma_cut_short(before: Seq<u8>, after: Seq<u8>, bytes: Seq<u8>, more: Seq<u8>)
    requires
        extended_by_prefix(before, after, bytes),
    ensures
        extended_by_prefix(before, after, bytes + more),
{
    let k = choose|k: int| 0 <= k <= bytes.len() && after == before + #[trigger] bytes.take(k);
    assert((bytes + more).take(k) =~= bytes.take(k));
}

/// What is cut short behind `done` was cut short in all.
pub proof fn lemma_cut_short_behind(before: Seq<u8>, done: Seq<u8>, after: Seq<u8>, bytes: Seq<u8>)
    requires
        extended_by_prefix(before + done, after, bytes),
    ensures
        extended_by_prefix(before, after, done + bytes),
{
    let k = choose|k: int|
        0 <= k <= bytes.len() && after == (before + done) + #[trigger] bytes.take(k);
    assert(after =~= before + (done + bytes).take(done.len() + k));
}

/// What counts as accepted of `buf` by a sink that claims `n` bytes of it.
pub open spec fn counted(buf: Seq<u8>, n: usize) -> Seq<u8> {
    if n <= buf.len() {
        buf.take(n as int)
    } else {
        Seq::empty()
    }
}

/// `error` is the failure that a sink reported last, or says that the sink
/// accepted nothing, or that it has claimed too much.
pub open spec fn handed_on(
    failure: Option<IoErrorView>,
    overcounted: bool,
    error: IoErrorView,
) -> bool {
    ||| failure == Some(error)
    ||| error == write_zero_error()
    ||| overcounted && error == overcount_error()
}

/// A destination for bytes.
///
/// Only contracts speak of what has a body here; a sink itself is `write` and
/// `flush`.
pub trait ByteSink {
    /// Every byte accepted so far, in order, by the counts that the sink gave.
    closed spec fn written(&self) -> Seq<u8> {
        arbitrary()
    }

    /// What the sink needs to hold of itself to be written to.
    closed spec fn sound(&self) -> bool {
        arbitrary()
    }

    /// A property of the sink that writing to it preserves.
    closed spec fn in_step(&self) -> bool {
        arbitrary()
    }

    /// What the sink was set up with, which writing does not change.
    closed spec fn setup(&self) -> Seq<Seq<u8>> {
        arbitrary()
    }

    /// The sink never refuses bytes.
    closed spec fn reliable(&self) -> bool {
        arbitrary()
    }

    /// How many more interruptions the sink can report in a row.
    closed spec fn interruptions(&self) -> nat {
        arbitrary()
    }

    /// How many of the accepted bytes the sink has yet to push out.
    closed spec fn held_back(&self) -> nat {
        arbitrary()
    }

    /// The failure that the sink reported last.
    closed spec fn failure(&self) -> Option<IoErrorView> {
        arbitrary()
    }

    /// The last write claimed to have accepted more than it was given.
    closed spec fn overcounted(&self) -> bool {
        arbitrary()
    }

    /// Accept some first part of `buf` and say how long it is. A failure
    /// accepts nothing, and a count beyond the end of `buf` counts for nothing:
    /// it is for the caller to object to.
    fn write(&mut self, buf: &[u8]) -> (r: Result<usize, IoError>)
        requires
            old(self).sound(),
        ensures
            final(self).sound(),
            old(self).in_step() ==> final(self).in_step(),
            final(self).setup() == old(self).setup(),
            old(self).reliable() ==> final(self).reliable() && (r matches Ok(n) && n <= buf@.len()
                && (buf@.len() > 0 ==> n > 0)),
            match r {
                Ok(n) => {
                    &&& final(self).overcounted() == (n > buf@.len())
                    &&& final(self).written() == old(self).written() + counted(buf@, n)
                },
                Err(e) => {
                    &&& !final(self).overcounted()
                    &&& final(self).written() == old(self).written()
                    &&& final(self).failure() == Some(e@)
                    &&& e.kind is Interrupted ==> final(self).interruptions() < old(
                        self,
                    ).interruptions()
                },
            },
    ;

    /// Push out whatever the sink holds back.
    fn flush(&mut self) -> (r: Result<(), IoError>)
        requires
            old(self).sound(),
        ensures
            final(self).sound(),
            old(self).in_step() ==> final(self).in_step(),
            final(self).setup() == old(self).setup(),
            old(self).reliable() ==> final(self).reliable() && r is Ok,
            final(self).written() == old(self).written(),
            match r {
                Ok(()) => final(self).held_back() == 0,
                Err(e) => final(self).failure() == Some(e@),
            },
    ;

    /// Accept all of `buf`, repeating interrupted writes. On failure some
    /// first part of `buf` has been accepted. To accept nothing, or to claim
    /// more than there was, is a failure too.
    fn write_all(&mut self, buf: &[u8]) -> (r: Result<(), IoError>)
        requires
            old(self).sound(),
        ensures
            final(self).sound(),
            old(self).in_step() ==> final(self).in_step(),
            final(self).setup() == old(self).setup(),
            old(self).reliable() ==> final(self).reliable() && r is Ok,
            match r {
                Ok(()) => final(self).written() == old(self).written() + buf@,
                Err(e) => {
                    &&& !(e.kind is Interrupted)
                    &&& handed_on(
                        final(self).failure(),
                        final(self).overcounted(),
                        e@,
                    )
                    &&& extended_by_prefix(old(self).written(), final(self).written(), buf@)
                },
            },
    {
        let mut done: usize = 0;
        assert(self.written() =~= old(self).written() + buf@.take(0));
        while done < buf.len()
            invariant
                done <= buf@.len(),
                self.sound(),
                old(self).in_step() ==> self.in_step(),
                self.setup() == old(self).setup(),
                old(self).reliable() ==> self.reliable(),
                self.written() == old(self).written() + buf@.take(done as int),
            decreases buf@.len() - done, self.interruptions(),
        {
            let rest = &buf[done..buf.len()];
            match self.write(rest) {
                Ok(n) => {
                    if n > rest.len() {
                        assert(self.written() =~= old(self).written() + buf@.take(done as int));
                        return Err(
                            IoError::new(
                                IoErrorKind::InvalidData,
                                "underlying writer reported writing more bytes than supplied",
                            ),
                        );
                    }
                    if n == 0 {
                        assert(rest@.take(0) =~= Seq::<u8>::empty());
                        assert(self.written() =~= old(self).written() + buf@.take(done as int));
                        return Err(
                            IoError::new(IoErrorKind::WriteZero, "failed to write whole buffer"),
                        );
                    }
                    proof {
                        assert(buf@.take(done as int) + rest@.take(n as int) =~= buf@.take(
                            done + n,
                        ));
                        assert(self.written() =~= old(self).written() + buf@.take(done + n));
                    }
                    done = done + n;
                },
                Err(e) => {
                    if e.kind != IoErrorKind::Interrupted {
                        return Err(e);
                    }
                },
            }
        }
        assert(buf@.take(done as int) =~= buf@);
        Ok(())
    }
}

impl ByteSink for Vec<u8> {
    open spec fn written(&self) -> Seq<u8> {
        self@
    }

    open spec fn sound(&self) -> bool {
        true
    }

    open spec fn in_step(&self) -> bool {
        true
    }

    open spec fn setup(&self) -> Seq<Seq<u8>> {
        Seq::empty()
    }

    open spec fn reliable(&self) -> bool {
        true
    }

    open spec fn interruptions(&self) -> nat {
        0
    }

    open spec fn held_back(&self) -> nat {
        0
    }

    open spec fn failure(&self) -> Option<IoErrorView> {
        None
    }

    open spec fn overcounted(&self) -> bool {
        false
    }

    fn write(&mut self, buf: &[u8]) -> (r: Result<usize, IoError>) {
        self.extend_from_slice(buf);
        assert(self@ =~= old(self)@ + buf@);
        assert(buf@.take(buf@.len() as int) =~= buf@);
        Ok(buf.len())
    }

    fn flush(&mut self) -> (r: Result<(), IoError>) {
        Ok(())
    }
}

/// A supply of bytes.
///
/// Only contracts speak of what has a body here; a source itself is `read`.
pub trait ByteSource {
    /// The bytes that the source has yet to deliver.
    closed spec fn pending(&self) -> Seq<u8> {
        arbitrary()
    }

    /// The source never fails.
    closed spec fn reliable(&self) -> bool {
        arbitrary()
    }

    /// The source has reported a failure other than an interruption.
    closed spec fn broken(&self) -> bool {
        arbitrary()
    }

    /// How many more interruptions the source can report in a row.
    closed spec fn interruptions(&self) -> nat {
        arbitrary()
    }

    /// The failure that the source reported last.
    closed spec fn failure(&self) -> Option<IoErrorView> {
        arbitrary()
    }

    /// Deliver some first part of the pending bytes into the front of `buf`
    /// and say how long it is. Nothing is delivered into a buffer that has
    /// room only when nothing is pending, or on failure.
    fn read(&mut self, buf: &mut [u8]) -> (r: Result<usize, IoError>)
        ensures
            final(buf)@.len() == old(buf)@.len(),
            old(self).reliable() ==> final(self).reliable() && r is Ok,
            match r {
                Ok(n) => {
                    &&& n <= old(buf)@.len()
                    &&& n <= old(self).pending().len()
                    &&& n == 0 ==> old(buf)@.len() == 0 || old(self).pending().len() == 0
                    &&& final(buf)@.take(n as int) == old(self).pending().take(n as int)
                    &&& final(self).pending() == old(self).pending().skip(n as int)
                    &&& final(self).broken() == old(self).broken()
                },
                Err(e) => {
                    &&& final(self).pending() == old(self).pending()
                    &&& final(self).failure() == Some(e@)
                    &&& e.kind is Interrupted ==> final(self).broken() == old(self).broken()
                        && final(self).interruptions() < old(self).interruptions()
                    &&& !(e.kind is Interrupted) ==> final(self).broken()
                },
            },
    ;
}

/// A slice delivers its own bytes and shrinks as it does.
impl<'a> ByteSource for &'a [u8] {
    open spec fn pending(&self) -> Seq<u8> {
        self@
    }

    open spec fn reliable(&self) -> bool {
        true
    }

    open spec fn broken(&self) -> bool {
        false
    }

    open spec fn interruptions(&self) -> nat {
        0
    }

    open spec fn failure(&self) -> Option<IoErrorView> {
        None
    }

    fn read(&mut self, buf: &mut [u8]) -> (r: Result<usize, IoError>) {
        let data: &'a [u8] = *self;
        let n: usize = if data.len() < buf.len() {
            data.len()
        } else {
            buf.len()
        };
        let mut i: usize = 0;
        while i < n
            invariant
                i <= n,
                n <= data@.len(),
                n <= buf@.len(),
                buf@.len() == old(buf)@.len(),
                buf@.take(i as int) == data@.take(i as int),
            decreases n - i,
        {
            buf[i] = data[i];
            assert(buf@.take(i + 1) =~= data@.take(i + 1));
            i = i + 1;
        }
        *self = &data[n..data.len()];
        assert(self@ =~= data@.skip(n as int));
        Ok(n)
    }
}

}
