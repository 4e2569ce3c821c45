//! Validated NAR encoding from incremental events.

use vstd::prelude::*;

use crate::io;
use crate::io::{ByteSink, IoError, IoErrorKind};
use crate::model;
use crate::model::{EventView, MAX_DEPTH};
use crate::names;
use crate::names::validate_child_name;
use crate::nar::{Error, ErrorView};
use crate::wire;
use crate::wire::{le64_bytes, pad_len, write_token, write_tokens};

verus! {

// ---------------------------------------------------------------------------
// What the encoder does with an event
// ---------------------------------------------------------------------------

/// How far the root object has got.
#[derive(Clone, Copy, Debug, PartialEq, Eq, Structural)]
pub enum RootState {
    Empty,
    Open,
    Complete,
}

/// The state of an encoder: for each open directory the name of its latest
/// entry, how far the root has got, and whether a failed write has left the
/// output unusable.
pub struct EncoderView {
    pub open: Seq<Option<Seq<u8>>>,
    pub root: RootState,
    pub poisoned: bool,
}

/// The state once the magic is written.
pub open spec fn fresh() -> EncoderView {
    EncoderView { open: Seq::empty(), root: RootState::Empty, poisoned: false }
}

/// The state and the bytes that an accepted event leads to, or the error with
/// which it is refused.
pub type Step = Result<(EncoderView, Seq<u8>), ErrorView>;

/// Why the encoder takes no event at all, if that is so.
pub open spec fn usage_error(v: EncoderView) -> Option<ErrorView> {
    if v.poisoned {
        Some(ErrorView::EncoderPoisoned)
    } else if v.root == RootState::Complete {
        Some(ErrorView::InvalidEncoderEvent("archive is already complete"@))
    } else {
        None
    }
}

/// Why no node known as `name` can start, if that is so.
pub open spec fn placement_error(v: EncoderView, name: Option<Seq<u8>>) -> Option<ErrorView> {
    if usage_error(v) is Some {
        usage_error(v)
    } else if v.open.len() > 0 {
        match name {
            None => Some(
                ErrorView::InvalidEncoderEvent("a node inside a directory must have a name"@),
            ),
            Some(n) => if names::name_error(n, v.open.last()) is Some {
                names::name_error(n, v.open.last())
            } else if v.open.len() >= MAX_DEPTH {
                Some(ErrorView::MaxDepth(MAX_DEPTH as nat))
            } else {
                None
            },
        }
    } else if name is Some {
        Some(ErrorView::InvalidEncoderEvent("the root must be unnamed"@))
    } else if v.root != RootState::Empty {
        Some(ErrorView::InvalidEncoderEvent("archive already has a root"@))
    } else {
        None
    }
}

/// What precedes the node of an entry.
pub open spec fn opening(name: Option<Seq<u8>>) -> Seq<u8> {
    match name {
        Some(n) => model::entry_head(n),
        None => Seq::empty(),
    }
}

/// What ends a node, and the entry that it is in if it has a name.
pub open spec fn closing(named: bool) -> Seq<u8> {
    if named {
        model::word(")") + model::word(")")
    } else {
        model::word(")")
    }
}

/// The state once a node known as `name` has started.
pub open spec fn started(v: EncoderView, name: Option<Seq<u8>>) -> EncoderView {
    match name {
        Some(n) => EncoderView { open: v.open.drop_last().push(Some(n)), ..v },
        None => EncoderView { root: RootState::Open, ..v },
    }
}

/// The state once a node has ended.
pub open spec fn ended(v: EncoderView, named: bool) -> EncoderView {
    if named {
        v
    } else {
        EncoderView { root: RootState::Complete, ..v }
    }
}

/// A node with nothing inside it: `body` stands between its opening and its
/// closing.
pub open spec fn leaf(v: EncoderView, name: Option<Seq<u8>>, body: Seq<u8>) -> Step {
    match placement_error(v, name) {
        Some(e) => Err(e),
        None => Ok(
            (ended(started(v, name), name is Some), opening(name) + body + closing(name is Some)),
        ),
    }
}

/// What ending the innermost directory comes to.
pub open spec fn directory_end(v: EncoderView) -> Step {
    if usage_error(v) is Some {
        Err(usage_error(v)->0)
    } else if v.open.len() == 0 {
        Err(ErrorView::InvalidEncoderEvent("no directory is open"@))
    } else {
        let named = v.open.len() > 1;
        Ok((ended(EncoderView { open: v.open.drop_last(), ..v }, named), closing(named)))
    }
}

/// What comes of one event.
pub open spec fn step(v: EncoderView, event: EventView) -> Step {
    match event {
        EventView::DirectoryStart { name } => match placement_error(v, name) {
            Some(e) => Err(e),
            None => {
                let s = started(v, name);
                Ok(
                    (
                        EncoderView { open: s.open.push(None), ..s },
                        opening(name) + model::node_head("directory"),
                    ),
                )
            },
        },
        EventView::DirectoryEnd { .. } => directory_end(v),
        EventView::Regular { name, executable, contents, .. } => leaf(
            v,
            name,
            model::regular_head(executable) + model::token(contents),
        ),
        EventView::Symlink { name, target } => leaf(
            v,
            name,
            model::node_head("symlink") + model::word("target") + model::token(target),
        ),
    }
}

/// Events one after the other, up to the first that is refused: the bytes
/// written until then, and the state or the error at the end.
pub struct Run {
    pub bytes: Seq<u8>,
    pub end: Result<EncoderView, ErrorView>,
}

/// What comes of a sequence of events.
pub open spec fn run(v: EncoderView, events: Seq<EventView>) -> Run
    decreases events.len(),
{
    if events.len() == 0 {
        Run { bytes: Seq::empty(), end: Ok(v) }
    } else {
        match step(v, events[0]) {
            Err(e) => Run { bytes: Seq::empty(), end: Err(e) },
            Ok((next, bytes)) => {
                let more = run(next, events.skip(1));
                Run { bytes: bytes + more.bytes, end: more.end }
            },
        }
    }
}

/// Going on after a run.
pub open spec fn and_run(first: Run, events: Seq<EventView>) -> Run {
    match first.end {
        Err(_) => first,
        Ok(v) => {
            let more = run(v, events);
            Run { bytes: first.bytes + more.bytes, end: more.end }
        },
    }
}

pub proof fn lemma_run_concat(v: EncoderView, a: Seq<EventView>, b: Seq<EventView>)
    ensures
        run(v, a + b) == and_run(run(v, a), b),
    decreases a.len(),
{
    if a.len() == 0 {
        assert(a + b =~= b);
        assert(Seq::<u8>::empty() + run(v, b).bytes =~= run(v, b).bytes);
    } else {
        assert((a + b).skip(1) =~= a.skip(1) + b);
        if let Ok((next, bytes)) = step(v, a[0]) {
            lemma_run_concat(next, a.skip(1), b);
            if let Ok(w) = run(next, a.skip(1)).end {
                assert(bytes + (run(next, a.skip(1)).bytes + run(w, b).bytes) =~= bytes + run(
                    next,
                    a.skip(1),
                ).bytes + run(w, b).bytes);
            }
        }
    }
}

pub proof fn lemma_run_one(v: EncoderView, event: EventView)
    ensures
        run(v, seq![event]) == match step(v, event) {
            Err(e) => (Run { bytes: Seq::empty(), end: Err(e) }),
            Ok((next, bytes)) => (Run { bytes, end: Ok(next) }),
        },
{
    if let Ok((next, bytes)) = step(v, event) {
        assert(seq![event].skip(1) =~= Seq::<EventView>::empty());
        assert(run(next, seq![event].skip(1)).bytes =~= Seq::<u8>::empty());
        assert(bytes + Seq::<u8>::empty() =~= bytes);
    }
}

// ---------------------------------------------------------------------------
// Names of the entries so far
// ---------------------------------------------------------------------------

/// Where an encoder keeps the latest name in each open directory.
pub trait NameStorage<'name> {
    spec fn wf(&self) -> bool;

    /// The latest name in the directory at the given depth.
    spec fn latest(&self, directory: int) -> Option<Seq<u8>>;

    fn previous(&self, directory: usize) -> (r: Option<&[u8]>)
        requires
            self.wf(),
            directory < MAX_DEPTH,
        ensures
            names::optional(r) == self.latest(directory as int),
    ;

    fn remember(&mut self, directory: usize, name: &'name [u8])
        requires
            old(self).wf(),
            directory < MAX_DEPTH,
            name@.len() > 0,
        ensures
            final(self).wf(),
            forall|i: int|
                0 <= i < MAX_DEPTH ==> #[trigger] final(self).latest(i) == (if i == directory {
                    Some(name@)
                } else {
                    old(self).latest(i)
                }),
    ;

    fn clear(&mut self, directory: usize)
        requires
            old(self).wf(),
            directory < MAX_DEPTH,
        ensures
            final(self).wf(),
            forall|i: int|
                0 <= i < MAX_DEPTH ==> #[trigger] final(self).latest(i) == (if i == directory {
                    None
                } else {
                    old(self).latest(i)
                }),
    ;
}

/// Names copied into buffers that are reused. No name is empty, so an empty
/// buffer stands for none.
pub struct OwnedNames {
    previous: Vec<Vec<u8>>,
}

impl OwnedNames {
    pub fn new() -> (r: Self)
        ensures
            NameStorage::wf(&r),
    {
        let mut previous: Vec<Vec<u8>> = Vec::new();
        while previous.len() < MAX_DEPTH
            invariant
                previous.len() <= MAX_DEPTH,
            decreases MAX_DEPTH - previous.len(),
        {
            previous.push(Vec::new());
        }
        OwnedNames { previous }
    }
}

impl<'name> NameStorage<'name> for OwnedNames {
    closed spec fn wf(&self) -> bool {
        self.previous@.len() == MAX_DEPTH
    }

    closed spec fn latest(&self, directory: int) -> Option<Seq<u8>> {
        if self.previous@[directory]@.len() == 0 {
            None
        } else {
            Some(self.previous@[directory]@)
        }
    }

    fn previous(&self, directory: usize) -> (r: Option<&[u8]>) {
        let previous = &self.previous[directory];
        if previous.len() == 0 {
            None
        } else {
            Some(previous.as_slice())
        }
    }

    fn remember(&mut self, directory: usize, name: &'name [u8]) {
        let previous = &mut self.previous[directory];
        previous.clear();
        previous.extend_from_slice(name);
        assert(self.previous@[directory as int]@ =~= name@);
    }

    fn clear(&mut self, directory: usize) {
        let previous = &mut self.previous[directory];
        previous.clear();
    }
}

/// Names borrowed from the tree that is being encoded.
pub struct BorrowedNames<'tree> {
    previous: [Option<&'tree [u8]>; 64],
}

impl<'tree> BorrowedNames<'tree> {
    pub fn new() -> (r: Self)
        ensures
            NameStorage::wf(&r),
            forall|i: int| 0 <= i < MAX_DEPTH ==> #[trigger] r.latest(i) is None,
    {
        BorrowedNames { previous: [None; 64] }
    }
}

impl<'tree> NameStorage<'tree> for BorrowedNames<'tree> {
    closed spec fn wf(&self) -> bool {
        true
    }

    closed spec fn latest(&self, directory: int) -> Option<Seq<u8>> {
        names::optional(self.previous@[directory])
    }

    fn previous(&self, directory: usize) -> (r: Option<&[u8]>) {
        self.previous[directory]
    }

    fn remember(&mut self, directory: usize, name: &'tree [u8]) {
        self.previous[directory] = Some(name);
    }

    fn clear(&mut self, directory: usize) {
        self.previous[directory] = None;
    }
}

// ---------------------------------------------------------------------------
// The state machine
// ---------------------------------------------------------------------------

/// An encoder's state has gone from `before` to `after`, and its output from
/// `sent` to `now`, as `step` says. Where the sink failed, the output is cut
/// short and the encoder poisoned.
pub open spec fn stepped(
    step: Step,
    before: EncoderView,
    after: EncoderView,
    sent: Seq<u8>,
    now: Seq<u8>,
    failure: Option<ErrorView>,
) -> bool {
    match step {
        Err(e) => failure == Some(e) && after == before && now == sent,
        Ok((next, bytes)) => match failure {
            None => after == next && now == sent + bytes,
            Some(e) => e is Io && after.poisoned && io::extended_by_prefix(sent, now, bytes),
        },
    }
}

/// What an encoder knows apart from its sink.
pub struct EncoderCore<N> {
    names: N,
    depth: usize,
    root: RootState,
    poisoned: bool,
}

impl<'name, N: NameStorage<'name>> EncoderCore<N> {
    pub closed spec fn view(&self) -> EncoderView {
        EncoderView {
            open: Seq::new(self.depth as nat, |i: int| self.names.latest(i)),
            root: self.root,
            poisoned: self.poisoned,
        }
    }

    pub closed spec fn wf(&self) -> bool {
        &&& self.depth <= MAX_DEPTH
        &&& self.names.wf()
    }

    pub(crate) fn new(names: N) -> (r: Self)
        requires
            names.wf(),
        ensures
            r.wf(),
            r@ == fresh(),
    {
        let r = EncoderCore { names, depth: 0, root: RootState::Empty, poisoned: false };
        assert(r@.open =~= Seq::empty());
        r
    }

    fn ensure_usable(&self) -> (r: Result<(), Error>)
        ensures
            wire::error_of(r) == usage_error(self@),
    {
        if self.poisoned {
            Err(Error::EncoderPoisoned)
        } else if self.root == RootState::Complete {
            Err(Error::InvalidEncoderEvent("archive is already complete"))
        } else {
            Ok(())
        }
    }

    /// Check that a node known as `name` can start here.
    fn check_placement(&self, name: Option<&[u8]>) -> (r: Result<(), Error>)
        requires
            self.wf(),
        ensures
            wire::error_of(r) == placement_error(self@, names::optional(name)),
    {
        self.ensure_usable()?;
        if self.depth != 0 {
            assert(self@.open.last() == self.names.latest(self.depth - 1));
            match name {
                None => {
                    return Err(
                        Error::InvalidEncoderEvent("a node inside a directory must have a name"),
                    );
                },
                Some(name) => validate_child_name(name, self.names.previous(self.depth - 1))?,
            }
        } else {
            if name.is_some() {
                return Err(Error::InvalidEncoderEvent("the root must be unnamed"));
            }
            if self.root != RootState::Empty {
                return Err(Error::InvalidEncoderEvent("archive already has a root"));
            }
        }
        if self.depth >= MAX_DEPTH {
            return Err(Error::MaxDepth(MAX_DEPTH));
        }
        Ok(())
    }

    /// Turn the outcome of a write into that of the encoder.
    fn settle(&mut self, written: Result<(), IoError>) -> (r: Result<(), Error>)
        ensures
            old(self).wf() ==> final(self).wf(),
            match written {
                Ok(()) => r is Ok && final(self)@ == old(self)@,
                Err(io) => r matches Err(e) && e@ == ErrorView::Io(io@) && final(self)@ == (
                EncoderView { poisoned: true, ..old(self)@ }),
            },
    {
        match written {
            Ok(()) => Ok(()),
            Err(e) => {
                self.poisoned = true;
                Err(Error::Io(e))
            },
        }
    }

    /// Start a node: write what precedes it and then `head`.
    fn start_node<W: ByteSink>(&mut self, w: &mut W, name: Option<&'name [u8]>, head: &[&[u8]]) -> (r:
        Result<(), Error>)
        requires
            old(self).wf(),
            old(w).sound(),
        ensures
            final(self).wf(),
            wire::unharmed(*old(w), *final(w)),
            wire::reported(*final(w), wire::error_of(r)),
            old(w).reliable() && placement_error(old(self)@, names::optional(name)) is None
                ==> r is Ok,
            stepped(
                match placement_error(old(self)@, names::optional(name)) {
                    Some(e) => Err(e),
                    None => Ok(
                        (
                            started(old(self)@, names::optional(name)),
                            opening(names::optional(name)) + wire::all_tokens(head@),
                        ),
                    ),
                },
                old(self)@,
                final(self)@,
                old(w).written(),
                final(w).written(),
                wire::error_of(r),
            ),
    {
        self.check_placement(name)?;
        let ghost before = w.written();
        let ghost opened = opening(names::optional(name));
        if let Some(name) = name {
            let list: [&[u8]; 5] = [
                "entry".as_bytes(),
                "(".as_bytes(),
                "name".as_bytes(),
                name,
                "node".as_bytes(),
            ];
            proof {
                lemma_entry_head(list@, name@);
            }
            let written = write_tokens(w, &list);
            match self.settle(written) {
                Ok(()) => {},
                Err(e) => {
                    proof {
                        io::lemma_cut_short(
                            before,
                            w.written(),
                            opened,
                            wire::all_tokens(head@),
                        );
                    }
                    return Err(e);
                },
            }
        }
        assert(w.written() =~= before + opened);
        let written = write_tokens(w, head);
        match self.settle(written) {
            Ok(()) => {},
            Err(e) => {
                proof {
                    io::lemma_cut_short_behind(
                        before,
                        opened,
                        w.written(),
                        wire::all_tokens(head@),
                    );
                }
                return Err(e);
            },
        }
        assert(w.written() =~= before + (opened + wire::all_tokens(head@)));
        match name {
            Some(name) => {
                self.names.remember(self.depth - 1, name);
            },
            None => {
                self.root = RootState::Open;
            },
        }
        assert(self@.open =~= started(old(self)@, names::optional(name)).open);
        Ok(())
    }

    /// End a node.
    fn finish_node<W: ByteSink>(&mut self, w: &mut W, named: bool) -> (r: Result<(), Error>)
        requires
            old(self).wf(),
            old(w).sound(),
        ensures
            final(self).wf(),
            wire::unharmed(*old(w), *final(w)),
            wire::reported(*final(w), wire::error_of(r)),
            old(w).reliable() ==> r is Ok,
            stepped(
                Ok((ended(old(self)@, named), closing(named))),
                old(self)@,
                final(self)@,
                old(w).written(),
                final(w).written(),
                wire::error_of(r),
            ),
    {
        let written = if named {
            let list: [&[u8]; 2] = [")".as_bytes(), ")".as_bytes()];
            proof {
                lemma_two_tokens(list@);
            }
            write_tokens(w, &list)
        } else {
            write_token(w, ")".as_bytes())
        };
        self.settle(written)?;
        if !named {
            self.root = RootState::Complete;
        }
        Ok(())
    }

    /// Write bytes that are no token of their own.
    pub(crate) fn write_raw<W: ByteSink>(&mut self, w: &mut W, bytes: &[u8]) -> (r: Result<(), Error>)
        requires
            old(self).wf(),
            old(w).sound(),
        ensures
            final(self).wf(),
            wire::unharmed(*old(w), *final(w)),
            wire::reported(*final(w), wire::error_of(r)),
            old(w).reliable() ==> r is Ok,
            stepped(
                Ok((old(self)@, bytes@)),
                old(self)@,
                final(self)@,
                old(w).written(),
                final(w).written(),
                wire::error_of(r),
            ),
    {
        let written = w.write_all(bytes);
        self.settle(written)
    }

    pub(crate) fn start_directory<W: ByteSink>(&mut self, w: &mut W, name: Option<&'name [u8]>) -> (r: Result<
        (),
        Error,
    >)
        requires
            old(self).wf(),
            old(w).sound(),
        ensures
            final(self).wf(),
            wire::unharmed(*old(w), *final(w)),
            wire::reported(*final(w), wire::error_of(r)),
            ({
                let event = EventView::DirectoryStart { name: names::optional(name) };
                &&& old(w).reliable() && step(old(self)@, event) is Ok ==> r is Ok
                &&& stepped(
                    step(old(self)@, event),
                    old(self)@,
                    final(self)@,
                    old(w).written(),
                    final(w).written(),
                    wire::error_of(r),
                )
            }),
    {
        let head: [&[u8]; 3] = ["(".as_bytes(), "type".as_bytes(), "directory".as_bytes()];
        proof {
            lemma_node_head(head@, "directory");
        }
        self.start_node(w, name, &head)?;
        let ghost s = started(old(self)@, names::optional(name));
        assert(self@.open.len() == self.depth);
        self.names.clear(self.depth);
        self.depth = self.depth + 1;
        assert(self@.open =~= s.open.push(None));
        Ok(())
    }

    pub(crate) fn end_directory<W: ByteSink>(&mut self, w: &mut W) -> (r: Result<(), Error>)
        requires
            old(self).wf(),
            old(w).sound(),
        ensures
            final(self).wf(),
            wire::unharmed(*old(w), *final(w)),
            wire::reported(*final(w), wire::error_of(r)),
            old(w).reliable() && directory_end(old(self)@) is Ok ==> r is Ok,
            stepped(
                directory_end(old(self)@),
                old(self)@,
                final(self)@,
                old(w).written(),
                final(w).written(),
                wire::error_of(r),
            ),
    {
        self.ensure_usable()?;
        if self.depth == 0 {
            return Err(Error::InvalidEncoderEvent("no directory is open"));
        }
        // Only the outermost directory has no name.
        self.finish_node(w, self.depth > 1)?;
        self.depth = self.depth - 1;
        assert(self@.open =~= old(self)@.open.drop_last());
        Ok(())
    }

    pub(crate) fn symlink<W: ByteSink>(&mut self, w: &mut W, name: Option<&'name [u8]>, target: &[u8]) -> (r:
        Result<(), Error>)
        requires
            old(self).wf(),
            old(w).sound(),
        ensures
            final(self).wf(),
            wire::unharmed(*old(w), *final(w)),
            wire::reported(*final(w), wire::error_of(r)),
            ({
                let event = EventView::Symlink { name: names::optional(name), target: target@ };
                &&& old(w).reliable() && step(old(self)@, event) is Ok ==> r is Ok
                &&& stepped(
                    step(old(self)@, event),
                    old(self)@,
                    final(self)@,
                    old(w).written(),
                    final(w).written(),
                    wire::error_of(r),
                )
            }),
    {
        let head: [&[u8]; 5] = [
            "(".as_bytes(),
            "type".as_bytes(),
            "symlink".as_bytes(),
            "target".as_bytes(),
            target,
        ];
        let ghost before = w.written();
        let ghost opened = opening(names::optional(name)) + wire::all_tokens(head@);
        let ghost closed = closing(name is Some);
        proof {
            lemma_symlink_head(head@, target@);
        }
        match self.start_node(w, name, &head) {
            Ok(()) => {},
            Err(e) => {
                proof {
                    if io::extended_by_prefix(before, w.written(), opened) {
                        io::lemma_cut_short(before, w.written(), opened, closed);
                    }
                }
                return Err(e);
            },
        }
        let r = self.finish_node(w, name.is_some());
        proof {
            if r is Err {
                io::lemma_cut_short_behind(before, opened, w.written(), closed);
            }
            assert(before + opened + closed =~= before + (opened + closed));
        }
        r
    }

    /// Start a regular file: write everything up to its contents.
    pub(crate) fn start_regular<W: ByteSink>(
        &mut self,
        w: &mut W,
        name: Option<&'name [u8]>,
        executable: bool,
        size: u64,
    ) -> (r: Result<(), Error>)
        requires
            old(self).wf(),
            old(w).sound(),
        ensures
            final(self).wf(),
            wire::unharmed(*old(w), *final(w)),
            wire::reported(*final(w), wire::error_of(r)),
            old(w).reliable() && placement_error(old(self)@, names::optional(name)) is None
                ==> r is Ok,
            stepped(
                file_started(old(self)@, names::optional(name), executable, size as nat),
                old(self)@,
                final(self)@,
                old(w).written(),
                final(w).written(),
                wire::error_of(r),
            ),
    {
        let ghost before = w.written();
        let ghost opened = opening(names::optional(name)) + model::regular_head(executable);
        let prefix = le64_bytes(size);
        let started = if executable {
            let head: [&[u8]; 6] = [
                "(".as_bytes(),
                "type".as_bytes(),
                "regular".as_bytes(),
                "executable".as_bytes(),
                "".as_bytes(),
                "contents".as_bytes(),
            ];
            proof {
                lemma_executable_head(head@);
            }
            self.start_node(w, name, &head)
        } else {
            let head: [&[u8]; 4] = [
                "(".as_bytes(),
                "type".as_bytes(),
                "regular".as_bytes(),
                "contents".as_bytes(),
            ];
            proof {
                lemma_regular_head(head@);
            }
            self.start_node(w, name, &head)
        };
        match started {
            Ok(()) => {},
            Err(e) => {
                proof {
                    if io::extended_by_prefix(before, w.written(), opened) {
                        io::lemma_cut_short(before, w.written(), opened, prefix@);
                    }
                }
                return Err(e);
            },
        }
        let r = self.write_raw(w, &prefix);
        proof {
            if r is Err {
                io::lemma_cut_short_behind(before, opened, w.written(), prefix@);
            }
            assert(before + opened + prefix@ =~= before + (opened + prefix@));
        }
        r
    }

    /// End a regular file behind its contents.
    pub(crate) fn finish_regular<W: ByteSink>(&mut self, w: &mut W, named: bool, size: u64) -> (r: Result<
        (),
        Error,
    >)
        requires
            old(self).wf(),
            old(w).sound(),
        ensures
            final(self).wf(),
            wire::unharmed(*old(w), *final(w)),
            wire::reported(*final(w), wire::error_of(r)),
            old(w).reliable() ==> r is Ok,
            stepped(
                Ok((ended(old(self)@, named), file_end(named, size as nat))),
                old(self)@,
                final(self)@,
                old(w).written(),
                final(w).written(),
                wire::error_of(r),
            ),
    {
        let ghost before = w.written();
        let ghost closed = closing(named);
        let zeros: [u8; 8] = [0; 8];
        let padding = &zeros[0..pad_len((size % 8) as usize)];
        assert(padding@ =~= model::zeros(model::padding(size as nat)));
        match self.write_raw(w, padding) {
            Ok(()) => {},
            Err(e) => {
                proof {
                    io::lemma_cut_short(before, w.written(), padding@, closed);
                }
                return Err(e);
            },
        }
        let r = self.finish_node(w, named);
        proof {
            if r is Err {
                io::lemma_cut_short_behind(before, padding@, w.written(), closed);
            }
            assert(before + padding@ + closed =~= before + (padding@ + closed));
        }
        r
    }

    pub(crate) fn regular<W: ByteSink>(
        &mut self,
        w: &mut W,
        name: Option<&'name [u8]>,
        executable: bool,
        contents: &[u8],
    ) -> (r: Result<(), Error>)
        requires
            old(self).wf(),
            old(w).sound(),
        ensures
            final(self).wf(),
            wire::unharmed(*old(w), *final(w)),
            wire::reported(*final(w), wire::error_of(r)),
            ({
                let event = model::regular_event(names::optional(name), executable, contents@);
                &&& old(w).reliable() && step(old(self)@, event) is Ok ==> r is Ok
                &&& stepped(
                    step(old(self)@, event),
                    old(self)@,
                    final(self)@,
                    old(w).written(),
                    final(w).written(),
                    wire::error_of(r),
                )
            }),
    {
        let size = contents.len() as u64;
        let named = name.is_some();
        let ghost label = names::optional(name);
        let ghost before = w.written();
        let ghost head = opening(label) + model::regular_head(executable) + model::le64(size as nat);
        let ghost end = file_end(named, size as nat);
        proof {
            lemma_file_bytes(label, executable, contents@);
        }
        match self.start_regular(w, name, executable, size) {
            Ok(()) => {},
            Err(e) => {
                proof {
                    if io::extended_by_prefix(before, w.written(), head) {
                        io::lemma_cut_short(before, w.written(), head, contents@ + end);
                    }
                }
                return Err(e);
            },
        }
        match self.write_raw(w, contents) {
            Ok(()) => {},
            Err(e) => {
                proof {
                    io::lemma_cut_short(before + head, w.written(), contents@, end);
                    io::lemma_cut_short_behind(before, head, w.written(), contents@ + end);
                }
                return Err(e);
            },
        }
        let r = self.finish_regular(w, named, size);
        proof {
            if r is Err {
                io::lemma_cut_short_behind(before + head, contents@, w.written(), end);
                io::lemma_cut_short_behind(before, head, w.written(), contents@ + end);
            }
            assert(before + head + contents@ + end =~= before + (head + (contents@ + end)));
        }
        r
    }
}

/// What starting a regular file of `size` bytes comes to.
pub open spec fn file_started(
    v: EncoderView,
    name: Option<Seq<u8>>,
    executable: bool,
    size: nat,
) -> Step {
    match placement_error(v, name) {
        Some(e) => Err(e),
        None => Ok(
            (
                started(v, name),
                opening(name) + model::regular_head(executable) + model::le64(size),
            ),
        ),
    }
}

/// What follows the contents of a regular file of `size` bytes.
pub open spec fn file_end(named: bool, size: nat) -> Seq<u8> {
    model::zeros(model::padding(size)) + closing(named)
}

/// A regular file is its start, its contents, and its end.
pub proof fn lemma_file_bytes(name: Option<Seq<u8>>, executable: bool, contents: Seq<u8>)
    ensures
        opening(name) + (model::regular_head(executable) + model::token(contents)) + closing(
            name is Some,
        ) == opening(name) + model::regular_head(executable) + model::le64(contents.len()) + (
        contents + file_end(name is Some, contents.len())),
{
    reveal(model::token);
    lemma_regroup(
        opening(name),
        model::regular_head(executable),
        model::le64(contents.len()),
        contents,
        model::zeros(model::padding(contents.len())),
        closing(name is Some),
    );
}

proof fn lemma_regroup(a: Seq<u8>, b: Seq<u8>, c: Seq<u8>, d: Seq<u8>, e: Seq<u8>, f: Seq<u8>)
    ensures
        a + (b + (c + d + e)) + f == a + b + c + (d + (e + f)),
{
    assert(a + (b + (c + d + e)) + f =~= a + b + c + (d + (e + f)));
}

proof fn lemma_two_tokens(list: Seq<&[u8]>)
    requires
        list.len() == 2,
    ensures
        wire::all_tokens(list) == model::token(list[0]@) + model::token(list[1]@),
{
    reveal_with_fuel(wire::all_tokens, 3);
    assert(wire::all_tokens(list) =~= model::token(list[0]@) + model::token(list[1]@));
}

proof fn lemma_entry_head(list: Seq<&[u8]>, name: Seq<u8>)
    requires
        list.len() == 5,
        list[0]@ == model::text("entry"),
        list[1]@ == model::text("("),
        list[2]@ == model::text("name"),
        list[3]@ == name,
        list[4]@ == model::text("node"),
    ensures
        wire::all_tokens(list) == model::entry_head(name),
{
    reveal_with_fuel(wire::all_tokens, 6);
    assert(wire::all_tokens(list) =~= model::entry_head(name));
}

proof fn lemma_node_head(list: Seq<&[u8]>, kind: &str)
    requires
        list.len() == 3,
        list[0]@ == model::text("("),
        list[1]@ == model::text("type"),
        list[2]@ == model::text(kind),
    ensures
        wire::all_tokens(list) == model::node_head(kind),
{
    reveal_with_fuel(wire::all_tokens, 4);
    assert(wire::all_tokens(list) =~= model::node_head(kind));
}

proof fn lemma_symlink_head(list: Seq<&[u8]>, target: Seq<u8>)
    requires
        list.len() == 5,
        list[0]@ == model::text("("),
        list[1]@ == model::text("type"),
        list[2]@ == model::text("symlink"),
        list[3]@ == model::text("target"),
        list[4]@ == target,
    ensures
        wire::all_tokens(list) == model::node_head("symlink") + model::word("target")
            + model::token(target),
{
    reveal_with_fuel(wire::all_tokens, 6);
    assert(wire::all_tokens(list) =~= model::node_head("symlink") + model::word("target")
        + model::token(target));
}

proof fn lemma_executable_head(list: Seq<&[u8]>)
    requires
        list.len() == 6,
        list[0]@ == model::text("("),
        list[1]@ == model::text("type"),
        list[2]@ == model::text("regular"),
        list[3]@ == model::text("executable"),
        list[4]@ == model::text(""),
        list[5]@ == model::text("contents"),
    ensures
        wire::all_tokens(list) == model::regular_head(true),
{
    reveal_with_fuel(wire::all_tokens, 7);
    assert(wire::all_tokens(list) =~= model::regular_head(true));
}

proof fn lemma_regular_head(list: Seq<&[u8]>)
    requires
        list.len() == 4,
        list[0]@ == model::text("("),
        list[1]@ == model::text("type"),
        list[2]@ == model::text("regular"),
        list[3]@ == model::text("contents"),
    ensures
        wire::all_tokens(list) == model::regular_head(false),
{
    reveal_with_fuel(wire::all_tokens, 5);
    assert(wire::all_tokens(list) =~= model::regular_head(false));
}

// ---------------------------------------------------------------------------
// The incremental encoder
// ---------------------------------------------------------------------------

/// A validated, incremental NAR encoder.
///
/// Nodes are supplied in root-first order. A root has no name, while every
/// node inside a directory must have a name. Directory children must be
/// supplied in strictly increasing raw-byte order.
pub struct Encoder<W> {
    core: EncoderCore<OwnedNames>,
    writer: W,
}

impl<W: ByteSink> Encoder<W> {
    pub closed spec fn view(&self) -> EncoderView {
        self.core@
    }

    pub closed spec fn wf(&self) -> bool {
        self.core.wf() && self.writer.sound()
    }

    /// The sink that the archive is written to.
    pub closed spec fn sink(&self) -> W {
        self.writer
    }

    /// Start an incremental archive and write its magic token.
    pub fn new(writer: W) -> (r: Result<Self, Error>)
        requires
            writer.sound(),
        ensures
            writer.reliable() ==> r is Ok,
            match r {
                Ok(encoder) => {
                    &&& encoder.wf()
                    &&& encoder@ == fresh()
                    &&& wire::unharmed(writer, encoder.sink())
                    &&& encoder.sink().written() == writer.written() + model::token(model::magic())
                },
                Err(e) => wire::lost(writer, e@),
            },
    {
        let mut writer = writer;
        match write_token(&mut writer, "nix-archive-1".as_bytes()) {
            Ok(()) => Ok(Encoder { core: EncoderCore::new(OwnedNames::new()), writer }),
            Err(e) => Err(Error::Io(e)),
        }
    }

    /// Start a directory node.
    pub fn start_directory(&mut self, name: Option<&[u8]>) -> (r: Result<(), Error>)
        requires
            old(self).wf(),
        ensures
            final(self).wf(),
            wire::unharmed(old(self).sink(), final(self).sink()),
            wire::reported(final(self).sink(), wire::error_of(r)),
            ({
                let event = EventView::DirectoryStart { name: names::optional(name) };
                &&& old(self).sink().reliable() && step(old(self)@, event) is Ok ==> r is Ok
                &&& stepped(
                    step(old(self)@, event),
                    old(self)@,
                    final(self)@,
                    old(self).sink().written(),
                    final(self).sink().written(),
                    wire::error_of(r),
                )
            }),
    {
        self.core.start_directory(&mut self.writer, name)
    }

    /// Finish the innermost open directory.
    pub fn end_directory(&mut self) -> (r: Result<(), Error>)
        requires
            old(self).wf(),
        ensures
            final(self).wf(),
            wire::unharmed(old(self).sink(), final(self).sink()),
            wire::reported(final(self).sink(), wire::error_of(r)),
            old(self).sink().reliable() && directory_end(old(self)@) is Ok ==> r is Ok,
            stepped(
                directory_end(old(self)@),
                old(self)@,
                final(self)@,
                old(self).sink().written(),
                final(self).sink().written(),
                wire::error_of(r),
            ),
    {
        self.core.end_directory(&mut self.writer)
    }

    /// Write a complete regular-file node from memory.
    pub fn regular(&mut self, name: Option<&[u8]>, executable: bool, contents: &[u8]) -> (r: Result<
        (),
        Error,
    >)
        requires
            old(self).wf(),
        ensures
            final(self).wf(),
            wire::unharmed(old(self).sink(), final(self).sink()),
            wire::reported(final(self).sink(), wire::error_of(r)),
            ({
                let event = model::regular_event(names::optional(name), executable, contents@);
                &&& old(self).sink().reliable() && step(old(self)@, event) is Ok ==> r is Ok
                &&& stepped(
                    step(old(self)@, event),
                    old(self)@,
                    final(self)@,
                    old(self).sink().written(),
                    final(self).sink().written(),
                    wire::error_of(r),
                )
            }),
    {
        self.core.regular(&mut self.writer, name, executable, contents)
    }

    /// Start a regular-file node whose contents will be streamed.
    ///
    /// The returned writer accepts exactly `size` bytes. Call
    /// [`RegularWriter::finish`] after writing them to emit padding and close
    /// the node. Until that has succeeded the encoder counts as poisoned.
    pub fn start_regular<'a>(&'a mut self, name: Option<&[u8]>, executable: bool, size: u64) -> (r:
        Result<RegularWriter<'a, W>, Error>)
        requires
            old(self).wf(),
        ensures
            ({
                let step = file_started(old(self)@, names::optional(name), executable, size as nat);
                &&& old(self).sink().reliable() && step is Ok ==> r is Ok
                &&& match r {
                    Ok(file) => {
                        &&& *final(self) == *final(file.encoder)
                        &&& file.wf()
                        &&& file.encoder.wf()
                        &&& !file.broken()
                        &&& file.expected() == size
                        &&& file.accepted() == 0
                        &&& file.named() == name is Some
                        &&& wire::unharmed(old(self).sink(), file.encoder.sink())
                        &&& step matches Ok((next, bytes)) && file.encoder@ == (EncoderView {
                            poisoned: true,
                            ..next
                        }) && file.encoder.sink().written() == old(self).sink().written() + bytes
                    },
                    Err(e) => {
                        &&& final(self).wf()
                        &&& wire::unharmed(old(self).sink(), final(self).sink())
                        &&& wire::reported(final(self).sink(), Some(e@))
                        &&& stepped(
                            step,
                            old(self)@,
                            final(self)@,
                            old(self).sink().written(),
                            final(self).sink().written(),
                            Some(e@),
                        )
                    },
                }
            }),
    {
        self.core.start_regular(&mut self.writer, name, executable, size)?;
        self.core.poisoned = true;
        Ok(
            RegularWriter {
                encoder: self,
                progress: FileProgress {
                    expected: size,
                    written: 0,
                    named: name.is_some(),
                    broken: false,
                    failure: Ghost(None),
                },
            },
        )
    }

    /// Write a complete symbolic-link node.
    pub fn symlink(&mut self, name: Option<&[u8]>, target: &[u8]) -> (r: Result<(), Error>)
        requires
            old(self).wf(),
        ensures
            final(self).wf(),
            wire::unharmed(old(self).sink(), final(self).sink()),
            wire::reported(final(self).sink(), wire::error_of(r)),
            ({
                let event = EventView::Symlink { name: names::optional(name), target: target@ };
                &&& old(self).sink().reliable() && step(old(self)@, event) is Ok ==> r is Ok
                &&& stepped(
                    step(old(self)@, event),
                    old(self)@,
                    final(self)@,
                    old(self).sink().written(),
                    final(self).sink().written(),
                    wire::error_of(r),
                )
            }),
    {
        self.core.symlink(&mut self.writer, name, target)
    }

    /// Validate that the archive is complete and return the underlying writer.
    pub fn finish(self) -> (r: Result<W, Error>)
        requires
            self.wf(),
        ensures
            match finish_error(self@) {
                Some(e) => r matches Err(error) && error@ == e,
                None => r matches Ok(writer) && writer == self.sink() && writer.sound(),
            },
    {
        if self.core.poisoned {
            return Err(Error::EncoderPoisoned);
        }
        if self.core.root != RootState::Complete || self.core.depth != 0 {
            return Err(Error::UnfinishedArchive);
        }
        Ok(self.writer)
    }
}

/// Why an encoder in this state cannot be finished, if that is so.
pub open spec fn finish_error(v: EncoderView) -> Option<ErrorView> {
    if v.poisoned {
        Some(ErrorView::EncoderPoisoned)
    } else if v.root != RootState::Complete || v.open.len() != 0 {
        Some(ErrorView::UnfinishedArchive)
    } else {
        None
    }
}

/// A bounded writer for one regular-file payload in an [`Encoder`].
///
/// Dropping this value without a successful [`finish`](Self::finish), writing
/// too many bytes, or encountering a non-retryable underlying writer error
/// poisons the encoder.
pub struct RegularWriter<'a, W> {
    /// The encoder that the file is part of.
    pub encoder: &'a mut Encoder<W>,
    /// How far the file has got.
    pub progress: FileProgress,
}

/// How far a regular file has got.
pub struct FileProgress {
    expected: u64,
    written: u64,
    named: bool,
    broken: bool,
    failure: Ghost<Option<io::IoErrorView>>,
}

impl<'a, W: ByteSink> RegularWriter<'a, W> {
    pub closed spec fn wf(&self) -> bool {
        &&& self.encoder.wf()
        &&& self.encoder@.poisoned
        &&& self.progress.written <= self.progress.expected
    }

    /// The declared size of the file.
    pub closed spec fn expected(&self) -> u64 {
        self.progress.expected
    }

    /// How many bytes of the file have been accepted.
    pub closed spec fn accepted(&self) -> u64 {
        self.progress.written
    }

    /// The file has a name.
    pub closed spec fn named(&self) -> bool {
        self.progress.named
    }

    /// The file cannot be finished any more.
    pub closed spec fn broken(&self) -> bool {
        self.progress.broken
    }

    /// The failure that writing to the file came to last.
    pub closed spec fn failed(&self) -> Option<io::IoErrorView> {
        self.progress.failure@
    }

    /// Accept some first part of `buf` and say how long it is.
    pub fn write(&mut self, buf: &[u8]) -> (r: Result<usize, IoError>)
        requires
            old(self).wf(),
        ensures
            final(self).wf(),
            file_kept(*old(self), *final(self)),
            *final(final(self).encoder) == *final(old(self).encoder),
            file_written(*old(self), *final(self), buf@, r),
            r matches Err(e) ==> final(self).failed() == Some(e@),
    {
        if self.progress.broken {
            self.progress.failure = Ghost(Some(poisoned_error()));
            return Err(IoError::new(IoErrorKind::Other, "NAR encoder is poisoned"));
        }
        let remaining = self.progress.expected - self.progress.written;
        if buf.len() as u64 > remaining {
            self.progress.broken = true;
            self.progress.failure = Ghost(Some(oversized_error()));
            return Err(
                IoError::new(
                    IoErrorKind::InvalidInput,
                    "regular-file payload exceeds its declared size",
                ),
            );
        }
        match self.encoder.writer.write(buf) {
            Ok(n) => {
                if n > buf.len() {
                    self.progress.broken = true;
                    self.progress.failure = Ghost(Some(io::overcount_error()));
                    return Err(
                        IoError::new(
                            IoErrorKind::InvalidData,
                            "underlying writer reported writing more bytes than supplied",
                        ),
                    );
                }
                self.progress.written = self.progress.written + n as u64;
                Ok(n)
            },
            Err(e) => {
                self.progress.failure = Ghost(Some(e@));
                if e.kind != IoErrorKind::Interrupted {
                    self.progress.broken = true;
                }
                Err(e)
            },
        }
    }

    /// Accept all of `buf`, repeating interrupted writes. On failure some
    /// first part of `buf` has been accepted.
    pub fn write_all(&mut self, buf: &[u8]) -> (r: Result<(), IoError>)
        requires
            old(self).wf(),
        ensures
            final(self).wf(),
            file_kept(*old(self), *final(self)),
            *final(final(self).encoder) == *final(old(self).encoder),
            file_filled(*old(self), *final(self), buf@, r),
            r matches Err(e) ==> final(self).failed() == Some(e@) || e@ == io::write_zero_error(),
    {
        let ghost before = self.encoder.sink().written();
        let mut done: usize = 0;
        assert(before =~= before + buf@.take(0));
        while done < buf.len()
            invariant
                done <= buf@.len(),
                self.wf(),
                file_kept(*old(self), *self),
                *final(self.encoder) == *final(old(self).encoder),
                before == old(self).encoder.sink().written(),
                self.encoder.sink().written() == before + buf@.take(done as int),
                self.accepted() == old(self).accepted() + done,
                self.broken() == old(self).broken(),
                done > 0 ==> !old(self).broken() && buf@.len() <= old(self).expected() - old(
                    self,
                ).accepted(),
            decreases buf@.len() - done, self.encoder.sink().interruptions(),
        {
            let rest = &buf[done..buf.len()];
            match self.write(rest) {
                Ok(n) => {
                    proof {
                        assert(buf@.take(done as int) + rest@.take(n as int) =~= buf@.take(
                            done + n,
                        ));
                        assert(before + buf@.take(done as int) + rest@.take(n as int) =~= before
                            + buf@.take(done + n));
                    }
                    if n == 0 {
                        return Err(
                            IoError::new(IoErrorKind::WriteZero, "failed to write whole buffer"),
                        );
                    }
                    done = done + n;
                },
                Err(e) => {
                    if e.kind != IoErrorKind::Interrupted {
                        return Err(e);
                    }
                },
            }
        }
        assert(buf@.take(done as int) =~= buf@);
        Ok(())
    }

    /// Push out whatever the underlying writer holds back.
    pub fn flush(&mut self) -> (r: Result<(), IoError>)
        requires
            old(self).wf(),
        ensures
            final(self).wf(),
            file_kept(*old(self), *final(self)),
            *final(final(self).encoder) == *final(old(self).encoder),
            final(self).accepted() == old(self).accepted(),
            final(self).encoder.sink().written() == old(self).encoder.sink().written(),
            final(self).broken() == (r is Err),
            old(self).broken() ==> (r matches Err(e) && e@ == poisoned_error()),
            !old(self).broken() && old(self).encoder.sink().reliable() ==> r is Ok,
            match r {
                Ok(()) => final(self).encoder.sink().held_back() == 0,
                Err(e) => {
                    &&& final(self).failed() == Some(e@)
                    &&& !old(self).broken() ==> final(self).encoder.sink().failure() == Some(e@)
                },
            },
    {
        if self.progress.broken {
            self.progress.failure = Ghost(Some(poisoned_error()));
            return Err(IoError::new(IoErrorKind::Other, "NAR encoder is poisoned"));
        }
        match self.encoder.writer.flush() {
            Ok(()) => Ok(()),
            Err(e) => {
                self.progress.failure = Ghost(Some(e@));
                self.progress.broken = true;
                Err(e)
            },
        }
    }

    /// Finish this file after verifying its declared byte count.
    pub fn finish(self) -> (r: Result<(), Error>)
        requires
            self.wf(),
        ensures
            final(self.encoder).wf(),
            wire::unharmed(old(self.encoder).sink(), final(self.encoder).sink()),
            wire::reported(final(self.encoder).sink(), wire::error_of(r)),
            old(self.encoder).sink().reliable() && !self.broken() && self.accepted()
                == self.expected() ==> r is Ok,
            stepped(
                file_finished(
                    old(self.encoder)@,
                    self.named(),
                    self.broken(),
                    self.expected() as nat,
                    self.accepted() as nat,
                ),
                old(self.encoder)@,
                final(self.encoder)@,
                old(self.encoder).sink().written(),
                final(self.encoder).sink().written(),
                wire::error_of(r),
            ),
    {
        let progress = self.progress;
        let encoder = self.encoder;
        if progress.broken {
            return Err(Error::EncoderPoisoned);
        }
        if progress.written != progress.expected {
            return Err(
                Error::RegularSizeMismatch {
                    expected: progress.expected,
                    actual: progress.written,
                },
            );
        }
        encoder.core.poisoned = false;
        encoder.core.finish_regular(&mut encoder.writer, progress.named, progress.expected)
    }
}

impl<'a, W: ByteSink> ByteSink for RegularWriter<'a, W> {
    open spec fn written(&self) -> Seq<u8> {
        self.encoder.sink().written()
    }

    open spec fn sound(&self) -> bool {
        self.wf()
    }

    open spec fn in_step(&self) -> bool {
        self.encoder.sink().in_step()
    }

    open spec fn setup(&self) -> Seq<Seq<u8>> {
        self.encoder.sink().setup()
    }

    open spec fn reliable(&self) -> bool {
        false
    }

    open spec fn interruptions(&self) -> nat {
        self.encoder.sink().interruptions()
    }

    open spec fn held_back(&self) -> nat {
        self.encoder.sink().held_back()
    }

    open spec fn failure(&self) -> Option<io::IoErrorView> {
        self.failed()
    }

    open spec fn overcounted(&self) -> bool {
        false
    }

    fn write(&mut self, buf: &[u8]) -> (r: Result<usize, IoError>)
        ensures
            file_kept(*old(self), *final(self)),
            *final(final(self).encoder) == *final(old(self).encoder),
            file_written(*old(self), *final(self), buf@, r),
    {
        let r = RegularWriter::write(self, buf);
        assert(r matches Err(e) ==> e.kind is Interrupted ==> (self.interruptions() < old(
            self,
        ).interruptions()));
        r
    }

    fn flush(&mut self) -> (r: Result<(), IoError>)
        ensures
            file_kept(*old(self), *final(self)),
            *final(final(self).encoder) == *final(old(self).encoder),
            final(self).accepted() == old(self).accepted(),
            final(self).broken() == (r is Err),
            old(self).broken() ==> (r matches Err(e) && e@ == poisoned_error()),
            !old(self).broken() && old(self).encoder.sink().reliable() ==> r is Ok,
            !old(self).broken() ==> (r matches Err(e) ==> final(self).encoder.sink().failure()
                == Some(e@)),
    {
        RegularWriter::flush(self)
    }

    fn write_all(&mut self, buf: &[u8]) -> (r: Result<(), IoError>)
        ensures
            file_kept(*old(self), *final(self)),
            *final(final(self).encoder) == *final(old(self).encoder),
            file_filled(*old(self), *final(self), buf@, r),
    {
        let r = RegularWriter::write_all(self, buf);
        proof {
            let taken = self.accepted() - old(self).accepted();
            assert(buf@.take(buf@.len() as int) =~= buf@);
            assert(self.written() =~= old(self).written() + buf@.take(taken));
        }
        r
    }
}

/// What finishing a file of `expected` bytes comes to once `accepted` bytes have
/// been written to it.
pub open spec fn file_finished(
    v: EncoderView,
    named: bool,
    broken: bool,
    expected: nat,
    accepted: nat,
) -> Step {
    if broken {
        Err(ErrorView::EncoderPoisoned)
    } else if accepted != expected {
        Err(ErrorView::RegularSizeMismatch { expected, actual: accepted })
    } else {
        Ok((ended(EncoderView { poisoned: false, ..v }, named), file_end(named, expected)))
    }
}

/// What writing to a file leaves as it is.
pub open spec fn file_kept<W: ByteSink>(
    before: RegularWriter<'_, W>,
    after: RegularWriter<'_, W>,
) -> bool {
    &&& after.expected() == before.expected()
    &&& after.named() == before.named()
    &&& after.encoder@ == before.encoder@
    &&& after.encoder.wf()
    &&& wire::unharmed(before.encoder.sink(), after.encoder.sink())
}

/// What comes of writing `buf` to a file: some first part of it is accepted,
/// unless the file is broken, `buf` goes beyond the declared size, or the
/// underlying writer fails or claims to have written more than it was given.
pub open spec fn file_written<W: ByteSink>(
    before: RegularWriter<'_, W>,
    after: RegularWriter<'_, W>,
    buf: Seq<u8>,
    r: Result<usize, IoError>,
) -> bool {
    if before.broken() {
        &&& r matches Err(e) && e@ == poisoned_error()
        &&& after.broken()
        &&& after.accepted() == before.accepted()
        &&& after.encoder.sink().written() == before.encoder.sink().written()
    } else if buf.len() > before.expected() - before.accepted() {
        &&& r matches Err(e) && e@ == oversized_error()
        &&& after.broken()
        &&& after.accepted() == before.accepted()
        &&& after.encoder.sink().written() == before.encoder.sink().written()
    } else if after.encoder.sink().overcounted() {
        &&& !before.encoder.sink().reliable()
        &&& r matches Err(e) && e@ == io::overcount_error()
        &&& after.broken()
        &&& after.accepted() == before.accepted()
        &&& after.encoder.sink().written() == before.encoder.sink().written()
    } else {
        &&& before.encoder.sink().reliable() ==> (r matches Ok(n) && (buf.len() > 0 ==> n > 0))
        &&& match r {
            Ok(n) => {
                &&& n <= buf.len()
                &&& !after.broken()
                &&& after.accepted() == before.accepted() + n
                &&& after.encoder.sink().written() == before.encoder.sink().written() + buf.take(
                    n as int,
                )
            },
            Err(e) => {
                &&& after.encoder.sink().failure() == Some(e@)
                &&& after.broken() == !(e.kind is Interrupted)
                &&& e.kind is Interrupted ==> (after.encoder.sink().interruptions()
                    < before.encoder.sink().interruptions())
                &&& after.accepted() == before.accepted()
                &&& after.encoder.sink().written() == before.encoder.sink().written()
            },
        }
    }
}

/// What comes of writing all of `buf` to a file. Unless the underlying writer
/// just stops accepting anything, a failure leaves the file broken, with some
/// first part of `buf` accepted, and broken it stays.
pub open spec fn file_filled<W: ByteSink>(
    before: RegularWriter<'_, W>,
    after: RegularWriter<'_, W>,
    buf: Seq<u8>,
    r: Result<(), IoError>,
) -> bool {
    let sent = before.encoder.sink().written();
    let now = after.encoder.sink().written();
    if buf.len() == 0 {
        &&& r is Ok
        &&& after.broken() == before.broken()
        &&& after.accepted() == before.accepted()
        &&& now == sent
    } else if before.broken() || buf.len() > before.expected() - before.accepted() {
        &&& r matches Err(e) && e@ == if before.broken() {
            poisoned_error()
        } else {
            oversized_error()
        }
        &&& after.broken()
        &&& after.accepted() == before.accepted()
        &&& now == sent
    } else {
        &&& before.encoder.sink().reliable() ==> r is Ok
        &&& match r {
            Ok(()) => {
                &&& !after.broken()
                &&& after.accepted() == before.accepted() + buf.len()
                &&& now == sent + buf
            },
            Err(e) => {
                &&& wire::handed_on(after.encoder.sink(), e@)
                &&& !(e.kind is Interrupted)
                &&& after.broken() || e@ == io::write_zero_error()
                &&& before.accepted() <= after.accepted() < before.accepted() + buf.len()
                &&& now == sent + buf.take(after.accepted() - before.accepted())
            },
        }
    }
}

/// The failure of a file that cannot be finished any more.
pub open spec fn poisoned_error() -> io::IoErrorView {
    io::IoErrorView { kind: IoErrorKind::Other, message: "NAR encoder is poisoned"@ }
}

/// The failure of a write that goes beyond the declared size.
pub open spec fn oversized_error() -> io::IoErrorView {
    io::IoErrorView {
        kind: IoErrorKind::InvalidInput,
        message: "regular-file payload exceeds its declared size"@,
    }
}

}
