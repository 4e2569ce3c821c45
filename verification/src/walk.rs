//! Encoding a filesystem tree: what to look at next, and what to make of it.
//!
//! A [`PathEncoder`] asks for one thing at a time, is told what was found, and
//! writes the archive as it goes. It never touches the filesystem itself.

use vstd::prelude::*;

use crate::case_hack::CaseHack;
use crate::encoder;
use crate::encoder::{EncoderCore, EncoderView, OwnedNames, RootState};
use crate::io::ByteSink;
use crate::listing;
use crate::listing::Listing;
use crate::model;
use crate::model::{EventView, Tree};
use crate::names;
use crate::nar::{Error, ErrorView};
use crate::paths;
use crate::paths::append_name;
use crate::runs;
use crate::wire;
use crate::wire::write_token;

verus! {

/// What kind of object was found.
#[derive(Clone, Copy, Debug, PartialEq, Eq, Structural)]
pub enum FileKind {
    Symlink,
    Regular,
    Directory,
    Other,
}

/// What the platform says of who may do what with a file.
#[derive(Clone, Copy, Debug, PartialEq, Eq, Structural)]
pub enum Permissions {
    /// The mode bits of a Unix file.
    Unix { mode: u32 },
    /// Windows has no mode bits.
    Windows,
}

/// The mode bit that lets the owner of a file execute it.
pub const OWNER_EXECUTE: u32 = 0o100;

/// The owner of a file with `mode` may execute it.
pub open spec fn owner_may_execute(mode: u32) -> bool {
    mode & OWNER_EXECUTE != 0
}

/// Whether a file with `permissions` is archived as executable: where its owner
/// may execute it. The bits for the group and for others do not count, and on
/// Windows no file is.
pub open spec fn may_execute(permissions: Permissions) -> bool {
    match permissions {
        Permissions::Unix { mode } => owner_may_execute(mode),
        Permissions::Windows => false,
    }
}

/// The sixth bit of the mode, counted from none, decides alone whether a file is
/// archived as executable: any other bits may be set or not.
pub proof fn law_owner_execute_bit_decides(mode: u32, other: u32)
    ensures
        may_execute(Permissions::Unix { mode }) == (mode as int / 64 % 2 == 1),
        mode as int / 64 % 2 == other as int / 64 % 2 ==> may_execute(Permissions::Unix { mode })
            == may_execute(Permissions::Unix { mode: other }),
        may_execute(Permissions::Unix { mode: mode | 0o100 }),
        !may_execute(Permissions::Unix { mode: mode & !0o100u32 }),
        !may_execute(Permissions::Windows),
{
    assert(mode & 0o100u32 != 0 <==> mode / 64 % 2 == 1) by (bit_vector);
    assert(other & 0o100u32 != 0 <==> other / 64 % 2 == 1) by (bit_vector);
    assert((mode | 0o100u32) & 0o100u32 != 0) by (bit_vector);
    assert((mode & !0o100u32) & 0o100u32 == 0) by (bit_vector);
}

impl Permissions {
    /// Whether a file with these permissions is archived as executable.
    pub fn executable(&self) -> (r: bool)
        ensures
            r == may_execute(*self),
    {
        match *self {
            Permissions::Unix { mode } => mode & OWNER_EXECUTE != 0,
            Permissions::Windows => false,
        }
    }
}

/// What to find out next.
#[derive(Debug)]
pub enum PathAction {
    /// The kind of the object called `name` in the `depth`th open directory.
    /// Directories that were opened later are done with.
    Lookup { depth: usize, name: Vec<u8> },
    /// The target of the symbolic link.
    ReadLink,
    /// The kind, size and permissions of the object once it is opened.
    Open { directory: bool },
    /// At most `limit` bytes that come next in the file.
    Read { limit: u64 },
    /// Whether the file goes on.
    Probe,
    /// The names in the directory.
    List,
    /// Nothing: the archive is complete.
    Done,
}

/// What the encoder has asked for.
#[derive(Clone, Copy, Debug, PartialEq, Eq, Structural)]
pub enum Stage {
    Lookup,
    Link,
    Opening,
    Reading { left: u64 },
    Probing,
    Listing,
    Complete,
}

/// A directory that is being walked: its path, and the entries that are left,
/// by name on disk and name in the archive.
pub struct FrameView {
    pub path: Seq<u8>,
    pub left: Seq<(Seq<u8>, Seq<u8>)>,
}

/// `count` directories end.
pub open spec fn ends(count: nat) -> Seq<EventView> {
    Seq::new(count, |i: int| EventView::DirectoryEnd { name: None })
}

/// Where the walk stands.
pub struct WalkView {
    /// The open directories, the innermost last.
    pub frames: Seq<FrameView>,
    /// The path of the current object.
    pub path: Seq<u8>,
    /// Its name in the archive, unless it is the root.
    pub name: Option<Seq<u8>>,
    /// What has been asked for.
    pub stage: Stage,
    /// Everything that the archive tells so far.
    pub told: Seq<EventView>,
}

/// The walk is done with an object once `told` is told: it has gone from
/// `before` to the next object, ending `count` directories on its way, or it is
/// complete.
pub open spec fn moved_on(
    before: Seq<FrameView>,
    told: Seq<EventView>,
    count: nat,
    after: WalkView,
    action: PathAction,
) -> bool {
    &&& count <= before.len()
    &&& forall|i: int|
        before.len() - count <= i < before.len() ==> (#[trigger] before[i]).left.len() == 0
    &&& after.told == told + ends(count)
    &&& if count == before.len() {
        &&& after.frames.len() == 0
        &&& after.stage == Stage::Complete
        &&& action is Done
    } else {
        let depth = before.len() - count;
        let top = before[depth - 1];
        &&& top.left.len() > 0
        &&& after.frames == before.take(depth - 1).push(
            FrameView { left: top.left.skip(1), ..top },
        )
        &&& after.path == paths::joined(top.path, top.left[0].0)
        &&& after.name == Some(top.left[0].1)
        &&& after.stage == Stage::Lookup
        &&& action matches PathAction::Lookup { depth: d, name } && d == depth && name@
            == top.left[0].0
    }
}

/// `told` is the walk over a valid tree, and `written` is the archive of that
/// tree behind `start`.
pub open spec fn wrote(start: Seq<u8>, told: Seq<EventView>, written: Seq<u8>) -> bool {
    exists|tree: Tree|
        {
            &&& model::valid(tree, 0)
            &&& written == start + #[trigger] model::archive(tree)
            &&& runs::all_told(told) == runs::all_told(model::events(tree, None))
        }
}

/// An encoder that has been told `told` refuses `event` with `error`.
pub open spec fn refused(told: Seq<EventView>, event: EventView, error: ErrorView) -> bool {
    encoder::run(encoder::fresh(), told.push(event)).end == Err::<EncoderView, _>(error)
}

struct Frame {
    listing: Listing,
    path_len: usize,
}

/// Serializes a filesystem tree as a NAR from what it is told of the tree.
///
/// Directory entries are put in ascending byte order and file payloads are
/// passed on rather than buffered.
pub struct PathEncoder<W> {
    core: EncoderCore<OwnedNames>,
    writer: W,
    case_hack: CaseHack,
    frames: Vec<Frame>,
    path: Vec<u8>,
    name: Option<Vec<u8>>,
    stage: Stage,
    size: u64,
    executable: bool,
    told: Ghost<Seq<EventView>>,
    contents: Ghost<Seq<u8>>,
    start: Ghost<Seq<u8>>,
}

spec fn owned(name: Option<Vec<u8>>) -> Option<Seq<u8>> {
    match name {
        Some(n) => Some(n@),
        None => None,
    }
}

spec fn frame_views(frames: Seq<Frame>, path: Seq<u8>) -> Seq<FrameView> {
    frames.map_values(
        |f: Frame| FrameView { path: path.take(f.path_len as int), left: f.listing@ },
    )
}

spec fn frames_wf(frames: Seq<Frame>, path: Seq<u8>) -> bool {
    &&& forall|i: int|
        0 <= i < frames.len() ==> (#[trigger] frames[i]).listing.wf() && frames[i].path_len
            <= path.len()
    &&& forall|i: int, j: int|
        0 <= i <= j < frames.len() ==> (#[trigger] frames[i]).path_len <= (
        #[trigger] frames[j]).path_len
}

impl<W: ByteSink> PathEncoder<W> {
    pub closed spec fn view(&self) -> WalkView {
        WalkView {
            frames: frame_views(self.frames@, self.path@),
            path: self.path@,
            name: owned(self.name),
            stage: self.stage,
            told: self.told@,
        }
    }

    /// The sink that the archive is written to.
    pub closed spec fn sink(&self) -> W {
        self.writer
    }

    /// What the sink held before the archive.
    pub closed spec fn start(&self) -> Seq<u8> {
        self.start@
    }

    pub closed spec fn setting(&self) -> CaseHack {
        self.case_hack
    }

    /// What has been read of the current file.
    pub closed spec fn contents(&self) -> Seq<u8> {
        self.contents@
    }

    /// Whether the current file is executable.
    pub closed spec fn executable(&self) -> bool {
        self.executable
    }

    spec fn in_file(&self) -> bool {
        self.stage is Reading || self.stage == Stage::Probing
    }

    pub closed spec fn wf(&self) -> bool {
        &&& self.core.wf()
        &&& self.writer.sound()
        &&& frames_wf(self.frames@, self.path@)
        &&& !self.core@.poisoned
        &&& self.core@.open.len() == self.frames@.len() + if self.stage == Stage::Listing {
            1int
        } else {
            0
        }
        &&& self.stage == Stage::Complete ==> self.frames@.len() == 0 && self.core@.root
            == RootState::Complete
        &&& self.stage != Stage::Complete ==> {
            &&& self.core@.root != RootState::Complete
            &&& self.name is None <==> self.frames@.len() == 0
        }
        &&& if self.in_file() {
            &&& file_under_way(
                self.start@,
                self.told@,
                owned(self.name),
                self.executable,
                self.size,
                self.contents@,
                self.core@,
                self.writer.written(),
            )
            &&& self.size == self.contents@.len() + match self.stage {
                Stage::Reading { left } => left as int,
                _ => 0,
            }
            &&& self.stage matches Stage::Reading { left } ==> left > 0
        } else {
            settled(self.start@, self.told@, self.core@, self.writer.written())
        }
    }

    /// What no step changes.
    pub open spec fn kept(&self, before: &Self) -> bool {
        &&& wire::unharmed(before.sink(), self.sink())
        &&& self.start() == before.start()
        &&& self.setting() == before.setting()
    }

    /// The state between one object and the next.
    spec fn between(&self) -> bool {
        &&& self.core.wf()
        &&& self.writer.sound()
        &&& frames_wf(self.frames@, self.path@)
        &&& !self.core@.poisoned
        &&& self.core@.open.len() == self.frames@.len()
        &&& self.frames@.len() == 0 <==> self.core@.root == RootState::Complete
        &&& settled(self.start@, self.told@, self.core@, self.writer.written())
    }

    /// Start on the tree at `path`: write the magic of its archive. What is
    /// asked for first is the kind of the object at `path` itself.
    pub fn new(writer: W, path: &[u8], case_hack: CaseHack) -> (r: Result<Self, Error>)
        requires
            writer.sound(),
        ensures
            writer.reliable() ==> r is Ok,
            match r {
                Ok(encoder) => {
                    &&& encoder.wf()
                    &&& wire::unharmed(writer, encoder.sink())
                    &&& encoder.start() == writer.written()
                    &&& encoder.setting() == case_hack
                    &&& encoder@ == (WalkView {
                        frames: Seq::empty(),
                        path: path@,
                        name: None,
                        stage: Stage::Lookup,
                        told: Seq::empty(),
                    })
                },
                Err(e) => wire::lost(writer, e@),
            },
    {
        let ghost before = writer.written();
        let mut writer = writer;
        match write_token(&mut writer, "nix-archive-1".as_bytes()) {
            Ok(()) => {},
            Err(e) => return Err(Error::Io(e)),
        }
        let mut own_path: Vec<u8> = Vec::new();
        own_path.extend_from_slice(path);
        let r = PathEncoder {
            core: EncoderCore::new(OwnedNames::new()),
            writer,
            case_hack,
            frames: Vec::new(),
            path: own_path,
            name: None,
            stage: Stage::Lookup,
            size: 0,
            executable: false,
            told: Ghost(Seq::empty()),
            contents: Ghost(Seq::empty()),
            start: Ghost(before),
        };
        proof {
            assert(r.path@ =~= path@);
            assert(r@.frames =~= Seq::empty());
            lemma_settled_at_first(before);
        }
        Ok(r)
    }

    /// Go on to the next object, ending directories that have no more.
    fn advance(&mut self) -> (r: Result<PathAction, Error>)
        requires
            old(self).between(),
        ensures
            final(self).kept(old(self)),
            wire::reported(final(self).sink(), wire::error_of(r)),
            match r {
                Ok(action) => {
                    &&& final(self).wf()
                    &&& exists|count: nat| #[trigger]
                        moved_on(old(self)@.frames, old(self)@.told, count, final(self)@, action)
                },
                Err(e) => e@ is Io && !old(self).sink().reliable(),
            },
    {
        let ghost before = self@.frames;
        let ghost all = self.frames@;
        let ghost told = self.told@;
        let ghost mut count: nat = 0;
        proof {
            assert(told + ends(0) =~= told);
            assert(all.take(all.len() as int) =~= all);
        }
        loop
            invariant
                self.between(),
                self.kept(old(self)),
                before == frame_views(all, self.path@),
                before == old(self)@.frames,
                told == old(self)@.told,
                self.path == old(self).path,
                count <= all.len(),
                self.frames@ == all.take(all.len() - count),
                forall|i: int|
                    all.len() - count <= i < all.len() ==> (#[trigger] before[i]).left.len() == 0,
                self.told@ == told + ends(count),
            decreases self.frames@.len(),
        {
            let n = self.frames.len();
            if n == 0 {
                self.stage = Stage::Complete;
                proof {
                    assert(self@.frames =~= Seq::empty());
                    assert(moved_on(before, told, count, self@, PathAction::Done));
                }
                return Ok(PathAction::Done);
            }
            let path_len = self.frames[n - 1].path_len;
            let ghost frames = self.frames@;
            let ghost old_path = self.path@;
            assert(frames[n - 1] == all[n - 1]);
            let taken = self.frames[n - 1].listing.take();
            match taken {
                Some((disk, archive)) => {
                    proof {
                        assert(self.frames@.len() == n);
                        assert(before[n - 1].left == frames[n - 1].listing@);
                    }
                    self.path.truncate(path_len);
                    assert(self.path@ =~= old_path.take(path_len as int));
                    append_name(&mut self.path, disk.as_slice());
                    self.name = Some(archive);
                    self.stage = Stage::Lookup;
                    let action = PathAction::Lookup { depth: n, name: disk };
                    proof {
                        paths::lemma_joined_prefix(old_path.take(path_len as int), disk@);
                        let top = before[n - 1];
                        assert forall|i: int| 0 <= i < n implies self.path@.take(
                            (#[trigger] frames[i]).path_len as int,
                        ) == old_path.take(frames[i].path_len as int) by {
                            assert(frames[i].path_len <= frames[n - 1].path_len);
                            let m = frames[i].path_len as int;
                            assert(self.path@.take(path_len as int).take(m) =~= self.path@.take(
                                m,
                            ));
                            assert(old_path.take(path_len as int).take(m) =~= old_path.take(m));
                        }
                        assert(self@.frames =~= before.take(n - 1).push(
                            FrameView { left: top.left.skip(1), ..top },
                        ));
                        assert(moved_on(before, told, count, self@, action));
                    }
                    return Ok(action);
                },
                None => {
                    let ghost v = self.core@;
                    let ghost written = self.writer.written();
                    match self.core.end_directory(&mut self.writer) {
                        Ok(()) => {},
                        Err(e) => return Err(e),
                    }
                    let ended = self.frames.pop();
                    proof {
                        let event = EventView::DirectoryEnd { name: None };
                        lemma_settled_tell(self.start@, self.told@, v, written, event);
                        assert(before[n - 1].left.len() == 0);
                        self.told@ = self.told@.push(event);
                        assert(self.told@ =~= told + ends((count + 1) as nat));
                        count = (count + 1) as nat;
                        assert(self.frames@ =~= all.take(all.len() - count));
                    }
                },
            }
        }
    }

    /// Told the kind of the object: decide how to look at it.
    pub fn found(&mut self, kind: FileKind) -> (r: Result<PathAction, Error>)
        requires
            old(self).wf(),
            old(self)@.stage == Stage::Lookup,
        ensures
            final(self).kept(old(self)),
            wire::reported(final(self).sink(), wire::error_of(r)),
            match kind {
                FileKind::Symlink => {
                    &&& r matches Ok(action) && action is ReadLink
                    &&& final(self).wf()
                    &&& final(self)@ == (WalkView { stage: Stage::Link, ..old(self)@ })
                },
                FileKind::Regular => {
                    &&& r matches Ok(PathAction::Open { directory }) && !directory
                    &&& final(self).wf()
                    &&& final(self)@ == (WalkView { stage: Stage::Opening, ..old(self)@ })
                },
                FileKind::Directory => {
                    &&& r matches Ok(PathAction::Open { directory }) && directory
                    &&& final(self).wf()
                    &&& final(self)@ == (WalkView { stage: Stage::Opening, ..old(self)@ })
                },
                FileKind::Other => r matches Err(e) && e@ == ErrorView::UnsupportedFileType(
                    old(self)@.path,
                ),
            },
    {
        match kind {
            FileKind::Symlink => {
                self.stage = Stage::Link;
                Ok(PathAction::ReadLink)
            },
            FileKind::Regular => {
                self.stage = Stage::Opening;
                Ok(PathAction::Open { directory: false })
            },
            FileKind::Directory => {
                self.stage = Stage::Opening;
                Ok(PathAction::Open { directory: true })
            },
            FileKind::Other => Err(Error::UnsupportedFileType(copied(self.path.as_slice()))),
        }
    }

    /// Told the target of the symbolic link: write its node.
    pub fn target(&mut self, target: &[u8]) -> (r: Result<PathAction, Error>)
        requires
            old(self).wf(),
            old(self)@.stage == Stage::Link,
        ensures
            final(self).kept(old(self)),
            wire::reported(final(self).sink(), wire::error_of(r)),
            ({
                let event = EventView::Symlink { name: old(self)@.name, target: target@ };
                match r {
                    Ok(action) => {
                        &&& final(self).wf()
                        &&& exists|count: nat| #[trigger]
                            moved_on(
                                old(self)@.frames,
                                old(self)@.told.push(event),
                                count,
                                final(self)@,
                                action,
                            )
                    },
                    Err(e) => (e@ is Io && !old(self).sink().reliable()) || refused(
                        old(self)@.told,
                        event,
                        e@,
                    ),
                }
            }),
    {
        self.put_symlink(target)?;
        self.advance()
    }

    fn put_symlink(&mut self, target: &[u8]) -> (r: Result<(), Error>)
        requires
            old(self).wf(),
            old(self)@.stage == Stage::Link,
        ensures
            final(self).kept(old(self)),
            wire::reported(final(self).sink(), wire::error_of(r)),
            ({
                let event = EventView::Symlink { name: old(self)@.name, target: target@ };
                match r {
                    Ok(()) => {
                        &&& final(self).between()
                        &&& final(self)@ == (WalkView {
                            told: old(self)@.told.push(event),
                            ..old(self)@
                        })
                    },
                    Err(e) => (e@ is Io && !old(self).sink().reliable()) || refused(
                        old(self)@.told,
                        event,
                        e@,
                    ),
                }
            }),
    {
        let ghost v = self.core@;
        let ghost written = self.writer.written();
        let ghost event = EventView::Symlink { name: self@.name, target: target@ };
        let name = name_slice(&self.name);
        proof {
            assert(target.len() == target@.len());
            lemma_settled_tell(self.start@, self.told@, v, written, event);
        }
        self.core.symlink(&mut self.writer, name, target)?;
        proof {
            self.told@ = self.told@.push(event);
            lemma_leaf_state(v, event, owned(self.name));
        }
        Ok(())
    }

    /// Told the kind, size and permissions of what was opened: start its node.
    pub fn opened(&mut self, kind: FileKind, size: u64, permissions: Permissions) -> (r: Result<
        PathAction,
        Error,
    >)
        requires
            old(self).wf(),
            old(self)@.stage == Stage::Opening,
        ensures
            final(self).kept(old(self)),
            wire::reported(final(self).sink(), wire::error_of(r)),
            match kind {
                FileKind::Regular => {
                    let executable = may_execute(permissions);
                    let event = model::regular_event(old(self)@.name, executable, Seq::empty());
                    match r {
                        Ok(action) => {
                            &&& final(self).wf()
                            &&& final(self).executable() == executable
                            &&& final(self).contents() == Seq::<u8>::empty()
                            &&& reading(old(self)@, final(self)@, size, action)
                        },
                        Err(e) => (e@ is Io && !old(self).sink().reliable()) || refused(
                            old(self)@.told,
                            event,
                            e@,
                        ),
                    }
                },
                FileKind::Directory => {
                    let event = EventView::DirectoryStart { name: old(self)@.name };
                    match r {
                        Ok(action) => {
                            &&& action is List
                            &&& final(self).wf()
                            &&& final(self)@ == (WalkView {
                                stage: Stage::Listing,
                                told: old(self)@.told.push(event),
                                ..old(self)@
                            })
                        },
                        Err(e) => (e@ is Io && !old(self).sink().reliable()) || refused(
                            old(self)@.told,
                            event,
                            e@,
                        ),
                    }
                },
                _ => r matches Err(e) && e@ == ErrorView::UnsupportedFileType(old(self)@.path),
            },
    {
        match kind {
            FileKind::Regular => self.start_file(size, permissions.executable()),
            FileKind::Directory => self.start_directory(),
            _ => Err(Error::UnsupportedFileType(copied(self.path.as_slice()))),
        }
    }

    fn start_file(&mut self, size: u64, executable: bool) -> (r: Result<PathAction, Error>)
        requires
            old(self).wf(),
            old(self)@.stage == Stage::Opening,
        ensures
            final(self).kept(old(self)),
            wire::reported(final(self).sink(), wire::error_of(r)),
            ({
                let event = model::regular_event(old(self)@.name, executable, Seq::empty());
                match r {
                    Ok(action) => {
                        &&& final(self).wf()
                        &&& final(self).executable() == executable
                        &&& final(self).contents() == Seq::<u8>::empty()
                        &&& reading(old(self)@, final(self)@, size, action)
                    },
                    Err(e) => (e@ is Io && !old(self).sink().reliable()) || refused(
                        old(self)@.told,
                        event,
                        e@,
                    ),
                }
            }),
    {
        let ghost v = self.core@;
        let ghost written = self.writer.written();
        let ghost event = model::regular_event(self@.name, executable, Seq::empty());
        let name = name_slice(&self.name);
        proof {
            lemma_settled_tell(self.start@, self.told@, v, written, event);
            lemma_file_started(
                self.start@,
                self.told@,
                v,
                written,
                owned(self.name),
                executable,
                size,
            );
        }
        self.core.start_regular(&mut self.writer, name, executable, size)?;
        self.size = size;
        self.executable = executable;
        proof {
            self.contents@ = Seq::empty();
        }
        if size > 0 {
            self.stage = Stage::Reading { left: size };
            Ok(PathAction::Read { limit: size })
        } else {
            self.stage = Stage::Probing;
            Ok(PathAction::Probe)
        }
    }

    fn start_directory(&mut self) -> (r: Result<PathAction, Error>)
        requires
            old(self).wf(),
            old(self)@.stage == Stage::Opening,
        ensures
            final(self).kept(old(self)),
            wire::reported(final(self).sink(), wire::error_of(r)),
            ({
                let event = EventView::DirectoryStart { name: old(self)@.name };
                match r {
                    Ok(action) => {
                        &&& action is List
                        &&& final(self).wf()
                        &&& final(self)@ == (WalkView {
                            stage: Stage::Listing,
                            told: old(self)@.told.push(event),
                            ..old(self)@
                        })
                    },
                    Err(e) => (e@ is Io && !old(self).sink().reliable()) || refused(
                        old(self)@.told,
                        event,
                        e@,
                    ),
                }
            }),
    {
        let ghost v = self.core@;
        let ghost written = self.writer.written();
        let ghost event = EventView::DirectoryStart { name: self@.name };
        let name = name_slice(&self.name);
        proof {
            lemma_settled_tell(self.start@, self.told@, v, written, event);
        }
        self.core.start_directory(&mut self.writer, name)?;
        self.stage = Stage::Listing;
        proof {
            self.told@ = self.told@.push(event);
        }
        Ok(PathAction::List)
    }

    /// Told what comes next in the file: pass it on. Nothing where something is
    /// due means that the file has changed.
    pub fn read(&mut self, chunk: &[u8]) -> (r: Result<PathAction, Error>)
        requires
            old(self).wf(),
            old(self)@.stage matches Stage::Reading { left } && chunk@.len() <= left,
        ensures
            final(self).kept(old(self)),
            wire::reported(final(self).sink(), wire::error_of(r)),
            ({
                let left = old(self)@.stage->left;
                if chunk@.len() == 0 {
                    r matches Err(e) && e@ == ErrorView::FileChanged(old(self)@.path)
                } else {
                    match r {
                        Ok(action) => {
                            &&& final(self).wf()
                            &&& final(self).executable() == old(self).executable()
                            &&& final(self).contents() == old(self).contents() + chunk@
                            &&& reading(
                                old(self)@,
                                final(self)@,
                                (left - chunk@.len()) as u64,
                                action,
                            )
                        },
                        Err(e) => e@ is Io && !old(self).sink().reliable(),
                    }
                }
            }),
    {
        if chunk.len() == 0 {
            return Err(Error::FileChanged(copied(self.path.as_slice())));
        }
        let left: u64 = match self.stage {
            Stage::Reading { left } => left,
            _ => 0,
        };
        proof {
            lemma_file_grows(
                self.start@,
                self.told@,
                owned(self.name),
                self.executable,
                self.size,
                self.contents@,
                self.core@,
                self.writer.written(),
                chunk@,
            );
        }
        self.core.write_raw(&mut self.writer, chunk)?;
        let rest = left - chunk.len() as u64;
        proof {
            self.contents@ = self.contents@ + chunk@;
        }
        if rest > 0 {
            self.stage = Stage::Reading { left: rest };
            Ok(PathAction::Read { limit: rest })
        } else {
            self.stage = Stage::Probing;
            Ok(PathAction::Probe)
        }
    }

    /// Told whether the file goes on behind its size: if not, end its node.
    pub fn probed(&mut self, more: bool) -> (r: Result<PathAction, Error>)
        requires
            old(self).wf(),
            old(self)@.stage == Stage::Probing,
        ensures
            final(self).kept(old(self)),
            wire::reported(final(self).sink(), wire::error_of(r)),
            if more {
                r matches Err(e) && e@ == ErrorView::FileChanged(old(self)@.path)
            } else {
                let event = model::regular_event(
                    old(self)@.name,
                    old(self).executable(),
                    old(self).contents(),
                );
                match r {
                    Ok(action) => {
                        &&& final(self).wf()
                        &&& exists|count: nat| #[trigger]
                            moved_on(
                                old(self)@.frames,
                                old(self)@.told.push(event),
                                count,
                                final(self)@,
                                action,
                            )
                    },
                    Err(e) => e@ is Io && !old(self).sink().reliable(),
                }
            },
    {
        if more {
            return Err(Error::FileChanged(copied(self.path.as_slice())));
        }
        self.end_file()?;
        self.advance()
    }

    fn end_file(&mut self) -> (r: Result<(), Error>)
        requires
            old(self).wf(),
            old(self)@.stage == Stage::Probing,
        ensures
            final(self).kept(old(self)),
            wire::reported(final(self).sink(), wire::error_of(r)),
            match r {
                Ok(()) => {
                    &&& final(self).between()
                    &&& final(self)@ == (WalkView {
                        told: old(self)@.told.push(
                            model::regular_event(
                                old(self)@.name,
                                old(self).executable(),
                                old(self).contents(),
                            ),
                        ),
                        ..old(self)@
                    })
                },
                Err(e) => e@ is Io && !old(self).sink().reliable(),
            },
    {
        let ghost v = self.core@;
        let ghost written = self.writer.written();
        let ghost event = model::regular_event(self@.name, self.executable, self.contents@);
        let name = name_slice(&self.name);
        let named = name.is_some();
        proof {
            lemma_file_done(
                self.start@,
                self.told@,
                owned(self.name),
                self.executable,
                self.size,
                self.contents@,
                v,
                written,
            );
        }
        self.core.finish_regular(&mut self.writer, named, self.size)?;
        proof {
            self.told@ = self.told@.push(event);
        }
        Ok(())
    }

    /// Told the names in the directory: put them in order and start on the
    /// first.
    pub fn listed(&mut self, disk_names: Vec<Vec<u8>>) -> (r: Result<PathAction, Error>)
        requires
            old(self).wf(),
            old(self)@.stage == Stage::Listing,
        ensures
            final(self).kept(old(self)),
            wire::reported(final(self).sink(), wire::error_of(r)),
            match r {
                Ok(action) => {
                    &&& final(self).wf()
                    &&& listing::all_apart(
                        listing::name_views(disk_names@),
                        old(self).setting(),
                    )
                    &&& exists|list: Seq<(Seq<u8>, Seq<u8>)>, count: nat|
                        {
                            &&& listing::is_listing(
                                listing::name_views(disk_names@),
                                old(self).setting(),
                                list,
                            )
                            &&& #[trigger] moved_on(
                                old(self)@.frames.push(FrameView { path: old(self)@.path, left: list }),
                                old(self)@.told,
                                count,
                                final(self)@,
                                action,
                            )
                        }
                },
                Err(e) => (e@ is Io && !old(self).sink().reliable()) || listing::is_collision(
                    listing::name_views(disk_names@),
                    old(self).setting(),
                    old(self)@.path,
                    e@,
                ),
            },
    {
        let listing = Listing::new(disk_names, self.case_hack, self.path.as_slice())?;
        let ghost list = listing@;
        let ghost before = self@;
        self.frames.push(Frame { listing, path_len: self.path.len() });
        proof {
            assert(self.path@.take(self.path@.len() as int) =~= self.path@);
            assert(self@.frames =~= before.frames.push(
                FrameView { path: before.path, left: list },
            ));
        }
        let ghost frames = self@.frames;
        let r = self.advance();
        proof {
            if r is Ok {
                let action = r->Ok_0;
                let count = choose|count: nat| #[trigger]
                    moved_on(frames, before.told, count, self@, action);
                assert(moved_on(
                    before.frames.push(FrameView { path: before.path, left: list }),
                    before.told,
                    count,
                    self@,
                    action,
                ));
            }
        }
        r
    }

    /// Hand back the sink with the archive in it.
    pub fn finish(self) -> (r: Result<W, Error>)
        requires
            self.wf(),
        ensures
            if self@.stage == Stage::Complete {
                r matches Ok(writer) && {
                    &&& writer == self.sink()
                    &&& writer.sound()
                    &&& wrote(self.start(), self@.told, writer.written())
                }
            } else {
                r matches Err(e) && e@ == ErrorView::UnfinishedArchive
            },
    {
        match self.stage {
            Stage::Complete => {
                proof {
                    reveal(settled);
                    let tree = runs::law_finished_archives_are_valid(self.told@);
                    assert(self.writer.written() == self.start() + model::archive(tree));
                }
                Ok(self.writer)
            },
            _ => Err(Error::UnfinishedArchive),
        }
    }
}

/// The state once a leaf is told: it is complete if the leaf is the root, and
/// as many directories are open as before.
proof fn lemma_leaf_state(v: EncoderView, event: EventView, name: Option<Seq<u8>>)
    requires
        encoder::step(v, event) is Ok,
        match event {
            EventView::Symlink { name: n, .. } => n == name,
            EventView::Regular { name: n, .. } => n == name,
            _ => false,
        },
    ensures
        ({
            let next = encoder::step(v, event)->Ok_0.0;
            &&& next.open.len() == v.open.len()
            &&& next.poisoned == v.poisoned
            &&& name is None ==> next.root == RootState::Complete
            &&& name is Some ==> next.root == v.root
        }),
{
}

/// The encoder goes on to read a file of which `left` bytes are left.
pub open spec fn reading(
    before: WalkView,
    after: WalkView,
    left: u64,
    action: PathAction,
) -> bool {
    if left > 0 {
        &&& after == (WalkView { stage: Stage::Reading { left }, ..before })
        &&& action matches PathAction::Read { limit } && limit == left
    } else {
        &&& after == (WalkView { stage: Stage::Probing, ..before })
        &&& action is Probe
    }
}

fn copied(bytes: &[u8]) -> (r: Vec<u8>)
    ensures
        r@ == bytes@,
{
    let mut copy: Vec<u8> = Vec::with_capacity(bytes.len());
    copy.extend_from_slice(bytes);
    assert(copy@ =~= bytes@);
    copy
}

/// A name as the encoder takes it.
fn name_slice(name: &Option<Vec<u8>>) -> (r: Option<&[u8]>)
    ensures
        names::optional(r) == owned(*name),
        owned(*name) matches Some(n) ==> model::fits(n),
{
    match name {
        Some(name) => {
            assert(name.len() == name@.len());
            Some(name.as_slice())
        },
        None => None,
    }
}

// ---------------------------------------------------------------------------
// What has been written
// ---------------------------------------------------------------------------

/// An encoder in state `v` has been told `told`, and what it makes of that is
/// all that has been written behind `start`.
#[verifier::opaque]
spec fn settled(start: Seq<u8>, told: Seq<EventView>, v: EncoderView, written: Seq<u8>) -> bool {
    let run = encoder::run(encoder::fresh(), told);
    &&& forall|i: int| 0 <= i < told.len() ==> runs::proper(#[trigger] told[i])
    &&& run.end == Ok::<_, ErrorView>(v)
    &&& written == start + (model::token(model::magic()) + run.bytes)
}

/// An encoder in state `v` has been told `told` and has started a file, of
/// which `contents` has been written.
#[verifier::opaque]
spec fn file_under_way(
    start: Seq<u8>,
    told: Seq<EventView>,
    name: Option<Seq<u8>>,
    executable: bool,
    size: u64,
    contents: Seq<u8>,
    v: EncoderView,
    written: Seq<u8>,
) -> bool {
    exists|before: EncoderView, done: Seq<u8>|
        {
            &&& #[trigger] settled(start, told, before, done)
            &&& encoder::placement_error(before, name) is None
            &&& name matches Some(n) ==> model::fits(n)
            &&& v == encoder::started(before, name)
            &&& written == done + (encoder::opening(name) + model::regular_head(executable)
                + model::le64(size as nat)) + contents
        }
}

proof fn lemma_settled_at_first(start: Seq<u8>)
    ensures
        settled(
            start,
            Seq::empty(),
            encoder::fresh(),
            start + model::token(model::magic()),
        ),
{
    reveal(settled);
    let bytes = encoder::run(encoder::fresh(), Seq::empty()).bytes;
    assert(model::token(model::magic()) + bytes =~= model::token(model::magic()));
}

/// Telling an encoder one thing more.
proof fn lemma_settled_tell(
    start: Seq<u8>,
    told: Seq<EventView>,
    v: EncoderView,
    written: Seq<u8>,
    event: EventView,
)
    requires
        settled(start, told, v, written),
        runs::proper(event),
    ensures
        match encoder::step(v, event) {
            Ok((next, bytes)) => settled(start, told.push(event), next, written + bytes),
            Err(e) => refused(told, event, e),
        },
{
    reveal(settled);
    assert(told.push(event) =~= told + seq![event]);
    encoder::lemma_run_concat(encoder::fresh(), told, seq![event]);
    encoder::lemma_run_one(v, event);
    if let Ok((next, bytes)) = encoder::step(v, event) {
        lemma_regrouped(
            start,
            model::token(model::magic()),
            encoder::run(encoder::fresh(), told).bytes,
            bytes,
        );
    }
}

proof fn lemma_regrouped(a: Seq<u8>, b: Seq<u8>, c: Seq<u8>, d: Seq<u8>)
    ensures
        a + (b + c) + d == a + (b + (c + d)),
{
    assert(a + (b + c) + d =~= a + (b + (c + d)));
}

proof fn lemma_file_started(
    start: Seq<u8>,
    told: Seq<EventView>,
    v: EncoderView,
    written: Seq<u8>,
    name: Option<Seq<u8>>,
    executable: bool,
    size: u64,
)
    requires
        settled(start, told, v, written),
        name matches Some(n) ==> model::fits(n),
    ensures
        encoder::file_started(v, name, executable, size as nat) matches Ok((next, bytes))
            ==> file_under_way(
            start,
            told,
            name,
            executable,
            size,
            Seq::empty(),
            next,
            written + bytes,
        ),
{
    reveal(file_under_way);
    if let Ok((next, bytes)) = encoder::file_started(v, name, executable, size as nat) {
        assert(written + bytes =~= written + bytes + Seq::<u8>::empty());
    }
}

proof fn lemma_file_grows(
    start: Seq<u8>,
    told: Seq<EventView>,
    name: Option<Seq<u8>>,
    executable: bool,
    size: u64,
    contents: Seq<u8>,
    v: EncoderView,
    written: Seq<u8>,
    chunk: Seq<u8>,
)
    requires
        file_under_way(start, told, name, executable, size, contents, v, written),
    ensures
        file_under_way(
            start,
            told,
            name,
            executable,
            size,
            contents + chunk,
            v,
            written + chunk,
        ),
{
    reveal(file_under_way);
    let head = encoder::opening(name) + model::regular_head(executable) + model::le64(size as nat);
    let (before, done) = choose|before: EncoderView, done: Seq<u8>|
        {
            &&& #[trigger] settled(start, told, before, done)
            &&& encoder::placement_error(before, name) is None
            &&& v == encoder::started(before, name)
            &&& written == done + head + contents
        };
    assert(done + head + contents + chunk =~= done + head + (contents + chunk));
}

proof fn lemma_file_done(
    start: Seq<u8>,
    told: Seq<EventView>,
    name: Option<Seq<u8>>,
    executable: bool,
    size: u64,
    contents: Seq<u8>,
    v: EncoderView,
    written: Seq<u8>,
)
    requires
        file_under_way(start, told, name, executable, size, contents, v, written),
        size == contents.len(),
    ensures
        settled(
            start,
            told.push(model::regular_event(name, executable, contents)),
            encoder::ended(v, name is Some),
            written + encoder::file_end(name is Some, size as nat),
        ),
{
    reveal(file_under_way);
    let head = encoder::opening(name) + model::regular_head(executable) + model::le64(size as nat);
    let end = encoder::file_end(name is Some, size as nat);
    let (before, done) = choose|before: EncoderView, done: Seq<u8>|
        {
            &&& #[trigger] settled(start, told, before, done)
            &&& encoder::placement_error(before, name) is None
            &&& v == encoder::started(before, name)
            &&& written == done + head + contents
        };
    lemma_settled_tell(
        start,
        told,
        before,
        done,
        model::regular_event(name, executable, contents),
    );
    encoder::lemma_file_bytes(name, executable, contents);
    assert(done + head + contents + end =~= done + (head + (contents + end)));
}

}
