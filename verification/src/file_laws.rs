//! What becomes of the contents of a file that is written piece by piece, and of
//! one that is read.

use vstd::prelude::*;

use crate::case_hack;
use crate::case_hack::CaseHack;
use crate::encoder;
use crate::encoder::{EncoderView, RegularWriter};
use crate::io;
use crate::io::{ByteSink, IoError};
use crate::listing;
use crate::model::EventView;
use crate::name_laws;
use crate::names;
use crate::nar::ErrorView;
use crate::paths;
use crate::walk;
use crate::walk::{FrameView, PathAction, Stage, WalkView};

verus! {

// ---------------------------------------------------------------------------
// Writing
// ---------------------------------------------------------------------------

/// What has been passed on to the sink that a file is written to.
pub open spec fn passed_on<W: ByteSink>(file: RegularWriter<'_, W>) -> Seq<u8> {
    file.encoder.sink().written()
}

/// The sink that a file is written to never fails.
pub open spec fn never_fails<W: ByteSink>(file: RegularWriter<'_, W>) -> bool {
    file.encoder.sink().reliable()
}

/// A write passes on a first part of what it is given, counts exactly that, and
/// never goes beyond the declared size.
pub proof fn law_writes_count_what_they_pass_on<W: ByteSink>(
    before: RegularWriter<'_, W>,
    after: RegularWriter<'_, W>,
    buf: Seq<u8>,
    r: Result<usize, IoError>,
)
    requires
        encoder::file_written(before, after, buf, r),
        before.accepted() <= before.expected(),
    ensures
        ({
            let sent = passed_on(before);
            let now = passed_on(after);
            let count = after.accepted() - before.accepted();
            &&& 0 <= count <= buf.len()
            &&& now == sent + buf.take(count)
            &&& after.accepted() <= before.expected()
            &&& r is Ok ==> count == r->Ok_0 && !after.broken() && !before.broken()
            &&& r is Err ==> count == 0
        }),
        before.broken() ==> r is Err && r->Err_0@ == encoder::poisoned_error() && after.broken(),
        !before.broken() && before.accepted() + buf.len() > before.expected() ==> r is Err
            && r->Err_0@ == encoder::oversized_error() && after.broken(),
{
    let sent = passed_on(before);
    assert(sent + buf.take(0) =~= sent);
}

/// A write of everything passes on a first part of what it is given, counts
/// exactly that, and succeeds only if that is all of it.
pub proof fn law_whole_writes_pass_on_everything<W: ByteSink>(
    before: RegularWriter<'_, W>,
    after: RegularWriter<'_, W>,
    buf: Seq<u8>,
    r: Result<(), IoError>,
)
    requires
        encoder::file_filled(before, after, buf, r),
        before.accepted() <= before.expected(),
    ensures
        ({
            let sent = passed_on(before);
            let now = passed_on(after);
            let count = after.accepted() - before.accepted();
            &&& 0 <= count <= buf.len()
            &&& now == sent + buf.take(count)
            &&& after.accepted() <= before.expected()
            &&& r is Ok ==> now == sent + buf && count == buf.len()
            &&& r is Err ==> count < buf.len()
        }),
        buf.len() > 0 && before.broken() ==> r is Err && r->Err_0@ == encoder::poisoned_error(),
        !before.broken() && before.accepted() + buf.len() > before.expected() ==> r is Err
            && r->Err_0@ == encoder::oversized_error() && after.broken(),
        !before.broken() && before.accepted() + buf.len() <= before.expected()
            && never_fails(before) ==> r is Ok,
{
    let sent = passed_on(before);
    assert(sent + buf.take(0) =~= sent);
    assert(buf.take(buf.len() as int) =~= buf);
    if buf.len() == 0 {
        assert(sent + buf =~= sent);
    }
}

/// A file that was started in some state, given its contents and finished has
/// become what the file as one event would have been, in the state and in the
/// output. One that was given more or less has not, nor has one that is broken:
/// both numbers are reported, in that order, or that it is broken.
pub proof fn law_files_are_finished_with_their_size(
    v: EncoderView,
    name: Option<Seq<u8>>,
    executable: bool,
    contents: Seq<u8>,
    accepted: nat,
)
    requires
        encoder::file_started(v, name, executable, contents.len()) is Ok,
    ensures
        ({
            let size = contents.len();
            let (next, head) = encoder::file_started(v, name, executable, size)->Ok_0;
            let started = EncoderView { poisoned: true, ..next };
            let named = name is Some;
            let whole = encoder::step(
                v,
                EventView::Regular { name, executable, size, contents },
            );
            let done = encoder::file_finished(started, named, false, size, size);
            &&& whole is Ok && done is Ok
            &&& done->Ok_0.0 == whole->Ok_0.0
            &&& head + contents + done->Ok_0.1 == whole->Ok_0.1
            &&& accepted != size ==> encoder::file_finished(started, named, false, size, accepted)
                == Err::<(EncoderView, Seq<u8>), _>(
                ErrorView::RegularSizeMismatch { expected: size, actual: accepted },
            )
            &&& encoder::file_finished(started, named, true, size, accepted) == Err::<
                (EncoderView, Seq<u8>),
                _,
            >(ErrorView::EncoderPoisoned)
        }),
{
    let size = contents.len();
    let named = name is Some;
    let (_, head) = encoder::file_started(v, name, executable, size)->Ok_0;
    encoder::lemma_file_bytes(name, executable, contents);
    assert(head + contents + encoder::file_end(named, size) =~= head + (contents
        + encoder::file_end(named, size)));
}

/// What a sink claims to have accepted counts as the first part of the buffer of
/// that length, and for nothing where the buffer is shorter.
pub proof fn law_claims_count_up_to_the_buffer(first: Seq<u8>, more: Seq<u8>, n: usize)
    ensures
        n == first.len() ==> io::counted(first + more, n) == first,
        n > first.len() ==> io::counted(first, n) == Seq::<u8>::empty(),
{
    assert((first + more).take(first.len() as int) =~= first);
}

// ---------------------------------------------------------------------------
// Reading
// ---------------------------------------------------------------------------

/// What is asked of a file is no more than is left of it, and once nothing is
/// left, whether it goes on.
pub proof fn law_no_more_is_read_than_is_left(
    before: WalkView,
    after: WalkView,
    left: u64,
    action: PathAction,
)
    requires
        walk::reading(before, after, left, action),
    ensures
        left == 0 <==> action is Probe,
        left == 0 <==> after.stage == Stage::Probing,
        left > 0 ==> action is Read && action->limit == left && after.stage == (Stage::Reading {
            left,
        }),
        after.told == before.told && after.path == before.path && after.name == before.name
            && after.frames == before.frames,
{
}

// ---------------------------------------------------------------------------
// Going on
// ---------------------------------------------------------------------------

/// A walk is done exactly if no open directory has an entry left. Otherwise the
/// next object is the first entry left in the innermost directory that has one:
/// it is asked for by its name on disk, its path is that name behind the path of
/// the directory, and it is archived under its name in the archive.
pub proof fn law_the_next_entry_is_looked_up(
    before: Seq<FrameView>,
    told: Seq<EventView>,
    count: nat,
    after: WalkView,
    action: PathAction,
)
    requires
        walk::moved_on(before, told, count, after, action),
    ensures
        action is Done <==> forall|i: int|
            0 <= i < before.len() ==> (#[trigger] before[i]).left.len() == 0,
        after.told.len() == told.len() + before.len() - after.frames.len(),
        !(action is Done) ==> {
            let depth = after.frames.len() as int;
            let directory = before[depth - 1];
            &&& 0 < depth <= before.len()
            &&& directory.left.len() > 0
            &&& forall|i: int| depth <= i < before.len() ==> (#[trigger] before[i]).left.len() == 0
            &&& action is Lookup && action->depth == depth
            &&& action->name@ == directory.left[0].0
            &&& after.name == Some(directory.left[0].1)
            &&& after.path == paths::joined(directory.path, directory.left[0].0)
            &&& after.frames[depth - 1].path == directory.path
            &&& after.frames[depth - 1].left == directory.left.skip(1)
            &&& forall|i: int| 0 <= i < depth - 1 ==> #[trigger] after.frames[i] == before[i]
        },
{
    if !(action is Done) {
        let depth = before.len() - count;
        assert(before[depth - 1].left.len() > 0);
    } else {
        assert(count == before.len());
    }
}

/// Nothing that a walk has told is taken back, and all that going on adds is the
/// ends of directories.
pub proof fn law_going_on_only_ends_directories(
    before: Seq<FrameView>,
    told: Seq<EventView>,
    count: nat,
    after: WalkView,
    action: PathAction,
    i: int,
)
    requires
        walk::moved_on(before, told, count, after, action),
        0 <= i < after.told.len(),
    ensures
        i < told.len() ==> after.told[i] == told[i],
        i >= told.len() ==> after.told[i] is DirectoryEnd,
{
}

/// A directory is archived with every name on disk but the one and the two dots,
/// and with nothing else, each under the name that it stands for, in ascending
/// order of those.
pub proof fn law_every_entry_is_listed(
    disk_names: Seq<Seq<u8>>,
    case_hack: CaseHack,
    list: Seq<(Seq<u8>, Seq<u8>)>,
    disk: Seq<u8>,
)
    requires
        listing::is_listing(disk_names, case_hack, list),
    ensures
        disk_names.contains(disk) && disk != seq![0x2eu8] && disk != seq![0x2eu8, 0x2eu8]
            <==> exists|k: int| 0 <= k < list.len() && (#[trigger] list[k]).0 == disk,
        forall|k: int|
            0 <= k < list.len() ==> (#[trigger] list[k]).1 == case_hack::archive_name(
                list[k].0,
                case_hack,
            ),
        forall|k: int, l: int|
            0 <= k < l < list.len() ==> names::less((#[trigger] list[k]).1, (#[trigger] list[l]).1),
{
    name_laws::law_names_on_disk_that_are_entries(disk);
    if disk == seq![0x2eu8] || disk == seq![0x2eu8, 0x2eu8] {
        assert(!listing::is_entry(disk));
    }
    if listing::is_entry(disk) && disk_names.contains(disk) {
        let i = disk_names.index_of(disk);
        assert(listing::is_entry(disk_names[i]));
        let entry = listing::entry_of(disk, case_hack);
        assert(list.contains(entry));
        let k = list.index_of(entry);
        assert(list[k].0 == disk);
    }
    if !listing::is_entry(disk) {
        if disk.len() == 1 {
            assert(disk =~= seq![0x2eu8]);
        } else {
            assert(disk =~= seq![0x2eu8, 0x2eu8]);
        }
    }
}

/// A directory that is refused for a collision has two entries that stand for
/// one name, and the error holds the paths of two that do.
pub proof fn law_collisions_are_real(
    disk_names: Seq<Seq<u8>>,
    case_hack: CaseHack,
    path: Seq<u8>,
    error: ErrorView,
)
    requires
        listing::is_collision(disk_names, case_hack, path, error),
    ensures
        !listing::all_apart(disk_names, case_hack),
        error is CaseHackEncodeCollision,
        exists|i: int, j: int|
            {
                &&& 0 <= i < disk_names.len() && 0 <= j < disk_names.len() && i != j
                &&& error->CaseHackEncodeCollision_0 == paths::joined(
                    path,
                    #[trigger] disk_names[i],
                )
                &&& error->CaseHackEncodeCollision_1 == paths::joined(
                    path,
                    #[trigger] disk_names[j],
                )
                &&& case_hack::archive_name(disk_names[i], case_hack) == case_hack::archive_name(
                    disk_names[j],
                    case_hack,
                )
            },
{
    let (i, j) = choose|i: int, j: int|
        {
            &&& 0 <= i < disk_names.len()
            &&& 0 <= j < disk_names.len()
            &&& i != j
            &&& listing::is_entry(#[trigger] disk_names[i])
            &&& listing::is_entry(#[trigger] disk_names[j])
            &&& case_hack::archive_name(disk_names[i], case_hack) == case_hack::archive_name(
                disk_names[j],
                case_hack,
            )
            &&& error == ErrorView::CaseHackEncodeCollision(
                paths::joined(path, disk_names[i]),
                paths::joined(path, disk_names[j]),
            )
        };
    let (a, b) = if i < j {
        (i, j)
    } else {
        (j, i)
    };
    assert(listing::is_entry(disk_names[a]) && listing::is_entry(disk_names[b]));
}

}
