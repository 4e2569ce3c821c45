//! Restoring a filesystem tree: which object each event creates, and where,
//! including Nix's macOS case hack.

use vstd::prelude::*;

use crate::case_hack;
use crate::case_hack::{build_hacked_name, CaseHack};
use crate::dec::Event;
use crate::io;
use crate::io::{IoError, IoErrorKind};
use crate::model;
use crate::model::EventView;
use crate::names;
use crate::names::{comes_before, describe_bytes, same_bytes};
use crate::nar::{Error, ErrorView};

verus! {

// ---------------------------------------------------------------------------
// The destination
// ---------------------------------------------------------------------------

/// `start..end` is the final component of `path`: what stands between the last
/// slash and any slashes at the very end.
pub open spec fn final_component(path: Seq<u8>, start: int, end: int) -> bool {
    &&& 0 <= start <= end <= path.len()
    &&& forall|i: int| end <= i < path.len() ==> path[i] == 0x2f
    &&& forall|i: int| start <= i < end ==> path[i] != 0x2f
    &&& end == 0 || path[end - 1] != 0x2f
    &&& start == 0 || path[start - 1] == 0x2f
}

/// A path has one final component only.
pub proof fn law_final_component_is_unique(path: Seq<u8>, a: int, b: int, c: int, d: int)
    requires
        final_component(path, a, b),
        final_component(path, c, d),
    ensures
        a == c,
        b == d,
{
}

/// Where to restore to: an object called `name` in the directory `parent`.
pub struct Destination {
    pub parent: Vec<u8>,
    pub name: Vec<u8>,
}

/// The failure of a destination that does not say what the object is called.
pub open spec fn destination_error() -> io::IoErrorView {
    io::IoErrorView {
        kind: IoErrorKind::InvalidInput,
        message: "restore destination must end in a file name other than `.` or `..`"@,
    }
}

/// A final component that names an object.
pub open spec fn names_object(component: Seq<u8>) -> bool {
    component.len() > 0 && component != model::text(".") && component != model::text("..")
}

/// `path` is taken apart into a parent and a name, or refused.
pub open spec fn taken_apart(
    path: Seq<u8>,
    r: Result<(Seq<u8>, Seq<u8>), io::IoErrorView>,
) -> bool {
    exists|start: int, end: int| #[trigger]
        final_component(path, start, end) && match r {
            Ok((parent, name)) => {
                &&& names_object(path.subrange(start, end))
                &&& name == path.subrange(start, end)
                &&& parent == (if start == 0 {
                    model::text(".")
                } else {
                    path.take(start)
                })
            },
            Err(e) => !names_object(path.subrange(start, end)) && e == destination_error(),
        }
}

/// What taking a path apart came to.
pub open spec fn apart(r: Result<Destination, IoError>) -> Result<
    (Seq<u8>, Seq<u8>),
    io::IoErrorView,
> {
    match r {
        Ok(destination) => Ok((destination.parent@, destination.name@)),
        Err(e) => Err(e@),
    }
}

impl Destination {
    /// Take a path apart. Its final lexical component must not be empty, `.` or
    /// `..`.
    pub fn new(path: &[u8]) -> (r: Result<Self, IoError>)
        ensures
            taken_apart(path@, apart(r)),
    {
        let mut end: usize = path.len();
        while end > 0 && path[end - 1] == 0x2f
            invariant
                end <= path@.len(),
                forall|i: int| end <= i < path@.len() ==> path@[i] == 0x2f,
            decreases end,
        {
            end = end - 1;
        }
        let mut start: usize = end;
        while start > 0 && path[start - 1] != 0x2f
            invariant
                start <= end,
                end <= path@.len(),
                forall|i: int| start <= i < end ==> path@[i] != 0x2f,
            decreases start,
        {
            start = start - 1;
        }
        assert(final_component(path@, start as int, end as int));
        let component = &path[start..end];
        if component.len() == 0 || same_bytes(component, ".".as_bytes()) || same_bytes(
            component,
            "..".as_bytes(),
        ) {
            return Err(
                IoError::new(
                    IoErrorKind::InvalidInput,
                    "restore destination must end in a file name other than `.` or `..`",
                ),
            );
        }
        let mut name: Vec<u8> = Vec::new();
        name.extend_from_slice(component);
        let mut parent: Vec<u8> = Vec::new();
        if start == 0 {
            parent.extend_from_slice(".".as_bytes());
            assert(parent@ =~= model::text("."));
        } else {
            parent.extend_from_slice(&path[0..start]);
            assert(parent@ =~= path@.take(start as int));
        }
        assert(name@ =~= path@.subrange(start as int, end as int));
        Ok(Destination { parent, name })
    }
}

// ---------------------------------------------------------------------------
// Names on disk
// ---------------------------------------------------------------------------

/// How the names of a filesystem are compared without regard to case: the byte
/// that stands for each byte.
#[derive(Clone, Copy)]
pub struct CaseFold {
    pub table: [u8; 256],
}

impl CaseFold {
    /// `name` without regard to case.
    pub open spec fn fold(&self, name: Seq<u8>) -> Seq<u8> {
        name.map_values(|b: u8| self.table@[b as int])
    }

    /// Fold a name.
    pub fn fold_name(&self, name: &[u8]) -> (r: Vec<u8>)
        ensures
            r@ == self.fold(name@),
    {
        let mut folded: Vec<u8> = Vec::with_capacity(name.len());
        let mut i: usize = 0;
        while i < name.len()
            invariant
                i <= name@.len(),
                folded@ == self.fold(name@.take(i as int)),
            decreases name.len() - i,
        {
            folded.push(self.table[name[i] as usize]);
            i = i + 1;
            assert(folded@ =~= self.fold(name@.take(i as int)));
        }
        assert(name@.take(i as int) =~= name@);
        folded
    }
}

/// The first name in a directory of those that differ only in case, and how
/// many have followed it.
pub struct OriginalView {
    pub name: Seq<u8>,
    pub collisions: nat,
}

/// The names restored to a directory so far, by their folded form.
pub type NamesView = Map<Seq<u8>, OriginalView>;

/// What `name` is called on disk in a directory that holds `held`, and what the
/// directory holds then.
pub open spec fn disk_name(
    held: NamesView,
    name: Seq<u8>,
    case_hack: CaseHack,
    fold: CaseFold,
) -> (NamesView, Result<Seq<u8>, ErrorView>) {
    let key = fold.fold(name);
    if case_hack == CaseHack::Disabled {
        (held, Ok(name))
    } else if !held.contains_key(key) {
        (held.insert(key, OriginalView { name, collisions: 0 }), Ok(name))
    } else if held[key].collisions >= u64::MAX {
        (held, Err(ErrorView::CaseHackCounterOverflow))
    } else {
        let number = held[key].collisions + 1;
        let counted = held.insert(key, OriginalView { collisions: number, ..held[key] });
        let generated = case_hack::hacked_name(name, number);
        let taken = fold.fold(generated);
        if counted.contains_key(taken) {
            (
                counted,
                Err(
                    ErrorView::CaseHackRestoreCollision {
                        archive_name: names::describe(name),
                        generated_name: names::describe(generated),
                        existing_name: names::describe(counted[taken].name),
                    },
                ),
            )
        } else {
            (counted, Ok(generated))
        }
    }
}

struct OriginalName {
    folded: Vec<u8>,
    bytes: Vec<u8>,
    collisions: u64,
}

impl OriginalName {
    spec fn original(&self) -> OriginalView {
        OriginalView { name: self.bytes@, collisions: self.collisions as nat }
    }
}

/// The names restored to one directory, in the order of their folded form.
pub struct DirectoryState {
    names: Vec<OriginalName>,
}

spec fn held_by(names: Seq<OriginalName>) -> NamesView
    decreases names.len(),
{
    if names.len() == 0 {
        Map::empty()
    } else {
        held_by(names.drop_last()).insert(names.last().folded@, names.last().original())
    }
}

spec fn ascending(names: Seq<OriginalName>) -> bool {
    forall|i: int, j: int|
        0 <= i < j < names.len() ==> names::less(
            (#[trigger] names[i]).folded@,
            (#[trigger] names[j]).folded@,
        )
}

proof fn lemma_held_at(names: Seq<OriginalName>, i: int)
    requires
        ascending(names),
        0 <= i < names.len(),
    ensures
        held_by(names).contains_key(names[i].folded@),
        held_by(names)[names[i].folded@] == names[i].original(),
    decreases names.len(),
{
    if i < names.len() - 1 {
        let init = names.drop_last();
        assert(init[i] == names[i]);
        assert forall|a: int, b: int| 0 <= a < b < init.len() implies names::less(
            (#[trigger] init[a]).folded@,
            (#[trigger] init[b]).folded@,
        ) by {
            assert(names::less(names[a].folded@, names[b].folded@));
        }
        lemma_held_at(init, i);
        assert(names::less(names[i].folded@, names.last().folded@));
        names::lemma_less_irreflexive(names[i].folded@);
    }
}

proof fn lemma_held_key(names: Seq<OriginalName>, key: Seq<u8>)
    requires
        held_by(names).contains_key(key),
    ensures
        exists|i: int| 0 <= i < names.len() && (#[trigger] names[i]).folded@ == key,
    decreases names.len(),
{
    if names.last().folded@ == key {
        assert(names[names.len() - 1].folded@ == key);
    } else {
        lemma_held_key(names.drop_last(), key);
        let i = choose|i: int|
            0 <= i < names.len() - 1 && (#[trigger] names.drop_last()[i]).folded@ == key;
        assert(names[i].folded@ == key);
    }
}

/// Two lists hold the same if they hold the same under each key.
proof fn lemma_held_same(a: Seq<OriginalName>, held: NamesView)
    requires
        ascending(a),
        forall|i: int|
            0 <= i < a.len() ==> held.contains_key((#[trigger] a[i]).folded@)
                && held[a[i].folded@] == a[i].original(),
        forall|key: Seq<u8>| #[trigger]
            held.contains_key(key) ==> exists|i: int|
                0 <= i < a.len() && (#[trigger] a[i]).folded@ == key,
    ensures
        held_by(a) == held,
{
    assert forall|key: Seq<u8>| #[trigger]
        held_by(a).contains_key(key) == held.contains_key(key) by {
        if held_by(a).contains_key(key) {
            lemma_held_key(a, key);
        }
        if held.contains_key(key) {
            let i = choose|i: int| 0 <= i < a.len() && (#[trigger] a[i]).folded@ == key;
            lemma_held_at(a, i);
        }
    }
    assert forall|key: Seq<u8>| held.contains_key(key) implies held_by(a)[key]
        == #[trigger] held[key] by {
        let i = choose|i: int| 0 <= i < a.len() && (#[trigger] a[i]).folded@ == key;
        lemma_held_at(a, i);
    }
    assert(held_by(a) =~= held);
}

impl DirectoryState {
    pub closed spec fn wf(&self) -> bool {
        ascending(self.names@)
    }

    pub closed spec fn view(&self) -> NamesView {
        held_by(self.names@)
    }

    pub fn new() -> (r: Self)
        ensures
            r.wf(),
            r@ == Map::<Seq<u8>, OriginalView>::empty(),
    {
        DirectoryState { names: Vec::new() }
    }

    /// Where `folded` is, or where it would be.
    fn find(&self, folded: &[u8]) -> (r: Result<usize, usize>)
        requires
            self.wf(),
        ensures
            match r {
                Ok(i) => i < self.names@.len() && self.names@[i as int].folded@ == folded@,
                Err(i) => {
                    &&& i <= self.names@.len()
                    &&& forall|j: int|
                        0 <= j < i ==> names::less((#[trigger] self.names@[j]).folded@, folded@)
                    &&& forall|j: int|
                        i <= j < self.names@.len() ==> names::less(
                            folded@,
                            (#[trigger] self.names@[j]).folded@,
                        )
                    &&& !self@.contains_key(folded@)
                },
            },
    {
        let mut low: usize = 0;
        let mut high: usize = self.names.len();
        while low < high
            invariant
                self.wf(),
                low <= high <= self.names@.len(),
                forall|j: int|
                    0 <= j < low ==> names::less((#[trigger] self.names@[j]).folded@, folded@),
                forall|j: int|
                    high <= j < self.names@.len() ==> names::less(
                        folded@,
                        (#[trigger] self.names@[j]).folded@,
                    ),
            decreases high - low,
        {
            let middle = low + (high - low) / 2;
            let here = self.names[middle].folded.as_slice();
            if same_bytes(here, folded) {
                return Ok(middle);
            }
            if comes_before(here, folded) {
                proof {
                    assert forall|j: int| 0 <= j < middle + 1 implies names::less(
                        (#[trigger] self.names@[j]).folded@,
                        folded@,
                    ) by {
                        if j < middle {
                            names::lemma_less_transitive(
                                self.names@[j].folded@,
                                here@,
                                folded@,
                            );
                        }
                    }
                }
                low = middle + 1;
            } else {
                proof {
                    names::lemma_less_total(here@, folded@);
                    assert forall|j: int| middle <= j < self.names@.len() implies names::less(
                        folded@,
                        (#[trigger] self.names@[j]).folded@,
                    ) by {
                        if j > middle {
                            names::lemma_less_transitive(
                                folded@,
                                here@,
                                self.names@[j].folded@,
                            );
                        }
                    }
                }
                high = middle;
            }
        }
        proof {
            if self@.contains_key(folded@) {
                lemma_held_key(self.names@, folded@);
                let i = choose|i: int|
                    0 <= i < self.names@.len() && (#[trigger] self.names@[i]).folded@ == folded@;
                names::lemma_less_irreflexive(folded@);
            }
        }
        Err(low)
    }

    /// What `name` is called on disk.
    pub fn disk_name(&mut self, name: &[u8], case_hack: CaseHack, fold: &CaseFold) -> (r: Result<
        Vec<u8>,
        Error,
    >)
        requires
            old(self).wf(),
        ensures
            final(self).wf(),
            ({
                let (held, named) = disk_name(old(self)@, name@, case_hack, *fold);
                &&& final(self)@ == held
                &&& match named {
                    Ok(disk) => r matches Ok(bytes) && bytes@ == disk,
                    Err(e) => r matches Err(error) && error@ == e,
                }
            }),
    {
        if !case_hack.is_enabled() {
            return Ok(copied(name));
        }
        let folded = fold.fold_name(name);
        match self.find(folded.as_slice()) {
            Err(place) => {
                let ghost before = self.names@;
                let added = OriginalName { folded, bytes: copied(name), collisions: 0 };
                let ghost key = added.folded@;
                let ghost held = held_by(before).insert(key, added.original());
                self.names.insert(place, added);
                proof {
                    lemma_inserted(before, self.names@, place as int, held);
                }
                Ok(copied(name))
            },
            Ok(index) => {
                let ghost before = self.names@;
                proof {
                    lemma_held_at(before, index as int);
                }
                let collisions = self.names[index].collisions;
                if collisions == u64::MAX {
                    return Err(Error::CaseHackCounterOverflow);
                }
                let number = collisions + 1;
                self.names[index].collisions = number;
                proof {
                    lemma_counted(before, self.names@, index as int);
                }
                let candidate = build_hacked_name(name, number);
                let taken = fold.fold_name(candidate.as_slice());
                match self.find(taken.as_slice()) {
                    Ok(existing) => {
                        proof {
                            lemma_held_at(self.names@, existing as int);
                        }
                        Err(
                            Error::CaseHackRestoreCollision {
                                archive_name: describe_bytes(name),
                                generated_name: describe_bytes(candidate.as_slice()),
                                existing_name: describe_bytes(
                                    self.names[existing].bytes.as_slice(),
                                ),
                            },
                        )
                    },
                    Err(_) => Ok(candidate),
                }
            },
        }
    }
}

fn copied(bytes: &[u8]) -> (r: Vec<u8>)
    ensures
        r@ == bytes@,
{
    let mut copy: Vec<u8> = Vec::with_capacity(bytes.len());
    copy.extend_from_slice(bytes);
    assert(copy@ =~= bytes@);
    copy
}

proof fn lemma_inserted(
    before: Seq<OriginalName>,
    after: Seq<OriginalName>,
    place: int,
    held: NamesView,
)
    requires
        ascending(before),
        0 <= place <= before.len(),
        after.len() == before.len() + 1,
        after == before.insert(place, after[place]),
        forall|j: int|
            0 <= j < place ==> names::less((#[trigger] before[j]).folded@, after[place].folded@),
        forall|j: int|
            place <= j < before.len() ==> names::less(
                after[place].folded@,
                (#[trigger] before[j]).folded@,
            ),
        !held_by(before).contains_key(after[place].folded@),
        held == held_by(before).insert(after[place].folded@, after[place].original()),
    ensures
        ascending(after),
        held_by(after) == held,
{
    let new = after[place];
    assert forall|i: int, j: int| 0 <= i < j < after.len() implies names::less(
        (#[trigger] after[i]).folded@,
        (#[trigger] after[j]).folded@,
    ) by {
        let a = if i < place {
            i
        } else {
            i - 1
        };
        let b = if j < place {
            j
        } else {
            j - 1
        };
        if i != place {
            assert(after[i] == before[a]);
        }
        if j != place {
            assert(after[j] == before[b]);
        }
        if i != place && j != place {
            assert(names::less(before[a].folded@, before[b].folded@));
        }
    }
    assert forall|i: int| 0 <= i < after.len() implies held.contains_key(
        (#[trigger] after[i]).folded@,
    ) && held[after[i].folded@] == after[i].original() by {
        if i != place {
            let a = if i < place {
                i
            } else {
                i - 1
            };
            assert(after[i] == before[a]);
            lemma_held_at(before, a);
        }
    }
    assert forall|key: Seq<u8>| #[trigger] held.contains_key(key) implies exists|i: int|
        0 <= i < after.len() && (#[trigger] after[i]).folded@ == key by {
        if key == new.folded@ {
            assert(after[place].folded@ == key);
        } else {
            lemma_held_key(before, key);
            let a = choose|a: int| 0 <= a < before.len() && (#[trigger] before[a]).folded@ == key;
            let i = if a < place {
                a
            } else {
                a + 1
            };
            assert(after[i] == before[a]);
        }
    }
    lemma_held_same(after, held);
}

proof fn lemma_counted(before: Seq<OriginalName>, after: Seq<OriginalName>, index: int)
    requires
        ascending(before),
        0 <= index < before.len(),
        after == before.update(index, after[index]),
        after[index].folded@ == before[index].folded@,
    ensures
        ascending(after),
        held_by(after) == held_by(before).insert(after[index].folded@, after[index].original()),
{
    let held = held_by(before).insert(after[index].folded@, after[index].original());
    assert forall|i: int| 0 <= i < after.len() implies (#[trigger] after[i]).folded@
        == before[i].folded@ by {}
    assert forall|i: int, j: int| 0 <= i < j < after.len() implies names::less(
        (#[trigger] after[i]).folded@,
        (#[trigger] after[j]).folded@,
    ) by {
        assert(names::less(before[i].folded@, before[j].folded@));
    }
    assert forall|i: int| 0 <= i < after.len() implies held.contains_key(
        (#[trigger] after[i]).folded@,
    ) && held[after[i].folded@] == after[i].original() by {
        if i != index {
            lemma_held_at(before, i);
            if after[i].folded@ == after[index].folded@ {
                names::lemma_less_irreflexive(after[i].folded@);
                if i < index {
                    assert(names::less(before[i].folded@, before[index].folded@));
                } else {
                    assert(names::less(before[index].folded@, before[i].folded@));
                }
            }
        }
    }
    assert forall|key: Seq<u8>| #[trigger] held.contains_key(key) implies exists|i: int|
        0 <= i < after.len() && (#[trigger] after[i]).folded@ == key by {
        if key == after[index].folded@ {
        } else {
            lemma_held_key(before, key);
            let a = choose|a: int| 0 <= a < before.len() && (#[trigger] before[a]).folded@ == key;
            assert(after[a].folded@ == key);
        }
    }
    lemma_held_same(after, held);
}

// ---------------------------------------------------------------------------
// Objects
// ---------------------------------------------------------------------------

/// Where an object is created: at the destination, or under a name in the
/// innermost open directory.
#[derive(Debug)]
pub enum Place {
    Root,
    Child(Vec<u8>),
}

/// What is to be done to the filesystem.
#[derive(Debug)]
pub enum RestoreAction {
    /// Create a directory, which is then the innermost open one.
    CreateDirectory(Place),
    /// Leave the innermost open directory.
    LeaveDirectory,
    /// Create a regular file, write its contents, and set its mode.
    CreateRegular { place: Place, mode: u32 },
    /// Create a symbolic link.
    CreateSymlink(Place),
}

/// The model of a [`RestoreAction`]: a place is a name, or none for the root.
pub enum ActionView {
    CreateDirectory(Option<Seq<u8>>),
    LeaveDirectory,
    CreateRegular { place: Option<Seq<u8>>, mode: u32 },
    CreateSymlink(Option<Seq<u8>>),
}

impl View for Place {
    type V = Option<Seq<u8>>;

    open spec fn view(&self) -> Option<Seq<u8>> {
        match *self {
            Place::Root => None,
            Place::Child(name) => Some(name@),
        }
    }
}

impl View for RestoreAction {
    type V = ActionView;

    open spec fn view(&self) -> ActionView {
        match *self {
            RestoreAction::CreateDirectory(place) => ActionView::CreateDirectory(place@),
            RestoreAction::LeaveDirectory => ActionView::LeaveDirectory,
            RestoreAction::CreateRegular { place, mode } => ActionView::CreateRegular {
                place: place@,
                mode,
            },
            RestoreAction::CreateSymlink(place) => ActionView::CreateSymlink(place@),
        }
    }
}

/// What an event says apart from the contents of a file.
pub open spec fn outline<C>(event: Event<'_, C>) -> EventView {
    match event {
        Event::DirectoryStart { name } => EventView::DirectoryStart { name: names::optional(name) },
        Event::DirectoryEnd { name } => EventView::DirectoryEnd { name: names::optional(name) },
        Event::Regular { name, executable, .. } => EventView::Regular {
            name: names::optional(name),
            executable,
            size: 0,
            contents: Seq::empty(),
        },
        Event::Symlink { name, target } => EventView::Symlink {
            name: names::optional(name),
            target: target@,
        },
    }
}

/// The names held by each open directory, the innermost last.
pub type OpenView = Seq<NamesView>;

/// Where an object known as `name` is created, and what the open directories
/// hold then.
pub open spec fn placed(
    open: OpenView,
    name: Option<Seq<u8>>,
    case_hack: CaseHack,
    fold: CaseFold,
) -> (OpenView, Result<Option<Seq<u8>>, ErrorView>) {
    match name {
        None => (open, Ok(None)),
        Some(n) => {
            let (held, named) = disk_name(open.last(), n, case_hack, fold);
            (
                open.drop_last().push(held),
                match named {
                    Ok(disk) => Ok(Some(disk)),
                    Err(e) => Err(e),
                },
            )
        },
    }
}

/// The mode of a restored file.
pub open spec fn restored_mode(executable: bool) -> u32 {
    if executable {
        0o755
    } else {
        0o644
    }
}

/// What an event leads to.
pub open spec fn restore_step(
    open: OpenView,
    event: EventView,
    case_hack: CaseHack,
    fold: CaseFold,
) -> (OpenView, Result<ActionView, ErrorView>) {
    match event {
        EventView::DirectoryStart { name } => {
            let (after, place) = placed(open, name, case_hack, fold);
            match place {
                Err(e) => (after, Err(e)),
                Ok(place) => (after.push(Map::empty()), Ok(ActionView::CreateDirectory(place))),
            }
        },
        EventView::DirectoryEnd { .. } => (open.drop_last(), Ok(ActionView::LeaveDirectory)),
        EventView::Regular { name, executable, .. } => {
            let (after, place) = placed(open, name, case_hack, fold);
            match place {
                Err(e) => (after, Err(e)),
                Ok(place) => (
                    after,
                    Ok(ActionView::CreateRegular { place, mode: restored_mode(executable) }),
                ),
            }
        },
        EventView::Symlink { name, .. } => {
            let (after, place) = placed(open, name, case_hack, fold);
            match place {
                Err(e) => (after, Err(e)),
                Ok(place) => (after, Ok(ActionView::CreateSymlink(place))),
            }
        },
    }
}

/// Turns decoder events into what is to be done to the filesystem.
///
/// Both restore paths are this visitor over one of the two decoders. Everything
/// that could otherwise drift between the two, the case-hack numbering and the
/// directory stack, lives here once.
pub struct RestoreVisitor {
    directories: Vec<DirectoryState>,
    case_hack: CaseHack,
    fold: CaseFold,
}

spec fn held_by_all(directories: Seq<DirectoryState>) -> OpenView {
    directories.map_values(|d: DirectoryState| d@)
}

impl RestoreVisitor {
    pub closed spec fn wf(&self) -> bool {
        forall|i: int| 0 <= i < self.directories@.len() ==> (#[trigger] self.directories@[i]).wf()
    }

    pub closed spec fn view(&self) -> OpenView {
        held_by_all(self.directories@)
    }

    pub closed spec fn setting(&self) -> CaseHack {
        self.case_hack
    }

    pub closed spec fn folding(&self) -> CaseFold {
        self.fold
    }

    pub fn new(case_hack: CaseHack, fold: CaseFold) -> (r: Self)
        ensures
            r.wf(),
            r@ == Seq::<NamesView>::empty(),
            r.setting() == case_hack,
            r.folding() == fold,
    {
        let r = RestoreVisitor { directories: Vec::new(), case_hack, fold };
        assert(r@ =~= Seq::<NamesView>::empty());
        r
    }

    /// How many directories are open.
    pub fn depth(&self) -> (r: usize)
        ensures
            r == self@.len(),
    {
        self.directories.len()
    }

    /// Whether `event` can come next: a decoder delivers no other.
    pub fn accepts<C>(&self, event: &Event<'_, C>) -> (r: bool)
        ensures
            r == model::nests(outline(*event), self@.len()),
    {
        let depth = self.directories.len();
        match event {
            Event::DirectoryStart { name } => name.is_none() == (depth == 0),
            Event::DirectoryEnd { name } => depth > 0 && name.is_none() == (depth == 1),
            Event::Regular { name, .. } => name.is_none() == (depth == 0),
            Event::Symlink { name, .. } => name.is_none() == (depth == 0),
        }
    }

    /// Resolve where an object belongs.
    fn place(&mut self, name: Option<&[u8]>) -> (r: Result<Place, Error>)
        requires
            old(self).wf(),
            name is Some ==> old(self)@.len() > 0,
        ensures
            final(self).wf(),
            final(self).setting() == old(self).setting(),
            final(self).folding() == old(self).folding(),
            ({
                let (open, place) = placed(
                    old(self)@,
                    names::optional(name),
                    old(self).setting(),
                    old(self).folding(),
                );
                &&& final(self)@ == open
                &&& match place {
                    Ok(place) => r matches Ok(p) && p@ == place,
                    Err(e) => r matches Err(error) && error@ == e,
                }
            }),
    {
        match name {
            None => Ok(Place::Root),
            Some(name) => {
                let last = self.directories.len() - 1;
                let named = self.directories[last].disk_name(name, self.case_hack, &self.fold);
                proof {
                    assert(self@ =~= old(self)@.drop_last().push(self.directories@[last as int]@));
                }
                Ok(Place::Child(named?))
            },
        }
    }

    /// Decide what an event does to the filesystem.
    pub fn visit<C>(&mut self, event: &Event<'_, C>) -> (r: Result<RestoreAction, Error>)
        requires
            old(self).wf(),
            model::nests(outline(*event), old(self)@.len()),
        ensures
            final(self).wf(),
            final(self).setting() == old(self).setting(),
            final(self).folding() == old(self).folding(),
            ({
                let (open, action) = restore_step(
                    old(self)@,
                    outline(*event),
                    old(self).setting(),
                    old(self).folding(),
                );
                &&& final(self)@ == open
                &&& match action {
                    Ok(action) => {
                        &&& r matches Ok(a) && a@ == action
                        &&& open.len() == model::depth_after(outline(*event), old(self)@.len())
                    },
                    Err(e) => r matches Err(error) && error@ == e,
                }
            }),
    {
        match event {
            Event::DirectoryStart { name } => {
                let place = self.place(*name)?;
                let ghost before = self@;
                self.directories.push(DirectoryState::new());
                assert(self@ =~= before.push(Map::empty()));
                Ok(RestoreAction::CreateDirectory(place))
            },
            Event::DirectoryEnd { .. } => {
                let left = self.directories.pop();
                assert(self@ =~= old(self)@.drop_last());
                Ok(RestoreAction::LeaveDirectory)
            },
            Event::Regular { name, executable, .. } => {
                let place = self.place(*name)?;
                let mode: u32 = if *executable {
                    0o755
                } else {
                    0o644
                };
                Ok(RestoreAction::CreateRegular { place, mode })
            },
            Event::Symlink { name, .. } => {
                let place = self.place(*name)?;
                Ok(RestoreAction::CreateSymlink(place))
            },
        }
    }
}

}
