//! The entries of a directory on disk, in the order of an archive.

use vstd::prelude::*;

use crate::case_hack;
use crate::case_hack::{archive_name_len, CaseHack};
use crate::model;
use crate::names;
use crate::names::{comes_before, same_bytes};
use crate::nar::{Error, ErrorView};
use crate::paths;
use crate::paths::append_name;

verus! {

/// A name on disk that is not that of the directory itself or the one above.
pub open spec fn is_entry(disk: Seq<u8>) -> bool {
    disk != model::text(".") && disk != model::text("..")
}

/// A name on disk and the archive name that it stands for.
pub open spec fn entry_of(disk: Seq<u8>, case_hack: CaseHack) -> (Seq<u8>, Seq<u8>) {
    (disk, case_hack::archive_name(disk, case_hack))
}

/// `list` is what a directory with the given names on disk comes to: every
/// entry with its archive name, strictly ascending by archive name.
pub open spec fn is_listing(
    disk_names: Seq<Seq<u8>>,
    case_hack: CaseHack,
    list: Seq<(Seq<u8>, Seq<u8>)>,
) -> bool {
    &&& forall|k: int|
        0 <= k < list.len() ==> {
            &&& disk_names.contains((#[trigger] list[k]).0)
            &&& is_entry(list[k].0)
            &&& list[k] == entry_of(list[k].0, case_hack)
        }
    &&& forall|i: int|
        0 <= i < disk_names.len() && is_entry(#[trigger] disk_names[i]) ==> list.contains(
            entry_of(disk_names[i], case_hack),
        )
    &&& forall|k: int, l: int|
        0 <= k < l < list.len() ==> names::less((#[trigger] list[k]).1, (#[trigger] list[l]).1)
}

/// No two of the entries stand for one archive name.
pub open spec fn all_apart(disk_names: Seq<Seq<u8>>, case_hack: CaseHack) -> bool {
    forall|i: int, j: int|
        0 <= i < j < disk_names.len() && is_entry(#[trigger] disk_names[i]) && is_entry(
            #[trigger] disk_names[j],
        ) ==> case_hack::archive_name(disk_names[i], case_hack) != case_hack::archive_name(
            disk_names[j],
            case_hack,
        )
}

/// Two entries of the directory at `path` stand for one archive name, and
/// `error` says so.
pub open spec fn is_collision(
    disk_names: Seq<Seq<u8>>,
    case_hack: CaseHack,
    path: Seq<u8>,
    error: ErrorView,
) -> bool {
    exists|i: int, j: int|
        {
            &&& 0 <= i < disk_names.len()
            &&& 0 <= j < disk_names.len()
            &&& i != j
            &&& is_entry(#[trigger] disk_names[i])
            &&& is_entry(#[trigger] disk_names[j])
            &&& case_hack::archive_name(disk_names[i], case_hack) == case_hack::archive_name(
                disk_names[j],
                case_hack,
            )
            &&& error == ErrorView::CaseHackEncodeCollision(
                paths::joined(path, disk_names[i]),
                paths::joined(path, disk_names[j]),
            )
        }
}

/// One entry of a directory on disk.
struct DirectoryName {
    disk: Vec<u8>,
    archive_len: usize,
    /// Where the name stood among those read.
    source: Ghost<int>,
}

impl DirectoryName {
    spec fn wf(&self) -> bool {
        self.archive_len <= self.disk@.len()
    }

    spec fn archive(&self) -> Seq<u8> {
        self.disk@.take(self.archive_len as int)
    }

    fn archive_bytes(&self) -> (r: &[u8])
        requires
            self.wf(),
        ensures
            r@ == self.archive(),
    {
        let r = &self.disk.as_slice()[0..self.archive_len];
        assert(r@ =~= self.archive());
        r
    }
}

/// The entries of a directory on disk, in the order of an archive.
pub struct Listing {
    names: Vec<DirectoryName>,
    order: Vec<usize>,
    next: usize,
}

spec fn entry_at(names: Seq<DirectoryName>, i: usize) -> (Seq<u8>, Seq<u8>) {
    (names[i as int].disk@, names[i as int].archive())
}

/// The indices in `order` are those from `low` to `high`, each once, and the
/// names that they stand for ascend.
spec fn is_order(names: Seq<DirectoryName>, order: Seq<usize>, low: int, high: int) -> bool {
    &&& order.no_duplicates()
    &&& forall|k: int| 0 <= k < order.len() ==> low <= #[trigger] order[k] < high
    &&& forall|i: usize| low <= i < high ==> #[trigger] order.contains(i)
    &&& forall|k: int, l: int|
        0 <= k < l < order.len() ==> !names::less(
            names[#[trigger] order[l] as int].archive(),
            names[#[trigger] order[k] as int].archive(),
        )
}

fn sorted_order(names: &Vec<DirectoryName>, low: usize, high: usize) -> (r: Vec<usize>)
    requires
        low <= high <= names@.len(),
        forall|i: int| 0 <= i < names@.len() ==> (#[trigger] names@[i]).wf(),
    ensures
        is_order(names@, r@, low as int, high as int),
    decreases high - low,
{
    if high - low == 0 {
        return Vec::new();
    }
    if high - low == 1 {
        let mut one: Vec<usize> = Vec::new();
        one.push(low);
        assert forall|i: usize| low <= i < high implies #[trigger] one@.contains(i) by {
            assert(one@[0] == i);
        }
        return one;
    }
    let middle = low + (high - low) / 2;
    let left = sorted_order(names, low, middle);
    let right = sorted_order(names, middle, high);
    merged(names, left, right, Ghost(low as int), Ghost(middle as int), Ghost(high as int))
}

/// `x` does not come behind anything that is left of `order` from `from` on.
spec fn none_before(
    names: Seq<DirectoryName>,
    x: usize,
    order: Seq<usize>,
    from: int,
) -> bool {
    forall|k: int|
        from <= k < order.len() ==> !names::less(
            names[#[trigger] order[k] as int].archive(),
            names[x as int].archive(),
        )
}

fn merged(
    names: &Vec<DirectoryName>,
    left: Vec<usize>,
    right: Vec<usize>,
    Ghost(low): Ghost<int>,
    Ghost(middle): Ghost<int>,
    Ghost(high): Ghost<int>,
) -> (r: Vec<usize>)
    requires
        0 <= low <= middle <= high <= names@.len(),
        forall|i: int| 0 <= i < names@.len() ==> (#[trigger] names@[i]).wf(),
        is_order(names@, left@, low, middle),
        is_order(names@, right@, middle, high),
    ensures
        is_order(names@, r@, low, high),
{
    let mut out: Vec<usize> = Vec::with_capacity(left.len());
    let mut i: usize = 0;
    let mut j: usize = 0;
    while i < left.len() || j < right.len()
        invariant
            i <= left@.len(),
            j <= right@.len(),
            0 <= low <= middle <= high <= names@.len(),
            forall|k: int| 0 <= k < names@.len() ==> (#[trigger] names@[k]).wf(),
            is_order(names@, left@, low, middle),
            is_order(names@, right@, middle, high),
            out@.len() == i + j,
            out@.no_duplicates(),
            forall|k: int|
                0 <= k < out@.len() ==> left@.take(i as int).contains(#[trigger] out@[k])
                    || right@.take(j as int).contains(out@[k]),
            forall|k: int| 0 <= k < i ==> out@.contains(#[trigger] left@[k]),
            forall|k: int| 0 <= k < j ==> out@.contains(#[trigger] right@[k]),
            forall|k: int, l: int|
                0 <= k < l < out@.len() ==> !names::less(
                    names@[#[trigger] out@[l] as int].archive(),
                    names@[#[trigger] out@[k] as int].archive(),
                ),
            forall|k: int|
                0 <= k < out@.len() ==> none_before(names@, #[trigger] out@[k], left@, i as int)
                    && none_before(names@, out@[k], right@, j as int),
        decreases left@.len() - i + right@.len() - j,
    {
        let from_left = if i < left.len() && j < right.len() {
            !comes_before(
                names[right[j]].archive_bytes(),
                names[left[i]].archive_bytes(),
            )
        } else {
            i < left.len()
        };
        let ghost before = out@;
        let ghost next = if from_left {
            left@[i as int]
        } else {
            right@[j as int]
        };
        proof {
            lemma_next_is_least(names@, left@, right@, i as int, j as int, from_left, next);
            lemma_next_is_new(
                before,
                left@,
                right@,
                i as int,
                j as int,
                from_left,
                low,
                middle,
                high,
                names@,
            );
        }
        if from_left {
            out.push(left[i]);
            i = i + 1;
            proof {
                assert(left@.take(i as int) =~= left@.take(i - 1).push(next));
                assert(left@.take(i as int)[i - 1] == next);
            }
        } else {
            out.push(right[j]);
            j = j + 1;
            proof {
                assert(right@.take(j as int) =~= right@.take(j - 1).push(next));
                assert(right@.take(j as int)[j - 1] == next);
            }
        }
        proof {
            assert(out@ == before.push(next));
            assert forall|k: int| 0 <= k < out@.len() implies left@.take(i as int).contains(
                #[trigger] out@[k],
            ) || right@.take(j as int).contains(out@[k]) by {
                if k < before.len() {
                    lemma_take_contains(left@, if from_left { i - 1 } else { i as int }, i as int, before[k]);
                    lemma_take_contains(right@, if from_left { j as int } else { j - 1 }, j as int, before[k]);
                }
            }
            assert(out@[before.len() as int] == next);
            assert forall|x: usize| before.contains(x) implies out@.contains(x) by {
                let k = before.index_of(x);
                assert(out@[k] == x);
            }
            assert forall|k: int| 0 <= k < i implies out@.contains(#[trigger] left@[k]) by {
                if k < i - 1 || !from_left {
                    assert(before.contains(left@[k]));
                }
            }
            assert forall|k: int| 0 <= k < j implies out@.contains(#[trigger] right@[k]) by {
                if k < j - 1 || from_left {
                    assert(before.contains(right@[k]));
                }
            }
            assert forall|k: int, l: int| 0 <= k < l < out@.len() implies !names::less(
                names@[#[trigger] out@[l] as int].archive(),
                names@[#[trigger] out@[k] as int].archive(),
            ) by {
                if l == before.len() {
                    assert(none_before(names@, before[k], left@, if from_left { i - 1 } else { i as int }));
                    assert(none_before(names@, before[k], right@, if from_left { j as int } else { j - 1 }));
                }
            }
            assert forall|k: int| 0 <= k < out@.len() implies none_before(
                names@,
                #[trigger] out@[k],
                left@,
                i as int,
            ) && none_before(names@, out@[k], right@, j as int) by {
                if k < before.len() {
                    assert(none_before(names@, before[k], left@, if from_left { i - 1 } else { i as int }));
                }
            }
        }
    }
    proof {
        assert(left@.take(i as int) =~= left@);
        assert(right@.take(j as int) =~= right@);
        assert forall|k: int| 0 <= k < out@.len() implies low <= #[trigger] out@[k] < high by {
            if left@.contains(out@[k]) {
                let m = left@.index_of(out@[k]);
                assert(low <= left@[m] < middle);
            } else {
                let m = right@.index_of(out@[k]);
                assert(middle <= right@[m] < high);
            }
        }
        assert forall|x: usize| low <= x < high implies #[trigger] out@.contains(x) by {
            if x < middle {
                assert(left@.contains(x));
                let m = left@.index_of(x);
                assert(out@.contains(left@[m]));
            } else {
                assert(right@.contains(x));
                let m = right@.index_of(x);
                assert(out@.contains(right@[m]));
            }
        }
    }
    out
}

proof fn lemma_take_contains(s: Seq<usize>, m: int, n: int, x: usize)
    requires
        0 <= m <= n <= s.len(),
    ensures
        s.take(m).contains(x) ==> s.take(n).contains(x),
{
    if s.take(m).contains(x) {
        let k = s.take(m).index_of(x);
        assert(s.take(n)[k] == x);
    }
}

proof fn lemma_next_is_least(
    names: Seq<DirectoryName>,
    left: Seq<usize>,
    right: Seq<usize>,
    i: int,
    j: int,
    from_left: bool,
    next: usize,
)
    requires
        0 <= i <= left.len(),
        0 <= j <= right.len(),
        from_left ==> i < left.len() && next == left[i],
        !from_left ==> j < right.len() && next == right[j],
        forall|k: int, l: int|
            0 <= k < l < left.len() ==> !names::less(
                names[#[trigger] left[l] as int].archive(),
                names[#[trigger] left[k] as int].archive(),
            ),
        forall|k: int, l: int|
            0 <= k < l < right.len() ==> !names::less(
                names[#[trigger] right[l] as int].archive(),
                names[#[trigger] right[k] as int].archive(),
            ),
        from_left && j < right.len() ==> !names::less(
            names[right[j] as int].archive(),
            names[left[i] as int].archive(),
        ),
        !from_left && i < left.len() ==> names::less(
            names[right[j] as int].archive(),
            names[left[i] as int].archive(),
        ),
    ensures
        none_before(names, next, left, i),
        none_before(names, next, right, j),
{
    let here = names[next as int].archive();
    names::lemma_less_irreflexive(here);
    assert forall|k: int| i <= k < left.len() implies !names::less(
        names[#[trigger] left[k] as int].archive(),
        here,
    ) by {
        let there = names[left[k] as int].archive();
        let first = names[left[i] as int].archive();
        if !from_left && names::less(there, here) {
            // there < here < first, but first <= there
            names::lemma_less_transitive(there, here, first);
            names::lemma_less_irreflexive(first);
            if k > i {
                assert(!names::less(names[left[k] as int].archive(), names[left[i] as int].archive()));
            }
        }
    }
    assert forall|k: int| j <= k < right.len() implies !names::less(
        names[#[trigger] right[k] as int].archive(),
        here,
    ) by {
        let there = names[right[k] as int].archive();
        let first = names[right[j] as int].archive();
        if from_left && names::less(there, here) {
            // here <= first <= there < here
            if k > j {
                assert(!names::less(there, first));
                names::lemma_less_total(first, there);
                if first != there {
                    names::lemma_less_transitive(first, there, here);
                }
            }
        }
    }
}

proof fn lemma_next_is_new(
    out: Seq<usize>,
    left: Seq<usize>,
    right: Seq<usize>,
    i: int,
    j: int,
    from_left: bool,
    low: int,
    middle: int,
    high: int,
    names: Seq<DirectoryName>,
)
    requires
        0 <= i <= left.len(),
        0 <= j <= right.len(),
        from_left ==> i < left.len(),
        !from_left ==> j < right.len(),
        is_order(names, left, low, middle),
        is_order(names, right, middle, high),
        forall|k: int|
            0 <= k < out.len() ==> left.take(i).contains(#[trigger] out[k]) || right.take(
                j,
            ).contains(out[k]),
    ensures
        !out.contains(
            if from_left {
                left[i]
            } else {
                right[j]
            },
        ),
{
    let next = if from_left {
        left[i]
    } else {
        right[j]
    };
    if out.contains(next) {
        let k = out.index_of(next);
        if left.take(i).contains(out[k]) {
            let m = left.take(i).index_of(next);
            assert(left[m] == next);
            if !from_left {
                assert(middle <= right[j]);
                assert(left[m] < middle);
            }
        } else {
            let m = right.take(j).index_of(next);
            assert(right[m] == next);
            if from_left {
                assert(middle <= right[m]);
                assert(left[i] < middle);
            }
        }
    }
}

/// The names as they were read.
pub open spec fn name_views(disk_names: Seq<Vec<u8>>) -> Seq<Seq<u8>> {
    disk_names.map_values(|n: Vec<u8>| n@)
}

/// `names` are the entries among `disk_names` from `from` on.
spec fn collected(
    disk_names: Seq<Seq<u8>>,
    case_hack: CaseHack,
    names: Seq<DirectoryName>,
    from: int,
) -> bool {
    &&& forall|k: int|
        0 <= k < names.len() ==> {
            &&& (#[trigger] names[k]).wf()
            &&& from <= names[k].source@ < disk_names.len()
            &&& names[k].disk@ == disk_names[names[k].source@]
            &&& is_entry(names[k].disk@)
            &&& names[k].archive() == case_hack::archive_name(names[k].disk@, case_hack)
        }
    &&& forall|k: int, l: int|
        0 <= k < l < names.len() ==> (#[trigger] names[k]).source@ != (
        #[trigger] names[l]).source@
    &&& forall|i: int|
        from <= i < disk_names.len() && is_entry(#[trigger] disk_names[i]) ==> exists|k: int|
            0 <= k < names.len() && (#[trigger] names[k]).source@ == i
}

fn collect_names(disk_names: Vec<Vec<u8>>, case_hack: CaseHack) -> (r: Vec<DirectoryName>)
    ensures
        collected(name_views(disk_names@), case_hack, r@, 0),
{
    let ghost all = name_views(disk_names@);
    let mut left = disk_names;
    let mut names: Vec<DirectoryName> = Vec::new();
    while left.len() > 0
        invariant
            all == name_views(disk_names@),
            left@ == disk_names@.take(left@.len() as int),
            left@.len() <= disk_names@.len(),
            collected(all, case_hack, names@, left@.len() as int),
        decreases left@.len(),
    {
        let ghost before = names@;
        let ghost index = left@.len() - 1;
        proof {
            assert(left@[index] == disk_names@[index]);
            assert(all[index] == disk_names@[index]@);
        }
        let disk = left.pop().unwrap();
        assert(left@ =~= disk_names@.take(left@.len() as int));
        if !same_bytes(disk.as_slice(), ".".as_bytes()) && !same_bytes(
            disk.as_slice(),
            "..".as_bytes(),
        ) {
            let archive_len = archive_name_len(disk.as_slice(), case_hack);
            names.push(DirectoryName { disk, archive_len, source: Ghost(index) });
            proof {
                assert forall|i: int|
                    index <= i < all.len() && is_entry(#[trigger] all[i]) implies exists|k: int|
                    0 <= k < names@.len() && (#[trigger] names@[k]).source@ == i by {
                    if i == index {
                        assert(names@[names@.len() - 1].source@ == i);
                    } else {
                        let k = choose|k: int|
                            0 <= k < before.len() && (#[trigger] before[k]).source@ == i;
                        assert(names@[k].source@ == i);
                    }
                }
                assert forall|k: int, l: int| 0 <= k < l < names@.len() implies (
                #[trigger] names@[k]).source@ != (#[trigger] names@[l]).source@ by {
                    assert(names@[k] == before[k]);
                    if l < before.len() {
                        assert(names@[l] == before[l]);
                    }
                }
            }
        }
    }
    names
}

impl Listing {
    pub closed spec fn wf(&self) -> bool {
        &&& self.next <= self.order@.len()
        &&& forall|k: int|
            0 <= k < self.order@.len() ==> #[trigger] self.order@[k] < self.names@.len()
        &&& forall|i: int| 0 <= i < self.names@.len() ==> (#[trigger] self.names@[i]).wf()
    }

    /// The entries that are left: their names on disk and in the archive.
    pub closed spec fn view(&self) -> Seq<(Seq<u8>, Seq<u8>)> {
        Seq::new(
            (self.order@.len() - self.next) as nat,
            |k: int| entry_at(self.names@, self.order@[self.next + k]),
        )
    }

    /// Sort out the names that were read from the directory at `path`.
    pub fn new(disk_names: Vec<Vec<u8>>, case_hack: CaseHack, path: &[u8]) -> (r: Result<
        Self,
        Error,
    >)
        ensures
            match r {
                Ok(listing) => {
                    &&& listing.wf()
                    &&& is_listing(name_views(disk_names@), case_hack, listing@)
                    &&& all_apart(name_views(disk_names@), case_hack)
                },
                Err(e) => is_collision(name_views(disk_names@), case_hack, path@, e@),
            },
    {
        let ghost all = name_views(disk_names@);
        let names = collect_names(disk_names, case_hack);
        let order = sorted_order(&names, 0, names.len());
        let mut k: usize = 1;
        while k < order.len()
            invariant
                1 <= k,
                all == name_views(disk_names@),
                collected(all, case_hack, names@, 0),
                is_order(names@, order@, 0, names@.len() as int),
                forall|m: int|
                    0 < m < k && m < order@.len() ==> #[trigger] told_apart(names@, order@, m),
            decreases order.len() - k,
        {
            let first = &names[order[k - 1]];
            let second = &names[order[k]];
            if same_bytes(first.archive_bytes(), second.archive_bytes()) {
                let error = Error::CaseHackEncodeCollision(
                    entry_path(path, first),
                    entry_path(path, second),
                );
                proof {
                    assert(order@[k - 1] != order@[k as int]);
                    lemma_collision(
                        all,
                        case_hack,
                        names@,
                        order@[k - 1] as int,
                        order@[k as int] as int,
                        path@,
                    );
                }
                return Err(error);
            }
            assert(told_apart(names@, order@, k as int));
            k = k + 1;
        }
        let listing = Listing { names, order, next: 0 };
        proof {
            lemma_listing(all, case_hack, names@, order@);
            assert(listing@ =~= order@.map_values(|i: usize| entry_at(names@, i)));
        }
        Ok(listing)
    }

    /// Take the next entry: its name on disk and its name in the archive.
    pub fn take(&mut self) -> (r: Option<(Vec<u8>, Vec<u8>)>)
        requires
            old(self).wf(),
        ensures
            final(self).wf(),
            match r {
                Some((disk, archive)) => {
                    &&& old(self)@.len() > 0
                    &&& (disk@, archive@) == old(self)@[0]
                    &&& final(self)@ == old(self)@.skip(1)
                },
                None => old(self)@.len() == 0 && final(self)@ == old(self)@,
            },
    {
        if self.next >= self.order.len() {
            return None;
        }
        let name = &self.names[self.order[self.next]];
        let mut disk: Vec<u8> = Vec::new();
        disk.extend_from_slice(name.disk.as_slice());
        let mut archive: Vec<u8> = Vec::new();
        archive.extend_from_slice(name.archive_bytes());
        proof {
            assert(disk@ =~= name.disk@);
            assert(archive@ =~= name.archive());
            assert(self@[0] == entry_at(self.names@, self.order@[self.next as int]));
        }
        self.next = self.next + 1;
        assert(self@ =~= old(self)@.skip(1));
        Some((disk, archive))
    }
}

/// A name differs from the one before it.
spec fn told_apart(names: Seq<DirectoryName>, order: Seq<usize>, m: int) -> bool {
    names[order[m - 1] as int].archive() != names[order[m] as int].archive()
}

fn entry_path(path: &[u8], name: &DirectoryName) -> (r: Vec<u8>)
    ensures
        r@ == paths::joined(path@, name.disk@),
{
    let mut joined: Vec<u8> = Vec::new();
    joined.extend_from_slice(path);
    assert(joined@ =~= path@);
    append_name(&mut joined, name.disk.as_slice());
    joined
}

proof fn lemma_collision(
    all: Seq<Seq<u8>>,
    case_hack: CaseHack,
    names: Seq<DirectoryName>,
    a: int,
    b: int,
    path: Seq<u8>,
)
    requires
        collected(all, case_hack, names, 0),
        0 <= a < names.len(),
        0 <= b < names.len(),
        a != b,
        names[a].archive() == names[b].archive(),
    ensures
        is_collision(
            all,
            case_hack,
            path,
            ErrorView::CaseHackEncodeCollision(
                paths::joined(path, names[a].disk@),
                paths::joined(path, names[b].disk@),
            ),
        ),
{
    let i = names[a].source@;
    let j = names[b].source@;
    assert(i != j);
    assert(is_entry(all[i]));
    assert(is_entry(all[j]));
}

proof fn lemma_listing(
    all: Seq<Seq<u8>>,
    case_hack: CaseHack,
    names: Seq<DirectoryName>,
    order: Seq<usize>,
)
    requires
        collected(all, case_hack, names, 0),
        names.len() <= usize::MAX,
        is_order(names, order, 0, names.len() as int),
        forall|m: int| 0 < m < order.len() ==> #[trigger] told_apart(names, order, m),
    ensures
        is_listing(all, case_hack, order.map_values(|i: usize| entry_at(names, i))),
        all_apart(all, case_hack),
{
    let list = order.map_values(|i: usize| entry_at(names, i));
    assert forall|k: int| 0 <= k < list.len() implies {
        &&& all.contains((#[trigger] list[k]).0)
        &&& is_entry(list[k].0)
        &&& list[k] == entry_of(list[k].0, case_hack)
    } by {
        let name = names[order[k] as int];
        assert(all[name.source@] == list[k].0);
    }
    assert forall|i: int| 0 <= i < all.len() && is_entry(#[trigger] all[i]) implies list.contains(
        entry_of(all[i], case_hack),
    ) by {
        let n = choose|n: int| 0 <= n < names.len() && (#[trigger] names[n]).source@ == i;
        assert(order.contains(n as usize));
        let k = order.index_of(n as usize);
        assert(list[k] == entry_of(all[i], case_hack));
    }
    assert forall|k: int, l: int| 0 <= k < l < list.len() implies names::less(
        (#[trigger] list[k]).1,
        (#[trigger] list[l]).1,
    ) by {
        let a = names[order[k] as int].archive();
        let b = names[order[k + 1] as int].archive();
        let c = names[order[l] as int].archive();
        assert(!names::less(b, a));
        assert(told_apart(names, order, k + 1));
        names::lemma_less_total(a, b);
        if l > k + 1 {
            assert(!names::less(c, b));
            names::lemma_less_total(b, c);
            if b != c {
                names::lemma_less_transitive(a, b, c);
            }
        }
    }
    assert forall|i: int, j: int|
        0 <= i < j < all.len() && is_entry(#[trigger] all[i]) && is_entry(
            #[trigger] all[j],
        ) implies case_hack::archive_name(all[i], case_hack) != case_hack::archive_name(
        all[j],
        case_hack,
    ) by {
        let m = choose|n: int| 0 <= n < names.len() && (#[trigger] names[n]).source@ == i;
        let n = choose|n: int| 0 <= n < names.len() && (#[trigger] names[n]).source@ == j;
        assert(order.contains(m as usize));
        assert(order.contains(n as usize));
        let k = order.index_of(m as usize);
        let l = order.index_of(n as usize);
        names::lemma_less_irreflexive(list[k].1);
        assert(k < l ==> names::less(list[k].1, list[l].1));
        assert(l < k ==> names::less(list[l].1, list[k].1));
    }
}

}
