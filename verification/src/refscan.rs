//! Streaming detection of Nix store-path references.
//!
//! Nix records references by looking for the 32-byte Nix-base32 hash parts of
//! candidate store paths in the complete NAR byte stream. The scanner here is
//! deliberately byte-oriented: callers retain ownership of store-path types
//! and map the returned candidate indices back to them.

use std::collections::HashMap;
use std::sync::Arc;
use vstd::prelude::*;

use crate::encoder::EncoderView;
use crate::hash::{HashSink, NarHash};
use crate::io;
use crate::io::{ByteSink, IoError, IoErrorKind, IoErrorView};
use crate::model;
use crate::names::same_bytes;
use crate::nar::Error;
use crate::tree;
use crate::tree::{encode_tree, Node};
use crate::wire;
use crate::wire::read_le64;

verus! {

broadcast use vstd::std_specs::hash::group_hash_axioms;

/// Length of the Nix-base32 hash part at the start of a store-path name.
pub const REFERENCE_LENGTH: usize = 32;

/// How much of a stream can be the beginning of a reference that goes on.
pub const OVERLAP_LENGTH: usize = 31;

// ---------------------------------------------------------------------------
// References in a sequence of bytes
// ---------------------------------------------------------------------------

/// A byte of Nix's base32 alphabet: the digits and the lower-case letters
/// without `e`, `o`, `t` and `u`.
pub open spec fn base32(byte: u8) -> bool {
    ||| 0x30 <= byte <= 0x39
    ||| 0x61 <= byte <= 0x64
    ||| 0x66 <= byte <= 0x6e
    ||| 0x70 <= byte <= 0x73
    ||| 0x76 <= byte <= 0x7a
}

/// A hash part of a store path.
pub open spec fn is_reference(bytes: Seq<u8>) -> bool {
    &&& bytes.len() == REFERENCE_LENGTH
    &&& forall|i: int| 0 <= i < bytes.len() ==> base32(#[trigger] bytes[i])
}

/// `needle` starts at `at` in `s`.
pub open spec fn occurs_at(s: Seq<u8>, needle: Seq<u8>, at: int) -> bool {
    &&& 0 <= at
    &&& at + needle.len() <= s.len()
    &&& s.subrange(at, at + needle.len()) == needle
}

/// `needle` stands somewhere in `s`.
pub open spec fn occurs(s: Seq<u8>, needle: Seq<u8>) -> bool {
    exists|at: int| occurs_at(s, needle, at)
}

/// The end of `s` in which a reference may have started.
pub open spec fn overlap(s: Seq<u8>) -> Seq<u8> {
    if s.len() <= OVERLAP_LENGTH {
        s
    } else {
        s.skip(s.len() - OVERLAP_LENGTH)
    }
}

/// What occurs in two pieces occurs in the first, or from its end on.
pub proof fn lemma_occurs_across(s: Seq<u8>, more: Seq<u8>, needle: Seq<u8>)
    requires
        needle.len() == REFERENCE_LENGTH,
    ensures
        occurs(s + more, needle) == (occurs(s, needle) || occurs(overlap(s) + more, needle)),
{
    let whole = s + more;
    let end = overlap(s) + more;
    let cut = s.len() - overlap(s).len();
    if occurs(whole, needle) {
        let at = choose|at: int| occurs_at(whole, needle, at);
        if at + needle.len() <= s.len() {
            assert(s.subrange(at, at + needle.len()) =~= whole.subrange(at, at + needle.len()));
            assert(occurs_at(s, needle, at));
        } else {
            assert(end.subrange(at - cut, at - cut + needle.len()) =~= whole.subrange(
                at,
                at + needle.len(),
            ));
            assert(occurs_at(end, needle, at - cut));
        }
    }
    if occurs(s, needle) {
        let at = choose|at: int| occurs_at(s, needle, at);
        assert(s.subrange(at, at + needle.len()) =~= whole.subrange(at, at + needle.len()));
        assert(occurs_at(whole, needle, at));
    }
    if occurs(end, needle) {
        let at = choose|at: int| occurs_at(end, needle, at);
        assert(end.subrange(at, at + needle.len()) =~= whole.subrange(
            at + cut,
            at + cut + needle.len(),
        ));
        assert(occurs_at(whole, needle, at + cut));
    }
}

/// The end of two pieces is that of the end of the first and the second.
pub proof fn lemma_overlap_across(s: Seq<u8>, more: Seq<u8>)
    ensures
        overlap(s + more) == overlap(overlap(s) + more),
{
    assert(overlap(s + more) =~= overlap(overlap(s) + more));
}

// ---------------------------------------------------------------------------
// Counting and listing what is found
// ---------------------------------------------------------------------------

/// How many are still to be found.
pub open spec fn missing(found: Seq<bool>) -> nat
    decreases found.len(),
{
    if found.len() == 0 {
        0
    } else {
        missing(found.drop_last()) + if found.last() {
            0nat
        } else {
            1
        }
    }
}

/// The indices of what is found, in ascending order.
pub open spec fn found_indices(found: Seq<bool>) -> Seq<usize>
    decreases found.len(),
{
    if found.len() == 0 {
        Seq::empty()
    } else if found.last() {
        found_indices(found.drop_last()).push((found.len() - 1) as usize)
    } else {
        found_indices(found.drop_last())
    }
}

proof fn lemma_missing_bound(found: Seq<bool>)
    ensures
        missing(found) <= found.len(),
        missing(found) == 0 <==> (forall|i: int| 0 <= i < found.len() ==> #[trigger] found[i]),
    decreases found.len(),
{
    if found.len() > 0 {
        lemma_missing_bound(found.drop_last());
        if missing(found) == 0 {
            assert forall|i: int| 0 <= i < found.len() implies found[i] by {
                if i < found.len() - 1 {
                    assert(found.drop_last()[i]);
                }
            }
        }
    }
}

proof fn lemma_missing_update(found: Seq<bool>, i: int)
    requires
        0 <= i < found.len(),
        !found[i],
    ensures
        missing(found.update(i, true)) + 1 == missing(found),
    decreases found.len(),
{
    if i == found.len() - 1 {
        assert(found.update(i, true).drop_last() =~= found.drop_last());
    } else {
        lemma_missing_update(found.drop_last(), i);
        assert(found.update(i, true).drop_last() =~= found.drop_last().update(i, true));
    }
}

proof fn lemma_missing_none(n: nat)
    ensures
        missing(Seq::new(n, |i: int| false)) == n,
    decreases n,
{
    if n > 0 {
        let found = Seq::new(n, |i: int| false);
        assert(found.drop_last() =~= Seq::new((n - 1) as nat, |i: int| false));
        lemma_missing_none((n - 1) as nat);
    }
}

/// The indices are those of what is found, each once and in ascending order.
pub proof fn lemma_found_indices(found: Seq<bool>)
    requires
        found.len() <= usize::MAX,
    ensures
        found_indices(found).len() == found.len() - missing(found),
        forall|k: int|
            0 <= k < found_indices(found).len() ==> #[trigger] found_indices(found)[k]
                < found.len() && found[found_indices(found)[k] as int],
        forall|j: int, k: int|
            0 <= j < k < found_indices(found).len() ==> found_indices(found)[j] < found_indices(
                found,
            )[k],
        forall|i: int|
            0 <= i < found.len() && #[trigger] found[i] ==> found_indices(found).contains(
                i as usize,
            ),
    decreases found.len(),
{
    if found.len() > 0 {
        let init = found.drop_last();
        lemma_found_indices(init);
        lemma_missing_bound(init);
        let before = found_indices(init);
        let after = found_indices(found);
        assert forall|i: int| 0 <= i < found.len() && #[trigger] found[i] implies after.contains(
            i as usize,
        ) by {
            if i < init.len() {
                assert(init[i]);
                let k = before.index_of(i as usize);
                assert(before.contains(i as usize));
                assert(after[k] == i as usize);
            } else {
                assert(after[after.len() - 1] == i as usize);
            }
        }
        assert forall|k: int| 0 <= k < after.len() implies #[trigger] after[k] < found.len()
            && found[after[k] as int] by {
            if k < before.len() {
                assert(after[k] == before[k]);
                assert(init[before[k] as int]);
            }
        }
    }
}

// ---------------------------------------------------------------------------
// Patterns
// ---------------------------------------------------------------------------

/// An invalid candidate passed to [`ReferencePattern::new`].
#[derive(Clone, Debug, PartialEq, Eq, Structural)]
pub enum ReferencePatternError {
    InvalidLength { index: usize, length: usize },
    InvalidByte { index: usize, offset: usize, byte: u8 },
}

/// `error` is what is wrong with the first of `candidates` that is no
/// reference.
pub open spec fn first_fault(candidates: Seq<&[u8]>, error: ReferencePatternError) -> bool {
    match error {
        ReferencePatternError::InvalidLength { index, length } => {
            &&& index < candidates.len()
            &&& forall|j: int| 0 <= j < index ==> is_reference((#[trigger] candidates[j])@)
            &&& length == candidates[index as int]@.len()
            &&& length != REFERENCE_LENGTH
        },
        ReferencePatternError::InvalidByte { index, offset, byte } => {
            &&& index < candidates.len()
            &&& forall|j: int| 0 <= j < index ==> is_reference((#[trigger] candidates[j])@)
            &&& candidates[index as int]@.len() == REFERENCE_LENGTH
            &&& offset < REFERENCE_LENGTH
            &&& byte == candidates[index as int]@[offset as int]
            &&& !base32(byte)
            &&& forall|k: int|
                0 <= k < offset ==> base32(#[trigger] candidates[index as int]@[k])
        },
    }
}

fn is_nix_base32(byte: u8) -> (r: bool)
    ensures
        r == base32(byte),
{
    (0x30 <= byte && byte <= 0x39) || (0x61 <= byte && byte <= 0x64) || (0x66 <= byte && byte
        <= 0x6e) || (0x70 <= byte && byte <= 0x73) || (0x76 <= byte && byte <= 0x7a)
}

/// Where a candidate is filed: the number that its first eight bytes spell.
spec fn key_of(reference: Seq<u8>) -> u64 {
    model::le64_value(reference) as u64
}

/// The candidates, and for each key a linked list of those filed under it.
#[derive(Debug)]
struct ReferencePatternInner {
    candidates: Vec<[u8; 32]>,
    /// The latest input index for each key.
    heads: HashMap<u64, usize>,
    /// The input index before each with the same key, if any.
    next: Vec<Option<usize>>,
}

impl ReferencePatternInner {
    /// `i` is the latest index below `end` that is filed under `key`, or there
    /// is none.
    spec fn latest(&self, key: u64, end: int, i: Option<usize>) -> bool {
        match i {
            Some(i) => {
                &&& i < end
                &&& key_of(self.candidates@[i as int]@) == key
                &&& forall|j: int|
                    i < j < end ==> key_of((#[trigger] self.candidates@[j])@) != key
            },
            None => forall|j: int| 0 <= j < end ==> key_of((#[trigger] self.candidates@[j])@) != key,
        }
    }

    spec fn wf(&self) -> bool {
        let n = self.candidates@.len();
        &&& self.next@.len() == n
        &&& forall|i: int| 0 <= i < n ==> is_reference((#[trigger] self.candidates@[i])@)
        &&& forall|key: u64|
            self.latest(
                key,
                n as int,
                if #[trigger] self.heads@.contains_key(key) {
                    Some(self.heads@[key])
                } else {
                    None
                },
            )
        &&& forall|i: int|
            0 <= i < n ==> self.latest(
                key_of(self.candidates@[i]@),
                i,
                #[trigger] self.next@[i],
            )
    }
}

/// A reusable set of candidate Nix store-path hash parts.
///
/// Construct this once for all outputs of a build, then create a fresh
/// [`ReferenceScanner`] or [`ReferenceWriter`] for each output. Candidates are
/// returned by their input indices, so callers can map matches back to their
/// own store-path type without this crate depending on one.
#[derive(Clone, Debug)]
pub struct ReferencePattern {
    inner: Arc<ReferencePatternInner>,
}

/// `Arc::clone`: another handle to the same value.
#[verifier::external_body]
fn share<T>(value: &Arc<T>) -> (r: Arc<T>)
    ensures
        r == *value,
{
    Arc::clone(value)
}

fn to_reference(bytes: &[u8]) -> (r: [u8; 32])
    requires
        bytes@.len() == REFERENCE_LENGTH,
    ensures
        r@ == bytes@,
{
    let mut reference: [u8; 32] = [0; 32];
    let mut i: usize = 0;
    while i < 32
        invariant
            i <= 32,
            bytes@.len() == 32,
            forall|j: int| 0 <= j < i ==> reference@[j] == bytes@[j],
        decreases 32 - i,
    {
        reference[i] = bytes[i];
        i = i + 1;
    }
    assert(reference@ =~= bytes@);
    reference
}

impl ReferencePattern {
    pub closed spec fn wf(&self) -> bool {
        self.inner.wf()
    }

    /// The candidates, in input order.
    pub closed spec fn candidates(&self) -> Seq<Seq<u8>> {
        Seq::new(self.inner.candidates@.len(), |i: int| self.inner.candidates@[i]@)
    }

    /// Validate and prepare candidate hash parts for repeated scanning.
    ///
    /// Every candidate must contain exactly 32 bytes from Nix's base32
    /// alphabet. Duplicate candidates are accepted; every corresponding input
    /// index is reported when their bytes are found.
    pub fn new(candidates: &[&[u8]]) -> (r: Result<Self, ReferencePatternError>)
        ensures
            match r {
                Ok(pattern) => {
                    &&& pattern.wf()
                    &&& pattern.candidates() == candidates@.map_values(|c: &[u8]| c@)
                    &&& forall|i: int|
                        0 <= i < candidates@.len() ==> is_reference((#[trigger] candidates@[i])@)
                },
                Err(e) => first_fault(candidates@, e),
            },
    {
        let mut inner = ReferencePatternInner {
            candidates: Vec::with_capacity(candidates.len()),
            heads: HashMap::with_capacity(candidates.len()),
            next: Vec::with_capacity(candidates.len()),
        };
        let mut index: usize = 0;
        while index < candidates.len()
            invariant
                index <= candidates@.len(),
                inner.wf(),
                inner.candidates@.len() == index,
                forall|j: int|
                    0 <= j < index ==> (#[trigger] inner.candidates@[j])@ == candidates@[j]@,
            decreases candidates.len() - index,
        {
            let candidate = candidates[index];
            assert forall|j: int| 0 <= j < index implies is_reference(
                (#[trigger] candidates@[j])@,
            ) by {
                assert(inner.candidates@[j]@ == candidates@[j]@);
            }
            if candidate.len() != REFERENCE_LENGTH {
                return Err(
                    ReferencePatternError::InvalidLength { index, length: candidate.len() },
                );
            }
            let mut offset: usize = 0;
            while offset < REFERENCE_LENGTH
                invariant
                    offset <= REFERENCE_LENGTH,
                    index < candidates@.len(),
                    candidate == candidates@[index as int],
                    candidate@.len() == REFERENCE_LENGTH,
                    forall|j: int| 0 <= j < index ==> is_reference((#[trigger] candidates@[j])@),
                    forall|k: int| 0 <= k < offset ==> base32(#[trigger] candidate@[k]),
                decreases REFERENCE_LENGTH - offset,
            {
                let byte = candidate[offset];
                if !is_nix_base32(byte) {
                    return Err(ReferencePatternError::InvalidByte { index, offset, byte });
                }
                offset = offset + 1;
            }
            let ghost before = inner;
            let reference = to_reference(candidate);
            let key = read_le64(&reference);
            let previous = inner.heads.insert(key, index);
            inner.candidates.push(reference);
            inner.next.push(previous);
            proof {
                assert(forall|j: int|
                    0 <= j < index ==> (#[trigger] inner.candidates@[j]) == before.candidates@[j]);
                assert forall|k: u64|
                    inner.latest(
                        k,
                        index + 1,
                        if #[trigger] inner.heads@.contains_key(k) {
                            Some(inner.heads@[k])
                        } else {
                            None
                        },
                    ) by {
                    assert(before.latest(
                        k,
                        index as int,
                        if before.heads@.contains_key(k) {
                            Some(before.heads@[k])
                        } else {
                            None
                        },
                    ));
                }
                assert forall|i: int| 0 <= i < index + 1 implies inner.latest(
                    key_of(inner.candidates@[i]@),
                    i,
                    #[trigger] inner.next@[i],
                ) by {
                    if i < index {
                        assert(before.latest(
                            key_of(before.candidates@[i]@),
                            i,
                            before.next@[i],
                        ));
                    } else {
                        assert(before.latest(
                            key,
                            index as int,
                            if before.heads@.contains_key(key) {
                                Some(before.heads@[key])
                            } else {
                                None
                            },
                        ));
                    }
                }
            }
            index = index + 1;
        }
        let pattern = ReferencePattern { inner: Arc::new(inner) };
        assert(pattern.candidates() =~= candidates@.map_values(|c: &[u8]| c@));
        assert forall|i: int| 0 <= i < candidates@.len() implies is_reference(
            (#[trigger] candidates@[i])@,
        ) by {
            assert(inner.candidates@[i]@ == candidates@[i]@);
        }
        Ok(pattern)
    }

    /// Number of candidates, including duplicates.
    pub fn len(&self) -> (r: usize)
        requires
            self.wf(),
        ensures
            r == self.candidates().len(),
    {
        self.inner.candidates.len()
    }

    /// Whether this pattern has no candidates.
    pub fn is_empty(&self) -> (r: bool)
        requires
            self.wf(),
        ensures
            r == (self.candidates().len() == 0),
    {
        self.len() == 0
    }

    /// Wrap a sink and scan exactly the bytes it successfully accepts.
    pub fn writer<W: ByteSink>(&self, inner: W) -> (r: ReferenceWriter<W>)
        requires
            self.wf(),
            inner.sound(),
        ensures
            r.sound(),
            r.inner() == inner,
            r.scanning().candidates() == self.candidates(),
            r.scanning().follows(Seq::empty()),
    {
        ReferenceWriter { inner, scanner: self.scanner() }
    }

    /// NAR hash, size, and candidate matches for a borrowed tree.
    pub fn scan_tree(&self, tree: &Node<'_>) -> (r: Result<ReferenceScan, Error>)
        requires
            self.wf(),
        ensures
            match r {
                Ok(scan) => model::valid(tree@, 0) && scan.describes(
                    model::archive(tree@),
                    self.candidates(),
                ),
                Err(e) => !model::valid(tree@, 0) && tree::tree_run(tree@).end == Err::<
                    EncoderView,
                    _,
                >(e@),
            },
    {
        let mut writer = self.writer(HashSink::new());
        assert(writer.in_step());
        encode_tree(&mut writer, tree)?;
        assert(Seq::<u8>::empty() + model::archive(tree@) =~= model::archive(tree@));
        Ok(finish_nar_scan(writer))
    }

    /// Create independent match state that scans byte chunks directly.
    pub fn scanner(&self) -> (r: ReferenceScanner)
        requires
            self.wf(),
        ensures
            r.wf(),
            r.candidates() == self.candidates(),
            r.follows(Seq::empty()),
    {
        let found: Vec<bool> = vec![false; self.len()];
        proof {
            assert(found@ =~= Seq::new(self.candidates().len(), |i: int| false));
            lemma_missing_none(self.candidates().len());
        }
        let r = ReferenceScanner {
            pattern: ReferencePattern { inner: share(&self.inner) },
            found,
            remaining: self.len(),
            tail: [0; 31],
            tail_len: 0,
        };
        assert(r.tail() =~= overlap(Seq::empty()));
        r
    }
}

// ---------------------------------------------------------------------------
// Scanning
// ---------------------------------------------------------------------------

/// Match state for one byte stream.
///
/// Calls to [`scan`](Self::scan) may split references at arbitrary byte
/// boundaries. Scanning performs no allocation after construction.
#[derive(Debug)]
pub struct ReferenceScanner {
    pattern: ReferencePattern,
    found: Vec<bool>,
    remaining: usize,
    tail: [u8; 31],
    tail_len: usize,
}

impl ReferenceScanner {
    pub closed spec fn wf(&self) -> bool {
        &&& self.pattern.wf()
        &&& self.found@.len() == self.pattern.candidates().len()
        &&& self.remaining == missing(self.found@)
        &&& self.tail_len <= OVERLAP_LENGTH
    }

    /// The candidates that are looked for.
    pub closed spec fn candidates(&self) -> Seq<Seq<u8>> {
        self.pattern.candidates()
    }

    /// Which candidates have been found.
    pub closed spec fn found(&self) -> Seq<bool> {
        self.found@
    }

    /// The end of the stream, kept for what comes next.
    pub closed spec fn tail(&self) -> Seq<u8> {
        self.tail@.take(self.tail_len as int)
    }

    /// The state is that of a scanner that has been given `stream`: the
    /// candidates found are those that occur in it, and unless that is all of
    /// them its end is kept.
    pub open spec fn follows(&self, stream: Seq<u8>) -> bool {
        &&& self.found().len() == self.candidates().len()
        &&& forall|i: int|
            0 <= i < self.found().len() ==> #[trigger] self.found()[i] == occurs(
                stream,
                self.candidates()[i],
            )
        &&& missing(self.found()) > 0 ==> self.tail() == overlap(stream)
    }

    /// Scan one successive chunk of the stream.
    pub fn scan(&mut self, bytes: &[u8])
        requires
            old(self).wf(),
        ensures
            final(self).wf(),
            final(self).candidates() == old(self).candidates(),
            forall|stream: Seq<u8>| #[trigger]
                old(self).follows(stream) ==> final(self).follows(stream + bytes@),
    {
        self.scan_chunk(bytes);
        proof {
            old(self).lemma_candidates();
            let before = *old(self);
            lemma_missing_bound(before.found());
            lemma_missing_bound(self.found());
            assert forall|stream: Seq<u8>| #[trigger] before.follows(stream) implies self.follows(
                stream + bytes@,
            ) by {
                lemma_overlap_across(stream, bytes@);
                assert forall|i: int| 0 <= i < self.found().len() implies #[trigger] self.found()[i]
                    == occurs(stream + bytes@, self.candidates()[i]) by {
                    lemma_occurs_across(stream, bytes@, self.candidates()[i]);
                    assert(before.found()[i] == occurs(stream, before.candidates()[i]));
                }
            }
        }
    }

    fn scan_chunk(&mut self, bytes: &[u8])
        requires
            old(self).wf(),
        ensures
            final(self).wf(),
            final(self).candidates() == old(self).candidates(),
            final(self).found().len() == old(self).found().len(),
            missing(old(self).found()) > 0 ==> forall|i: int|
                0 <= i < old(self).found().len() ==> #[trigger] final(self).found()[i] == (old(
                    self,
                ).found()[i] || occurs(old(self).tail() + bytes@, old(self).candidates()[i])),
            missing(old(self).found()) == 0 ==> final(self).found() == old(self).found(),
            missing(final(self).found()) > 0 ==> final(self).tail() == overlap(
                old(self).tail() + bytes@,
            ),
    {
        let ghost tail = self.tail();
        let ghost candidates = self.candidates();
        proof {
            self.lemma_candidates();
            assert(tail + Seq::<u8>::empty() =~= tail);
        }
        if bytes.len() == 0 || self.is_complete() {
            proof {
                assert(bytes@.len() == 0 ==> tail + bytes@ =~= tail);
                assert forall|i: int| 0 <= i < candidates.len() implies !occurs(
                    tail,
                    #[trigger] candidates[i],
                ) by {
                    if occurs(tail, candidates[i]) {
                        let at = choose|at: int| occurs_at(tail, candidates[i], at);
                    }
                }
            }
            return ;
        }
        // A reference can start in the retained tail and finish in this chunk.
        // The boundary buffer contains no window wholly within the new chunk.
        let prefix_len: usize = if bytes.len() < OVERLAP_LENGTH {
            bytes.len()
        } else {
            OVERLAP_LENGTH
        };
        let ghost boundary_bytes = tail + bytes@.take(prefix_len as int);
        if self.tail_len + prefix_len >= REFERENCE_LENGTH {
            let mut boundary: [u8; 62] = [0; 62];
            let mut i: usize = 0;
            while i < self.tail_len
                invariant
                    i <= self.tail_len,
                    self.tail_len <= 31,
                    forall|j: int| 0 <= j < i ==> boundary@[j] == self.tail@[j],
                decreases self.tail_len - i,
            {
                boundary[i] = self.tail[i];
                i = i + 1;
            }
            i = 0;
            while i < prefix_len
                invariant
                    i <= prefix_len,
                    prefix_len <= 31,
                    prefix_len <= bytes@.len(),
                    self.tail_len <= 31,
                    forall|j: int| 0 <= j < self.tail_len ==> boundary@[j] == self.tail@[j],
                    forall|j: int|
                        0 <= j < i ==> #[trigger] boundary@[self.tail_len + j] == bytes@[j],
                decreases prefix_len - i,
            {
                boundary[self.tail_len + i] = bytes[i];
                i = i + 1;
            }
            let joined = &boundary[0..self.tail_len + prefix_len];
            assert(joined@ =~= boundary_bytes) by {
                assert forall|j: int| 0 <= j < joined@.len() implies joined@[j]
                    == boundary_bytes[j] by {
                    if j >= self.tail_len {
                        assert(boundary@[self.tail_len + (j - self.tail_len)] == bytes@[j
                            - self.tail_len]);
                    }
                }
            }
            self.search(joined);
        }
        self.search(bytes);
        proof {
            assert forall|i: int| 0 <= i < candidates.len() implies occurs(
                tail + bytes@,
                #[trigger] candidates[i],
            ) == (occurs(boundary_bytes, candidates[i]) || occurs(bytes@, candidates[i])) by {
                lemma_occurs_at_boundary(tail, bytes@, candidates[i]);
            }
            assert forall|i: int|
                0 <= i < candidates.len() && boundary_bytes.len() < REFERENCE_LENGTH implies !occurs(
                boundary_bytes,
                #[trigger] candidates[i],
            ) by {
                if occurs(boundary_bytes, candidates[i]) {
                    let at = choose|at: int| occurs_at(boundary_bytes, candidates[i], at);
                }
            }
        }
        if !self.is_complete() {
            self.update_tail(bytes);
        }
    }

    /// Every candidate is a reference.
    proof fn lemma_candidates(&self)
        requires
            self.wf(),
        ensures
            forall|i: int|
                0 <= i < self.candidates().len() ==> is_reference(#[trigger] self.candidates()[i]),
    {
        assert forall|i: int| 0 <= i < self.candidates().len() implies is_reference(
            #[trigger] self.candidates()[i],
        ) by {
            assert(is_reference(self.pattern.inner.candidates@[i]@));
        }
    }

    /// Whether every candidate has been found.
    pub fn is_complete(&self) -> (r: bool)
        requires
            self.wf(),
        ensures
            r == (missing(self.found()) == 0),
            r <==> (forall|i: int| 0 <= i < self.found().len() ==> #[trigger] self.found()[i]),
    {
        proof {
            lemma_missing_bound(self.found());
        }
        self.remaining == 0
    }

    /// Number of candidate indices found so far.
    pub fn matched_count(&self) -> (r: usize)
        requires
            self.wf(),
        ensures
            r == self.found().len() - missing(self.found()),
            r == found_indices(self.found()).len(),
    {
        proof {
            lemma_missing_bound(self.found@);
            assert(self.found.len() == self.found@.len());
            lemma_found_indices(self.found@);
        }
        self.found.len() - self.remaining
    }

    /// Found candidate indices in ascending input order.
    pub fn matches(&self) -> (r: Vec<usize>)
        requires
            self.wf(),
        ensures
            r@ == found_indices(self.found()),
    {
        let mut matches: Vec<usize> = Vec::with_capacity(self.matched_count());
        let mut i: usize = 0;
        assert(self.found@.take(0) =~= Seq::empty());
        while i < self.found.len()
            invariant
                i <= self.found@.len(),
                matches@ == found_indices(self.found@.take(i as int)),
            decreases self.found.len() - i,
        {
            proof {
                assert(self.found@.take(i + 1).drop_last() =~= self.found@.take(i as int));
            }
            if self.found[i] {
                matches.push(i);
            }
            i = i + 1;
        }
        assert(self.found@.take(i as int) =~= self.found@);
        matches
    }

    /// Consume the scanner and collect found indices in ascending input order.
    pub fn into_matches(self) -> (r: Vec<usize>)
        requires
            self.wf(),
        ensures
            r@ == found_indices(self.found()),
    {
        self.matches()
    }

    /// Find the candidates that occur in `bytes`.
    fn search(&mut self, bytes: &[u8])
        requires
            old(self).wf(),
        ensures
            final(self).wf(),
            final(self).pattern == old(self).pattern,
            final(self).tail() == old(self).tail(),
            final(self).tail_len == old(self).tail_len,
            final(self).found().len() == old(self).found().len(),
            forall|i: int|
                0 <= i < old(self).found().len() ==> #[trigger] final(self).found()[i] == (old(
                    self,
                ).found()[i] || occurs(bytes@, old(self).candidates()[i])),
    {
        let ghost candidates = self.candidates();
        let ghost before = self.found@;
        proof {
            self.lemma_candidates();
        }
        let mut offset: usize = 0;
        while self.remaining != 0 && bytes.len() >= REFERENCE_LENGTH && offset <= bytes.len()
            - REFERENCE_LENGTH
            invariant
                self.wf(),
                self.pattern == old(self).pattern,
                self.tail == old(self).tail,
                self.tail_len == old(self).tail_len,
                before == old(self).found@,
                candidates == old(self).candidates(),
                self.found@.len() == before.len(),
                candidates.len() == before.len(),
                offset <= bytes@.len(),
                forall|i: int| 0 <= i < candidates.len() ==> is_reference(#[trigger] candidates[i]),
                forall|i: int|
                    0 <= i < before.len() && #[trigger] self.found@[i] ==> before[i] || occurs(
                        bytes@,
                        candidates[i],
                    ),
                forall|i: int|
                    0 <= i < before.len() && before[i] ==> #[trigger] self.found@[i],
                forall|i: int, at: int|
                    0 <= i < before.len() && at < offset && #[trigger] occurs_at(
                        bytes@,
                        candidates[i],
                        at,
                    ) ==> self.found@[i],
            decreases bytes@.len() - offset,
        {
            let window = &bytes[offset..offset + REFERENCE_LENGTH];
            // The alphabet is checked backwards, as Nix and Lix do. Besides
            // enforcing store-reference semantics, it skips quickly over
            // arbitrary binary data.
            let valid = valid_suffix(window);
            if valid < REFERENCE_LENGTH {
                let index = REFERENCE_LENGTH - valid - 1;
                proof {
                    assert forall|i: int, at: int|
                        0 <= i < before.len() && at < offset + index + 1 && #[trigger] occurs_at(
                            bytes@,
                            candidates[i],
                            at,
                        ) implies self.found@[i] by {
                        if at >= offset {
                            let k = offset + index - at;
                            assert(candidates[i][k] == bytes@.subrange(
                                at,
                                at + candidates[i].len(),
                            )[k]);
                            assert(bytes@[offset + index] == window@[index as int]);
                            assert(base32(candidates[i][k]));
                        }
                    }
                }
                offset = offset + index + 1;
            } else {
                self.mark(window);
                proof {
                    assert(window@ =~= bytes@.subrange(
                        offset as int,
                        offset + REFERENCE_LENGTH as int,
                    ));
                    assert forall|i: int| 0 <= i < before.len() && candidates[i]
                        == window@ implies occurs(bytes@, #[trigger] candidates[i]) by {
                        assert(occurs_at(bytes@, candidates[i], offset as int));
                    }
                }
                offset = offset + 1;
            }
        }
        proof {
            lemma_missing_bound(self.found@);
            assert forall|i: int| 0 <= i < before.len() implies #[trigger] self.found@[i] == (
            before[i] || occurs(bytes@, candidates[i])) by {
                if occurs(bytes@, candidates[i]) {
                    let at = choose|at: int| occurs_at(bytes@, candidates[i], at);
                    if self.remaining != 0 {
                        assert(at < offset);
                    }
                }
            }
        }
    }

    /// Note every candidate that is `window`.
    fn mark(&mut self, window: &[u8])
        requires
            old(self).wf(),
            is_reference(window@),
        ensures
            final(self).wf(),
            final(self).pattern == old(self).pattern,
            final(self).tail == old(self).tail,
            final(self).tail_len == old(self).tail_len,
            final(self).found@.len() == old(self).found@.len(),
            forall|i: int|
                0 <= i < old(self).found@.len() ==> #[trigger] final(self).found@[i] == (old(
                    self,
                ).found@[i] || old(self).candidates()[i] == window@),
    {
        let ghost inner = self.pattern.inner;
        let ghost before = self.found@;
        let key = read_le64(window);
        let mut candidate: Option<usize> = match self.pattern.inner.heads.get(&key) {
            Some(index) => Some(*index),
            None => None,
        };
        let ghost mut end: int = before.len() as int;
        proof {
            assert(inner.latest(
                key,
                end,
                if inner.heads@.contains_key(key) {
                    Some(inner.heads@[key])
                } else {
                    None
                },
            ));
        }
        while candidate.is_some()
            invariant
                self.wf(),
                self.pattern == old(self).pattern,
                self.tail == old(self).tail,
                self.tail_len == old(self).tail_len,
                inner == self.pattern.inner,
                inner.wf(),
                before == old(self).found@,
                self.found@.len() == before.len(),
                before.len() == inner.candidates@.len(),
                key == key_of(window@),
                0 <= end <= before.len(),
                inner.latest(key, end, candidate),
                forall|i: int|
                    0 <= i < end ==> #[trigger] self.found@[i] == before[i],
                forall|i: int|
                    end <= i < before.len() ==> #[trigger] self.found@[i] == (before[i]
                        || inner.candidates@[i]@ == window@),
            decreases end,
        {
            let index = candidate.unwrap();
            let ghost was = self.found@;
            if !self.found[index] && same_bytes(&self.pattern.inner.candidates[index], window) {
                proof {
                    lemma_missing_update(self.found@, index as int);
                }
                self.found.set(index, true);
                self.remaining = self.remaining - 1;
            }
            proof {
                assert(inner.latest(
                    key_of(inner.candidates@[index as int]@),
                    index as int,
                    inner.next@[index as int],
                ));
                assert forall|i: int| index <= i < before.len() implies #[trigger] self.found@[i]
                    == (before[i] || inner.candidates@[i]@ == window@) by {
                    if index < i < end {
                        assert(key_of(inner.candidates@[i]@) != key);
                        assert(was[i] == before[i]);
                    }
                }
                end = index as int;
            }
            candidate = self.pattern.inner.next[index];
        }
        proof {
            assert forall|i: int| 0 <= i < before.len() implies #[trigger] self.found@[i] == (
            before[i] || old(self).candidates()[i] == window@) by {
                assert(old(self).candidates()[i] == inner.candidates@[i]@);
                if i < end {
                    assert(key_of(inner.candidates@[i]@) != key);
                }
            }
        }
    }

    /// Keep the end of the stream.
    fn update_tail(&mut self, bytes: &[u8])
        requires
            old(self).wf(),
        ensures
            final(self).wf(),
            final(self).pattern == old(self).pattern,
            final(self).found == old(self).found,
            final(self).tail() == overlap(old(self).tail() + bytes@),
    {
        let ghost stream = self.tail() + bytes@;
        let retained: usize = if bytes.len() >= OVERLAP_LENGTH {
            0
        } else if self.tail_len < OVERLAP_LENGTH - bytes.len() {
            self.tail_len
        } else {
            OVERLAP_LENGTH - bytes.len()
        };
        let fresh: usize = if bytes.len() >= OVERLAP_LENGTH {
            OVERLAP_LENGTH
        } else {
            bytes.len()
        };
        let dropped = self.tail_len - retained;
        let skipped = bytes.len() - fresh;
        let ghost old_tail = self.tail@;
        let mut i: usize = 0;
        while i < retained
            invariant
                i <= retained,
                retained + dropped == self.tail_len,
                self.tail_len <= 31,
                self.tail_len == old(self).tail_len,
                self.pattern == old(self).pattern,
                self.found == old(self).found,
                self.remaining == old(self).remaining,
                old_tail == old(self).tail@,
                forall|j: int| 0 <= j < i ==> self.tail@[j] == old_tail[dropped + j],
                forall|j: int| i <= j < 31 ==> self.tail@[j] == old_tail[j],
            decreases retained - i,
        {
            self.tail[i] = self.tail[dropped + i];
            i = i + 1;
        }
        i = 0;
        while i < fresh
            invariant
                i <= fresh,
                retained + fresh <= 31,
                skipped + fresh == bytes.len(),
                self.tail_len == old(self).tail_len,
                self.pattern == old(self).pattern,
                self.found == old(self).found,
                self.remaining == old(self).remaining,
                forall|j: int| 0 <= j < retained ==> self.tail@[j] == old_tail[dropped + j],
                forall|j: int|
                    0 <= j < i ==> #[trigger] self.tail@[retained + j] == bytes@[skipped + j],
            decreases fresh - i,
        {
            self.tail[retained + i] = bytes[skipped + i];
            i = i + 1;
        }
        self.tail_len = retained + fresh;
        proof {
            let kept = overlap(stream);
            assert(kept.len() == retained + fresh);
            assert forall|j: int| 0 <= j < kept.len() implies self.tail()[j] == kept[j] by {
                if j >= retained {
                    assert(self.tail@[retained + (j - retained)] == bytes@[skipped + (j
                        - retained)]);
                }
            }
            assert(self.tail() =~= kept);
        }
    }
}

/// How many bytes of the alphabet `window` ends in.
fn valid_suffix(window: &[u8]) -> (r: usize)
    ensures
        r <= window@.len(),
        forall|i: int| window@.len() - r <= i < window@.len() ==> base32(#[trigger] window@[i]),
        r < window@.len() ==> !base32(window@[window@.len() - r - 1]),
{
    let mut valid: usize = 0;
    while valid < window.len()
        invariant
            valid <= window@.len(),
            forall|i: int|
                window@.len() - valid <= i < window@.len() ==> base32(#[trigger] window@[i]),
        decreases window.len() - valid,
    {
        if !is_nix_base32(window[window.len() - valid - 1]) {
            return valid;
        }
        valid = valid + 1;
    }
    valid
}

/// What occurs across a short tail and a chunk does so at the boundary or
/// within the chunk.
proof fn lemma_occurs_at_boundary(tail: Seq<u8>, bytes: Seq<u8>, needle: Seq<u8>)
    requires
        needle.len() == REFERENCE_LENGTH,
        tail.len() <= OVERLAP_LENGTH,
    ensures
        ({
            let n = if bytes.len() < OVERLAP_LENGTH {
                bytes.len() as int
            } else {
                OVERLAP_LENGTH as int
            };
            occurs(tail + bytes, needle) == (occurs(tail + bytes.take(n), needle) || occurs(
                bytes,
                needle,
            ))
        }),
{
    let n = if bytes.len() < OVERLAP_LENGTH {
        bytes.len() as int
    } else {
        OVERLAP_LENGTH as int
    };
    let whole = tail + bytes;
    let front = tail + bytes.take(n);
    if occurs(whole, needle) {
        let at = choose|at: int| occurs_at(whole, needle, at);
        if at < tail.len() {
            assert(front.subrange(at, at + needle.len()) =~= whole.subrange(
                at,
                at + needle.len(),
            ));
            assert(occurs_at(front, needle, at));
        } else {
            assert(bytes.subrange(at - tail.len(), at - tail.len() + needle.len())
                =~= whole.subrange(at, at + needle.len()));
            assert(occurs_at(bytes, needle, at - tail.len()));
        }
    }
    if occurs(front, needle) {
        let at = choose|at: int| occurs_at(front, needle, at);
        assert(front.subrange(at, at + needle.len()) =~= whole.subrange(at, at + needle.len()));
        assert(occurs_at(whole, needle, at));
    }
    if occurs(bytes, needle) {
        let at = choose|at: int| occurs_at(bytes, needle, at);
        assert(bytes.subrange(at, at + needle.len()) =~= whole.subrange(
            at + tail.len(),
            at + tail.len() + needle.len(),
        ));
        assert(occurs_at(whole, needle, at + tail.len()));
    }
}

// ---------------------------------------------------------------------------
// Scanning what is written
// ---------------------------------------------------------------------------

/// A [`ByteSink`] decorator that scans the bytes accepted by its inner sink.
#[derive(Debug)]
pub struct ReferenceWriter<W> {
    inner: W,
    scanner: ReferenceScanner,
}

impl<W> ReferenceWriter<W> {
    /// The wrapped sink.
    pub closed spec fn inner(&self) -> W {
        self.inner
    }

    /// The scanner and its matches so far.
    pub closed spec fn scanning(&self) -> ReferenceScanner {
        self.scanner
    }

    /// Borrow the wrapped writer.
    pub fn get_ref(&self) -> (r: &W)
        ensures
            *r == self.inner(),
    {
        &self.inner
    }

    /// Mutably borrow the wrapped writer.
    pub fn get_mut(&mut self) -> (r: &mut W)
        ensures
            *r == old(self).inner(),
            final(self).inner() == *final(r),
            final(self).scanning() == old(self).scanning(),
    {
        &mut self.inner
    }

    /// Borrow the scanner and its matches so far.
    pub fn scanner(&self) -> (r: &ReferenceScanner)
        ensures
            *r == self.scanning(),
    {
        &self.scanner
    }

    /// Recover the wrapped writer and scanner without allocating.
    pub fn into_parts(self) -> (r: (W, ReferenceScanner))
        ensures
            r == (self.inner(), self.scanning()),
    {
        (self.inner, self.scanner)
    }
}

impl<W: ByteSink> ReferenceWriter<W> {
    /// Accept all of `buf`, and scan what was accepted of it.
    pub fn write_all(&mut self, buf: &[u8]) -> (r: Result<(), IoError>)
        requires
            old(self).sound(),
        ensures
            wire::unharmed(*old(self), *final(self)),
            old(self).reliable() ==> r is Ok,
            match r {
                Ok(()) => {
                    &&& final(self).written() == old(self).written() + buf@
                    &&& forall|stream: Seq<u8>| #[trigger]
                        old(self).scanning().follows(stream) ==> final(self).scanning().follows(
                            stream + buf@,
                        )
                },
                Err(e) => {
                    &&& wire::handed_on(final(self).inner(), e@)
                    &&& exists|k: int|
                        {
                            &&& 0 <= k <= buf@.len()
                            &&& final(self).written() == old(self).written() + #[trigger] buf@.take(
                                k,
                            )
                            &&& forall|stream: Seq<u8>| #[trigger]
                                old(self).scanning().follows(stream)
                                    ==> final(self).scanning().follows(stream + buf@.take(k))
                        }
                },
            },
    {
        let mut done: usize = 0;
        proof {
            assert(self.written() =~= old(self).written() + buf@.take(0));
            assert forall|stream: Seq<u8>| #[trigger] self.scanning().follows(
                stream,
            ) implies self.scanning().follows(stream + buf@.take(0)) by {
                assert(stream + buf@.take(0) =~= stream);
            }
        }
        while done < buf.len()
            invariant
                done <= buf@.len(),
                self.sound(),
                wire::unharmed(*old(self), *self),
                self.written() == old(self).written() + buf@.take(done as int),
                forall|stream: Seq<u8>| #[trigger]
                    old(self).scanning().follows(stream) ==> self.scanning().follows(
                        stream + buf@.take(done as int),
                    ),
            decreases buf@.len() - done, self.interruptions(),
        {
            let rest = &buf[done..buf.len()];
            let ghost before = *self;
            match self.write(rest) {
                Ok(n) => {
                    if n > rest.len() {
                        proof {
                            assert(self.written() =~= old(self).written() + buf@.take(done as int));
                            assert forall|stream: Seq<u8>| #[trigger] old(self).scanning().follows(
                                stream,
                            ) implies self.scanning().follows(stream + buf@.take(done as int)) by {
                                let so_far = stream + buf@.take(done as int);
                                assert(before.scanning().follows(so_far));
                                assert(so_far + Seq::<u8>::empty() =~= so_far);
                            }
                        }
                        return Err(
                            IoError::new(
                                IoErrorKind::InvalidData,
                                "underlying writer reported writing more bytes than supplied",
                            ),
                        );
                    }
                    proof {
                        assert(buf@.take(done as int) + rest@.take(n as int) =~= buf@.take(
                            done + n,
                        ));
                        assert(self.written() =~= old(self).written() + buf@.take(done + n));
                        assert forall|stream: Seq<u8>| #[trigger] old(self).scanning().follows(
                            stream,
                        ) implies self.scanning().follows(stream + buf@.take(done + n)) by {
                            let so_far = stream + buf@.take(done as int);
                            assert(before.scanning().follows(so_far));
                            assert(so_far + rest@.take(n as int) =~= stream + buf@.take(done + n));
                        }
                    }
                    if n == 0 {
                        return Err(
                            IoError::new(IoErrorKind::WriteZero, "failed to write whole buffer"),
                        );
                    }
                    done = done + n;
                },
                Err(e) => {
                    if e.kind != IoErrorKind::Interrupted {
                        return Err(e);
                    }
                },
            }
        }
        assert(buf@.take(done as int) =~= buf@);
        Ok(())
    }
}

impl<W: ByteSink> ByteSink for ReferenceWriter<W> {
    open spec fn written(&self) -> Seq<u8> {
        self.inner().written()
    }

    open spec fn sound(&self) -> bool {
        self.inner().sound() && self.scanning().wf()
    }

    /// The scanner has been given exactly what the inner sink holds.
    open spec fn in_step(&self) -> bool {
        self.inner().in_step() && self.scanning().follows(self.inner().written())
    }

    /// The candidates that are looked for.
    open spec fn setup(&self) -> Seq<Seq<u8>> {
        self.scanning().candidates()
    }

    open spec fn reliable(&self) -> bool {
        self.inner().reliable()
    }

    open spec fn interruptions(&self) -> nat {
        self.inner().interruptions()
    }

    open spec fn held_back(&self) -> nat {
        self.inner().held_back()
    }

    open spec fn failure(&self) -> Option<IoErrorView> {
        self.inner().failure()
    }

    open spec fn overcounted(&self) -> bool {
        self.inner().overcounted()
    }

    fn write(&mut self, buf: &[u8]) -> (r: Result<usize, IoError>)
        ensures
            match r {
                Ok(n) => forall|stream: Seq<u8>| #[trigger]
                    old(self).scanning().follows(stream) ==> final(self).scanning().follows(
                        stream + io::counted(buf@, n),
                    ),
                Err(e) => {
                    &&& final(self).scanning() == old(self).scanning()
                    &&& final(self).inner().failure() == Some(e@)
                },
            },
    {
        match self.inner.write(buf) {
            Ok(n) => {
                if n <= buf.len() {
                    let accepted = &buf[0..n];
                    assert(accepted@ =~= buf@.take(n as int));
                    self.scanner.scan(accepted);
                } else {
                    assert forall|stream: Seq<u8>| #[trigger] self.scanning().follows(
                        stream,
                    ) implies self.scanning().follows(stream + io::counted(buf@, n)) by {
                        assert(stream + io::counted(buf@, n) =~= stream);
                    }
                }
                Ok(n)
            },
            Err(e) => {
                assert(e.kind is Interrupted ==> (self.interruptions() < old(
                    self,
                ).interruptions()));
                Err(e)
            },
        }
    }

    fn flush(&mut self) -> (r: Result<(), IoError>)
        ensures
            final(self).scanning() == old(self).scanning(),
            r matches Err(e) ==> final(self).inner().failure() == Some(e@),
    {
        self.inner.flush()
    }
}

/// Reference matches together with the standard NAR metadata from the same
/// serialization pass.
#[derive(Clone, Debug, PartialEq, Eq)]
pub struct ReferenceScan {
    pub nar_size: u64,
    pub nar_sha256: [u8; 32],
    /// Indices into the candidates passed to [`ReferencePattern::new`].
    pub matches: Vec<usize>,
}

/// Which of `candidates` occur in `s`.
pub open spec fn occurring(s: Seq<u8>, candidates: Seq<Seq<u8>>) -> Seq<bool> {
    candidates.map_values(|c: Seq<u8>| occurs(s, c))
}

impl ReferenceScan {
    /// The size, the digest and the matches are those of `bytes`.
    pub open spec fn describes(&self, bytes: Seq<u8>, candidates: Seq<Seq<u8>>) -> bool {
        &&& (NarHash { size: self.nar_size, sha256: self.nar_sha256 }).describes(bytes)
        &&& self.matches@ == found_indices(occurring(bytes, candidates))
    }
}

/// Conclude the scan of an archive that was written to `writer`.
pub fn finish_nar_scan(writer: ReferenceWriter<HashSink>) -> (r: ReferenceScan)
    requires
        writer.sound(),
        writer.in_step(),
    ensures
        r.describes(writer.written(), writer.scanning().candidates()),
{
    let (hash_sink, scanner) = writer.into_parts();
    assert(scanner.found() =~= occurring(hash_sink.written(), scanner.candidates()));
    let nar_hash = hash_sink.finish();
    ReferenceScan {
        nar_size: nar_hash.size,
        nar_sha256: nar_hash.sha256,
        matches: scanner.into_matches(),
    }
}

}
