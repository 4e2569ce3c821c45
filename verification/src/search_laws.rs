//! What a scan for references comes to, window by window.

use vstd::prelude::*;

use crate::format_laws;
use crate::hash;
use crate::hash::NarHash;
use crate::refscan;
use crate::refscan::{ReferencePatternError, ReferenceScan, ReferenceScanner};

verus! {

/// The characters of a reference.
pub open spec fn alphabet() -> Seq<u8> {
    format_laws::ascii("0123456789abcdfghijklmnpqrsvwxyz")
}

/// A reference is thirty-two characters of the alphabet, which are as many.
pub open spec fn reference(bytes: Seq<u8>) -> bool {
    bytes.len() == 32 && forall|i: int|
        0 <= i < bytes.len() ==> alphabet().contains(#[trigger] bytes[i])
}

proof fn lemma_alphabet(byte: u8)
    ensures
        refscan::base32(byte) == alphabet().contains(byte),
        alphabet().len() == 32,
{
    reveal_strlit("0123456789abcdfghijklmnpqrsvwxyz");
    let all = alphabet();
    assert(all.len() == 32);
    if refscan::base32(byte) {
        let at: int = if byte <= 0x39 {
            byte - 0x30
        } else if byte <= 0x64 {
            byte - 0x61 + 10
        } else if byte <= 0x6e {
            byte - 0x66 + 14
        } else if byte <= 0x73 {
            byte - 0x70 + 23
        } else {
            byte - 0x76 + 27
        };
        assert(0 <= at < 32);
        assert(all[at] == byte);
    }
    if all.contains(byte) {
        let at = choose|at: int| 0 <= at < all.len() && all[at] == byte;
        assert(0 <= at < 32);
        assert(refscan::base32(all[at]));
    }
}

/// What may be looked for is exactly the references.
pub proof fn law_references_are_spelled_in_the_alphabet(bytes: Seq<u8>)
    ensures
        refscan::is_reference(bytes) == reference(bytes),
        alphabet().len() == 32,
        alphabet().no_duplicates(),
{
    lemma_alphabet(0);
    assert forall|i: int| 0 <= i < bytes.len() implies refscan::base32(#[trigger] bytes[i])
        == alphabet().contains(bytes[i]) by {
        lemma_alphabet(bytes[i]);
    }
    reveal_strlit("0123456789abcdfghijklmnpqrsvwxyz");
    let all = alphabet();
    assert forall|i: int, j: int| 0 <= i < j < all.len() implies all[i] < all[j] by {}
}

/// Where candidates are refused, all before the one at fault are references, and
/// that one is not: it is of another length, or its first byte that is not of
/// the alphabet is the one reported.
pub proof fn law_faults_are_the_first(candidates: Seq<&[u8]>, error: ReferencePatternError)
    requires
        refscan::first_fault(candidates, error),
    ensures
        ({
            let at: int = match error {
                ReferencePatternError::InvalidLength { index, .. } => index as int,
                ReferencePatternError::InvalidByte { index, .. } => index as int,
            };
            &&& 0 <= at < candidates.len()
            &&& !reference(candidates[at]@)
            &&& forall|j: int| 0 <= j < at ==> reference((#[trigger] candidates[j])@)
            &&& match error {
                ReferencePatternError::InvalidLength { length, .. } => candidates[at]@.len()
                    == length && length != 32,
                ReferencePatternError::InvalidByte { offset, byte, .. } => {
                    &&& candidates[at]@.len() == 32
                    &&& candidates[at]@[offset as int] == byte
                    &&& !alphabet().contains(byte)
                    &&& forall|k: int|
                        0 <= k < offset ==> alphabet().contains(#[trigger] candidates[at]@[k])
                },
            }
        }),
{
    let at: int = match error {
        ReferencePatternError::InvalidLength { index, .. } => index as int,
        ReferencePatternError::InvalidByte { index, .. } => index as int,
    };
    assert forall|j: int| 0 <= j < at implies reference((#[trigger] candidates[j])@) by {
        law_references_are_spelled_in_the_alphabet(candidates[j]@);
    }
    law_references_are_spelled_in_the_alphabet(candidates[at]@);
    if let ReferencePatternError::InvalidByte { offset, byte, .. } = error {
        lemma_alphabet(byte);
        assert forall|k: int| 0 <= k < offset implies alphabet().contains(
            #[trigger] candidates[at]@[k],
        ) by {
            lemma_alphabet(candidates[at]@[k]);
        }
    }
}

/// One list of candidates is at fault in one way.
pub proof fn law_there_is_one_first_fault(
    candidates: Seq<&[u8]>,
    a: ReferencePatternError,
    b: ReferencePatternError,
)
    requires
        refscan::first_fault(candidates, a),
        refscan::first_fault(candidates, b),
    ensures
        a == b,
{
    law_faults_are_the_first(candidates, a);
    law_faults_are_the_first(candidates, b);
    let i: int = match a {
        ReferencePatternError::InvalidLength { index, .. } => index as int,
        ReferencePatternError::InvalidByte { index, .. } => index as int,
    };
    let j: int = match b {
        ReferencePatternError::InvalidLength { index, .. } => index as int,
        ReferencePatternError::InvalidByte { index, .. } => index as int,
    };
    if i < j {
        assert(reference(candidates[i]@));
    }
    if j < i {
        assert(reference(candidates[j]@));
    }
    if let ReferencePatternError::InvalidByte { offset: k, .. } = a {
        if let ReferencePatternError::InvalidByte { offset: l, .. } = b {
            if k < l {
                assert(alphabet().contains(candidates[i]@[k as int]));
            }
            if l < k {
                assert(alphabet().contains(candidates[i]@[l as int]));
            }
        }
    }
}

/// Something occurs wherever it stands between two other things, and nowhere
/// else.
pub proof fn law_occurring_is_standing_between(before: Seq<u8>, needle: Seq<u8>, behind: Seq<u8>)
    ensures
        refscan::occurs(before + needle + behind, needle),
        refscan::occurs(before, needle) ==> exists|a: Seq<u8>, b: Seq<u8>|
            before == #[trigger] (a + needle + b),
{
    let s = before + needle + behind;
    let at = before.len() as int;
    assert(s.subrange(at, at + needle.len()) =~= needle);
    assert(refscan::occurs_at(s, needle, at));
    if refscan::occurs(before, needle) {
        let at = choose|at: int| refscan::occurs_at(before, needle, at);
        let a = before.take(at);
        let b = before.skip(at + needle.len());
        assert(before =~= a + needle + b);
    }
}

/// A scanner that has been given a stream has found a candidate exactly if the
/// stream is something, the candidate, and something else.
pub proof fn law_found_is_what_stands_in_the_stream(
    scanner: ReferenceScanner,
    stream: Seq<u8>,
    i: int,
    before: Seq<u8>,
    behind: Seq<u8>,
)
    requires
        scanner.follows(stream),
        0 <= i < scanner.candidates().len(),
    ensures
        scanner.found().len() == scanner.candidates().len(),
        stream == before + scanner.candidates()[i] + behind ==> scanner.found()[i],
        scanner.found()[i] ==> exists|a: Seq<u8>, b: Seq<u8>|
            stream == #[trigger] (a + scanner.candidates()[i] + b),
{
    let needle = scanner.candidates()[i];
    assert(scanner.found()[i] == refscan::occurs(stream, needle));
    law_occurring_is_standing_between(before, needle, behind);
    law_occurring_is_standing_between(stream, needle, behind);
}

/// A scan names a candidate exactly if it stands in the archive, and names its
/// candidates in ascending order.
pub proof fn law_matches_are_what_stands_in_the_archive(
    scan: ReferenceScan,
    bytes: Seq<u8>,
    candidates: Seq<Seq<u8>>,
    i: usize,
)
    requires
        scan.describes(bytes, candidates),
        candidates.len() <= usize::MAX,
    ensures
        scan.matches@.contains(i) <==> i < candidates.len() && exists|a: Seq<u8>, b: Seq<u8>|
            bytes == #[trigger] (a + candidates[i as int] + b),
        forall|j: int, k: int|
            0 <= j < k < scan.matches@.len() ==> scan.matches@[j] < scan.matches@[k],
{
    let found = refscan::occurring(bytes, candidates);
    refscan::lemma_found_indices(found);
    if i < candidates.len() {
        let needle = candidates[i as int];
        assert(found[i as int] == refscan::occurs(bytes, needle));
        law_occurring_is_standing_between(bytes, needle, Seq::empty());
        if exists|a: Seq<u8>, b: Seq<u8>| bytes == #[trigger] (a + needle + b) {
            let (a, b) = choose|a: Seq<u8>, b: Seq<u8>| bytes == #[trigger] (a + needle + b);
            law_occurring_is_standing_between(a, needle, b);
        }
    }
}

/// The size that is reported is how many bytes there are, as far as it counts,
/// and with the digest it is the same whether references are looked for or not.
pub proof fn law_sizes_and_digests_are_those_of_the_bytes(
    scan: ReferenceScan,
    nar_hash: NarHash,
    bytes: Seq<u8>,
    candidates: Seq<Seq<u8>>,
)
    requires
        scan.describes(bytes, candidates),
        nar_hash.describes(bytes),
    ensures
        bytes.len() <= u64::MAX ==> scan.nar_size == bytes.len(),
        bytes.len() <= u64::MAX ==> nar_hash.size == bytes.len(),
        scan.nar_size == nar_hash.size,
        scan.nar_sha256@ == hash::sha256(bytes),
        nar_hash.sha256@ == hash::sha256(bytes),
{
}

/// What may still turn out to be a reference at the end of a stream is kept: the
/// last thirty-one bytes, or all of them.
pub proof fn law_ends_are_kept(s: Seq<u8>, more: Seq<u8>)
    ensures
        more.len() == 31 ==> refscan::overlap(s + more) == more,
        s.len() <= 31 ==> refscan::overlap(s) == s,
{
    if more.len() == 31 {
        assert((s + more).skip(s.len() as int) =~= more);
        assert(s.len() == 0 ==> s + more =~= more);
    }
}

}
