//! Nix's case-collision hack: names on disk that stand for archive names.

use vstd::prelude::*;

use crate::decimal;
use crate::decimal::decimal_bytes;
use crate::names::same_bytes;
use crate::refscan;

verus! {

/// Suffix used by Nix to preserve case-colliding NAR names on macOS:
/// `~nix~case~hack~`.
pub const CASE_HACK_SUFFIX: [u8; 15] = [
    0x7e,
    0x6e,
    0x69,
    0x78,
    0x7e,
    0x63,
    0x61,
    0x73,
    0x65,
    0x7e,
    0x68,
    0x61,
    0x63,
    0x6b,
    0x7e,
];

/// Whether filesystem encoding/restoration applies Nix's case-collision hack.
///
/// Nix exposes this as the runtime `use-case-hack` setting, so an
/// installation can have it either way on any platform. macOS users who
/// created a case-sensitive APFS volume routinely set it to false, because on
/// such a volume the hack is not merely unnecessary: it rewrites any
/// legitimate name that happens to contain the suffix.
///
/// The setting is a no-op for a tree that carries no case-hack suffix, which
/// is nearly all of them, and only changes the NAR for one that does.
/// [`native`](Self::native) reproduces Nix's default; pass an explicit value
/// to follow a specific installation, or to process an archive whose
/// provenance differs from the current host.
#[derive(Clone, Copy, Debug, PartialEq, Eq, Structural)]
pub enum CaseHack {
    Disabled,
    Enabled,
}

/// Nix's default on the system that is called `os`.
pub open spec fn native_setting(os: Seq<char>) -> CaseHack {
    if os == "macos"@ {
        CaseHack::Enabled
    } else {
        CaseHack::Disabled
    }
}

impl CaseHack {
    /// Nix's compiled-in default for `use-case-hack`: enabled on macOS,
    /// disabled elsewhere. `os` names the system, as `std::env::consts::OS`
    /// does.
    ///
    /// This mirrors what Nix ships rather than probing whether the filesystem
    /// is genuinely case-insensitive. The distinction matters because NAR
    /// bytes feed store-path identity: guessing differently from Nix would
    /// produce different store paths for the same tree. macOS is Nix's proxy
    /// for a case-insensitive filesystem, and matching the proxy is what keeps
    /// hashes identical. Run `nix config show use-case-hack` when an
    /// installation may have overridden it.
    pub fn native(os: &str) -> (r: Self)
        ensures
            r == native_setting(os@),
    {
        proof {
            vstd::utf8::encode_utf8_decode_utf8(os@);
            vstd::utf8::encode_utf8_decode_utf8("macos"@);
        }
        if same_bytes(os.as_bytes(), "macos".as_bytes()) {
            CaseHack::Enabled
        } else {
            CaseHack::Disabled
        }
    }

    pub fn is_enabled(self) -> (r: bool)
        ensures
            r == (self == CaseHack::Enabled),
    {
        match self {
            CaseHack::Enabled => true,
            CaseHack::Disabled => false,
        }
    }
}

/// `needle` starts at `at` in `s`, and nowhere before.
pub open spec fn first_at(s: Seq<u8>, needle: Seq<u8>, at: int) -> bool {
    &&& refscan::occurs_at(s, needle, at)
    &&& forall|i: int| i < at ==> !refscan::occurs_at(s, needle, i)
}

/// Where `needle` first occurs in `haystack`.
pub fn find_subslice(haystack: &[u8], needle: &[u8]) -> (r: Option<usize>)
    requires
        needle@.len() > 0,
    ensures
        match r {
            Some(at) => first_at(haystack@, needle@, at as int),
            None => !refscan::occurs(haystack@, needle@),
        },
{
    if haystack.len() < needle.len() {
        return None;
    }
    let mut at: usize = 0;
    while at <= haystack.len() - needle.len()
        invariant
            needle@.len() <= haystack@.len(),
            needle@.len() > 0,
            at <= haystack@.len() - needle@.len() + 1,
            forall|i: int| i < at ==> !refscan::occurs_at(haystack@, needle@, i),
        decreases haystack.len() - at,
    {
        if same_bytes(&haystack[at..at + needle.len()], needle) {
            return Some(at);
        }
        at = at + 1;
    }
    None
}

/// The archive name that `disk` stands for: with the hack, what precedes the
/// first suffix in it.
pub open spec fn archive_name(disk: Seq<u8>, case_hack: CaseHack) -> Seq<u8> {
    if case_hack == CaseHack::Enabled && refscan::occurs(disk, CASE_HACK_SUFFIX@) {
        disk.take(choose|at: int| first_at(disk, CASE_HACK_SUFFIX@, at))
    } else {
        disk
    }
}

/// The first occurrence is one only.
pub proof fn lemma_first_at_unique(s: Seq<u8>, needle: Seq<u8>, a: int, b: int)
    requires
        first_at(s, needle, a),
        first_at(s, needle, b),
    ensures
        a == b,
{
    if a < b {
        assert(refscan::occurs_at(s, needle, a));
    } else if b < a {
        assert(refscan::occurs_at(s, needle, b));
    }
}

/// How long the archive name is that `disk` stands for.
pub fn archive_name_len(disk: &[u8], case_hack: CaseHack) -> (r: usize)
    ensures
        r <= disk@.len(),
        disk@.take(r as int) == archive_name(disk@, case_hack),
{
    if case_hack.is_enabled() {
        let suffix: [u8; 15] = CASE_HACK_SUFFIX;
        match find_subslice(disk, &suffix) {
            Some(at) => {
                proof {
                    let first = choose|at: int| first_at(disk@, CASE_HACK_SUFFIX@, at);
                    lemma_first_at_unique(disk@, CASE_HACK_SUFFIX@, at as int, first);
                    assert(refscan::occurs_at(disk@, CASE_HACK_SUFFIX@, at as int));
                }
                at
            },
            None => {
                assert(disk@.take(disk@.len() as int) =~= disk@);
                disk.len()
            },
        }
    } else {
        assert(disk@.take(disk@.len() as int) =~= disk@);
        disk.len()
    }
}

/// The name on disk of the `number`th collision with `name`.
pub open spec fn hacked_name(name: Seq<u8>, number: nat) -> Seq<u8> {
    name + CASE_HACK_SUFFIX@ + decimal::digits(number)
}

/// Build the name on disk of the `number`th collision with `name`.
pub fn build_hacked_name(name: &[u8], number: u64) -> (r: Vec<u8>)
    ensures
        r@ == hacked_name(name@, number as nat),
{
    let mut candidate: Vec<u8> = Vec::new();
    let suffix: [u8; 15] = CASE_HACK_SUFFIX;
    let digits = decimal_bytes(number);
    candidate.extend_from_slice(name);
    candidate.extend_from_slice(&suffix);
    candidate.extend_from_slice(digits.as_slice());
    assert(candidate@ =~= hacked_name(name@, number as nat));
    candidate
}

/// With the hack disabled every name on disk stands for itself.
pub proof fn law_disabled_hack_changes_nothing(disk: Seq<u8>)
    ensures
        archive_name(disk, CaseHack::Disabled) == disk,
{
}

/// A name on disk without the suffix stands for itself either way.
pub proof fn law_hack_is_no_op_without_suffix(disk: Seq<u8>, case_hack: CaseHack)
    requires
        !refscan::occurs(disk, CASE_HACK_SUFFIX@),
    ensures
        archive_name(disk, case_hack) == disk,
{
}

/// A name on disk that was made for a collision stands for the name that it was
/// made from.
///
/// That holds of names without the suffix, except those that end in all of it
/// but its last byte: behind such a name the suffix begins one byte early.
pub proof fn law_hacked_name_stands_for_its_name(name: Seq<u8>, number: nat)
    requires
        !refscan::occurs(name, CASE_HACK_SUFFIX@),
        !(name.len() >= 14 && name.skip(name.len() - 14) == CASE_HACK_SUFFIX@.take(14)),
    ensures
        archive_name(hacked_name(name, number), CaseHack::Enabled) == name,
{
    let suffix = CASE_HACK_SUFFIX@;
    let disk = hacked_name(name, number);
    let n = name.len() as int;
    assert(suffix.len() == 15);
    assert(disk.subrange(n, n + 15) =~= suffix);
    assert(refscan::occurs_at(disk, suffix, n));
    assert forall|i: int| i < n implies !refscan::occurs_at(disk, suffix, i) by {
        if refscan::occurs_at(disk, suffix, i) {
            if i + 15 <= n {
                assert(name.subrange(i, i + 15) =~= disk.subrange(i, i + 15));
                assert(refscan::occurs_at(name, suffix, i));
            } else {
                lemma_suffix_tildes();
                lemma_suffix_overlap(name, suffix, decimal::digits(number), i);
            }
        }
    }
    assert(first_at(disk, suffix, n));
    let first = choose|at: int| first_at(disk, suffix, at);
    lemma_first_at_unique(disk, suffix, n, first);
    assert(disk.take(n) =~= name);
}

/// The tildes of the suffix, and what follows the first three of them.
pub open spec fn tildes(suffix: Seq<u8>) -> bool {
    &&& suffix.len() == 15
    &&& forall|k: int|
        0 <= k < 15 ==> (#[trigger] suffix[k] == 0x7e <==> k == 0 || k == 4 || k == 9 || k == 14)
    &&& suffix[1] == 0x6e
    &&& suffix[5] == 0x63
    &&& suffix[10] == 0x68
}

proof fn lemma_suffix_tildes()
    ensures
        tildes(CASE_HACK_SUFFIX@),
{
}

/// The suffix overlaps with itself in one byte only.
proof fn lemma_suffix_overlap(
    name: Seq<u8>,
    suffix: Seq<u8>,
    digits: Seq<u8>,
    i: int,
)
    requires
        tildes(suffix),
        name.len() - 15 < i < name.len(),
        refscan::occurs_at(name + suffix + digits, suffix, i),
    ensures
        name.len() >= 14,
        name.skip(name.len() - 14) == suffix.take(14),
{
    let disk = name + suffix + digits;
    let n = name.len() as int;
    let j = n - i;
    let window = disk.subrange(i, i + 15);
    assert(window == suffix);
    assert(disk[n] == suffix[0]);
    assert(disk[n + 1] == suffix[1]);
    assert(window[j] == disk[n]);
    if j < 14 {
        assert(window[j + 1] == disk[n + 1]);
    }
    assert(j == 14);
    assert forall|k: int| 0 <= k < 14 implies name.skip(n - 14)[k] == suffix.take(14)[k] by {
        assert(window[k] == name[i + k]);
    }
    assert(name.skip(n - 14) =~= suffix.take(14));
}

}
