//! What names come to, byte by byte: their order, and which there can be.

use vstd::prelude::*;

use crate::listing;
use crate::model;
use crate::names;

verus! {

// ---------------------------------------------------------------------------
// Order
// ---------------------------------------------------------------------------

proof fn lemma_behind_common(p: Seq<u8>, a: Seq<u8>, b: Seq<u8>)
    ensures
        names::less(p + a, p + b) == names::less(a, b),
    decreases p.len(),
{
    if p.len() == 0 {
        assert(p + a =~= a);
        assert(p + b =~= b);
    } else {
        assert((p + a).skip(1) =~= p.skip(1) + a);
        assert((p + b).skip(1) =~= p.skip(1) + b);
        lemma_behind_common(p.skip(1), a, b);
    }
}

/// Names are in the order of their bytes as numbers: the first byte in which two
/// of them differ decides, whatever stands before it and behind it.
pub proof fn law_first_different_byte_decides(
    p: Seq<u8>,
    x: u8,
    y: u8,
    s: Seq<u8>,
    t: Seq<u8>,
)
    requires
        x != y,
    ensures
        names::less(p + seq![x] + s, p + seq![y] + t) == ((x as int) < (y as int)),
{
    let a = seq![x] + s;
    let b = seq![y] + t;
    assert(p + seq![x] + s =~= p + a);
    assert(p + seq![y] + t =~= p + b);
    lemma_behind_common(p, a, b);
}

/// A name comes before every name that it is the beginning of.
pub proof fn law_beginning_comes_first(p: Seq<u8>, more: Seq<u8>)
    ensures
        names::less(p, p + more) == (more.len() > 0),
        !names::less(p + more, p),
{
    let none = Seq::<u8>::empty();
    assert(p + none =~= p);
    lemma_behind_common(p, none, more);
    lemma_behind_common(p, more, none);
}

// ---------------------------------------------------------------------------
// Names of entries
// ---------------------------------------------------------------------------

proof fn lemma_dots()
    ensures
        model::text(".") == seq![0x2eu8],
        model::text("..") == seq![0x2eu8, 0x2eu8],
{
    reveal_strlit(".");
    reveal_strlit("..");
    vstd::utf8::is_ascii_chars_encode_utf8("."@);
    vstd::utf8::is_ascii_chars_encode_utf8(".."@);
    assert(model::text(".") =~= seq![0x2eu8]);
    assert(model::text("..") =~= seq![0x2eu8, 0x2eu8]);
}

/// A name may hold any bytes but a slash and a zero, and of those that do not,
/// only the empty one and the one or two dots are refused.
pub proof fn law_names_that_are_valid(name: Seq<u8>)
    ensures
        names::valid_name(name) == {
            &&& forall|i: int| 0 <= i < name.len() ==> #[trigger] name[i] != 0x2f && name[i] != 0
            &&& name.len() >= 3 || (name.len() == 2 && (name[0] != 0x2e || name[1] != 0x2e)) || (
            name.len() == 1 && name[0] != 0x2e)
        },
{
    lemma_dots();
    if name.contains(0x2f) {
        let i = choose|i: int| 0 <= i < name.len() && name[i] == 0x2f;
        assert(name[i] == 0x2f);
    }
    if name.contains(0) {
        let i = choose|i: int| 0 <= i < name.len() && name[i] == 0;
        assert(name[i] == 0);
    }
    if name.len() == 1 && name[0] == 0x2e {
        assert(name =~= seq![0x2eu8]);
    }
    if name.len() == 2 && name[0] == 0x2e && name[1] == 0x2e {
        assert(name =~= seq![0x2eu8, 0x2eu8]);
    }
}

/// Of the names on disk only the one and the two dots are no entries.
pub proof fn law_names_on_disk_that_are_entries(disk: Seq<u8>)
    ensures
        listing::is_entry(disk) == !((disk.len() == 1 || disk.len() == 2) && forall|i: int|
            0 <= i < disk.len() ==> #[trigger] disk[i] == 0x2e),
{
    lemma_dots();
    if (disk.len() == 1 || disk.len() == 2) && forall|i: int|
        0 <= i < disk.len() ==> #[trigger] disk[i] == 0x2e {
        assert(disk[0] == 0x2e);
        if disk.len() == 1 {
            assert(disk =~= seq![0x2eu8]);
        } else {
            assert(disk =~= seq![0x2eu8, 0x2eu8]);
        }
    }
}

/// A name is refused for what it is before it is refused for its place, and for
/// its place exactly where the name before it is the same or a later one.
pub proof fn law_names_are_checked_in_turn(name: Seq<u8>, previous: Seq<u8>)
    ensures
        names::name_error(name, None) is None <==> names::valid_name(name),
        names::valid_name(name) ==> (names::name_error(name, Some(previous)) is None
            <==> !(name == previous || names::less(name, previous))),
        !names::valid_name(name) ==> names::name_error(name, Some(previous)) is Some
            && names::name_error(name, Some(previous)) == names::name_error(name, None)
            && names::name_error(name, None)->0 is InvalidName,
        names::valid_name(name) && names::name_error(name, Some(previous)) is Some
            ==> names::name_error(name, Some(previous))->0 is UnsortedEntries,
{
    names::lemma_less_total(name, previous);
    names::lemma_less_irreflexive(name);
    if names::less(name, previous) && names::less(previous, name) {
        names::lemma_less_transitive(name, previous, name);
    }
}

}
