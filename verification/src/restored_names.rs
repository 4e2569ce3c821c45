//! What the names are that a directory is restored under with the case hack.

use vstd::prelude::*;

use crate::case_hack;
use crate::case_hack::{CaseHack, CASE_HACK_SUFFIX};
use crate::decimal;
use crate::listing;
use crate::nar::ErrorView;
use crate::refscan;
use crate::restore;
use crate::restore::{CaseFold, NamesView};

verus! {

/// What a directory holds once `archived` have been restored to it in turn, and
/// what they are called on disk, up to the first that cannot be restored.
pub open spec fn restored(archived: Seq<Seq<u8>>, case_hack: CaseHack, fold: CaseFold) -> (
    NamesView,
    Result<Seq<Seq<u8>>, ErrorView>,
)
    decreases archived.len(),
{
    if archived.len() == 0 {
        (Map::empty(), Ok(Seq::empty()))
    } else {
        let (held, before) = restored(archived.drop_last(), case_hack, fold);
        match before {
            Err(e) => (held, Err(e)),
            Ok(disk) => {
                let (held_then, name) = restore::disk_name(
                    held,
                    archived.last(),
                    case_hack,
                    fold,
                );
                match name {
                    Err(e) => (held_then, Err(e)),
                    Ok(name) => (held_then, Ok(disk.push(name))),
                }
            },
        }
    }
}

/// Folding leaves digits and tildes alone.
pub open spec fn keeps_numbers(fold: CaseFold) -> bool {
    &&& forall|b: u8| 0x30 <= b <= 0x39 ==> #[trigger] fold.table@[b as int] == b
    &&& fold.table@[0x7e] == 0x7e
}

/// `disk` can be told to stand for `name`: the name holds no suffix, and if
/// something was put behind it, it does not end in all of the suffix but its
/// last byte.
pub open spec fn legible(disk: Seq<u8>, name: Seq<u8>) -> bool {
    &&& !refscan::occurs(name, CASE_HACK_SUFFIX@)
    &&& disk == name || !(name.len() >= 14 && name.skip(name.len() - 14)
        == CASE_HACK_SUFFIX@.take(14))
}

proof fn lemma_digits(n: nat)
    ensures
        decimal::digits(n).len() > 0,
        n >= 10 <==> decimal::digits(n).len() > 1,
        forall|i: int|
            0 <= i < decimal::digits(n).len() ==> 0x30 <= #[trigger] decimal::digits(n)[i] <= 0x39,
        decimal::digits(n).last() == 0x30 + n % 10,
    decreases n,
{
    if n >= 10 {
        lemma_digits(n / 10);
    }
}

/// Different numbers have different digits.
proof fn lemma_digits_injective(a: nat, b: nat)
    requires
        decimal::digits(a) == decimal::digits(b),
    ensures
        a == b,
    decreases a,
{
    lemma_digits(a);
    lemma_digits(b);
    if a >= 10 {
        assert(decimal::digits(a).drop_last() =~= decimal::digits(a / 10));
        assert(decimal::digits(b).drop_last() =~= decimal::digits(b / 10));
        lemma_digits_injective(a / 10, b / 10);
    }
}

/// What is made for a collision folds as its parts do.
proof fn lemma_fold_hacked(name: Seq<u8>, number: nat, fold: CaseFold)
    requires
        keeps_numbers(fold),
    ensures
        fold.fold(case_hack::hacked_name(name, number)) == fold.fold(name) + fold.fold(
            CASE_HACK_SUFFIX@,
        ) + decimal::digits(number),
        fold.fold(CASE_HACK_SUFFIX@).len() == 15,
        fold.fold(CASE_HACK_SUFFIX@)[14] == 0x7e,
{
    lemma_digits(number);
    let digits = decimal::digits(number);
    assert forall|i: int| 0 <= i < digits.len() implies #[trigger] fold.fold(digits)[i]
        == digits[i] by {
        assert(0x30 <= digits[i] <= 0x39);
    }
    assert(fold.fold(digits) =~= digits);
    assert(fold.fold(case_hack::hacked_name(name, number)) =~= fold.fold(name) + fold.fold(
        CASE_HACK_SUFFIX@,
    ) + fold.fold(digits));
    assert(CASE_HACK_SUFFIX@[14] == 0x7e);
}

/// Two names made for collisions that fold alike were made from names that fold
/// alike, with the same number.
proof fn lemma_hacked_apart(a: Seq<u8>, m: nat, b: Seq<u8>, n: nat, fold: CaseFold)
    requires
        keeps_numbers(fold),
        fold.fold(case_hack::hacked_name(a, m)) == fold.fold(case_hack::hacked_name(b, n)),
    ensures
        fold.fold(a) == fold.fold(b),
        m == n,
{
    lemma_fold_hacked(a, m, fold);
    lemma_fold_hacked(b, n, fold);
    lemma_digits(m);
    lemma_digits(n);
    let suffix = fold.fold(CASE_HACK_SUFFIX@);
    lemma_split_at_tilde(
        fold.fold(a),
        fold.fold(b),
        suffix,
        decimal::digits(m),
        decimal::digits(n),
    );
    lemma_digits_injective(m, n);
}

proof fn lemma_split_at_tilde(a: Seq<u8>, b: Seq<u8>, suffix: Seq<u8>, d: Seq<u8>, e: Seq<u8>)
    requires
        suffix.len() == 15,
        suffix[14] == 0x7e,
        forall|i: int| 0 <= i < d.len() ==> 0x30 <= #[trigger] d[i] <= 0x39,
        forall|i: int| 0 <= i < e.len() ==> 0x30 <= #[trigger] e[i] <= 0x39,
        a + suffix + d == b + suffix + e,
    ensures
        a == b,
        d == e,
{
    let s = a + suffix + d;
    let t = b + suffix + e;
    let n = s.len() as int;
    assert(s[n - d.len() - 1] == 0x7e);
    assert(t[n - e.len() - 1] == 0x7e);
    if d.len() < e.len() {
        let i = e.len() - d.len() - 1;
        assert(t[n - d.len() - 1] == e[i]);
    } else if e.len() < d.len() {
        let i = d.len() - e.len() - 1;
        assert(s[n - e.len() - 1] == d[i]);
    }
    assert(a =~= s.take(a.len() as int));
    assert(b =~= t.take(b.len() as int));
    assert(d =~= s.skip(n - d.len()));
    assert(e =~= t.skip(n - e.len()));
}

/// How the name at `i` came to be on disk: as it is, and held as such, or made
/// for a collision with a number that has been counted.
spec fn accounted(
    archived: Seq<Seq<u8>>,
    disk: Seq<Seq<u8>>,
    held: NamesView,
    fold: CaseFold,
    i: int,
) -> bool {
    let key = fold.fold(archived[i]);
    &&& held.contains_key(key)
    &&& disk[i] == archived[i] || exists|number: nat|
        1 <= number <= held[key].collisions && disk[i] == #[trigger] case_hack::hacked_name(
            archived[i],
            number,
        )
}

proof fn lemma_accounted(archived: Seq<Seq<u8>>, fold: CaseFold)
    requires
        restored(archived, CaseHack::Enabled, fold).1 is Ok,
    ensures
        ({
            let (held, disk) = restored(archived, CaseHack::Enabled, fold);
            &&& disk->Ok_0.len() == archived.len()
            &&& forall|i: int|
                0 <= i < archived.len() ==> #[trigger] accounted(
                    archived,
                    disk->Ok_0,
                    held,
                    fold,
                    i,
                )
        }),
    decreases archived.len(),
{
    if archived.len() > 0 {
        let earlier = archived.drop_last();
        let name = archived.last();
        let key = fold.fold(name);
        let (held, before) = restored(earlier, CaseHack::Enabled, fold);
        let (held_after, disk) = restored(archived, CaseHack::Enabled, fold);
        let disk = disk->Ok_0;
        lemma_accounted(earlier, fold);
        assert forall|i: int| 0 <= i < archived.len() implies #[trigger] accounted(
            archived,
            disk,
            held_after,
            fold,
            i,
        ) by {
            if i < earlier.len() {
                assert(accounted(earlier, before->Ok_0, held, fold, i));
                assert(earlier[i] == archived[i]);
                assert(disk[i] == before->Ok_0[i]);
                let own = fold.fold(archived[i]);
                assert(held_after.contains_key(own));
                assert(held_after[own].collisions >= held[own].collisions);
            } else if held.contains_key(key) {
                let number = held[key].collisions + 1;
                assert(held_after[key].collisions == number);
                assert(disk[i] == case_hack::hacked_name(name, number));
            }
        }
    }
}

/// The name at `later` is restored as it is, though before it the same name, but
/// for case, was made for the collision at `earlier`.
pub open spec fn meets(
    archived: Seq<Seq<u8>>,
    disk: Seq<Seq<u8>>,
    fold: CaseFold,
    earlier: int,
    later: int,
) -> bool {
    &&& disk[earlier] != archived[earlier]
    &&& disk[later] == archived[later]
    &&& fold.fold(archived[later]) == fold.fold(disk[earlier])
}

/// The names on disk tell the restored objects apart, though letters of
/// different case are one.
///
/// That holds unless an archive name meets one that was made before it came:
/// such a name is not looked for, and it is left to the filesystem to refuse it.
pub proof fn law_restored_names_differ(archived: Seq<Seq<u8>>, fold: CaseFold, i: int, j: int)
    requires
        keeps_numbers(fold),
        restored(archived, CaseHack::Enabled, fold).1 is Ok,
        0 <= i < j < archived.len(),
        !meets(archived, restored(archived, CaseHack::Enabled, fold).1->Ok_0, fold, i, j),
    ensures
        ({
            let disk = restored(archived, CaseHack::Enabled, fold).1->Ok_0;
            fold.fold(disk[i]) != fold.fold(disk[j])
        }),
    decreases archived.len(),
{
    let earlier = archived.drop_last();
    let (held, before) = restored(earlier, CaseHack::Enabled, fold);
    let before = before->Ok_0;
    let disk = restored(archived, CaseHack::Enabled, fold).1->Ok_0;
    lemma_accounted(earlier, fold);
    assert(disk[i] == before[i]);
    assert(earlier[i] == archived[i]);
    if j < archived.len() - 1 {
        assert(disk[j] == before[j]);
        assert(earlier[j] == archived[j]);
        law_restored_names_differ(earlier, fold, i, j);
    } else {
        let name = archived[j];
        let own = fold.fold(archived[i]);
        let key = fold.fold(name);
        assert(accounted(earlier, before, held, fold, i));
        if held.contains_key(key) {
            let number = held[key].collisions + 1;
            assert(disk[j] == case_hack::hacked_name(name, number));
            if disk[i] != archived[i] {
                let counted = choose|n: nat|
                    1 <= n <= held[own].collisions && disk[i] == #[trigger] case_hack::hacked_name(
                        archived[i],
                        n,
                    );
                if fold.fold(disk[i]) == fold.fold(disk[j]) {
                    lemma_hacked_apart(archived[i], counted, name, number, fold);
                }
            }
        }
    }
}

/// A restored name is read back as the archive name that it stands for.
///
/// With the hack that holds of every name that is legible on disk; any other is
/// cut short.
pub proof fn law_restored_name_reads_back(
    held: NamesView,
    name: Seq<u8>,
    case_hack: CaseHack,
    fold: CaseFold,
)
    requires
        restore::disk_name(held, name, case_hack, fold).1 is Ok,
        case_hack == CaseHack::Enabled ==> legible(
            restore::disk_name(held, name, case_hack, fold).1->Ok_0,
            name,
        ),
    ensures
        case_hack::archive_name(
            restore::disk_name(held, name, case_hack, fold).1->Ok_0,
            case_hack,
        ) == name,
{
    let key = fold.fold(name);
    if case_hack == CaseHack::Enabled && held.contains_key(key) {
        let number = held[key].collisions + 1;
        assert(case_hack::hacked_name(name, number).len() > name.len());
        case_hack::law_hacked_name_stands_for_its_name(name, number);
    }
}

/// Without the hack every object is restored under its own name.
pub proof fn law_names_are_kept_without_hack(archived: Seq<Seq<u8>>, fold: CaseFold)
    ensures
        restored(archived, CaseHack::Disabled, fold).1 == Ok::<_, ErrorView>(archived),
    decreases archived.len(),
{
    if archived.len() > 0 {
        law_names_are_kept_without_hack(archived.drop_last(), fold);
        assert(archived.drop_last().push(archived.last()) =~= archived);
    } else {
        assert(archived =~= Seq::empty());
    }
}

/// With or without the hack, a directory none of whose names holds the suffix
/// has the same entries.
pub proof fn law_settings_agree_without_suffix(
    disk_names: Seq<Seq<u8>>,
    list: Seq<(Seq<u8>, Seq<u8>)>,
)
    requires
        forall|i: int|
            0 <= i < disk_names.len() ==> !refscan::occurs(
                #[trigger] disk_names[i],
                CASE_HACK_SUFFIX@,
            ),
    ensures
        listing::is_listing(disk_names, CaseHack::Enabled, list) == listing::is_listing(
            disk_names,
            CaseHack::Disabled,
            list,
        ),
{
    assert forall|disk: Seq<u8>| disk_names.contains(disk) implies #[trigger] listing::entry_of(
        disk,
        CaseHack::Enabled,
    ) == listing::entry_of(disk, CaseHack::Disabled) by {
        let i = choose|i: int| 0 <= i < disk_names.len() && disk_names[i] == disk;
        case_hack::law_hack_is_no_op_without_suffix(disk_names[i], CaseHack::Enabled);
    }
    assert forall|i: int| 0 <= i < disk_names.len() implies disk_names.contains(
        #[trigger] disk_names[i],
    ) by {}
    if listing::is_listing(disk_names, CaseHack::Enabled, list) {
        lemma_same_listing(disk_names, CaseHack::Enabled, CaseHack::Disabled, list);
    }
    if listing::is_listing(disk_names, CaseHack::Disabled, list) {
        lemma_same_listing(disk_names, CaseHack::Disabled, CaseHack::Enabled, list);
    }
}

proof fn lemma_same_listing(
    disk_names: Seq<Seq<u8>>,
    a: CaseHack,
    b: CaseHack,
    list: Seq<(Seq<u8>, Seq<u8>)>,
)
    requires
        listing::is_listing(disk_names, a, list),
        forall|disk: Seq<u8>|
            disk_names.contains(disk) ==> #[trigger] listing::entry_of(disk, a)
                == listing::entry_of(disk, b),
    ensures
        listing::is_listing(disk_names, b, list),
{
    assert forall|k: int| 0 <= k < list.len() implies #[trigger] list[k] == listing::entry_of(
        list[k].0,
        b,
    ) by {
        assert(disk_names.contains(list[k].0));
        assert(list[k] == listing::entry_of(list[k].0, a));
    }
    assert forall|i: int|
        0 <= i < disk_names.len() && listing::is_entry(
            #[trigger] disk_names[i],
        ) implies list.contains(listing::entry_of(disk_names[i], b)) by {
        assert(disk_names.contains(disk_names[i]));
        assert(list.contains(listing::entry_of(disk_names[i], a)));
    }
}

}
