//! What the case hack comes to, byte by byte: the names that it makes, the
//! numbers that it gives, and the names that it gives back.

use vstd::prelude::*;

use crate::case_hack;
use crate::case_hack::{CaseHack, CASE_HACK_SUFFIX};
use crate::decimal;
use crate::format_laws;
use crate::names;
use crate::nar::ErrorView;
use crate::refscan;
use crate::restore;
use crate::restore::{CaseFold, NamesView};
use crate::restored_names;

verus! {

// ---------------------------------------------------------------------------
// Numbers
// ---------------------------------------------------------------------------

/// The number that decimal digits spell.
pub open spec fn spelled(digits: Seq<u8>) -> int
    decreases digits.len(),
{
    if digits.len() == 0 {
        0
    } else {
        10 * spelled(digits.drop_last()) + (digits.last() - 0x30)
    }
}

/// A number is written in decimal digits that spell it, without zeros in front.
pub proof fn law_digits_spell_the_number(n: nat)
    ensures
        spelled(decimal::digits(n)) == n,
        decimal::digits(n).len() > 0,
        forall|i: int|
            0 <= i < decimal::digits(n).len() ==> 0x30 <= #[trigger] decimal::digits(n)[i] <= 0x39,
        decimal::digits(n).len() > 1 ==> decimal::digits(n)[0] != 0x30,
        decimal::numeral(n).len() == decimal::digits(n).len(),
        forall|i: int|
            0 <= i < decimal::digits(n).len() ==> #[trigger] decimal::numeral(n)[i] as int
                == decimal::digits(n)[i] as int,
    decreases n,
{
    let all = decimal::digits(n);
    if n < 10 {
        assert(all.drop_last() =~= Seq::<u8>::empty());
        assert(spelled(all.drop_last()) == 0);
    } else {
        law_digits_spell_the_number(n / 10);
        assert(all.drop_last() =~= decimal::digits(n / 10));
        assert(all[0] == decimal::digits(n / 10)[0]);
        if decimal::digits(n / 10).len() == 1 {
            assert(decimal::digits(n / 10).drop_last() =~= Seq::<u8>::empty());
            assert(spelled(decimal::digits(n / 10).drop_last()) == 0);
        }
    }
}

// ---------------------------------------------------------------------------
// Systems
// ---------------------------------------------------------------------------

/// The hack is the default on the one system whose name is spelled m, a, c, o, s,
/// and on no other.
pub proof fn law_one_system_has_the_hack(os: Seq<char>)
    ensures
        case_hack::native_setting(os) == CaseHack::Enabled <==> os == seq![
            'm',
            'a',
            'c',
            'o',
            's',
        ],
{
    reveal_strlit("macos");
    assert("macos"@ =~= seq!['m', 'a', 'c', 'o', 's']);
}

// ---------------------------------------------------------------------------
// Names with the suffix
// ---------------------------------------------------------------------------

/// The suffix, as it is spelled.
pub open spec fn tail() -> Seq<u8> {
    format_laws::ascii("~nix~case~hack~")
}

proof fn lemma_tail()
    ensures
        CASE_HACK_SUFFIX@ == tail(),
        tail().len() == 15,
{
    reveal_strlit("~nix~case~hack~");
    assert(CASE_HACK_SUFFIX@ =~= tail());
}

/// A name that is made for a collision is the name, the suffix, and the number
/// of the collision.
pub proof fn law_made_names(name: Seq<u8>, number: nat)
    ensures
        case_hack::hacked_name(name, number) == name + tail() + decimal::digits(number),
{
    lemma_tail();
}

/// With the hack a name on disk stands for what precedes the first suffix in it,
/// whatever follows that.
pub proof fn law_names_end_at_the_first_suffix(name: Seq<u8>, behind: Seq<u8>)
    requires
        forall|i: int|
            0 <= i < name.len() ==> #[trigger] (name + tail() + behind).subrange(i, i + 15)
                != tail(),
    ensures
        case_hack::archive_name(name + tail() + behind, CaseHack::Enabled) == name,
{
    lemma_tail();
    let disk = name + tail() + behind;
    let suffix = CASE_HACK_SUFFIX@;
    let n = name.len() as int;
    assert(disk.subrange(n, n + 15) =~= suffix);
    assert(refscan::occurs_at(disk, suffix, n));
    assert forall|i: int| i < n implies !refscan::occurs_at(disk, suffix, i) by {
        if 0 <= i {
            assert(disk.subrange(i, i + 15) != tail());
        }
    }
    assert(case_hack::first_at(disk, suffix, n));
    let first = choose|at: int| case_hack::first_at(disk, suffix, at);
    case_hack::lemma_first_at_unique(disk, suffix, n, first);
    assert(disk.take(n) =~= name);
}

/// A name on disk without the suffix stands for itself, and without the hack any
/// name does.
pub proof fn law_other_names_stand_for_themselves(disk: Seq<u8>)
    ensures
        case_hack::archive_name(disk, CaseHack::Disabled) == disk,
        (forall|i: int|
            0 <= i <= disk.len() - 15 ==> #[trigger] disk.subrange(i, i + 15) != tail())
            ==> case_hack::archive_name(disk, CaseHack::Enabled) == disk,
{
    lemma_tail();
    if forall|i: int| 0 <= i <= disk.len() - 15 ==> #[trigger] disk.subrange(i, i + 15) != tail() {
        assert forall|at: int| !refscan::occurs_at(disk, CASE_HACK_SUFFIX@, at) by {
            if 0 <= at <= disk.len() - 15 {
                assert(disk.subrange(at, at + 15) != tail());
            }
        }
    }
}

// ---------------------------------------------------------------------------
// Collisions
// ---------------------------------------------------------------------------

/// `a` and `b` differ in case at most.
pub open spec fn alike(fold: CaseFold, a: Seq<u8>, b: Seq<u8>) -> bool {
    a.len() == b.len() && forall|i: int|
        0 <= i < a.len() ==> fold.table@[#[trigger] a[i] as int] == fold.table@[b[i] as int]
}

/// How many of `archived` differ from `name` in case at most.
pub open spec fn alikes(archived: Seq<Seq<u8>>, fold: CaseFold, name: Seq<u8>) -> nat
    decreases archived.len(),
{
    if archived.len() == 0 {
        0
    } else {
        alikes(archived.drop_last(), fold, name) + if alike(fold, archived.last(), name) {
            1nat
        } else {
            0
        }
    }
}

/// The name at `i` is the first of `archived` that differs from `name` in case
/// at most.
pub open spec fn first_alike(
    archived: Seq<Seq<u8>>,
    fold: CaseFold,
    name: Seq<u8>,
    i: int,
) -> bool {
    &&& 0 <= i < archived.len()
    &&& alike(fold, archived[i], name)
    &&& forall|j: int| 0 <= j < i ==> !alike(fold, #[trigger] archived[j], name)
}

proof fn lemma_alike_folds(fold: CaseFold, a: Seq<u8>, b: Seq<u8>)
    ensures
        alike(fold, a, b) == (fold.fold(a) == fold.fold(b)),
{
    if alike(fold, a, b) {
        assert(fold.fold(a) =~= fold.fold(b));
    }
    if fold.fold(a) == fold.fold(b) {
        assert(fold.fold(a).len() == a.len() && fold.fold(b).len() == b.len());
        assert forall|i: int| 0 <= i < a.len() implies fold.table@[#[trigger] a[i] as int]
            == fold.table@[b[i] as int] by {
            assert(fold.fold(a)[i] == fold.fold(b)[i]);
        }
    }
}

/// What a directory holds has been counted.
spec fn tallied(archived: Seq<Seq<u8>>, fold: CaseFold, held: NamesView, name: Seq<u8>) -> bool {
    let key = fold.fold(name);
    let count = alikes(archived, fold, name);
    &&& held.contains_key(key) == (count > 0)
    &&& count > 0 ==> held[key].collisions == count - 1 && exists|i: int| #[trigger]
        first_alike(archived, fold, name, i) && held[key].name == archived[i]
}

proof fn lemma_tallied(archived: Seq<Seq<u8>>, fold: CaseFold, name: Seq<u8>)
    requires
        restored_names::restored(archived, CaseHack::Enabled, fold).1 is Ok,
    ensures
        tallied(
            archived,
            fold,
            restored_names::restored(archived, CaseHack::Enabled, fold).0,
            name,
        ),
    decreases archived.len(),
{
    if archived.len() > 0 {
        let earlier = archived.drop_last();
        let last = archived.last();
        let (held, _) = restored_names::restored(earlier, CaseHack::Enabled, fold);
        let (after, _) = restored_names::restored(archived, CaseHack::Enabled, fold);
        lemma_tallied(earlier, fold, name);
        lemma_tallied(earlier, fold, last);
        lemma_alike_folds(fold, last, name);
        let key = fold.fold(name);
        if alikes(earlier, fold, name) > 0 {
            let i = choose|i: int| #[trigger]
                first_alike(earlier, fold, name, i) && held[key].name == earlier[i];
            assert(first_alike(archived, fold, name, i)) by {
                assert(archived[i] == earlier[i]);
                assert forall|j: int| 0 <= j < i implies !alike(
                    fold,
                    #[trigger] archived[j],
                    name,
                ) by {
                    assert(archived[j] == earlier[j]);
                }
            }
            assert(after[key].name == archived[i]);
        } else if alike(fold, last, name) {
            let i = archived.len() - 1;
            lemma_none_alike(earlier, fold, name);
            assert(first_alike(archived, fold, name, i)) by {
                assert forall|j: int| 0 <= j < i implies !alike(
                    fold,
                    #[trigger] archived[j],
                    name,
                ) by {
                    assert(archived[j] == earlier[j]);
                }
            }
            assert(!held.contains_key(key));
            assert(after[key].name == archived[i]);
        }
    }
}

proof fn lemma_none_alike(archived: Seq<Seq<u8>>, fold: CaseFold, name: Seq<u8>)
    ensures
        alikes(archived, fold, name) == 0 <==> forall|j: int|
            0 <= j < archived.len() ==> !alike(fold, #[trigger] archived[j], name),
    decreases archived.len(),
{
    if archived.len() > 0 {
        let earlier = archived.drop_last();
        lemma_none_alike(earlier, fold, name);
        assert(archived[archived.len() - 1] == archived.last());
        assert(forall|j: int| 0 <= j < earlier.len() ==> earlier[j] == archived[j]);
        if alikes(archived, fold, name) == 0 {
            assert forall|j: int| 0 <= j < archived.len() implies !alike(
                fold,
                #[trigger] archived[j],
                name,
            ) by {
                if j < earlier.len() {
                    assert(!alike(fold, earlier[j], name));
                }
            }
        }
        if forall|j: int| 0 <= j < archived.len() ==> !alike(fold, #[trigger] archived[j], name) {
            assert forall|j: int| 0 <= j < earlier.len() implies !alike(
                fold,
                #[trigger] earlier[j],
                name,
            ) by {
                assert(!alike(fold, archived[j], name));
            }
        }
    }
}

/// With the hack the next name of a directory is restored as it is, unless names
/// before it differ from it in case at most: if so it gets the suffix and the
/// count of those, and is refused if the name so made meets one of the archive,
/// the first of which is reported.
pub proof fn law_collisions_are_counted(archived: Seq<Seq<u8>>, fold: CaseFold, name: Seq<u8>)
    requires
        restored_names::restored(archived, CaseHack::Enabled, fold).1 is Ok,
        archived.len() < 0xffff_ffff_ffff_ffff,
    ensures
        ({
            let before = restored_names::restored(archived, CaseHack::Enabled, fold).1->Ok_0;
            let count = alikes(archived, fold, name);
            let made = name + tail() + decimal::digits(count);
            match restored_names::restored(archived.push(name), CaseHack::Enabled, fold).1 {
                Ok(disk) => disk == before.push(
                    if count == 0 {
                        name
                    } else {
                        made
                    },
                ) && (count > 0 ==> alikes(archived, fold, made) == 0),
                Err(e) => count > 0 && exists|i: int| #[trigger]
                    first_alike(archived, fold, made, i) && e
                        == (ErrorView::CaseHackRestoreCollision {
                        archive_name: names::describe(name),
                        generated_name: names::describe(made),
                        existing_name: names::describe(archived[i]),
                    }),
            }
        }),
{
    let all = archived.push(name);
    assert(all.drop_last() =~= archived);
    let count = alikes(archived, fold, name);
    let made = name + tail() + decimal::digits(count);
    law_made_names(name, count);
    lemma_tallied(archived, fold, name);
    lemma_tallied(archived, fold, made);
    lemma_alikes_bounded(archived, fold, name);
    lemma_alike_folds(fold, name, made);
    let (held, _) = restored_names::restored(archived, CaseHack::Enabled, fold);
    let key = fold.fold(name);
    let taken = fold.fold(made);
    assert(taken != key) by {
        lemma_tail();
        assert(taken.len() == made.len() && key.len() == name.len());
    }
    if count > 0 {
        assert(held[key].collisions + 1 == count);
    }
}

proof fn lemma_alikes_bounded(archived: Seq<Seq<u8>>, fold: CaseFold, name: Seq<u8>)
    ensures
        alikes(archived, fold, name) <= archived.len(),
    decreases archived.len(),
{
    if archived.len() > 0 {
        lemma_alikes_bounded(archived.drop_last(), fold, name);
    }
}

/// Without the hack every name is restored as it is.
pub proof fn law_names_are_restored_as_they_are(
    archived: Seq<Seq<u8>>,
    fold: CaseFold,
    name: Seq<u8>,
    held: NamesView,
)
    ensures
        restore::disk_name(held, name, CaseHack::Disabled, fold) == (
            held,
            Ok::<_, ErrorView>(name),
        ),
        restored_names::restored(archived, CaseHack::Disabled, fold).1 == Ok::<_, ErrorView>(
            archived,
        ),
{
    restored_names::law_names_are_kept_without_hack(archived, fold);
}

/// Folding changes no length and puts in every place what the table says of the
/// byte there.
pub proof fn law_folding_goes_by_the_table(fold: CaseFold, name: Seq<u8>, i: int)
    requires
        0 <= i < name.len(),
    ensures
        fold.fold(name).len() == name.len(),
        fold.fold(name)[i] == fold.table@[name[i] as int],
{
}

}
