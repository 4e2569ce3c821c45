//! Byte strings: comparison, order, description in diagnostics, and the rules
//! for the name of a directory entry.

use vstd::prelude::*;

use crate::model;
use crate::nar::{Error, ErrorView};

verus! {

/// How many bytes of a hostile token a diagnostic shows.
///
/// Invalid UTF-8 can expand to three bytes per input byte, so the input is
/// bounded rather than the resulting text.
pub const ERROR_PREVIEW_BYTES: usize = 1024;

// ---------------------------------------------------------------------------
// Equality and order
// ---------------------------------------------------------------------------

/// `a` comes before `b` in byte order: at the first difference it has the
/// smaller byte, or it ends first.
pub open spec fn less(a: Seq<u8>, b: Seq<u8>) -> bool
    decreases a.len(),
{
    b.len() > 0 && (a.len() == 0 || a[0] < b[0] || (a[0] == b[0] && less(a.skip(1), b.skip(1))))
}

pub proof fn lemma_less_irreflexive(a: Seq<u8>)
    ensures
        !less(a, a),
    decreases a.len(),
{
    if a.len() > 0 {
        lemma_less_irreflexive(a.skip(1));
    }
}

pub proof fn lemma_less_transitive(a: Seq<u8>, b: Seq<u8>, c: Seq<u8>)
    requires
        less(a, b),
        less(b, c),
    ensures
        less(a, c),
    decreases a.len(),
{
    if a.len() > 0 && a[0] == b[0] && b[0] == c[0] {
        lemma_less_transitive(a.skip(1), b.skip(1), c.skip(1));
    }
}

pub proof fn lemma_less_total(a: Seq<u8>, b: Seq<u8>)
    ensures
        less(a, b) || a == b || less(b, a),
    decreases a.len(),
{
    if a.len() > 0 && b.len() > 0 {
        lemma_less_total(a.skip(1), b.skip(1));
        if a.skip(1) == b.skip(1) && a[0] == b[0] {
            assert(a =~= seq![a[0]] + a.skip(1));
            assert(b =~= seq![b[0]] + b.skip(1));
        }
    } else if a.len() == 0 && b.len() == 0 {
        assert(a =~= b);
    }
}

/// A byte string never precedes its own beginning.
pub proof fn lemma_prefix_not_above(a: Seq<u8>, n: int)
    requires
        0 <= n <= a.len(),
    ensures
        !less(a, a.take(n)),
    decreases n,
{
    if n > 0 {
        assert(a.take(n).skip(1) =~= a.skip(1).take(n - 1));
        lemma_prefix_not_above(a.skip(1), n - 1);
    }
}

/// Whether two byte strings are equal.
pub fn same_bytes(a: &[u8], b: &[u8]) -> (r: bool)
    ensures
        r == (a@ == b@),
{
    if a.len() != b.len() {
        return false;
    }
    let mut i: usize = 0;
    while i < a.len()
        invariant
            i <= a.len(),
            a.len() == b.len(),
            forall|j: int| 0 <= j < i ==> a@[j] == b@[j],
        decreases a.len() - i,
    {
        if a[i] != b[i] {
            assert(a@[i as int] != b@[i as int]);
            return false;
        }
        i = i + 1;
    }
    assert(a@ =~= b@);
    true
}

proof fn lemma_less_skip_common(a: Seq<u8>, b: Seq<u8>, n: int)
    requires
        0 <= n <= a.len(),
        n <= b.len(),
        a.take(n) == b.take(n),
    ensures
        less(a, b) == less(a.skip(n), b.skip(n)),
    decreases n,
{
    if n == 0 {
        assert(a.skip(0) =~= a);
        assert(b.skip(0) =~= b);
    } else {
        assert(a[0] == a.take(n)[0]);
        assert(b[0] == b.take(n)[0]);
        assert(a.skip(1).take(n - 1) =~= a.take(n).skip(1));
        assert(b.skip(1).take(n - 1) =~= b.take(n).skip(1));
        lemma_less_skip_common(a.skip(1), b.skip(1), n - 1);
        assert(a.skip(1).skip(n - 1) =~= a.skip(n));
        assert(b.skip(1).skip(n - 1) =~= b.skip(n));
    }
}

/// Whether `a` comes before `b` in byte order.
pub fn comes_before(a: &[u8], b: &[u8]) -> (r: bool)
    ensures
        r == less(a@, b@),
{
    let mut i: usize = 0;
    while i < a.len() && i < b.len()
        invariant
            i <= a.len(),
            i <= b.len(),
            a@.take(i as int) == b@.take(i as int),
        decreases a.len() - i,
    {
        proof {
            lemma_less_skip_common(a@, b@, i as int);
        }
        if a[i] != b[i] {
            return a[i] < b[i];
        }
        assert(a@.take(i + 1) =~= b@.take(i + 1)) by {
            assert(a@.take(i + 1) =~= a@.take(i as int).push(a@[i as int]));
            assert(b@.take(i + 1) =~= b@.take(i as int).push(b@[i as int]));
        }
        i = i + 1;
    }
    proof {
        lemma_less_skip_common(a@, b@, i as int);
    }
    i < b.len()
}

// ---------------------------------------------------------------------------
// Description
// ---------------------------------------------------------------------------

/// What [`String::from_utf8_lossy`] makes of `bytes`.
pub uninterp spec fn utf8_lossy(bytes: Seq<u8>) -> Seq<char>;

/// [`String::from_utf8_lossy`], copied out: a function of the bytes alone,
/// which leaves valid UTF-8 as it is. What stands in for invalid bytes is not
/// said.
#[verifier::external_body]
pub(crate) fn lossy_text(bytes: &[u8]) -> (r: String)
    ensures
        r@ == utf8_lossy(bytes@),
        vstd::utf8::valid_utf8(bytes@) ==> r@ == vstd::utf8::decode_utf8(bytes@),
{
    String::from_utf8_lossy(bytes).into_owned()
}

/// Whether [`std::str::from_utf8`] takes `bytes`: it takes exactly valid UTF-8.
#[verifier::external_body]
pub(crate) fn is_utf8(bytes: &[u8]) -> (r: bool)
    ensures
        r == vstd::utf8::valid_utf8(bytes@),
{
    std::str::from_utf8(bytes).is_ok()
}

/// The text of `bytes` in a diagnostic: its first part, with an ellipsis where
/// something was left out.
pub open spec fn describe(bytes: Seq<u8>) -> Seq<char> {
    if bytes.len() <= ERROR_PREVIEW_BYTES {
        utf8_lossy(bytes)
    } else {
        utf8_lossy(bytes.take(ERROR_PREVIEW_BYTES as int)).push('\u{2026}')
    }
}

/// Describe `bytes` for a diagnostic.
pub fn describe_bytes(bytes: &[u8]) -> (r: String)
    ensures
        r@ == describe(bytes@),
        ({
            let shown = if bytes@.len() <= ERROR_PREVIEW_BYTES {
                bytes@
            } else {
                bytes@.take(ERROR_PREVIEW_BYTES as int)
            };
            let text = vstd::utf8::decode_utf8(shown);
            vstd::utf8::valid_utf8(shown) ==> r@ == if bytes@.len() <= ERROR_PREVIEW_BYTES {
                text
            } else {
                text.push('\u{2026}')
            }
        }),
{
    if bytes.len() <= ERROR_PREVIEW_BYTES {
        return lossy_text(bytes);
    }
    let mut description = lossy_text(&bytes[0..ERROR_PREVIEW_BYTES]);
    assert(bytes@.subrange(0, ERROR_PREVIEW_BYTES as int) =~= bytes@.take(
        ERROR_PREVIEW_BYTES as int,
    ));
    description.append("\u{2026}");
    proof {
        reveal_strlit("\u{2026}");
        assert(description@ =~= describe(bytes@));
    }
    description
}

// ---------------------------------------------------------------------------
// Names of directory entries
// ---------------------------------------------------------------------------

/// A name that can stand for one entry of a directory.
pub open spec fn valid_name(name: Seq<u8>) -> bool {
    &&& name.len() > 0
    &&& name != model::text(".")
    &&& name != model::text("..")
    &&& !name.contains(0x2f)
    &&& !name.contains(0)
}

/// What is wrong with `name` as the entry that follows `previous`, if anything.
pub open spec fn name_error(name: Seq<u8>, previous: Option<Seq<u8>>) -> Option<ErrorView> {
    if !valid_name(name) {
        Some(ErrorView::InvalidName(describe(name)))
    } else {
        match previous {
            Some(p) if !less(p, name) => Some(
                ErrorView::UnsortedEntries(describe(name), describe(p)),
            ),
            _ => None,
        }
    }
}

/// The view of an optional byte string.
pub open spec fn optional(name: Option<&[u8]>) -> Option<Seq<u8>> {
    match name {
        Some(n) => Some(n@),
        None => None,
    }
}

fn is_valid_name(name: &[u8]) -> (r: bool)
    ensures
        r == valid_name(name@),
{
    if name.len() == 0 || same_bytes(name, ".".as_bytes()) || same_bytes(name, "..".as_bytes()) {
        return false;
    }
    let mut i: usize = 0;
    while i < name.len()
        invariant
            i <= name.len(),
            forall|j: int| 0 <= j < i ==> name@[j] != 0x2f && name@[j] != 0,
        decreases name.len() - i,
    {
        if name[i] == 0x2f || name[i] == 0 {
            assert(name@.contains(name@[i as int]));
            return false;
        }
        i = i + 1;
    }
    true
}

/// Check the name of a directory entry, and that it follows the one before it.
pub fn validate_child_name(name: &[u8], previous: Option<&[u8]>) -> (r: Result<(), Error>)
    ensures
        match name_error(name@, optional(previous)) {
            Some(e) => r matches Err(error) && error@ == e,
            None => r is Ok,
        },
{
    if !is_valid_name(name) {
        return Err(Error::InvalidName(describe_bytes(name)));
    }
    if let Some(p) = previous {
        if !comes_before(p, name) {
            return Err(Error::UnsortedEntries(describe_bytes(name), describe_bytes(p)));
        }
    }
    Ok(())
}

}
