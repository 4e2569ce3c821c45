//! What errors hold and what they say.

use vstd::prelude::*;

use crate::decimal;
use crate::encoder;
use crate::io;
use crate::io::{IoError, IoErrorKind, IoErrorView};
use crate::message;
use crate::names;
use crate::nar::{Error, ErrorView};
use crate::refscan::ReferencePatternError;
use crate::restore;

verus! {

/// An error shows the texts, paths and numbers that it holds, each in its place.
pub proof fn law_errors_show_what_they_hold(
    a: String,
    b: String,
    c: String,
    path: Vec<u8>,
    other: Vec<u8>,
    m: u64,
    n: u64,
    limit: usize,
    text: &'static str,
    failure: IoError,
)
    ensures
        (Error::UnexpectedToken { expected: text, got: a })@ == (ErrorView::UnexpectedToken {
            expected: text@,
            got: a@,
        }),
        Error::InvalidName(a)@ == ErrorView::InvalidName(a@),
        Error::UnsortedEntries(a, b)@ == ErrorView::UnsortedEntries(a@, b@),
        Error::MaxDepth(limit)@ == ErrorView::MaxDepth(limit as nat),
        Error::CaseHackEncodeCollision(path, other)@ == ErrorView::CaseHackEncodeCollision(
            path@,
            other@,
        ),
        (Error::CaseHackRestoreCollision { archive_name: a, generated_name: b, existing_name: c })@
            == (ErrorView::CaseHackRestoreCollision {
            archive_name: a@,
            generated_name: b@,
            existing_name: c@,
        }),
        (Error::TokenTooLarge { size: m, limit })@ == (ErrorView::TokenTooLarge {
            size: m as nat,
            limit: limit as nat,
        }),
        Error::FileChanged(path)@ == ErrorView::FileChanged(path@),
        Error::InvalidEncoderEvent(text)@ == ErrorView::InvalidEncoderEvent(text@),
        (Error::RegularSizeMismatch { expected: m, actual: n })@ == (
        ErrorView::RegularSizeMismatch { expected: m as nat, actual: n as nat }),
        Error::UnsupportedFileType(path)@ == ErrorView::UnsupportedFileType(path@),
        Error::Io(failure)@ == ErrorView::Io(
            IoErrorView { kind: failure.kind, message: failure.message@ },
        ),
        Error::UnexpectedEof@ == ErrorView::UnexpectedEof,
        Error::BadMagic@ == ErrorView::BadMagic,
        Error::BadPadding@ == ErrorView::BadPadding,
        Error::TrailingBytes@ == ErrorView::TrailingBytes,
        Error::CaseHackCounterOverflow@ == ErrorView::CaseHackCounterOverflow,
        Error::UnfinishedArchive@ == ErrorView::UnfinishedArchive,
        Error::EncoderPoisoned@ == ErrorView::EncoderPoisoned,
{
}

/// `whole` is made up of `parts`, in their order.
pub open spec fn made_of(whole: Seq<char>, parts: Seq<Seq<char>>) -> bool
    decreases parts.len(),
{
    if parts.len() == 0 {
        whole.len() == 0
    } else {
        let n = parts[0].len();
        &&& n <= whole.len()
        &&& whole.take(n as int) == parts[0]
        &&& made_of(whole.skip(n as int), parts.skip(1))
    }
}

proof fn lemma_made_of(head: Seq<char>, tail: Seq<char>, parts: Seq<Seq<char>>)
    requires
        made_of(tail, parts),
    ensures
        made_of(head + tail, seq![head] + parts),
{
    let whole = head + tail;
    let all = seq![head] + parts;
    assert(whole.take(head.len() as int) =~= head);
    assert(whole.skip(head.len() as int) =~= tail);
    assert(all.skip(1) =~= parts);
}

proof fn lemma_made_of_two(a: Seq<char>, b: Seq<char>)
    ensures
        made_of(a + b, seq![a, b]),
{
    let none = Seq::<char>::empty();
    lemma_made_of(b, none, Seq::empty());
    lemma_made_of(a, b + none, seq![b] + Seq::empty());
    assert(a + (b + none) =~= a + b);
    assert(seq![a] + (seq![b] + Seq::empty()) =~= seq![a, b]);
}

proof fn lemma_made_of_three(a: Seq<char>, b: Seq<char>, c: Seq<char>)
    ensures
        made_of(a + b + c, seq![a, b, c]),
{
    lemma_made_of_two(b, c);
    lemma_made_of(a, b + c, seq![b, c]);
    assert(a + (b + c) =~= a + b + c);
    assert(seq![a] + seq![b, c] =~= seq![a, b, c]);
}

proof fn lemma_made_of_four(a: Seq<char>, b: Seq<char>, c: Seq<char>, d: Seq<char>)
    ensures
        made_of(a + b + c + d, seq![a, b, c, d]),
{
    lemma_made_of_three(b, c, d);
    lemma_made_of(a, b + c + d, seq![b, c, d]);
    assert(a + (b + c + d) =~= a + b + c + d);
    assert(seq![a] + seq![b, c, d] =~= seq![a, b, c, d]);
}

/// Errors of names say which name, and of two names which comes first.
pub proof fn law_errors_of_names_say_which(a: Seq<char>, b: Seq<char>, c: Seq<char>)
    ensures
        made_of(
            message::message(ErrorView::UnexpectedToken { expected: a, got: b }),
            seq!["expected "@, message::quoted(a), ", got "@, message::quoted(b)],
        ),
        made_of(
            message::message(ErrorView::InvalidName(a)),
            seq!["invalid entry name "@, message::quoted(a)],
        ),
        made_of(
            message::message(ErrorView::UnsortedEntries(a, b)),
            seq![
                "directory entries not sorted: "@,
                message::quoted(a),
                " after "@,
                message::quoted(b),
            ],
        ),
        made_of(
            message::message(
                ErrorView::CaseHackRestoreCollision {
                    archive_name: a,
                    generated_name: b,
                    existing_name: c,
                },
            ),
            seq![
                "archive name "@,
                message::quoted(a),
                " maps to "@,
                message::quoted(b),
                ", which collides with explicit name "@,
                message::quoted(c),
            ],
        ),
{
    let (x, y, z) = (message::quoted(a), message::quoted(b), message::quoted(c));
    lemma_made_of_four("expected "@, x, ", got "@, y);
    lemma_made_of_two("invalid entry name "@, x);
    lemma_made_of_four("directory entries not sorted: "@, x, " after "@, y);
    let (p, q, r) = ("archive name "@, " maps to "@, ", which collides with explicit name "@);
    lemma_made_of_four(q, y, r, z);
    lemma_made_of(x, q + y + r + z, seq![q, y, r, z]);
    lemma_made_of(p, x + (q + y + r + z), seq![x] + seq![q, y, r, z]);
    assert(p + (x + (q + y + r + z)) =~= p + x + q + y + r + z);
    assert(seq![p] + (seq![x] + seq![q, y, r, z]) =~= seq![p, x, q, y, r, z]);
}

/// Errors of paths say which path.
pub proof fn law_errors_of_paths_say_which(a: Seq<u8>, b: Seq<u8>)
    ensures
        made_of(
            message::message(ErrorView::FileChanged(a)),
            seq!["file changed size while encoding: "@, names::utf8_lossy(a)],
        ),
        made_of(
            message::message(ErrorView::UnsupportedFileType(a)),
            seq!["unsupported file type: "@, names::utf8_lossy(a)],
        ),
        made_of(
            message::message(ErrorView::CaseHackEncodeCollision(a, b)),
            seq![
                "file name collision between "@,
                names::utf8_lossy(a),
                " and "@,
                names::utf8_lossy(b),
                " after removing the Nix case-hack suffix"@,
            ],
        ),
{
    let (x, y) = (names::utf8_lossy(a), names::utf8_lossy(b));
    lemma_made_of_two("file changed size while encoding: "@, x);
    lemma_made_of_two("unsupported file type: "@, x);
    let (p, q, r) = (
        "file name collision between "@,
        " and "@,
        " after removing the Nix case-hack suffix"@,
    );
    lemma_made_of_four(x, q, y, r);
    lemma_made_of(p, x + q + y + r, seq![x, q, y, r]);
    assert(p + (x + q + y + r) =~= p + x + q + y + r);
    assert(seq![p] + seq![x, q, y, r] =~= seq![p, x, q, y, r]);
}

/// Errors of sizes say how much there is and how much there may or should be.
pub proof fn law_errors_of_sizes_say_how_much(m: nat, n: nat)
    ensures
        made_of(
            message::message(ErrorView::MaxDepth(m)),
            seq!["NAR directory nesting exceeds maximum depth of "@, decimal::numeral(m)],
        ),
        made_of(
            message::message(ErrorView::TokenTooLarge { size: m, limit: n }),
            seq![
                "NAR metadata token is "@,
                decimal::numeral(m),
                " bytes, exceeding the streaming limit of "@,
                decimal::numeral(n),
            ],
        ),
        made_of(
            message::message(ErrorView::RegularSizeMismatch { expected: m, actual: n }),
            seq![
                "regular file declared "@,
                decimal::numeral(m),
                " bytes but received "@,
                decimal::numeral(n),
            ],
        ),
{
    let (x, y) = (decimal::numeral(m), decimal::numeral(n));
    lemma_made_of_two("NAR directory nesting exceeds maximum depth of "@, x);
    lemma_made_of_four(
        "NAR metadata token is "@,
        x,
        " bytes, exceeding the streaming limit of "@,
        y,
    );
    lemma_made_of_four("regular file declared "@, x, " bytes but received "@, y);
}

/// Errors that hold a text hand it on, and the others have one of their own.
pub proof fn law_errors_without_names_say_what_is_wrong(reason: Seq<char>, failure: IoErrorView)
    ensures
        made_of(
            message::message(ErrorView::InvalidEncoderEvent(reason)),
            seq!["invalid incremental encoder event: "@, reason],
        ),
        message::message(ErrorView::Io(failure)) == failure.message,
        message::message(ErrorView::UnexpectedEof) == "unexpected end of archive"@,
        message::message(ErrorView::BadMagic) == "not a NAR: bad magic"@,
        message::message(ErrorView::BadPadding) == "padding bytes were not zero"@,
        message::message(ErrorView::TrailingBytes) == "trailing bytes after archive end"@,
        message::message(ErrorView::CaseHackCounterOverflow)
            == "too many case-colliding names in one directory"@,
        message::message(ErrorView::UnfinishedArchive)
            == "incremental encoder has an unfinished archive"@,
        message::message(ErrorView::EncoderPoisoned)
            == "incremental encoder is poisoned after a writer failure"@,
{
    lemma_made_of_two("invalid incremental encoder event: "@, reason);
}

/// Errors of candidates say which candidate, and what is wrong with it.
pub proof fn law_errors_of_candidates_say_which(
    index: usize,
    length: usize,
    offset: usize,
    byte: u8,
)
    ensures
        made_of(
            message::pattern_message(ReferencePatternError::InvalidLength { index, length }),
            seq![
                "reference candidate "@,
                decimal::numeral(index as nat),
                " has length "@,
                decimal::numeral(length as nat),
                "; expected "@,
                decimal::numeral(32),
                " bytes"@,
            ],
        ),
        made_of(
            message::pattern_message(ReferencePatternError::InvalidByte { index, offset, byte }),
            seq![
                "reference candidate "@,
                decimal::numeral(index as nat),
                " contains non-Nix-base32 byte "@,
                decimal::numeral(byte as nat),
                " at offset "@,
                decimal::numeral(offset as nat),
            ],
        ),
{
    let p = "reference candidate "@;
    let i = decimal::numeral(index as nat);
    let (q, l, e, n, b) = (
        " has length "@,
        decimal::numeral(length as nat),
        "; expected "@,
        decimal::numeral(32),
        " bytes"@,
    );
    lemma_made_of_three(e, n, b);
    lemma_made_of(l, e + n + b, seq![e, n, b]);
    lemma_made_of(q, l + (e + n + b), seq![l] + seq![e, n, b]);
    lemma_made_of(i, q + (l + (e + n + b)), seq![q] + (seq![l] + seq![e, n, b]));
    lemma_made_of(
        p,
        i + (q + (l + (e + n + b))),
        seq![i] + (seq![q] + (seq![l] + seq![e, n, b])),
    );
    assert(p + (i + (q + (l + (e + n + b)))) =~= p + i + q + l + e + n + b);
    assert(seq![p] + (seq![i] + (seq![q] + (seq![l] + seq![e, n, b]))) =~= seq![
        p,
        i,
        q,
        l,
        e,
        n,
        b,
    ]);
    let (c, v, a, o) = (
        " contains non-Nix-base32 byte "@,
        decimal::numeral(byte as nat),
        " at offset "@,
        decimal::numeral(offset as nat),
    );
    lemma_made_of_four(c, v, a, o);
    lemma_made_of(i, c + v + a + o, seq![c, v, a, o]);
    lemma_made_of(p, i + (c + v + a + o), seq![i] + seq![c, v, a, o]);
    assert(p + (i + (c + v + a + o)) =~= p + i + c + v + a + o);
    assert(seq![p] + (seq![i] + seq![c, v, a, o]) =~= seq![p, i, c, v, a, o]);
}

/// The failures that the library itself reports of reads, writes and
/// destinations.
pub proof fn law_own_failures()
    ensures
        io::write_zero_error().kind == IoErrorKind::WriteZero,
        io::write_zero_error().message == "failed to write whole buffer"@,
        io::overcount_error().kind == IoErrorKind::InvalidData,
        io::overcount_error().message
            == "underlying writer reported writing more bytes than supplied"@,
        encoder::poisoned_error().kind == IoErrorKind::Other,
        encoder::poisoned_error().message == "NAR encoder is poisoned"@,
        encoder::oversized_error().kind == IoErrorKind::InvalidInput,
        encoder::oversized_error().message == "regular-file payload exceeds its declared size"@,
        restore::destination_error().kind == IoErrorKind::InvalidInput,
        restore::destination_error().message
            == "restore destination must end in a file name other than `.` or `..`"@,
{
}

}
