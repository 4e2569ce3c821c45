//! What an error says.

use vstd::prelude::*;

use crate::decimal;
use crate::decimal::append_number;
use crate::names;
use crate::names::lossy_text;
use crate::nar::{Error, ErrorView};
use crate::refscan::{ReferencePatternError, REFERENCE_LENGTH};

verus! {

/// What formatting `text` for debugging gives: the text in quotes, with
/// escapes.
pub uninterp spec fn quoted(text: Seq<char>) -> Seq<char>;

/// The `Debug` form of a string, by `format!`: a function of the text alone.
/// What is escaped, and how, is not said.
#[verifier::external_body]
fn quote(text: &str) -> (r: String)
    ensures
        r@ == quoted(text@),
{
    format!("{text:?}")
}

/// The text of an error.
pub open spec fn message(error: ErrorView) -> Seq<char> {
    match error {
        ErrorView::UnexpectedEof => "unexpected end of archive"@,
        ErrorView::BadMagic => "not a NAR: bad magic"@,
        ErrorView::BadPadding => "padding bytes were not zero"@,
        ErrorView::UnexpectedToken { expected, got } => "expected "@ + quoted(expected) + ", got "@
            + quoted(got),
        ErrorView::InvalidName(name) => "invalid entry name "@ + quoted(name),
        ErrorView::UnsortedEntries(name, previous) => "directory entries not sorted: "@ + quoted(
            name,
        ) + " after "@ + quoted(previous),
        ErrorView::TrailingBytes => "trailing bytes after archive end"@,
        ErrorView::MaxDepth(limit) => "NAR directory nesting exceeds maximum depth of "@
            + decimal::numeral(limit),
        ErrorView::CaseHackEncodeCollision(a, b) => "file name collision between "@
            + names::utf8_lossy(a) + " and "@ + names::utf8_lossy(b)
            + " after removing the Nix case-hack suffix"@,
        ErrorView::CaseHackRestoreCollision { archive_name, generated_name, existing_name } =>
            "archive name "@ + quoted(archive_name) + " maps to "@ + quoted(generated_name)
            + ", which collides with explicit name "@ + quoted(existing_name),
        ErrorView::CaseHackCounterOverflow => "too many case-colliding names in one directory"@,
        ErrorView::TokenTooLarge { size, limit } => "NAR metadata token is "@ + decimal::numeral(
            size,
        ) + " bytes, exceeding the streaming limit of "@ + decimal::numeral(limit),
        ErrorView::FileChanged(path) => "file changed size while encoding: "@ + names::utf8_lossy(
            path,
        ),
        ErrorView::InvalidEncoderEvent(reason) => "invalid incremental encoder event: "@ + reason,
        ErrorView::UnfinishedArchive => "incremental encoder has an unfinished archive"@,
        ErrorView::RegularSizeMismatch { expected, actual } => "regular file declared "@
            + decimal::numeral(expected) + " bytes but received "@ + decimal::numeral(actual),
        ErrorView::EncoderPoisoned => "incremental encoder is poisoned after a writer failure"@,
        ErrorView::UnsupportedFileType(path) => "unsupported file type: "@ + names::utf8_lossy(
            path,
        ),
        ErrorView::Io(e) => e.message,
    }
}

fn append_quoted(out: &mut String, text: &str)
    ensures
        final(out)@ == old(out)@ + quoted(text@),
{
    let quoted = quote(text);
    out.append(quoted.as_str());
}

fn append_path(out: &mut String, path: &[u8])
    ensures
        final(out)@ == old(out)@ + names::utf8_lossy(path@),
{
    let shown = lossy_text(path);
    out.append(shown.as_str());
}

impl Error {
    /// The text of this error.
    pub fn message(&self) -> (r: String)
        ensures
            r@ == message(self@),
    {
        match self {
            Error::UnexpectedEof => "unexpected end of archive".to_owned(),
            Error::BadMagic => "not a NAR: bad magic".to_owned(),
            Error::BadPadding => "padding bytes were not zero".to_owned(),
            Error::UnexpectedToken { expected, got } => {
                let mut out = "expected ".to_owned();
                append_quoted(&mut out, expected);
                out.append(", got ");
                append_quoted(&mut out, got.as_str());
                out
            },
            Error::InvalidName(name) => {
                let mut out = "invalid entry name ".to_owned();
                append_quoted(&mut out, name.as_str());
                out
            },
            Error::UnsortedEntries(name, previous) => {
                let mut out = "directory entries not sorted: ".to_owned();
                append_quoted(&mut out, name.as_str());
                out.append(" after ");
                append_quoted(&mut out, previous.as_str());
                out
            },
            Error::TrailingBytes => "trailing bytes after archive end".to_owned(),
            Error::MaxDepth(limit) => {
                let mut out = "NAR directory nesting exceeds maximum depth of ".to_owned();
                append_number(&mut out, *limit as u64);
                out
            },
            Error::CaseHackEncodeCollision(a, b) => {
                let mut out = "file name collision between ".to_owned();
                append_path(&mut out, a.as_slice());
                out.append(" and ");
                append_path(&mut out, b.as_slice());
                out.append(" after removing the Nix case-hack suffix");
                out
            },
            Error::CaseHackRestoreCollision { archive_name, generated_name, existing_name } => {
                let mut out = "archive name ".to_owned();
                append_quoted(&mut out, archive_name.as_str());
                out.append(" maps to ");
                append_quoted(&mut out, generated_name.as_str());
                out.append(", which collides with explicit name ");
                append_quoted(&mut out, existing_name.as_str());
                out
            },
            Error::CaseHackCounterOverflow => {
                "too many case-colliding names in one directory".to_owned()
            },
            Error::TokenTooLarge { size, limit } => {
                let mut out = "NAR metadata token is ".to_owned();
                append_number(&mut out, *size);
                out.append(" bytes, exceeding the streaming limit of ");
                append_number(&mut out, *limit as u64);
                out
            },
            Error::FileChanged(path) => {
                let mut out = "file changed size while encoding: ".to_owned();
                append_path(&mut out, path.as_slice());
                out
            },
            Error::InvalidEncoderEvent(reason) => {
                let mut out = "invalid incremental encoder event: ".to_owned();
                out.append(reason);
                out
            },
            Error::UnfinishedArchive => "incremental encoder has an unfinished archive".to_owned(),
            Error::RegularSizeMismatch { expected, actual } => {
                let mut out = "regular file declared ".to_owned();
                append_number(&mut out, *expected);
                out.append(" bytes but received ");
                append_number(&mut out, *actual);
                out
            },
            Error::EncoderPoisoned => {
                "incremental encoder is poisoned after a writer failure".to_owned()
            },
            Error::UnsupportedFileType(path) => {
                let mut out = "unsupported file type: ".to_owned();
                append_path(&mut out, path.as_slice());
                out
            },
            Error::Io(e) => e.message.clone(),
        }
    }
}

/// The text of a [`ReferencePatternError`].
pub open spec fn pattern_message(error: ReferencePatternError) -> Seq<char> {
    match error {
        ReferencePatternError::InvalidLength { index, length } => "reference candidate "@
            + decimal::numeral(index as nat) + " has length "@ + decimal::numeral(length as nat)
            + "; expected "@ + decimal::numeral(REFERENCE_LENGTH as nat) + " bytes"@,
        ReferencePatternError::InvalidByte { index, offset, byte } => "reference candidate "@
            + decimal::numeral(index as nat) + " contains non-Nix-base32 byte "@
            + decimal::numeral(byte as nat) + " at offset "@ + decimal::numeral(offset as nat),
    }
}

impl ReferencePatternError {
    /// The text of this error.
    pub fn message(&self) -> (r: String)
        ensures
            r@ == pattern_message(*self),
    {
        let mut out = "reference candidate ".to_owned();
        match self {
            ReferencePatternError::InvalidLength { index, length } => {
                append_number(&mut out, *index as u64);
                out.append(" has length ");
                append_number(&mut out, *length as u64);
                out.append("; expected ");
                append_number(&mut out, REFERENCE_LENGTH as u64);
                out.append(" bytes");
            },
            ReferencePatternError::InvalidByte { index, offset, byte } => {
                append_number(&mut out, *index as u64);
                out.append(" contains non-Nix-base32 byte ");
                append_number(&mut out, *byte as u64);
                out.append(" at offset ");
                append_number(&mut out, *offset as u64);
            },
        }
        out
    }
}

}
