//! The Nix Archive (NAR) format: the names that callers use.

use vstd::prelude::*;

pub use crate::case_hack::{CaseHack, CASE_HACK_SUFFIX};
pub use crate::dec::{
    decode_events, decode_events_reader, Event, EventVisitor, FileContents, ReadEvent, ReadVisitor,
};
pub use crate::encoder::{Encoder, RegularWriter};
pub use crate::entries::{decode, decode_for, Entry};
pub use crate::hash::NarHash;
pub use crate::io::{ByteSink, ByteSource, IoError, IoErrorKind};
pub use crate::refscan::{
    ReferencePattern, ReferencePatternError, ReferenceScan, ReferenceScanner, ReferenceWriter,
    REFERENCE_LENGTH,
};
pub use crate::tree::{encode_regular, encode_tree, hash_regular, hash_tree, NamedNode, Node};
use crate::io::IoErrorView;

verus! {

/// A malformed NAR or filesystem encoding/restoration failure.
///
/// Filesystem paths are raw bytes.
#[derive(Debug)]
#[non_exhaustive]
#[allow(inconsistent_fields)]
pub enum Error {
    UnexpectedEof,
    BadMagic,
    BadPadding,
    UnexpectedToken { expected: &'static str, got: String },
    InvalidName(String),
    UnsortedEntries(String, String),
    TrailingBytes,
    MaxDepth(usize),
    CaseHackEncodeCollision(Vec<u8>, Vec<u8>),
    CaseHackRestoreCollision {
        archive_name: String,
        generated_name: String,
        existing_name: String,
    },
    CaseHackCounterOverflow,
    TokenTooLarge {
        /// Declared token size.
        size: u64,
        /// Maximum size accepted by the streaming decode and restore APIs.
        limit: usize,
    },
    FileChanged(Vec<u8>),
    InvalidEncoderEvent(&'static str),
    UnfinishedArchive,
    RegularSizeMismatch { expected: u64, actual: u64 },
    EncoderPoisoned,
    UnsupportedFileType(Vec<u8>),
    Io(IoError),
}

/// An [`Error`] with its texts and paths as sequences.
#[allow(inconsistent_fields)]
pub enum ErrorView {
    UnexpectedEof,
    BadMagic,
    BadPadding,
    UnexpectedToken { expected: Seq<char>, got: Seq<char> },
    InvalidName(Seq<char>),
    UnsortedEntries(Seq<char>, Seq<char>),
    TrailingBytes,
    MaxDepth(nat),
    CaseHackEncodeCollision(Seq<u8>, Seq<u8>),
    CaseHackRestoreCollision {
        archive_name: Seq<char>,
        generated_name: Seq<char>,
        existing_name: Seq<char>,
    },
    CaseHackCounterOverflow,
    TokenTooLarge { size: nat, limit: nat },
    FileChanged(Seq<u8>),
    InvalidEncoderEvent(Seq<char>),
    UnfinishedArchive,
    RegularSizeMismatch { expected: nat, actual: nat },
    EncoderPoisoned,
    UnsupportedFileType(Seq<u8>),
    Io(IoErrorView),
}

impl View for Error {
    type V = ErrorView;

    open spec fn view(&self) -> ErrorView {
        match *self {
            Error::UnexpectedEof => ErrorView::UnexpectedEof,
            Error::BadMagic => ErrorView::BadMagic,
            Error::BadPadding => ErrorView::BadPadding,
            Error::UnexpectedToken { expected, got } => ErrorView::UnexpectedToken {
                expected: expected@,
                got: got@,
            },
            Error::InvalidName(name) => ErrorView::InvalidName(name@),
            Error::UnsortedEntries(name, previous) => ErrorView::UnsortedEntries(name@, previous@),
            Error::TrailingBytes => ErrorView::TrailingBytes,
            Error::MaxDepth(limit) => ErrorView::MaxDepth(limit as nat),
            Error::CaseHackEncodeCollision(a, b) => ErrorView::CaseHackEncodeCollision(a@, b@),
            Error::CaseHackRestoreCollision { archive_name, generated_name, existing_name } =>
                ErrorView::CaseHackRestoreCollision {
                archive_name: archive_name@,
                generated_name: generated_name@,
                existing_name: existing_name@,
            },
            Error::CaseHackCounterOverflow => ErrorView::CaseHackCounterOverflow,
            Error::TokenTooLarge { size, limit } => ErrorView::TokenTooLarge {
                size: size as nat,
                limit: limit as nat,
            },
            Error::FileChanged(path) => ErrorView::FileChanged(path@),
            Error::InvalidEncoderEvent(reason) => ErrorView::InvalidEncoderEvent(reason@),
            Error::UnfinishedArchive => ErrorView::UnfinishedArchive,
            Error::RegularSizeMismatch { expected, actual } => ErrorView::RegularSizeMismatch {
                expected: expected as nat,
                actual: actual as nat,
            },
            Error::EncoderPoisoned => ErrorView::EncoderPoisoned,
            Error::UnsupportedFileType(path) => ErrorView::UnsupportedFileType(path@),
            Error::Io(e) => ErrorView::Io(e@),
        }
    }
}

}
