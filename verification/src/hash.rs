//! SHA-256 of an archive as it is written.

use sha2::Digest;
use vstd::prelude::*;

use crate::io::{ByteSink, IoError, IoErrorView};

verus! {

/// The running state of the SHA-256 implementation.
#[verifier::external_type_specification]
#[verifier::external_body]
pub struct ExSha256(sha2::Sha256);

/// The bytes that a hasher has been given so far.
pub uninterp spec fn absorbed(hasher: sha2::Sha256) -> Seq<u8>;

/// The SHA-256 digest of `bytes`.
pub uninterp spec fn sha256(bytes: Seq<u8>) -> Seq<u8>;

/// `sha2::Sha256::new`: a hasher that has been given nothing.
#[verifier::external_body]
fn sha256_new() -> (r: sha2::Sha256)
    ensures
        absorbed(r) == Seq::<u8>::empty(),
{
    sha2::Sha256::new()
}

/// `sha2::Sha256::update`: the hasher has been given `bytes` as well.
#[verifier::external_body]
fn sha256_update(hasher: &mut sha2::Sha256, bytes: &[u8])
    ensures
        absorbed(*final(hasher)) == absorbed(*old(hasher)) + bytes@,
{
    hasher.update(bytes);
}

/// `sha2::Sha256::finalize`: the digest is a function of all that the hasher
/// was given, however that was divided. What the function is is not said.
#[verifier::external_body]
fn sha256_finalize(hasher: sha2::Sha256) -> (r: [u8; 32])
    ensures
        r@ == sha256(absorbed(hasher)),
{
    hasher.finalize().into()
}

/// The byte length and SHA-256 digest of an encoded NAR.
#[must_use]
#[derive(Clone, Copy, Debug, PartialEq, Eq, Hash)]
pub struct NarHash {
    /// Encoded NAR size in bytes.
    pub size: u64,
    /// SHA-256 of the complete encoded NAR.
    pub sha256: [u8; 32],
}

impl NarHash {
    /// Split the result into `(size, sha256)`.
    pub fn into_parts(self) -> (r: (u64, [u8; 32]))
        ensures
            r == (self.size, self.sha256),
    {
        (self.size, self.sha256)
    }

    /// The size, which counts up to 2^64, and the digest are those of `bytes`.
    pub open spec fn describes(&self, bytes: Seq<u8>) -> bool {
        &&& self.size == bytes.len() % 0x1_0000_0000_0000_0000
        &&& self.sha256@ == sha256(bytes)
    }
}

/// A sink that keeps the length and the digest of what is written to it.
pub struct HashSink {
    hasher: sha2::Sha256,
    len: u64,
}

impl HashSink {
    pub fn new() -> (r: Self)
        ensures
            r.sound(),
            r.written() == Seq::<u8>::empty(),
    {
        HashSink { hasher: sha256_new(), len: 0 }
    }

    pub fn finish(self) -> (r: NarHash)
        requires
            self.sound(),
        ensures
            r.describes(self.written()),
    {
        NarHash { size: self.len, sha256: sha256_finalize(self.hasher) }
    }
}

impl ByteSink for HashSink {
    closed spec fn written(&self) -> Seq<u8> {
        absorbed(self.hasher)
    }

    closed spec fn sound(&self) -> bool {
        self.len == absorbed(self.hasher).len() % 0x1_0000_0000_0000_0000
    }

    open spec fn in_step(&self) -> bool {
        true
    }

    open spec fn setup(&self) -> Seq<Seq<u8>> {
        Seq::empty()
    }

    open spec fn reliable(&self) -> bool {
        true
    }

    open spec fn interruptions(&self) -> nat {
        0
    }

    open spec fn held_back(&self) -> nat {
        0
    }

    open spec fn failure(&self) -> Option<IoErrorView> {
        None
    }

    open spec fn overcounted(&self) -> bool {
        false
    }

    fn write(&mut self, buf: &[u8]) -> (r: Result<usize, IoError>) {
        sha256_update(&mut self.hasher, buf);
        self.len = self.len.wrapping_add(buf.len() as u64);
        assert(buf@.take(buf@.len() as int) =~= buf@);
        Ok(buf.len())
    }

    fn flush(&mut self) -> (r: Result<(), IoError>) {
        Ok(())
    }
}

}
