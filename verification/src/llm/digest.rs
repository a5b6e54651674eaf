//! SHA-256 of model weights, absorbed chunk by chunk (sha2 crate).

use vstd::prelude::*;
use sha2::Digest;

verus! {

/// A SHA-256 computation fed in chunks: a `sha2::Sha256` hasher in a
/// private field. The bytes it has absorbed so far are `sha256_absorbed`.
#[verifier::external_body]
pub struct Sha256Stream {
    hasher: sha2::Sha256,
}

/// The bytes a stream's hasher has absorbed so far.
pub uninterp spec fn sha256_absorbed(s: Sha256Stream) -> Seq<u8>;

/// The SHA-256 digest of `data`.
pub uninterp spec fn sha256(data: Seq<u8>) -> Seq<u8>;

/// `sha2::Sha256::new`: a hasher that has absorbed nothing.
#[verifier::external_body]
fn stream_new() -> (s: Sha256Stream)
    ensures
        sha256_absorbed(s) == Seq::<u8>::empty(),
{
    Sha256Stream { hasher: sha2::Sha256::new() }
}

/// `Digest::update`: the hasher absorbs `data` after what it held.
#[verifier::external_body]
fn stream_update(s: &mut Sha256Stream, data: &[u8])
    ensures
        sha256_absorbed(*final(s)) == sha256_absorbed(*old(s)) + data@,
{
    s.hasher.update(data);
}

/// `Digest::finalize`: the 32-byte digest of everything absorbed.
#[verifier::external_body]
fn stream_finalize(s: Sha256Stream) -> (d: Vec<u8>)
    ensures
        d@ == sha256(sha256_absorbed(s)),
        d@.len() == 32,
{
    s.hasher.finalize().to_vec()
}

impl Sha256Stream {
    /// The bytes fed so far.
    pub open spec fn absorbed(self) -> Seq<u8> {
        sha256_absorbed(self)
    }

    /// A computation that has been fed nothing.
    pub fn new() -> (s: Self)
        ensures
            s.absorbed() == Seq::<u8>::empty(),
    {
        stream_new()
    }

    /// Feeds the next chunk.
    pub fn update(&mut self, data: &[u8])
        ensures
            final(self).absorbed() == old(self).absorbed() + data@,
    {
        stream_update(self, data);
    }

    /// The digest of everything fed.
    pub fn finish(self) -> (d: Vec<u8>)
        ensures
            d@ == sha256(self.absorbed()),
            d@.len() == 32,
    {
        stream_finalize(self)
    }
}

} // verus!
