//! The canonical digest of an artifact: SHA-256 over every byte outside the
//! span that holds, or is reserved for, the signature.

use sha2::{Digest, Sha256};
use vstd::prelude::*;
use vstd::slice::slice_subrange;

use crate::bytes::append_bytes;

verus! {

/// Length in bytes of a digest.
pub const DIGEST_SIZE: usize = 32;

/// The SHA-256 digest of `data`.
pub uninterp spec fn sha256_of(data: Seq<u8>) -> Seq<u8>;

/// A byte range of an artifact: `len` bytes from `start` on.
#[derive(Clone, Copy, Debug, PartialEq, Eq, Structural)]
pub struct Span {
    pub start: usize,
    pub len: usize,
}

impl Span {
    /// The first position behind the span.
    pub open spec fn end(self) -> int {
        self.start + self.len
    }

    /// Whether the span lies inside a sequence of `n` bytes.
    pub open spec fn within(self, n: nat) -> bool {
        self.end() <= n
    }

    /// The span that covers nothing.
    pub fn empty() -> (s: Span)
        ensures
            s.start == 0,
            s.len == 0,
    {
        Span { start: 0, len: 0 }
    }
}

/// The bytes of `a` that `span` covers; what reaches past the end of `a` is
/// cut off.
pub open spec fn covered(a: Seq<u8>, span: Span) -> Seq<u8> {
    let from = if span.start <= a.len() { span.start as int } else { a.len() as int };
    let to = if span.end() <= a.len() { span.end() } else { a.len() as int };
    a.subrange(from, to)
}

/// The bytes of `a` outside `exclusion`, in their order.
pub open spec fn signable(a: Seq<u8>, exclusion: Span) -> Seq<u8> {
    let from = if exclusion.start <= a.len() { exclusion.start as int } else { a.len() as int };
    let to = if exclusion.end() <= a.len() { exclusion.end() } else { a.len() as int };
    a.subrange(0, from) + a.subrange(to, a.len() as int)
}

/// With nothing excluded the whole artifact is signable.
pub proof fn lemma_signable_of_empty_span(a: Seq<u8>, exclusion: Span)
    requires
        exclusion.len == 0,
    ensures
        signable(a, exclusion) == a,
{
    assert(signable(a, exclusion) =~= a);
}

/// Signable and covered bytes together hold every byte of the artifact
/// once: the artifact is the signable bytes with the covered ones put back
/// in at the start of the span.
pub proof fn lemma_signable_and_covered_partition(a: Seq<u8>, exclusion: Span)
    requires
        exclusion.within(a.len()),
    ensures
        signable(a, exclusion).len() + covered(a, exclusion).len() == a.len(),
        a == signable(a, exclusion).subrange(0, exclusion.start as int) + covered(a, exclusion)
            + signable(a, exclusion).subrange(
            exclusion.start as int,
            signable(a, exclusion).len() as int,
        ),
{
    let s = signable(a, exclusion);
    assert(a =~= s.subrange(0, exclusion.start as int) + covered(a, exclusion) + s.subrange(
        exclusion.start as int,
        s.len() as int,
    ));
}

/// Copies out the bytes of `artifact` that `span` covers.
pub fn covered_bytes(artifact: &[u8], span: Span) -> (out: Vec<u8>)
    ensures
        out@ == covered(artifact@, span),
{
    let n: usize = artifact.len();
    let from: usize = if span.start <= n { span.start } else { n };
    let to: usize = if span.len <= n - from { from + span.len } else { n };
    let mut out: Vec<u8> = Vec::new();
    append_bytes(&mut out, slice_subrange(artifact, from, to));
    assert(out@ =~= covered(artifact@, span));
    out
}

/// Copies out the bytes of `artifact` outside `exclusion`.
pub fn signable_bytes(artifact: &[u8], exclusion: Span) -> (out: Vec<u8>)
    ensures
        out@ == signable(artifact@, exclusion),
{
    let n: usize = artifact.len();
    let from: usize = if exclusion.start <= n { exclusion.start } else { n };
    let to: usize = if exclusion.len <= n - from { from + exclusion.len } else { n };
    let mut out: Vec<u8> = Vec::new();
    append_bytes(&mut out, slice_subrange(artifact, 0, from));
    append_bytes(&mut out, slice_subrange(artifact, to, n));
    assert(out@ =~= signable(artifact@, exclusion));
    out
}

/// Runs `sha2`'s SHA-256 (`Sha256::new`, `update`, `finalize`) over `data`.
/// Trusted: the result is the SHA-256 digest of exactly these bytes, and
/// it is 32 bytes long.
#[verifier::external_body]
fn sha256(data: &[u8]) -> (digest: Vec<u8>)
    ensures
        digest@ == sha256_of(data@),
        digest@.len() == DIGEST_SIZE,
{
    let mut hasher = Sha256::new();
    hasher.update(data);
    hasher.finalize().to_vec()
}

/// The digest that a signature attests: SHA-256 over the bytes of
/// `artifact` outside `exclusion`. The hash is unkeyed.
pub fn canonical_digest(artifact: &[u8], exclusion: Span) -> (digest: Vec<u8>)
    ensures
        digest@ == sha256_of(signable(artifact@, exclusion)),
        digest@.len() == DIGEST_SIZE,
{
    let content = signable_bytes(artifact, exclusion);
    sha256(content.as_slice())
}

} // verus!
