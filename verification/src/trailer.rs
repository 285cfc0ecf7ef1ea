//! The trailer strategy: behind an opaque file the signature is the last
//! bytes of the file. How many they are is not stored: it is the length of
//! the signatures of the key at hand.

use vstd::prelude::*;

use crate::digest::Span;

verus! {

/// The trailer of a file of `n` bytes: its last `sig_len` bytes. A shorter
/// file has none.
pub open spec fn trailer_of(n: nat, sig_len: usize) -> Option<Span> {
    if n < sig_len {
        None
    } else {
        Some(Span { start: (n - sig_len) as usize, len: sig_len })
    }
}

/// A file of `n` bytes with a trailer of `sig_len` bytes fits in memory.
pub open spec fn trailer_fits(n: nat, sig_len: usize) -> bool {
    n + sig_len <= usize::MAX
}

/// Finds the trailer of a file of `n` bytes.
pub fn locate_trailer(n: usize, sig_len: usize) -> (r: Option<Span>)
    ensures
        r == trailer_of(n as nat, sig_len),
{
    if n < sig_len {
        None
    } else {
        Some(Span { start: n - sig_len, len: sig_len })
    }
}

/// Tells whether a file of `n` bytes can take a trailer of `sig_len` bytes.
pub fn check_trailer_fits(n: usize, sig_len: usize) -> (r: bool)
    ensures
        r == trailer_fits(n as nat, sig_len),
{
    sig_len <= usize::MAX - n
}

} // verus!
