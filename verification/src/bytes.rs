//! Integers inside byte strings, in either byte order, and a few helpers
//! for building byte vectors.
//!
//! The value of a field is stated arithmetically, byte by byte, so that a
//! field read depends on nothing but the bytes it covers.

use vstd::prelude::*;

verus! {

/// The 16-bit value stored at `at`, most significant byte first where
/// `big` says so and last where not.
pub open spec fn uint16(a: Seq<u8>, at: int, big: bool) -> int {
    if big {
        0x100 * (a[at] as int) + a[at + 1] as int
    } else {
        a[at] as int + 0x100 * (a[at + 1] as int)
    }
}

/// The 32-bit value stored at `at`.
pub open spec fn uint32(a: Seq<u8>, at: int, big: bool) -> int {
    if big {
        0x1_0000 * uint16(a, at, big) + uint16(a, at + 2, big)
    } else {
        uint16(a, at, big) + 0x1_0000 * uint16(a, at + 2, big)
    }
}

/// The 64-bit value stored at `at`.
pub open spec fn uint64(a: Seq<u8>, at: int, big: bool) -> int {
    if big {
        0x1_0000_0000 * uint32(a, at, big) + uint32(a, at + 4, big)
    } else {
        uint32(a, at, big) + 0x1_0000_0000 * uint32(a, at + 4, big)
    }
}

/// The two bytes that store `v`.
#[verifier::opaque]
pub open spec fn enc16(v: int, big: bool) -> Seq<u8> {
    if big {
        seq![(v / 0x100) as u8, (v % 0x100) as u8]
    } else {
        seq![(v % 0x100) as u8, (v / 0x100) as u8]
    }
}

/// The four bytes that store `v`.
#[verifier::opaque]
pub open spec fn enc32(v: int, big: bool) -> Seq<u8> {
    if big {
        enc16(v / 0x1_0000, big) + enc16(v % 0x1_0000, big)
    } else {
        enc16(v % 0x1_0000, big) + enc16(v / 0x1_0000, big)
    }
}

/// The eight bytes that store `v`.
#[verifier::opaque]
pub open spec fn enc64(v: int, big: bool) -> Seq<u8> {
    if big {
        enc32(v / 0x1_0000_0000, big) + enc32(v % 0x1_0000_0000, big)
    } else {
        enc32(v % 0x1_0000_0000, big) + enc32(v / 0x1_0000_0000, big)
    }
}

/// `a` with the bytes from `at` on overwritten by `patch`.
pub open spec fn splice(a: Seq<u8>, at: int, patch: Seq<u8>) -> Seq<u8> {
    a.subrange(0, at) + patch + a.subrange(at + patch.len(), a.len() as int)
}

/// A patch changes the bytes it covers and no others.
pub proof fn lemma_splice(a: Seq<u8>, at: int, patch: Seq<u8>)
    requires
        0 <= at,
        at + patch.len() <= a.len(),
    ensures
        splice(a, at, patch).len() == a.len(),
        splice(a, at, patch).subrange(at, at + patch.len()) == patch,
        forall|p: int|
            0 <= p < a.len() && !(at <= p < at + patch.len()) ==> #[trigger] splice(a, at, patch)[p]
                == a[p],
{
    assert(splice(a, at, patch).subrange(at, at + patch.len()) =~= patch);
}

/// A stored 16-bit field reads back as the value written, wherever the two
/// bytes stand.
pub proof fn lemma_uint16_of_enc16(a: Seq<u8>, at: int, v: int, big: bool)
    requires
        0 <= v < 0x1_0000,
        0 <= at,
        at + 2 <= a.len(),
        a.subrange(at, at + 2) == enc16(v, big),
    ensures
        uint16(a, at, big) == v,
{
    reveal(enc16);
    let e = enc16(v, big);
    assert(a[at] == a.subrange(at, at + 2)[0]);
    assert(a[at + 1] == a.subrange(at, at + 2)[1]);
    if big {
        assert(e[0] == (v / 0x100) as u8);
        assert(e[1] == (v % 0x100) as u8);
    } else {
        assert(e[0] == (v % 0x100) as u8);
        assert(e[1] == (v / 0x100) as u8);
    }
}

/// A stored 32-bit field reads back as the value written.
pub proof fn lemma_uint32_of_enc32(a: Seq<u8>, at: int, v: int, big: bool)
    requires
        0 <= v < 0x1_0000_0000,
        0 <= at,
        at + 4 <= a.len(),
        a.subrange(at, at + 4) == enc32(v, big),
    ensures
        uint32(a, at, big) == v,
{
    reveal(enc32);
    let first = if big { v / 0x1_0000 } else { v % 0x1_0000 };
    let second = if big { v % 0x1_0000 } else { v / 0x1_0000 };
    lemma_enc_len(first, big);
    lemma_enc_len(second, big);
    let e = enc32(v, big);
    assert(e.len() == 4);
    assert(a.subrange(at, at + 2) =~= e.subrange(0, 2));
    assert(a.subrange(at + 2, at + 4) =~= e.subrange(2, 4));
    assert(e.subrange(0, 2) =~= enc16(first, big));
    assert(e.subrange(2, 4) =~= enc16(second, big));
    lemma_uint16_of_enc16(a, at, first, big);
    lemma_uint16_of_enc16(a, at + 2, second, big);
}

/// A stored 64-bit field reads back as the value written.
pub proof fn lemma_uint64_of_enc64(a: Seq<u8>, at: int, v: int, big: bool)
    requires
        0 <= v < 0x1_0000_0000_0000_0000,
        0 <= at,
        at + 8 <= a.len(),
        a.subrange(at, at + 8) == enc64(v, big),
    ensures
        uint64(a, at, big) == v,
{
    reveal(enc64);
    let first = if big { v / 0x1_0000_0000 } else { v % 0x1_0000_0000 };
    let second = if big { v % 0x1_0000_0000 } else { v / 0x1_0000_0000 };
    lemma_enc_len(first, big);
    lemma_enc_len(second, big);
    let e = enc64(v, big);
    assert(e.len() == 8);
    assert(a.subrange(at, at + 4) =~= e.subrange(0, 4));
    assert(a.subrange(at + 4, at + 8) =~= e.subrange(4, 8));
    assert(e.subrange(0, 4) =~= enc32(first, big));
    assert(e.subrange(4, 8) =~= enc32(second, big));
    lemma_uint32_of_enc32(a, at, first, big);
    lemma_uint32_of_enc32(a, at + 4, second, big);
}

/// The two bytes of a 16-bit field are the encoding of the value that is
/// read from them.
pub proof fn lemma_enc16_of_uint16(a: Seq<u8>, at: int, big: bool)
    requires
        0 <= at,
        at + 2 <= a.len(),
    ensures
        enc16(uint16(a, at, big), big) == a.subrange(at, at + 2),
{
    reveal(enc16);
    let v = uint16(a, at, big);
    if big {
        assert(v / 0x100 == a[at] as int);
        assert(v % 0x100 == a[at + 1] as int);
    } else {
        assert(v % 0x100 == a[at] as int);
        assert(v / 0x100 == a[at + 1] as int);
    }
    assert(enc16(v, big) =~= a.subrange(at, at + 2));
}

/// The four bytes of a 32-bit field are the encoding of the value that is
/// read from them.
pub proof fn lemma_enc32_of_uint32(a: Seq<u8>, at: int, big: bool)
    requires
        0 <= at,
        at + 4 <= a.len(),
    ensures
        enc32(uint32(a, at, big), big) == a.subrange(at, at + 4),
{
    reveal(enc32);
    let v = uint32(a, at, big);
    if big {
        assert(v / 0x1_0000 == uint16(a, at, big));
        assert(v % 0x1_0000 == uint16(a, at + 2, big));
    } else {
        assert(v % 0x1_0000 == uint16(a, at, big));
        assert(v / 0x1_0000 == uint16(a, at + 2, big));
    }
    lemma_enc16_of_uint16(a, at, big);
    lemma_enc16_of_uint16(a, at + 2, big);
    assert(enc32(v, big) =~= a.subrange(at, at + 4));
}

/// The eight bytes of a 64-bit field are the encoding of the value that
/// is read from them.
pub proof fn lemma_enc64_of_uint64(a: Seq<u8>, at: int, big: bool)
    requires
        0 <= at,
        at + 8 <= a.len(),
    ensures
        enc64(uint64(a, at, big), big) == a.subrange(at, at + 8),
{
    reveal(enc64);
    let v = uint64(a, at, big);
    if big {
        assert(v / 0x1_0000_0000 == uint32(a, at, big));
        assert(v % 0x1_0000_0000 == uint32(a, at + 4, big));
    } else {
        assert(v % 0x1_0000_0000 == uint32(a, at, big));
        assert(v / 0x1_0000_0000 == uint32(a, at + 4, big));
    }
    lemma_enc32_of_uint32(a, at, big);
    lemma_enc32_of_uint32(a, at + 4, big);
    assert(enc64(v, big) =~= a.subrange(at, at + 8));
}

/// The lengths of the three encodings.
pub proof fn lemma_enc_len(v: int, big: bool)
    ensures
        enc16(v, big).len() == 2,
        enc32(v, big).len() == 4,
        enc64(v, big).len() == 8,
{
    reveal(enc16);
    reveal(enc32);
    reveal(enc64);
    assert(enc16(v % 0x1_0000, big).len() == 2);
    assert(enc16(v / 0x1_0000, big).len() == 2);
    assert(enc16((v % 0x1_0000_0000) % 0x1_0000, big).len() == 2);
    assert(enc16((v % 0x1_0000_0000) / 0x1_0000, big).len() == 2);
    assert(enc16((v / 0x1_0000_0000) % 0x1_0000, big).len() == 2);
    assert(enc16((v / 0x1_0000_0000) / 0x1_0000, big).len() == 2);
    assert(enc32(v % 0x1_0000_0000, big).len() == 4);
    assert(enc32(v / 0x1_0000_0000, big).len() == 4);
}

/// Two strings that hold the same bytes where a field stands hold the
/// same value in it.
pub proof fn lemma_same_bytes_same_field(a: Seq<u8>, b: Seq<u8>, at: int, big: bool)
    requires
        0 <= at,
        at + 8 <= a.len(),
        at + 8 <= b.len(),
        forall|p: int| at <= p < at + 8 ==> a[p] == b[p],
    ensures
        uint16(a, at, big) == uint16(b, at, big),
        uint32(a, at, big) == uint32(b, at, big),
        uint64(a, at, big) == uint64(b, at, big),
{
}

/// Reads the 16-bit field at `at`.
pub fn read_u16(a: &[u8], at: usize, big: bool) -> (v: u16)
    requires
        at + 2 <= a.len(),
    ensures
        v == uint16(a@, at as int, big),
{
    let first: u16 = a[at] as u16;
    let second: u16 = a[at + 1] as u16;
    if big {
        first * 0x100 + second
    } else {
        first + second * 0x100
    }
}

/// Reads the 32-bit field at `at`.
pub fn read_u32(a: &[u8], at: usize, big: bool) -> (v: u32)
    requires
        at + 4 <= a.len(),
    ensures
        v == uint32(a@, at as int, big),
{
    let first: u32 = read_u16(a, at, big) as u32;
    let second: u32 = read_u16(a, at + 2, big) as u32;
    if big {
        first * 0x1_0000 + second
    } else {
        first + second * 0x1_0000
    }
}

/// Reads the 64-bit field at `at`.
pub fn read_u64(a: &[u8], at: usize, big: bool) -> (v: u64)
    requires
        at + 8 <= a.len(),
    ensures
        v == uint64(a@, at as int, big),
{
    let first: u64 = read_u32(a, at, big) as u64;
    let second: u64 = read_u32(a, at + 4, big) as u64;
    if big {
        first * 0x1_0000_0000 + second
    } else {
        first + second * 0x1_0000_0000
    }
}

/// Appends `src` to `dst`.
pub fn append_bytes(dst: &mut Vec<u8>, src: &[u8])
    ensures
        final(dst)@ == old(dst)@ + src@,
{
    dst.extend_from_slice(src);
    assert(dst@ =~= old(dst)@ + src@);
}

/// Appends `v` as two bytes.
pub fn push_u16(dst: &mut Vec<u8>, v: u16, big: bool)
    ensures
        final(dst)@ == old(dst)@ + enc16(v as int, big),
{
    if big {
        dst.push((v / 0x100) as u8);
        dst.push((v % 0x100) as u8);
    } else {
        dst.push((v % 0x100) as u8);
        dst.push((v / 0x100) as u8);
    }
    reveal(enc16);
    assert(dst@ =~= old(dst)@ + enc16(v as int, big));
}

/// Appends `v` as four bytes.
pub fn push_u32(dst: &mut Vec<u8>, v: u32, big: bool)
    ensures
        final(dst)@ == old(dst)@ + enc32(v as int, big),
{
    if big {
        push_u16(dst, (v / 0x1_0000) as u16, big);
        push_u16(dst, (v % 0x1_0000) as u16, big);
    } else {
        push_u16(dst, (v % 0x1_0000) as u16, big);
        push_u16(dst, (v / 0x1_0000) as u16, big);
    }
    reveal(enc32);
    assert(dst@ =~= old(dst)@ + enc32(v as int, big));
}

/// Appends `v` as eight bytes.
pub fn push_u64(dst: &mut Vec<u8>, v: u64, big: bool)
    ensures
        final(dst)@ == old(dst)@ + enc64(v as int, big),
{
    if big {
        push_u32(dst, (v / 0x1_0000_0000) as u32, big);
        push_u32(dst, (v % 0x1_0000_0000) as u32, big);
    } else {
        push_u32(dst, (v % 0x1_0000_0000) as u32, big);
        push_u32(dst, (v / 0x1_0000_0000) as u32, big);
    }
    reveal(enc64);
    assert(dst@ =~= old(dst)@ + enc64(v as int, big));
}

/// Overwrites the bytes of `dst` from `at` on with `patch`.
pub fn overwrite(dst: &mut Vec<u8>, at: usize, patch: &[u8])
    requires
        at + patch.len() <= old(dst).len(),
    ensures
        final(dst)@ == splice(old(dst)@, at as int, patch@),
{
    let mut k: usize = 0;
    while k < patch.len()
        invariant
            k <= patch.len(),
            at + patch.len() <= dst.len(),
            dst.len() == old(dst).len(),
            forall|p: int| 0 <= p < at ==> dst@[p] == old(dst)@[p],
            forall|p: int| at <= p < at + k ==> dst@[p] == patch@[p - at],
            forall|p: int| at + k <= p < dst.len() ==> dst@[p] == old(dst)@[p],
        decreases patch.len() - k,
    {
        dst[at + k] = patch[k];
        k += 1;
    }
    assert(dst@ =~= splice(old(dst)@, at as int, patch@));
}

} // verus!
