//! Section descriptors of an ELF image, 32-bit or 64-bit and in either
//! byte order, and the section table as a value that can be edited and
//! written back.

use vstd::prelude::*;

use crate::bytes::{
    enc32, enc64, lemma_enc32_of_uint32, lemma_enc64_of_uint64, lemma_enc_len,
    lemma_uint32_of_enc32, lemma_uint64_of_enc64, push_u32, push_u64, read_u32, read_u64,
    uint32, uint64,
};

verus! {

/// Size in bytes of one entry of the section table of a 64-bit image.
pub const WIDE_ENTRY_SIZE: usize = 64;

/// Size in bytes of one entry of the section table of a 32-bit image.
pub const NARROW_ENTRY_SIZE: usize = 40;

/// How an image stores its numbers: in fields of 64 bits or of 32, most
/// significant byte first or last.
#[derive(Clone, Copy, Debug, PartialEq, Eq, Structural)]
pub struct Encoding {
    /// The image is a 64-bit image.
    pub wide: bool,
    /// The image is big-endian.
    pub big: bool,
}

impl Encoding {
    /// Size in bytes of one entry of the section table.
    pub open spec fn entry_size(self) -> int {
        if self.wide {
            64
        } else {
            40
        }
    }

    /// How far behind the start of the table entry `j` starts.
    pub open spec fn entry_offset(self, j: int) -> int {
        if self.wide {
            64 * j
        } else {
            40 * j
        }
    }

    /// Size in bytes of the file header.
    pub open spec fn header_size(self) -> int {
        if self.wide {
            64
        } else {
            52
        }
    }

    /// Size in bytes of one entry of the section table.
    pub fn entry_len(&self) -> (n: usize)
        ensures
            n == self.entry_size(),
    {
        if self.wide {
            WIDE_ENTRY_SIZE
        } else {
            NARROW_ENTRY_SIZE
        }
    }
}

/// Section type: data that the program defines.
pub const SHT_PROGBITS: u32 = 1;

/// Section type: a string table.
pub const SHT_STRTAB: u32 = 3;

/// Section type: a section that takes no room in the file.
pub const SHT_NOBITS: u32 = 8;

/// One entry of the section table.
#[derive(Clone, Copy, Debug, PartialEq, Eq, Structural)]
pub struct SectionHeader {
    /// Where the section's name starts in the name table.
    pub name: u32,
    /// The type tag.
    pub kind: u32,
    /// The flag bits.
    pub flags: u64,
    pub addr: u64,
    /// Where the section's bytes start in the file.
    pub offset: u64,
    /// How many bytes the section has.
    pub size: u64,
    pub link: u32,
    pub info: u32,
    pub addralign: u64,
    pub entsize: u64,
}

impl SectionHeader {
    /// Whether the section has bytes of its own in the file.
    pub open spec fn occupies_file(self) -> bool {
        self.kind != SHT_NOBITS && self.size > 0
    }

    /// The first file position behind the section's bytes.
    pub open spec fn end(self) -> int {
        self.offset + self.size
    }

    /// Whether the section's bytes and the `len` bytes from `start` on
    /// have no position in common.
    pub open spec fn clear_of(self, start: int, len: int) -> bool {
        self.end() <= start || start + len <= self.offset
    }

    /// Tells whether the section has bytes of its own in the file.
    pub fn has_file_bytes(&self) -> (r: bool)
        ensures
            r == self.occupies_file(),
    {
        self.kind != SHT_NOBITS && self.size > 0
    }

    /// Whether the numbers of the entry fit the fields of an image with
    /// the encoding `enc`.
    pub open spec fn fits(self, enc: Encoding) -> bool {
        enc.wide || (self.flags <= u32::MAX && self.addr <= u32::MAX && self.offset <= u32::MAX
            && self.size <= u32::MAX && self.addralign <= u32::MAX && self.entsize <= u32::MAX)
    }
}

/// The entry stored in the 64 bytes of `a` from `at` on, as a 64-bit
/// image stores it.
#[verifier::opaque]
pub open spec fn decode_wide(a: Seq<u8>, at: int, big: bool) -> SectionHeader {
    SectionHeader {
        name: uint32(a, at, big) as u32,
        kind: uint32(a, at + 4, big) as u32,
        flags: uint64(a, at + 8, big) as u64,
        addr: uint64(a, at + 16, big) as u64,
        offset: uint64(a, at + 24, big) as u64,
        size: uint64(a, at + 32, big) as u64,
        link: uint32(a, at + 40, big) as u32,
        info: uint32(a, at + 44, big) as u32,
        addralign: uint64(a, at + 48, big) as u64,
        entsize: uint64(a, at + 56, big) as u64,
    }
}

/// The entry stored in the 40 bytes of `a` from `at` on, as a 32-bit
/// image stores it.
#[verifier::opaque]
pub open spec fn decode_narrow(a: Seq<u8>, at: int, big: bool) -> SectionHeader {
    SectionHeader {
        name: uint32(a, at, big) as u32,
        kind: uint32(a, at + 4, big) as u32,
        flags: uint32(a, at + 8, big) as u64,
        addr: uint32(a, at + 12, big) as u64,
        offset: uint32(a, at + 16, big) as u64,
        size: uint32(a, at + 20, big) as u64,
        link: uint32(a, at + 24, big) as u32,
        info: uint32(a, at + 28, big) as u32,
        addralign: uint32(a, at + 32, big) as u64,
        entsize: uint32(a, at + 36, big) as u64,
    }
}

/// The entry stored in `a` from `at` on.
pub open spec fn decode_section(a: Seq<u8>, at: int, enc: Encoding) -> SectionHeader {
    if enc.wide {
        decode_wide(a, at, enc.big)
    } else {
        decode_narrow(a, at, enc.big)
    }
}

/// The 64 bytes that store `h` in a 64-bit image.
pub open spec fn encode_wide(h: SectionHeader, big: bool) -> Seq<u8> {
    enc32(h.name as int, big)
        + enc32(h.kind as int, big)
        + enc64(h.flags as int, big)
        + enc64(h.addr as int, big)
        + enc64(h.offset as int, big)
        + enc64(h.size as int, big)
        + enc32(h.link as int, big)
        + enc32(h.info as int, big)
        + enc64(h.addralign as int, big)
        + enc64(h.entsize as int, big)
}

/// The 40 bytes that store `h` in a 32-bit image. Of a number that does
/// not fit its field the low 32 bits are stored.
pub open spec fn encode_narrow(h: SectionHeader, big: bool) -> Seq<u8> {
    enc32(h.name as int, big)
        + enc32(h.kind as int, big)
        + enc32((h.flags % 0x1_0000_0000) as int, big)
        + enc32((h.addr % 0x1_0000_0000) as int, big)
        + enc32((h.offset % 0x1_0000_0000) as int, big)
        + enc32((h.size % 0x1_0000_0000) as int, big)
        + enc32(h.link as int, big)
        + enc32(h.info as int, big)
        + enc32((h.addralign % 0x1_0000_0000) as int, big)
        + enc32((h.entsize % 0x1_0000_0000) as int, big)
}

/// The bytes that store `h`.
pub open spec fn encode_section(h: SectionHeader, enc: Encoding) -> Seq<u8> {
    if enc.wide {
        encode_wide(h, enc.big)
    } else {
        encode_narrow(h, enc.big)
    }
}

/// The entries of a table of `count` entries stored from `at` on.
pub open spec fn table_at(a: Seq<u8>, at: int, count: nat, enc: Encoding) -> Seq<SectionHeader> {
    Seq::new(count, |j: int| decode_section(a, at + enc.entry_offset(j), enc))
}

/// The bytes that store the table `t`, entry after entry.
pub open spec fn encode_table(t: Seq<SectionHeader>, enc: Encoding) -> Seq<u8>
    decreases t.len(),
{
    if t.len() == 0 {
        Seq::empty()
    } else {
        encode_table(t.drop_last(), enc) + encode_section(t.last(), enc)
    }
}

/// Every entry of the table fits the fields of an image with the encoding
/// `enc`.
pub open spec fn table_fits(t: Seq<SectionHeader>, enc: Encoding) -> bool {
    forall|j: int| 0 <= j < t.len() ==> (#[trigger] t[j]).fits(enc)
}

/// An encoded entry has the size of an entry.
pub proof fn lemma_encode_section_len(h: SectionHeader, enc: Encoding)
    ensures
        encode_section(h, enc).len() == enc.entry_size(),
{
    let big = enc.big;
    if enc.wide {
        lemma_enc_len(h.name as int, big);
        lemma_enc_len(h.kind as int, big);
        lemma_enc_len(h.flags as int, big);
        lemma_enc_len(h.addr as int, big);
        lemma_enc_len(h.offset as int, big);
        lemma_enc_len(h.size as int, big);
        lemma_enc_len(h.link as int, big);
        lemma_enc_len(h.info as int, big);
        lemma_enc_len(h.addralign as int, big);
        lemma_enc_len(h.entsize as int, big);
    } else {
        lemma_enc_len(h.name as int, big);
        lemma_enc_len(h.kind as int, big);
        lemma_enc_len((h.flags % 0x1_0000_0000) as int, big);
        lemma_enc_len((h.addr % 0x1_0000_0000) as int, big);
        lemma_enc_len((h.offset % 0x1_0000_0000) as int, big);
        lemma_enc_len((h.size % 0x1_0000_0000) as int, big);
        lemma_enc_len(h.link as int, big);
        lemma_enc_len(h.info as int, big);
        lemma_enc_len((h.addralign % 0x1_0000_0000) as int, big);
        lemma_enc_len((h.entsize % 0x1_0000_0000) as int, big);
    }
}

/// What is read from an image fits its fields.
pub proof fn lemma_decoded_fits(a: Seq<u8>, at: int, enc: Encoding)
    ensures
        decode_section(a, at, enc).fits(enc),
{
    reveal(decode_narrow);
}

/// Decoding undoes encoding in a 64-bit image.
proof fn lemma_decode_of_encode_wide(a: Seq<u8>, at: int, h: SectionHeader, big: bool)
    requires
        0 <= at,
        at + 64 <= a.len(),
        a.subrange(at, at + 64) == encode_wide(h, big),
    ensures
        decode_wide(a, at, big) == h,
{
    reveal(decode_wide);
    let e = encode_wide(h, big);
    lemma_enc_len(h.name as int, big);
    lemma_enc_len(h.kind as int, big);
    lemma_enc_len(h.flags as int, big);
    lemma_enc_len(h.addr as int, big);
    lemma_enc_len(h.offset as int, big);
    lemma_enc_len(h.size as int, big);
    lemma_enc_len(h.link as int, big);
    lemma_enc_len(h.info as int, big);
    lemma_enc_len(h.addralign as int, big);
    lemma_enc_len(h.entsize as int, big);
    assert(a.subrange(at, at + 4) =~= enc32(h.name as int, big)) by {
        assert(a.subrange(at, at + 4) =~= e.subrange(0, 4));
        assert(e.subrange(0, 4) =~= enc32(h.name as int, big));
    }
    assert(a.subrange(at + 4, at + 8) =~= enc32(h.kind as int, big)) by {
        assert(a.subrange(at + 4, at + 8) =~= e.subrange(4, 8));
        assert(e.subrange(4, 8) =~= enc32(h.kind as int, big));
    }
    assert(a.subrange(at + 8, at + 16) =~= enc64(h.flags as int, big)) by {
        assert(a.subrange(at + 8, at + 16) =~= e.subrange(8, 16));
        assert(e.subrange(8, 16) =~= enc64(h.flags as int, big));
    }
    assert(a.subrange(at + 16, at + 24) =~= enc64(h.addr as int, big)) by {
        assert(a.subrange(at + 16, at + 24) =~= e.subrange(16, 24));
        assert(e.subrange(16, 24) =~= enc64(h.addr as int, big));
    }
    assert(a.subrange(at + 24, at + 32) =~= enc64(h.offset as int, big)) by {
        assert(a.subrange(at + 24, at + 32) =~= e.subrange(24, 32));
        assert(e.subrange(24, 32) =~= enc64(h.offset as int, big));
    }
    assert(a.subrange(at + 32, at + 40) =~= enc64(h.size as int, big)) by {
        assert(a.subrange(at + 32, at + 40) =~= e.subrange(32, 40));
        assert(e.subrange(32, 40) =~= enc64(h.size as int, big));
    }
    assert(a.subrange(at + 40, at + 44) =~= enc32(h.link as int, big)) by {
        assert(a.subrange(at + 40, at + 44) =~= e.subrange(40, 44));
        assert(e.subrange(40, 44) =~= enc32(h.link as int, big));
    }
    assert(a.subrange(at + 44, at + 48) =~= enc32(h.info as int, big)) by {
        assert(a.subrange(at + 44, at + 48) =~= e.subrange(44, 48));
        assert(e.subrange(44, 48) =~= enc32(h.info as int, big));
    }
    assert(a.subrange(at + 48, at + 56) =~= enc64(h.addralign as int, big)) by {
        assert(a.subrange(at + 48, at + 56) =~= e.subrange(48, 56));
        assert(e.subrange(48, 56) =~= enc64(h.addralign as int, big));
    }
    assert(a.subrange(at + 56, at + 64) =~= enc64(h.entsize as int, big)) by {
        assert(a.subrange(at + 56, at + 64) =~= e.subrange(56, 64));
        assert(e.subrange(56, 64) =~= enc64(h.entsize as int, big));
    }
    lemma_uint32_of_enc32(a, at, h.name as int, big);
    lemma_uint32_of_enc32(a, at + 4, h.kind as int, big);
    lemma_uint64_of_enc64(a, at + 8, h.flags as int, big);
    lemma_uint64_of_enc64(a, at + 16, h.addr as int, big);
    lemma_uint64_of_enc64(a, at + 24, h.offset as int, big);
    lemma_uint64_of_enc64(a, at + 32, h.size as int, big);
    lemma_uint32_of_enc32(a, at + 40, h.link as int, big);
    lemma_uint32_of_enc32(a, at + 44, h.info as int, big);
    lemma_uint64_of_enc64(a, at + 48, h.addralign as int, big);
    lemma_uint64_of_enc64(a, at + 56, h.entsize as int, big);
}

/// Decoding undoes encoding in a 32-bit image.
proof fn lemma_decode_of_encode_narrow(a: Seq<u8>, at: int, h: SectionHeader, big: bool)
    requires
        0 <= at,
        at + 40 <= a.len(),
        h.fits(Encoding { wide: false, big }),
        a.subrange(at, at + 40) == encode_narrow(h, big),
    ensures
        decode_narrow(a, at, big) == h,
{
    reveal(decode_narrow);
    let e = encode_narrow(h, big);
    lemma_enc_len(h.name as int, big);
    lemma_enc_len(h.kind as int, big);
    lemma_enc_len((h.flags % 0x1_0000_0000) as int, big);
    lemma_enc_len((h.addr % 0x1_0000_0000) as int, big);
    lemma_enc_len((h.offset % 0x1_0000_0000) as int, big);
    lemma_enc_len((h.size % 0x1_0000_0000) as int, big);
    lemma_enc_len(h.link as int, big);
    lemma_enc_len(h.info as int, big);
    lemma_enc_len((h.addralign % 0x1_0000_0000) as int, big);
    lemma_enc_len((h.entsize % 0x1_0000_0000) as int, big);
    assert(a.subrange(at, at + 4) =~= enc32(h.name as int, big)) by {
        assert(a.subrange(at, at + 4) =~= e.subrange(0, 4));
        assert(e.subrange(0, 4) =~= enc32(h.name as int, big));
    }
    assert(a.subrange(at + 4, at + 8) =~= enc32(h.kind as int, big)) by {
        assert(a.subrange(at + 4, at + 8) =~= e.subrange(4, 8));
        assert(e.subrange(4, 8) =~= enc32(h.kind as int, big));
    }
    assert(a.subrange(at + 8, at + 12) =~= enc32((h.flags % 0x1_0000_0000) as int, big)) by {
        assert(a.subrange(at + 8, at + 12) =~= e.subrange(8, 12));
        assert(e.subrange(8, 12) =~= enc32((h.flags % 0x1_0000_0000) as int, big));
    }
    assert(a.subrange(at + 12, at + 16) =~= enc32((h.addr % 0x1_0000_0000) as int, big)) by {
        assert(a.subrange(at + 12, at + 16) =~= e.subrange(12, 16));
        assert(e.subrange(12, 16) =~= enc32((h.addr % 0x1_0000_0000) as int, big));
    }
    assert(a.subrange(at + 16, at + 20) =~= enc32((h.offset % 0x1_0000_0000) as int, big)) by {
        assert(a.subrange(at + 16, at + 20) =~= e.subrange(16, 20));
        assert(e.subrange(16, 20) =~= enc32((h.offset % 0x1_0000_0000) as int, big));
    }
    assert(a.subrange(at + 20, at + 24) =~= enc32((h.size % 0x1_0000_0000) as int, big)) by {
        assert(a.subrange(at + 20, at + 24) =~= e.subrange(20, 24));
        assert(e.subrange(20, 24) =~= enc32((h.size % 0x1_0000_0000) as int, big));
    }
    assert(a.subrange(at + 24, at + 28) =~= enc32(h.link as int, big)) by {
        assert(a.subrange(at + 24, at + 28) =~= e.subrange(24, 28));
        assert(e.subrange(24, 28) =~= enc32(h.link as int, big));
    }
    assert(a.subrange(at + 28, at + 32) =~= enc32(h.info as int, big)) by {
        assert(a.subrange(at + 28, at + 32) =~= e.subrange(28, 32));
        assert(e.subrange(28, 32) =~= enc32(h.info as int, big));
    }
    assert(a.subrange(at + 32, at + 36) =~= enc32((h.addralign % 0x1_0000_0000) as int, big)) by {
        assert(a.subrange(at + 32, at + 36) =~= e.subrange(32, 36));
        assert(e.subrange(32, 36) =~= enc32((h.addralign % 0x1_0000_0000) as int, big));
    }
    assert(a.subrange(at + 36, at + 40) =~= enc32((h.entsize % 0x1_0000_0000) as int, big)) by {
        assert(a.subrange(at + 36, at + 40) =~= e.subrange(36, 40));
        assert(e.subrange(36, 40) =~= enc32((h.entsize % 0x1_0000_0000) as int, big));
    }
    lemma_uint32_of_enc32(a, at, h.name as int, big);
    lemma_uint32_of_enc32(a, at + 4, h.kind as int, big);
    lemma_uint32_of_enc32(a, at + 8, (h.flags % 0x1_0000_0000) as int, big);
    lemma_uint32_of_enc32(a, at + 12, (h.addr % 0x1_0000_0000) as int, big);
    lemma_uint32_of_enc32(a, at + 16, (h.offset % 0x1_0000_0000) as int, big);
    lemma_uint32_of_enc32(a, at + 20, (h.size % 0x1_0000_0000) as int, big);
    lemma_uint32_of_enc32(a, at + 24, h.link as int, big);
    lemma_uint32_of_enc32(a, at + 28, h.info as int, big);
    lemma_uint32_of_enc32(a, at + 32, (h.addralign % 0x1_0000_0000) as int, big);
    lemma_uint32_of_enc32(a, at + 36, (h.entsize % 0x1_0000_0000) as int, big);
}

/// Decoding undoes encoding: wherever the bytes of an encoded entry
/// stand, the entry is read back from them, if its numbers fit the fields.
pub proof fn lemma_decode_of_encode(a: Seq<u8>, at: int, h: SectionHeader, enc: Encoding)
    requires
        0 <= at,
        at + enc.entry_size() <= a.len(),
        h.fits(enc),
        a.subrange(at, at + enc.entry_size()) == encode_section(h, enc),
    ensures
        decode_section(a, at, enc) == h,
{
    if enc.wide {
        lemma_decode_of_encode_wide(a, at, h, enc.big);
    } else {
        lemma_decode_of_encode_narrow(a, at, h, enc.big);
    }
}

/// Encoding undoes decoding in a 64-bit image.
proof fn lemma_encode_of_decode_wide(a: Seq<u8>, at: int, big: bool)
    requires
        0 <= at,
        at + 64 <= a.len(),
    ensures
        encode_wide(decode_wide(a, at, big), big) == a.subrange(at, at + 64),
{
    reveal(decode_wide);
    lemma_enc32_of_uint32(a, at, big);
    lemma_enc32_of_uint32(a, at + 4, big);
    lemma_enc64_of_uint64(a, at + 8, big);
    lemma_enc64_of_uint64(a, at + 16, big);
    lemma_enc64_of_uint64(a, at + 24, big);
    lemma_enc64_of_uint64(a, at + 32, big);
    lemma_enc32_of_uint32(a, at + 40, big);
    lemma_enc32_of_uint32(a, at + 44, big);
    lemma_enc64_of_uint64(a, at + 48, big);
    lemma_enc64_of_uint64(a, at + 56, big);
    assert(encode_wide(decode_wide(a, at, big), big) =~= a.subrange(at, at + 4)
        + a.subrange(at + 4, at + 8)
        + a.subrange(at + 8, at + 16)
        + a.subrange(at + 16, at + 24)
        + a.subrange(at + 24, at + 32)
        + a.subrange(at + 32, at + 40)
        + a.subrange(at + 40, at + 44)
        + a.subrange(at + 44, at + 48)
        + a.subrange(at + 48, at + 56)
        + a.subrange(at + 56, at + 64));
    assert(encode_wide(decode_wide(a, at, big), big) =~= a.subrange(at, at + 64));
}

/// A 32-bit field holds a number below 2^32.
proof fn lemma_uint32_bound(a: Seq<u8>, at: int, big: bool)
    ensures
        0 <= uint32(a, at, big) < 0x1_0000_0000,
{
}

/// The four bytes that a number was read from store it, also where the
/// number is kept in 64 bits.
proof fn lemma_narrow_field(a: Seq<u8>, at: int, big: bool, v: u64)
    requires
        0 <= at,
        at + 4 <= a.len(),
        v == uint32(a, at, big) as u64,
    ensures
        enc32((v % 0x1_0000_0000) as int, big) == a.subrange(at, at + 4),
{
    lemma_uint32_bound(a, at, big);
    assert((v % 0x1_0000_0000) as int == uint32(a, at, big));
    lemma_enc32_of_uint32(a, at, big);
}

/// The four bytes that a number was read from store it.
proof fn lemma_narrow_word(a: Seq<u8>, at: int, big: bool, v: u32)
    requires
        0 <= at,
        at + 4 <= a.len(),
        v == uint32(a, at, big) as u32,
    ensures
        enc32(v as int, big) == a.subrange(at, at + 4),
{
    lemma_uint32_bound(a, at, big);
    lemma_enc32_of_uint32(a, at, big);
}

/// The fields of an entry that is read from a 32-bit image.
proof fn lemma_decode_narrow_fields(a: Seq<u8>, at: int, big: bool)
    ensures
        decode_narrow(a, at, big).name == uint32(a, at, big) as u32,
        decode_narrow(a, at, big).kind == uint32(a, at + 4, big) as u32,
        decode_narrow(a, at, big).flags == uint32(a, at + 8, big) as u64,
        decode_narrow(a, at, big).addr == uint32(a, at + 12, big) as u64,
        decode_narrow(a, at, big).offset == uint32(a, at + 16, big) as u64,
        decode_narrow(a, at, big).size == uint32(a, at + 20, big) as u64,
        decode_narrow(a, at, big).link == uint32(a, at + 24, big) as u32,
        decode_narrow(a, at, big).info == uint32(a, at + 28, big) as u32,
        decode_narrow(a, at, big).addralign == uint32(a, at + 32, big) as u64,
        decode_narrow(a, at, big).entsize == uint32(a, at + 36, big) as u64,
{
    reveal(decode_narrow);
}

/// Encoding undoes decoding in a 32-bit image.
proof fn lemma_encode_of_decode_narrow(a: Seq<u8>, at: int, big: bool)
    requires
        0 <= at,
        at + 40 <= a.len(),
    ensures
        encode_narrow(decode_narrow(a, at, big), big) == a.subrange(at, at + 40),
{
    let h = decode_narrow(a, at, big);
    lemma_decode_narrow_fields(a, at, big);
    lemma_narrow_word(a, at, big, h.name);
    lemma_narrow_word(a, at + 4, big, h.kind);
    lemma_narrow_field(a, at + 8, big, h.flags);
    lemma_narrow_field(a, at + 12, big, h.addr);
    lemma_narrow_field(a, at + 16, big, h.offset);
    lemma_narrow_field(a, at + 20, big, h.size);
    lemma_narrow_word(a, at + 24, big, h.link);
    lemma_narrow_word(a, at + 28, big, h.info);
    lemma_narrow_field(a, at + 32, big, h.addralign);
    lemma_narrow_field(a, at + 36, big, h.entsize);
    let head = a.subrange(at, at + 4) + a.subrange(at + 4, at + 8) + a.subrange(at + 8, at + 12)
        + a.subrange(at + 12, at + 16) + a.subrange(at + 16, at + 20);
    let tail = a.subrange(at + 20, at + 24) + a.subrange(at + 24, at + 28) + a.subrange(
        at + 28,
        at + 32,
    ) + a.subrange(at + 32, at + 36) + a.subrange(at + 36, at + 40);
    assert(head =~= a.subrange(at, at + 20));
    assert(tail =~= a.subrange(at + 20, at + 40));
    assert(encode_narrow(h, big) =~= head + tail);
    assert(head + tail =~= a.subrange(at, at + 40));
}

/// Encoding undoes decoding: the bytes that an entry is read from are the
/// bytes that store it.
pub proof fn lemma_encode_of_decode(a: Seq<u8>, at: int, enc: Encoding)
    requires
        0 <= at,
        at + enc.entry_size() <= a.len(),
    ensures
        encode_section(decode_section(a, at, enc), enc) == a.subrange(at, at + enc.entry_size()),
{
    if enc.wide {
        lemma_encode_of_decode_wide(a, at, enc.big);
    } else {
        lemma_encode_of_decode_narrow(a, at, enc.big);
    }
}

/// A table that is read and written out again is the bytes it was read
/// from.
pub proof fn lemma_table_encodes_back(a: Seq<u8>, at: int, count: nat, enc: Encoding)
    requires
        0 <= at,
        at + enc.entry_offset(count as int) <= a.len(),
    ensures
        encode_table(table_at(a, at, count, enc), enc) == a.subrange(
            at,
            at + enc.entry_offset(count as int),
        ),
    decreases count,
{
    let t = table_at(a, at, count, enc);
    if count == 0 {
        assert(encode_table(t, enc) =~= a.subrange(at, at));
    } else {
        let shorter = (count - 1) as nat;
        lemma_table_encodes_back(a, at, shorter, enc);
        assert(t.drop_last() =~= table_at(a, at, shorter, enc));
        lemma_encode_of_decode(a, at + enc.entry_offset(shorter as int), enc);
        assert(t.last() == decode_section(a, at + enc.entry_offset(shorter as int), enc));
        assert(encode_table(t, enc) =~= a.subrange(at, at + enc.entry_offset(count as int)));
    }
}

/// An encoded table has the size of an entry for each entry.
pub proof fn lemma_encode_table_len(t: Seq<SectionHeader>, enc: Encoding)
    ensures
        encode_table(t, enc).len() == enc.entry_offset(t.len() as int),
    decreases t.len(),
{
    if t.len() > 0 {
        lemma_encode_table_len(t.drop_last(), enc);
        lemma_encode_section_len(t.last(), enc);
    }
}

/// Entry `j` of an encoded table is stored in its `j`-th block.
pub proof fn lemma_encode_table_entry(t: Seq<SectionHeader>, j: int, enc: Encoding)
    requires
        0 <= j < t.len(),
    ensures
        encode_table(t, enc).len() == enc.entry_offset(t.len() as int),
        encode_table(t, enc).subrange(enc.entry_offset(j), enc.entry_offset(j) + enc.entry_size())
            == encode_section(t[j], enc),
    decreases t.len(),
{
    lemma_encode_table_len(t, enc);
    lemma_encode_table_len(t.drop_last(), enc);
    lemma_encode_section_len(t.last(), enc);
    let head = encode_table(t.drop_last(), enc);
    let all = encode_table(t, enc);
    let from = enc.entry_offset(j);
    let to = enc.entry_offset(j) + enc.entry_size();
    if j == t.len() - 1 {
        assert(all.subrange(from, to) =~= encode_section(t[j], enc));
    } else {
        lemma_encode_table_entry(t.drop_last(), j, enc);
        assert(t.drop_last()[j] == t[j]);
        assert(all.subrange(from, to) =~= head.subrange(from, to));
    }
}

/// A table that is written out and read again is the same table, wherever
/// its bytes stand, if its numbers fit the fields.
pub proof fn lemma_table_round_trip(a: Seq<u8>, at: int, t: Seq<SectionHeader>, enc: Encoding)
    requires
        0 <= at,
        at + enc.entry_offset(t.len() as int) <= a.len(),
        table_fits(t, enc),
        a.subrange(at, at + enc.entry_offset(t.len() as int)) == encode_table(t, enc),
    ensures
        table_at(a, at, t.len(), enc) == t,
{
    let block = a.subrange(at, at + enc.entry_offset(t.len() as int));
    assert forall|j: int| 0 <= j < t.len() implies #[trigger] table_at(a, at, t.len(), enc)[j]
        == t[j] by {
        lemma_encode_table_entry(t, j, enc);
        let from = enc.entry_offset(j);
        assert(a.subrange(at + from, at + from + enc.entry_size()) =~= block.subrange(
            from,
            from + enc.entry_size(),
        ));
        assert(t[j].fits(enc));
        lemma_decode_of_encode(a, at + from, t[j], enc);
    }
    assert(table_at(a, at, t.len(), enc) =~= t);
}

/// Reads the entry that a 64-bit image stores from `at` on.
fn read_wide(a: &[u8], at: usize, big: bool) -> (h: SectionHeader)
    requires
        at + 64 <= a.len(),
    ensures
        h == decode_wide(a@, at as int, big),
{
    reveal(decode_wide);
    SectionHeader {
        name: read_u32(a, at, big),
        kind: read_u32(a, at + 4, big),
        flags: read_u64(a, at + 8, big),
        addr: read_u64(a, at + 16, big),
        offset: read_u64(a, at + 24, big),
        size: read_u64(a, at + 32, big),
        link: read_u32(a, at + 40, big),
        info: read_u32(a, at + 44, big),
        addralign: read_u64(a, at + 48, big),
        entsize: read_u64(a, at + 56, big),
    }
}

/// Reads the entry that a 32-bit image stores from `at` on.
fn read_narrow(a: &[u8], at: usize, big: bool) -> (h: SectionHeader)
    requires
        at + 40 <= a.len(),
    ensures
        h == decode_narrow(a@, at as int, big),
{
    reveal(decode_narrow);
    SectionHeader {
        name: read_u32(a, at, big),
        kind: read_u32(a, at + 4, big),
        flags: read_u32(a, at + 8, big) as u64,
        addr: read_u32(a, at + 12, big) as u64,
        offset: read_u32(a, at + 16, big) as u64,
        size: read_u32(a, at + 20, big) as u64,
        link: read_u32(a, at + 24, big),
        info: read_u32(a, at + 28, big),
        addralign: read_u32(a, at + 32, big) as u64,
        entsize: read_u32(a, at + 36, big) as u64,
    }
}

/// Reads the entry stored from `at` on.
pub fn read_section(a: &[u8], at: usize, enc: Encoding) -> (h: SectionHeader)
    requires
        at + enc.entry_size() <= a.len(),
    ensures
        h == decode_section(a@, at as int, enc),
{
    if enc.wide {
        read_wide(a, at, enc.big)
    } else {
        read_narrow(a, at, enc.big)
    }
}

/// Appends the 64 bytes that store `h` in a 64-bit image.
fn push_wide(dst: &mut Vec<u8>, h: &SectionHeader, big: bool)
    ensures
        final(dst)@ == old(dst)@ + encode_wide(*h, big),
{
    push_u32(dst, h.name, big);
    push_u32(dst, h.kind, big);
    push_u64(dst, h.flags, big);
    push_u64(dst, h.addr, big);
    push_u64(dst, h.offset, big);
    push_u64(dst, h.size, big);
    push_u32(dst, h.link, big);
    push_u32(dst, h.info, big);
    push_u64(dst, h.addralign, big);
    push_u64(dst, h.entsize, big);
    assert(dst@ =~= old(dst)@ + encode_wide(*h, big));
}

/// Appends the 40 bytes that store `h` in a 32-bit image.
fn push_narrow(dst: &mut Vec<u8>, h: &SectionHeader, big: bool)
    ensures
        final(dst)@ == old(dst)@ + encode_narrow(*h, big),
{
    push_u32(dst, h.name, big);
    push_u32(dst, h.kind, big);
    push_u32(dst, (h.flags % 0x1_0000_0000) as u32, big);
    push_u32(dst, (h.addr % 0x1_0000_0000) as u32, big);
    push_u32(dst, (h.offset % 0x1_0000_0000) as u32, big);
    push_u32(dst, (h.size % 0x1_0000_0000) as u32, big);
    push_u32(dst, h.link, big);
    push_u32(dst, h.info, big);
    push_u32(dst, (h.addralign % 0x1_0000_0000) as u32, big);
    push_u32(dst, (h.entsize % 0x1_0000_0000) as u32, big);
    assert(dst@ =~= old(dst)@ + encode_narrow(*h, big));
}

/// Appends the bytes that store `h`.
pub fn push_section(dst: &mut Vec<u8>, h: &SectionHeader, enc: Encoding)
    ensures
        final(dst)@ == old(dst)@ + encode_section(*h, enc),
{
    if enc.wide {
        push_wide(dst, h, enc.big);
    } else {
        push_narrow(dst, h, enc.big);
    }
}

/// A section table taken out of its file: the ordered list of its entries.
pub struct SectionTable {
    pub entries: Vec<SectionHeader>,
}

impl View for SectionTable {
    type V = Seq<SectionHeader>;

    open spec fn view(&self) -> Seq<SectionHeader> {
        self.entries@
    }
}

impl SectionTable {
    /// Reads a table of `count` entries stored from `at` on; `None` where
    /// the file ends before the table does.
    pub fn parse(a: &[u8], at: usize, count: usize, enc: Encoding) -> (r: Option<SectionTable>)
        ensures
            r is Some <==> at + enc.entry_offset(count as int) <= a.len(),
            r matches Some(t) ==> t@ == table_at(a@, at as int, count as nat, enc),
    {
        let size: usize = enc.entry_len();
        if at > a.len() || count > (a.len() - at) / size {
            return None;
        }
        let mut entries: Vec<SectionHeader> = Vec::new();
        let mut j: usize = 0;
        while j < count
            invariant
                j <= count,
                size == enc.entry_size(),
                at + enc.entry_offset(count as int) <= a.len(),
                entries@ == table_at(a@, at as int, j as nat, enc),
            decreases count - j,
        {
            assert(enc.entry_offset(j as int) + enc.entry_size() <= enc.entry_offset(count as int));
            assert(size * j == enc.entry_offset(j as int));
            entries.push(read_section(a, at + size * j, enc));
            j += 1;
            assert(entries@ =~= table_at(a@, at as int, j as nat, enc));
        }
        Some(SectionTable { entries })
    }

    /// The number of entries.
    pub fn len(&self) -> (n: usize)
        ensures
            n == self@.len(),
    {
        self.entries.len()
    }

    /// Entry `j`.
    pub fn get(&self, j: usize) -> (h: SectionHeader)
        requires
            j < self@.len(),
        ensures
            h == self@[j as int],
    {
        self.entries[j]
    }

    /// Adds `h` behind the last entry.
    pub fn append(&mut self, h: SectionHeader)
        ensures
            final(self)@ == old(self)@.push(h),
    {
        self.entries.push(h);
    }

    /// Puts `h` in the place of entry `j`.
    pub fn replace(&mut self, j: usize, h: SectionHeader)
        requires
            j < old(self)@.len(),
        ensures
            final(self)@ == old(self)@.update(j as int, h),
    {
        self.entries[j] = h;
    }

    /// Takes entry `j` out; the entries behind it move up by one.
    pub fn remove(&mut self, j: usize) -> (h: SectionHeader)
        requires
            j < old(self)@.len(),
        ensures
            h == old(self)@[j as int],
            final(self)@ == old(self)@.remove(j as int),
    {
        self.entries.remove(j)
    }

    /// Writes the table out, entry after entry.
    pub fn serialize(&self, enc: Encoding) -> (out: Vec<u8>)
        ensures
            out@ == encode_table(self@, enc),
    {
        let mut out: Vec<u8> = Vec::new();
        let mut j: usize = 0;
        while j < self.entries.len()
            invariant
                j <= self.entries.len(),
                out@ == encode_table(self@.take(j as int), enc),
            decreases self.entries.len() - j,
        {
            push_section(&mut out, &self.entries[j], enc);
            proof {
                let next = self@.take(j + 1);
                assert(next.drop_last() =~= self@.take(j as int));
                assert(next.last() == self@[j as int]);
            }
            j += 1;
        }
        assert(self@.take(j as int) =~= self@);
        out
    }
}

} // verus!
