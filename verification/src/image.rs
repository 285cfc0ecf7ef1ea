//! The parts of an ELF image that carry a signature: the fields of the
//! file header that locate the section table, the table, and the table of
//! section names. Images of 32 and of 64 bits, in either byte order, are
//! read.

use vstd::prelude::*;

use crate::bytes::{
    lemma_same_bytes_same_field, read_u16, read_u32, read_u64, uint16, uint32, uint64,
};
use crate::format::{has_elf_magic, is_elf_file, ELF_HEADER_SIZE};
use crate::section::{table_at, Encoding, SectionHeader, SectionTable, SHT_STRTAB};

verus! {

/// Position of the class byte, and its values for 32-bit and 64-bit images.
pub const CLASS_AT: usize = 4;

pub const CLASS_32: u8 = 1;

pub const CLASS_64: u8 = 2;

/// Position of the byte-order byte, and its values for little-endian and
/// big-endian images.
pub const DATA_AT: usize = 5;

pub const DATA_LSB: u8 = 1;

pub const DATA_MSB: u8 = 2;

/// Section counts and indexes from here on have another meaning.
pub const RESERVED_INDEXES: u16 = 0xff00;

/// How the image stores its numbers, as its class and byte-order bytes
/// say.
pub open spec fn encoding_of(a: Seq<u8>) -> Encoding {
    Encoding { wide: a[CLASS_AT as int] == CLASS_64, big: a[DATA_AT as int] == DATA_MSB }
}

/// Position of the header field that locates the section table.
pub open spec fn table_offset_at(enc: Encoding) -> int {
    if enc.wide {
        40
    } else {
        32
    }
}

/// Position of the header field that gives the size of a table entry.
pub open spec fn entry_size_at(enc: Encoding) -> int {
    if enc.wide {
        58
    } else {
        46
    }
}

/// Position of the header field that counts the sections.
pub open spec fn section_count_at(enc: Encoding) -> int {
    if enc.wide {
        60
    } else {
        48
    }
}

/// Position of the header field that names the section holding the names.
pub open spec fn names_index_at(enc: Encoding) -> int {
    if enc.wide {
        62
    } else {
        50
    }
}

/// Where the section table starts.
pub open spec fn table_offset(a: Seq<u8>) -> int {
    if encoding_of(a).wide {
        uint64(a, 40, encoding_of(a).big)
    } else {
        uint32(a, 32, encoding_of(a).big)
    }
}

/// How many sections the image has.
pub open spec fn section_count(a: Seq<u8>) -> int {
    uint16(a, section_count_at(encoding_of(a)), encoding_of(a).big)
}

/// Which section holds the section names.
pub open spec fn names_index(a: Seq<u8>) -> int {
    uint16(a, names_index_at(encoding_of(a)), encoding_of(a).big)
}

/// The section table.
pub open spec fn sections(a: Seq<u8>) -> Seq<SectionHeader> {
    table_at(a, table_offset(a), section_count(a) as nat, encoding_of(a))
}

/// How many bytes the section table takes.
pub open spec fn table_size(a: Seq<u8>) -> int {
    encoding_of(a).entry_offset(section_count(a))
}

/// The first position behind the section table.
pub open spec fn table_end(a: Seq<u8>) -> int {
    table_offset(a) + table_size(a)
}

/// The entry of the section that holds the section names.
pub open spec fn names_header(a: Seq<u8>) -> SectionHeader {
    sections(a)[names_index(a)]
}

/// The table of section names: strings that each end with a zero byte.
pub open spec fn name_table(a: Seq<u8>) -> Seq<u8> {
    a.subrange(names_header(a).offset as int, names_header(a).end())
}

/// The file header is that of an image of a known class and byte order
/// with section entries of the size of its class.
pub open spec fn header_supported(a: Seq<u8>) -> bool {
    &&& a.len() >= ELF_HEADER_SIZE
    &&& has_elf_magic(a)
    &&& (a[CLASS_AT as int] == CLASS_32 || a[CLASS_AT as int] == CLASS_64)
    &&& (a[DATA_AT as int] == DATA_LSB || a[DATA_AT as int] == DATA_MSB)
    &&& uint16(a, entry_size_at(encoding_of(a)), encoding_of(a).big) == encoding_of(
        a,
    ).entry_size()
}

/// The section table lies behind the file header and inside the file, and
/// one of its entries is named as the holder of the names.
pub open spec fn table_readable(a: Seq<u8>) -> bool {
    &&& header_supported(a)
    &&& 1 <= section_count(a) < RESERVED_INDEXES
    &&& encoding_of(a).header_size() <= table_offset(a)
    &&& table_end(a) <= a.len()
    &&& 1 <= names_index(a) < section_count(a)
}

/// Two images that hold the same bytes where the file header stands have
/// the same encoding and the same header fields.
pub proof fn lemma_same_header_same_fields(a: Seq<u8>, b: Seq<u8>)
    requires
        a.len() >= ELF_HEADER_SIZE,
        b.len() >= ELF_HEADER_SIZE,
        forall|p: int| 0 <= p < 6 ==> a[p] == b[p],
        forall|p: int| 0 <= p < encoding_of(a).header_size() ==> a[p] == b[p],
    ensures
        encoding_of(b) == encoding_of(a),
        header_supported(b) == header_supported(a),
        table_offset(b) == table_offset(a),
        section_count(b) == section_count(a),
        names_index(b) == names_index(a),
{
    let enc = encoding_of(a);
    assert(a[4] == b[4] && a[5] == b[5]);
    assert(encoding_of(b) == enc);
    assert(has_elf_magic(a) == has_elf_magic(b)) by {
        assert(a[0] == b[0] && a[1] == b[1] && a[2] == b[2] && a[3] == b[3]);
    }
    if enc.wide {
        lemma_same_bytes_same_field(a, b, 40, enc.big);
        lemma_same_bytes_same_field(a, b, 56, enc.big);
        assert(uint16(a, 58, enc.big) == uint16(b, 58, enc.big)) by {
            assert(a[58] == b[58] && a[59] == b[59]);
        }
        assert(uint16(a, 60, enc.big) == uint16(b, 60, enc.big)) by {
            assert(a[60] == b[60] && a[61] == b[61]);
        }
        assert(uint16(a, 62, enc.big) == uint16(b, 62, enc.big)) by {
            assert(a[62] == b[62] && a[63] == b[63]);
        }
    } else {
        lemma_same_bytes_same_field(a, b, 32, enc.big);
        assert(uint16(a, 46, enc.big) == uint16(b, 46, enc.big)) by {
            assert(a[46] == b[46] && a[47] == b[47]);
        }
        assert(uint16(a, 48, enc.big) == uint16(b, 48, enc.big)) by {
            assert(a[48] == b[48] && a[49] == b[49]);
        }
        assert(uint16(a, 50, enc.big) == uint16(b, 50, enc.big)) by {
            assert(a[50] == b[50] && a[51] == b[51]);
        }
    }
}

/// The table of names is a string table inside the file that ends with a
/// zero byte, and every section's name starts inside it.
pub open spec fn names_readable(a: Seq<u8>) -> bool {
    let h = names_header(a);
    &&& h.kind == SHT_STRTAB
    &&& h.size >= 1
    &&& h.end() <= a.len()
    &&& a[h.end() - 1] == 0
    &&& forall|j: int| 0 <= j < section_count(a) ==> (#[trigger] sections(a)[j]).name < h.size
}

/// The image's sections and their names can be read.
pub open spec fn readable(a: Seq<u8>) -> bool {
    table_readable(a) && names_readable(a)
}

/// How many bytes the string that starts at `at` has before its zero byte,
/// or before the table ends.
pub open spec fn name_len(names: Seq<u8>, at: int) -> nat
    decreases names.len() - at,
{
    if 0 <= at < names.len() && names[at] != 0 {
        1 + name_len(names, at + 1)
    } else {
        0
    }
}

/// The string that starts at `at` in a table of names.
pub open spec fn name_at(names: Seq<u8>, at: int) -> Seq<u8> {
    names.subrange(at, at + name_len(names, at))
}

/// The name of section `j`.
pub open spec fn section_name(a: Seq<u8>, j: int) -> Seq<u8> {
    name_at(name_table(a), sections(a)[j].name as int)
}

/// The bytes of section `j`.
pub open spec fn section_bytes(a: Seq<u8>, j: int) -> Seq<u8> {
    a.subrange(sections(a)[j].offset as int, sections(a)[j].end())
}

/// In a table that ends with a zero byte, a string that starts inside the
/// table ends before the table does.
pub proof fn lemma_name_terminated(names: Seq<u8>, at: int)
    requires
        0 <= at < names.len(),
        names[names.len() - 1] == 0,
    ensures
        at + name_len(names, at) < names.len(),
        names[at + name_len(names, at)] == 0,
    decreases names.len() - at,
{
    if names[at] != 0 {
        lemma_name_terminated(names, at + 1);
    }
}

/// A string of a table that ends with a zero byte is not changed by what
/// is added behind the table.
pub proof fn lemma_name_survives_extension(names: Seq<u8>, more: Seq<u8>, at: int)
    requires
        0 <= at < names.len(),
        names[names.len() - 1] == 0,
    ensures
        name_len(names + more, at) == name_len(names, at),
        name_at(names + more, at) == name_at(names, at),
    decreases names.len() - at,
{
    let longer = names + more;
    assert(longer[at] == names[at]);
    if names[at] != 0 {
        lemma_name_survives_extension(names, more, at + 1);
    }
    lemma_name_terminated(names, at);
    assert(name_at(longer, at) =~= name_at(names, at));
}

/// What [`read_layout`] finds in a readable image.
pub struct Layout {
    /// How the image stores its numbers.
    pub encoding: Encoding,
    /// Where the section table starts.
    pub table_offset: usize,
    /// The section table.
    pub table: SectionTable,
    /// Which section holds the names.
    pub names_index: usize,
    /// Where the table of names starts.
    pub names_offset: usize,
    /// How long the table of names is.
    pub names_len: usize,
}

impl Layout {
    /// The layout is that of the image `a`.
    pub open spec fn describes(&self, a: Seq<u8>) -> bool {
        &&& readable(a)
        &&& self.encoding == encoding_of(a)
        &&& self.table_offset == table_offset(a)
        &&& self.table@ == sections(a)
        &&& self.names_index == names_index(a)
        &&& self.names_offset == names_header(a).offset
        &&& self.names_len == names_header(a).size
    }
}

/// Reads the encoding from the class and byte-order bytes.
fn read_encoding(a: &[u8]) -> (enc: Encoding)
    requires
        a.len() >= ELF_HEADER_SIZE,
    ensures
        enc == encoding_of(a@),
{
    Encoding { wide: a[CLASS_AT] == CLASS_64, big: a[DATA_AT] == DATA_MSB }
}

/// Checks the file header.
fn check_header(a: &[u8]) -> (ok: bool)
    ensures
        ok == header_supported(a@),
{
    if !is_elf_file(a) {
        return false;
    }
    let enc = read_encoding(a);
    let size_at: usize = if enc.wide { 58 } else { 46 };
    (a[CLASS_AT] == CLASS_32 || a[CLASS_AT] == CLASS_64) && (a[DATA_AT] == DATA_LSB || a[DATA_AT]
        == DATA_MSB) && read_u16(a, size_at, enc.big) as usize == enc.entry_len()
}

/// Reads the section table where the file header locates one inside the
/// file.
fn read_table(a: &[u8]) -> (r: Option<(Encoding, usize, SectionTable, usize)>)
    ensures
        r is Some <==> table_readable(a@),
        r matches Some((enc, offset, table, names)) ==> enc == encoding_of(a@) && offset
            == table_offset(a@) && table@ == sections(a@) && names == names_index(a@),
{
    if !check_header(a) {
        return None;
    }
    let enc = read_encoding(a);
    let count: u16 = read_u16(a, if enc.wide { 60 } else { 48 }, enc.big);
    let names: u16 = read_u16(a, if enc.wide { 62 } else { 50 }, enc.big);
    let offset: u64 = if enc.wide {
        read_u64(a, 40, enc.big)
    } else {
        read_u32(a, 32, enc.big) as u64
    };
    if count < 1 || count >= RESERVED_INDEXES || names < 1 || names >= count {
        return None;
    }
    let header: u64 = if enc.wide { 64 } else { 52 };
    if offset < header || offset > a.len() as u64 {
        return None;
    }
    match SectionTable::parse(a, offset as usize, count as usize, enc) {
        Some(table) => Some((enc, offset as usize, table, names as usize)),
        None => None,
    }
}

/// Reads the section table and finds the table of names. `None` where the
/// image is not readable.
pub fn read_layout(a: &[u8]) -> (r: Option<Layout>)
    ensures
        r is Some <==> readable(a@),
        r matches Some(layout) ==> layout.describes(a@),
{
    let (encoding, table_offset, table, names_index) = match read_table(a) {
        Some(found) => found,
        None => {
            return None;
        },
    };
    let h = table.get(names_index);
    if h.kind != SHT_STRTAB || h.size < 1 || h.offset > a.len() as u64 || h.size > a.len() as u64
        - h.offset {
        return None;
    }
    let names_offset: usize = h.offset as usize;
    let names_len: usize = h.size as usize;
    if a[names_offset + names_len - 1] != 0 {
        return None;
    }
    let mut j: usize = 0;
    while j < table.len()
        invariant
            j <= table@.len(),
            table@ == sections(a@),
            table@.len() == section_count(a@),
            h == names_header(a@),
            forall|k: int| 0 <= k < j ==> (#[trigger] sections(a@)[k]).name < h.size,
        decreases table@.len() - j,
    {
        if table.get(j).name as u64 >= h.size {
            return None;
        }
        j += 1;
    }
    Some(Layout { encoding, table_offset, table, names_index, names_offset, names_len })
}

/// The bytes of section `j`, if it has any in the file, lie behind the file
/// header, inside the file, and clear of the section table.
pub open spec fn section_in_place(a: Seq<u8>, j: int) -> bool {
    let h = sections(a)[j];
    h.occupies_file() ==> {
        &&& encoding_of(a).header_size() <= h.offset
        &&& h.end() <= a.len()
        &&& h.clear_of(table_offset(a), table_size(a))
    }
}

/// Sections `j` and `k` have no byte of the file in common.
pub open spec fn sections_apart(a: Seq<u8>, j: int, k: int) -> bool {
    sections(a)[j].occupies_file() && sections(a)[k].occupies_file() ==> sections(a)[j].clear_of(
        sections(a)[k].offset as int,
        sections(a)[k].size as int,
    )
}

/// The image is well formed: its sections and their names can be read,
/// every section lies inside the file, behind the file header and clear of
/// the section table, and no two sections overlap.
pub open spec fn well_formed(a: Seq<u8>) -> bool {
    &&& readable(a)
    &&& forall|j: int| 0 <= j < section_count(a) ==> #[trigger] section_in_place(a, j)
    &&& forall|j: int, k: int|
        0 <= j < k < section_count(a) ==> #[trigger] sections_apart(a, j, k)
}

/// Tells whether section `j` lies where a section may lie.
fn check_in_place(a: &[u8], layout: &Layout, j: usize) -> (ok: bool)
    requires
        layout.describes(a@),
        j < section_count(a@),
    ensures
        ok == section_in_place(a@, j as int),
{
    assert(table_readable(a@));
    let h = layout.table.get(j);
    if !h.has_file_bytes() {
        return true;
    }
    let n: u64 = a.len() as u64;
    let table_start: u64 = layout.table_offset as u64;
    let table_len: u64 = (layout.encoding.entry_len() * layout.table.len()) as u64;
    let header: u64 = if layout.encoding.wide { 64 } else { 52 };
    h.offset >= header && h.offset <= n && h.size <= n - h.offset && (h.offset + h.size
        <= table_start || table_start + table_len <= h.offset)
}

/// Tells whether section `j` overlaps none of the sections behind it in
/// the table. The sections are taken to lie inside the file.
fn check_apart_from_later(a: &[u8], layout: &Layout, j: usize) -> (ok: bool)
    requires
        layout.describes(a@),
        j < section_count(a@),
        forall|k: int| 0 <= k < section_count(a@) ==> #[trigger] section_in_place(a@, k),
    ensures
        ok == forall|k: int| j < k < section_count(a@) ==> #[trigger] sections_apart(
            a@,
            j as int,
            k,
        ),
{
    let count: usize = layout.table.len();
    let h = layout.table.get(j);
    if !h.has_file_bytes() {
        return true;
    }
    assert(section_in_place(a@, j as int));
    let mut k: usize = j + 1;
    while k < count
        invariant
            j < k <= count,
            count == section_count(a@),
            layout.table@ == sections(a@),
            h == sections(a@)[j as int],
            h.occupies_file(),
            h.end() <= a.len(),
            forall|m: int| 0 <= m < section_count(a@) ==> #[trigger] section_in_place(a@, m),
            forall|m: int| j < m < k ==> #[trigger] sections_apart(a@, j as int, m),
        decreases count - k,
    {
        let other = layout.table.get(k);
        if other.has_file_bytes() {
            assert(section_in_place(a@, k as int));
            if !(h.offset + h.size <= other.offset || other.offset + other.size <= h.offset) {
                assert(!sections_apart(a@, j as int, k as int));
                return false;
            }
        }
        k += 1;
    }
    true
}

/// Tells whether the image with the layout `layout` is well formed.
pub(crate) fn check_well_formed(a: &[u8], layout: &Layout) -> (ok: bool)
    requires
        layout.describes(a@),
    ensures
        ok == well_formed(a@),
{
    let count: usize = layout.table.len();
    let mut j: usize = 0;
    while j < count
        invariant
            j <= count,
            count == section_count(a@),
            layout.describes(a@),
            forall|m: int| 0 <= m < j ==> #[trigger] section_in_place(a@, m),
        decreases count - j,
    {
        if !check_in_place(a, layout, j) {
            return false;
        }
        j += 1;
    }
    let mut j: usize = 0;
    while j < count
        invariant
            j <= count,
            count == section_count(a@),
            layout.describes(a@),
            forall|m: int| 0 <= m < section_count(a@) ==> #[trigger] section_in_place(a@, m),
            forall|m: int, k: int|
                0 <= m < j && m < k < section_count(a@) ==> #[trigger] sections_apart(a@, m, k),
        decreases count - j,
    {
        if !check_apart_from_later(a, layout, j) {
            return false;
        }
        j += 1;
    }
    true
}

/// Tells whether `a` is a well-formed image.
pub fn is_well_formed(a: &[u8]) -> (ok: bool)
    ensures
        ok == well_formed(a@),
{
    match read_layout(a) {
        Some(layout) => check_well_formed(a, &layout),
        None => false,
    }
}

} // verus!
