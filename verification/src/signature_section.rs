//! The section strategy: in an ELF image the signature is the payload of
//! the one section named `.signature`.

use vstd::prelude::*;
use vstd::slice::slice_subrange;

use crate::bytes::{
    append_bytes, enc16, enc32, enc64, lemma_enc_len, overwrite, push_u16, push_u32, push_u64,
    splice,
};
use crate::digest::{covered, covered_bytes, Span};
use crate::format::ELF_HEADER_SIZE;
use crate::image::{
    check_well_formed, encoding_of, lemma_name_terminated, name_at, name_len, name_table,
    names_header, names_index, names_readable, read_layout, readable, section_count,
    section_count_at, section_in_place, section_name, sections, table_end, table_offset,
    table_offset_at, table_readable, well_formed, Layout, RESERVED_INDEXES,
};
use crate::section::{
    encode_table, lemma_encode_table_len, Encoding, SectionHeader, SHT_NOBITS, SHT_PROGBITS,
    SHT_STRTAB,
};

verus! {

/// Length of the reserved name with the zero byte that ends it.
pub const RESERVED_NAME_SIZE: usize = 11;

/// The reserved section name, `.signature`.
pub open spec fn reserved_name() -> Seq<u8> {
    seq![0x2eu8, 0x73u8, 0x69u8, 0x67u8, 0x6eu8, 0x61u8, 0x74u8, 0x75u8, 0x72u8, 0x65u8]
}

/// Section `j` of the image bears the reserved name.
pub open spec fn is_signature_section(a: Seq<u8>, j: int) -> bool {
    0 <= j < section_count(a) && section_name(a, j) == reserved_name()
}

/// What a search for the signature section can come to.
#[derive(Clone, Copy, Debug, PartialEq, Eq, Structural)]
pub enum Lookup {
    /// The sections of the image cannot be read.
    Unreadable,
    /// No section bears the reserved name.
    Absent,
    /// More than one section bears the reserved name, or the one that does
    /// has no bytes in the file or reaches past the end of the file.
    Malformed,
    /// Section `index` is the signature section, and `span` its payload.
    Found { index: usize, span: Span },
}

/// The outcome of the search in the image `a`.
pub open spec fn lookup_of(a: Seq<u8>) -> Lookup {
    if !readable(a) {
        Lookup::Unreadable
    } else if !(exists|i: int| is_signature_section(a, i)) {
        Lookup::Absent
    } else {
        let i = choose|i: int| is_signature_section(a, i);
        let h = sections(a)[i];
        if (forall|j: int| is_signature_section(a, j) ==> j == i) && h.kind != SHT_NOBITS
            && h.end() <= a.len() {
            Lookup::Found {
                index: i as usize,
                span: Span { start: h.offset as usize, len: h.size as usize },
            }
        } else {
            Lookup::Malformed
        }
    }
}

/// The string at `at` is the reserved name exactly where the ten bytes from
/// `at` on spell it and a zero byte follows them.
pub proof fn lemma_reserved_name_spelled(names: Seq<u8>, at: int)
    requires
        0 <= at < names.len(),
        names[names.len() - 1] == 0,
    ensures
        name_at(names, at) == reserved_name() <==> at + RESERVED_NAME_SIZE <= names.len()
            && names.subrange(at, at + 10) == reserved_name() && names[at + 10] == 0,
{
    let r = reserved_name();
    lemma_name_terminated(names, at);
    if name_at(names, at) == r {
        assert(name_at(names, at).len() == 10);
        assert(name_len(names, at) == 10);
        assert(names.subrange(at, at + 10) == r);
    }
    if at + RESERVED_NAME_SIZE <= names.len() && names.subrange(at, at + 10) == r && names[at + 10]
        == 0 {
        let s = names.subrange(at, at + 10);
        assert forall|p: int| at <= p < at + 10 implies names[p] != 0 by {
            assert(names[p] == s[p - at]);
            assert(s[p - at] == r[p - at]);
        }
        lemma_name_len_is(names, at, 10);
    }
}

/// A string has the length `n` where `n` bytes other than zero are followed
/// by a zero byte.
proof fn lemma_name_len_is(names: Seq<u8>, at: int, n: nat)
    requires
        0 <= at,
        at + n < names.len(),
        forall|p: int| at <= p < at + n ==> names[p] != 0,
        names[at + n] == 0,
    ensures
        name_len(names, at) == n,
    decreases n,
{
    if n > 0 {
        lemma_name_len_is(names, at + 1, (n - 1) as nat);
    }
}

/// Tells whether the string at `at` is the reserved name.
fn spells_reserved_name(names: &[u8], at: usize) -> (r: bool)
    requires
        at < names.len(),
        names@[names.len() - 1] == 0,
    ensures
        r == (name_at(names@, at as int) == reserved_name()),
{
    proof {
        lemma_reserved_name_spelled(names@, at as int);
    }
    if names.len() - at < RESERVED_NAME_SIZE {
        return false;
    }
    let r = names[at] == 0x2e && names[at + 1] == 0x73 && names[at + 2] == 0x69 && names[at + 3]
        == 0x67 && names[at + 4] == 0x6e && names[at + 5] == 0x61 && names[at + 6] == 0x74
        && names[at + 7] == 0x75 && names[at + 8] == 0x72 && names[at + 9] == 0x65 && names[at
        + 10] == 0;
    proof {
        let s = names@.subrange(at as int, at + 10);
        if r {
            assert(s =~= reserved_name());
        } else if names[at as int + 10] == 0 {
            if s == reserved_name() {
                assert(s[0] == names[at as int]);
                assert(s[1] == names[at as int + 1]);
                assert(s[2] == names[at as int + 2]);
                assert(s[3] == names[at as int + 3]);
                assert(s[4] == names[at as int + 4]);
                assert(s[5] == names[at as int + 5]);
                assert(s[6] == names[at as int + 6]);
                assert(s[7] == names[at as int + 7]);
                assert(s[8] == names[at as int + 8]);
                assert(s[9] == names[at as int + 9]);
            }
        }
    }
    r
}

/// Searches the section table of `a` for the section named `.signature`.
pub fn locate_section(a: &[u8]) -> (r: Lookup)
    ensures
        r == lookup_of(a@),
{
    let layout = match read_layout(a) {
        Some(layout) => layout,
        None => {
            return Lookup::Unreadable;
        },
    };
    assert(layout.names_offset + layout.names_len == names_header(a@).end());
    assert(names_header(a@).end() <= a.len()) by {
        assert(names_readable(a@));
    }
    let names = slice_subrange(a, layout.names_offset, layout.names_offset + layout.names_len);
    assert(names@ == name_table(a@));
    let mut found: Option<usize> = None;
    let mut twice: bool = false;
    let mut j: usize = 0;
    while j < layout.table.len()
        invariant
            j <= section_count(a@),
            layout.describes(a@),
            layout.table@.len() == section_count(a@),
            names@ == name_table(a@),
            found matches Some(i) ==> i < j && is_signature_section(a@, i as int),
            found is None ==> !twice && forall|k: int| 0 <= k < j ==> !is_signature_section(a@, k),
            !twice ==> forall|k: int|
                0 <= k < j && is_signature_section(a@, k) ==> found == Some(k as usize),
            twice ==> exists|k: int, l: int|
                k != l && is_signature_section(a@, k) && is_signature_section(a@, l),
        decreases section_count(a@) - j,
    {
        let h = layout.table.get(j);
        assert(h == sections(a@)[j as int]);
        if spells_reserved_name(names, h.name as usize) {
            assert(is_signature_section(a@, j as int));
            match found {
                Some(i) => {
                    twice = true;
                    assert(i as int != j as int && is_signature_section(a@, i as int)
                        && is_signature_section(a@, j as int));
                },
                None => {
                    found = Some(j);
                },
            }
        }
        j += 1;
    }
    match found {
        None => {
            assert(!(exists|i: int| is_signature_section(a@, i)));
            Lookup::Absent
        },
        Some(i) => {
            let h = layout.table.get(i);
            proof {
                let c = choose|c: int| is_signature_section(a@, c);
                if !twice {
                    assert(c == i);
                }
            }
            if !twice && h.kind != SHT_NOBITS && h.offset <= a.len() as u64 && h.size
                <= a.len() as u64 - h.offset {
                Lookup::Found {
                    index: i,
                    span: Span { start: h.offset as usize, len: h.size as usize },
                }
            } else {
                Lookup::Malformed
            }
        },
    }
}

/// Why no room can be made for a signature.
#[derive(Clone, Copy, Debug, PartialEq, Eq, Structural)]
pub enum FormatError {
    /// The artifact is not an image that this library can extend: its
    /// sections cannot be read or do not lie where sections may lie, or the
    /// signed image would be too large.
    Unsupported,
    /// The image has a signature section, and that section is malformed.
    MalformedContainer,
}

/// The entry of a signature section: plain data of `len` bytes at
/// `offset`, neither loaded nor writable nor executable.
pub open spec fn signature_header(name: u32, offset: u64, len: u64) -> SectionHeader {
    SectionHeader {
        name,
        kind: SHT_PROGBITS,
        flags: 0,
        addr: 0,
        offset,
        size: len,
        link: 0,
        info: 0,
        addralign: 1,
        entsize: 0,
    }
}

/// The table of names of a freshly signed image: the old names, then the
/// reserved name.
pub open spec fn extended_names(a: Seq<u8>) -> Seq<u8> {
    name_table(a) + reserved_name() + seq![0u8]
}

/// The entry of the section that holds the extended names, which stand
/// behind the bytes of the old image.
pub open spec fn extended_names_header(a: Seq<u8>) -> SectionHeader {
    SectionHeader {
        name: names_header(a).name,
        kind: SHT_STRTAB,
        flags: 0,
        addr: 0,
        offset: a.len() as u64,
        size: (names_header(a).size + RESERVED_NAME_SIZE) as u64,
        link: 0,
        info: 0,
        addralign: 1,
        entsize: 0,
    }
}

/// Where the section table of a freshly signed image starts.
pub open spec fn fresh_table_offset(a: Seq<u8>) -> int {
    a.len() + names_header(a).size + RESERVED_NAME_SIZE
}

/// Length of a freshly signed image without its payload.
pub open spec fn fresh_base_len(a: Seq<u8>) -> int {
    fresh_table_offset(a) + encoding_of(a).entry_offset(section_count(a) + 2)
}

/// The section table of a freshly signed image: the old entries, the entry
/// of the extended names, the entry of the signature.
pub open spec fn fresh_table(a: Seq<u8>, sig_len: usize) -> Seq<SectionHeader> {
    sections(a).push(extended_names_header(a)).push(
        signature_header(
            names_header(a).size as u32,
            fresh_base_len(a) as u64,
            sig_len as u64,
        ),
    )
}

/// The bytes that store where the section table starts, in the width of
/// the class of the image.
pub open spec fn table_offset_field(at: int, enc: Encoding) -> Seq<u8> {
    if enc.wide {
        enc64(at, enc.big)
    } else {
        enc32(at, enc.big)
    }
}

/// The file header of a freshly signed image and what follows it in the
/// old image: only the three fields that locate and count the sections and
/// name the holder of the names are rewritten.
#[verifier::opaque]
pub open spec fn fresh_head(a: Seq<u8>) -> Seq<u8> {
    splice(
        splice(
            a,
            table_offset_at(encoding_of(a)),
            table_offset_field(fresh_table_offset(a), encoding_of(a)),
        ),
        section_count_at(encoding_of(a)),
        enc16(section_count(a) + 2, encoding_of(a).big) + enc16(
            section_count(a),
            encoding_of(a).big,
        ),
    )
}

/// A freshly signed image without its payload: the old image with its
/// three header fields rewritten, then the extended names, then the new
/// section table. The payload comes to stand behind it.
#[verifier::opaque]
pub open spec fn fresh_base(a: Seq<u8>, sig_len: usize) -> Seq<u8> {
    fresh_head(a) + extended_names(a) + encode_table(fresh_table(a, sig_len), encoding_of(a))
}

/// The numbers of a freshly signed image fit their fields, and the image
/// with its payload fits in memory.
pub open spec fn fresh_fits(a: Seq<u8>, sig_len: usize) -> bool {
    &&& section_count(a) + 2 < RESERVED_INDEXES
    &&& names_header(a).size <= u32::MAX
    &&& fresh_base_len(a) + sig_len <= usize::MAX
    &&& !encoding_of(a).wide ==> fresh_base_len(a) + sig_len <= u32::MAX
}

/// Where the payload goes when section `i` is signed anew: in the place of
/// the old payload where that is the tail of the file, behind the file
/// otherwise.
pub open spec fn resign_cut(a: Seq<u8>, i: int) -> int {
    if sections(a)[i].end() == a.len() {
        sections(a)[i].offset as int
    } else {
        a.len() as int
    }
}

/// The section table of an image signed anew: the old entries, with the
/// entry of the signature section pointed at the new payload.
pub open spec fn resigned_table(a: Seq<u8>, i: int, sig_len: usize) -> Seq<SectionHeader> {
    sections(a).update(
        i,
        signature_header(sections(a)[i].name, resign_cut(a, i) as u64, sig_len as u64),
    )
}

/// An image signed anew without its payload: the old image up to the cut,
/// with its section table written back in its place.
#[verifier::opaque]
pub open spec fn resigned_base(a: Seq<u8>, i: int, sig_len: usize) -> Seq<u8> {
    splice(
        a.subrange(0, resign_cut(a, i)),
        table_offset(a),
        encode_table(resigned_table(a, i, sig_len), encoding_of(a)),
    )
}

/// The signature section is not the holder of the names, whose entry must
/// stay as it is, and the image signed anew, with its payload, fits in
/// memory and in the fields of its class.
pub open spec fn resign_fits(a: Seq<u8>, i: int, sig_len: usize) -> bool {
    &&& i != names_index(a)
    &&& resign_cut(a, i) + sig_len <= usize::MAX
    &&& !encoding_of(a).wide ==> resign_cut(a, i) + sig_len <= u32::MAX
}

/// The image `a` with room made for a signature of `sig_len` bytes, which
/// comes to stand behind it; or why no room can be made.
pub open spec fn section_base(a: Seq<u8>, sig_len: usize) -> Result<Seq<u8>, FormatError> {
    match lookup_of(a) {
        Lookup::Unreadable => Err(FormatError::Unsupported),
        Lookup::Malformed => Err(FormatError::MalformedContainer),
        Lookup::Absent => if well_formed(a) && fresh_fits(a, sig_len) {
            Ok(fresh_base(a, sig_len))
        } else {
            Err(FormatError::Unsupported)
        },
        Lookup::Found { index, span } => if well_formed(a) && resign_fits(
            a,
            index as int,
            sig_len,
        ) {
            Ok(resigned_base(a, index as int, sig_len))
        } else {
            Err(FormatError::Unsupported)
        },
    }
}

/// Copies the image and rewrites the three fields of its file header.
fn build_fresh_head(a: &[u8], enc: Encoding, new_table: usize, count: u16) -> (out: Vec<u8>)
    requires
        a.len() >= ELF_HEADER_SIZE,
        enc == encoding_of(a@),
        count + 2 <= u16::MAX,
        new_table == fresh_table_offset(a@),
        !enc.wide ==> new_table <= u32::MAX,
        count == section_count(a@),
    ensures
        out@ == fresh_head(a@),
{
    reveal(fresh_head);
    let mut out: Vec<u8> = Vec::new();
    append_bytes(&mut out, a);
    let mut field: Vec<u8> = Vec::new();
    proof {
        lemma_enc_len(new_table as int, enc.big);
        lemma_enc_len(count + 2, enc.big);
        lemma_enc_len(count as int, enc.big);
    }
    if enc.wide {
        push_u64(&mut field, new_table as u64, enc.big);
        overwrite(&mut out, 40, field.as_slice());
    } else {
        push_u32(&mut field, new_table as u32, enc.big);
        overwrite(&mut out, 32, field.as_slice());
    }
    let mut counts: Vec<u8> = Vec::new();
    push_u16(&mut counts, count + 2, enc.big);
    push_u16(&mut counts, count, enc.big);
    overwrite(&mut out, if enc.wide { 60 } else { 48 }, counts.as_slice());
    out
}

/// Appends the reserved name and the zero byte that ends it.
fn push_reserved_name(out: &mut Vec<u8>)
    ensures
        final(out)@ == old(out)@ + reserved_name() + seq![0u8],
{
    out.push(0x2e);
    out.push(0x73);
    out.push(0x69);
    out.push(0x67);
    out.push(0x6e);
    out.push(0x61);
    out.push(0x74);
    out.push(0x75);
    out.push(0x72);
    out.push(0x65);
    out.push(0);
    assert(out@ =~= old(out)@ + reserved_name() + seq![0u8]);
}

/// Makes room in an image that has no signature section yet.
fn build_fresh(a: &[u8], layout: Layout, sig_len: usize) -> (r: Option<Vec<u8>>)
    requires
        layout.describes(a@),
    ensures
        r is Some <==> fresh_fits(a@, sig_len),
        r matches Some(out) ==> out@ == fresh_base(a@, sig_len),
{
    reveal(fresh_base);
    let n: usize = a.len();
    let count: usize = layout.table.len();
    let names_len: usize = layout.names_len;
    assert(names_header(a@).end() <= n && layout.names_index < count) by {
        assert(names_readable(a@));
        assert(table_readable(a@));
    }
    if count + 2 >= RESERVED_INDEXES as usize || names_len > u32::MAX as usize {
        return None;
    }
    let enc = layout.encoding;
    let table_len: usize = if enc.wide {
        64 * (count + 2)
    } else {
        40 * (count + 2)
    };
    if names_len > usize::MAX - n || RESERVED_NAME_SIZE > usize::MAX - (n + names_len) {
        return None;
    }
    let new_table: usize = n + names_len + RESERVED_NAME_SIZE;
    if table_len > usize::MAX - new_table {
        return None;
    }
    let base_len: usize = new_table + table_len;
    if sig_len > usize::MAX - base_len {
        return None;
    }
    if !enc.wide && (base_len > u32::MAX as usize || sig_len > u32::MAX as usize - base_len) {
        return None;
    }
    let mut out = build_fresh_head(a, enc, new_table, count as u16);
    append_bytes(
        &mut out,
        slice_subrange(a, layout.names_offset, layout.names_offset + names_len),
    );
    push_reserved_name(&mut out);
    assert(out@ =~= fresh_head(a@) + extended_names(a@));
    let old_names = layout.table.get(layout.names_index);
    let mut table = layout.table;
    table.append(
        SectionHeader {
            name: old_names.name,
            kind: SHT_STRTAB,
            flags: 0,
            addr: 0,
            offset: n as u64,
            size: (names_len + RESERVED_NAME_SIZE) as u64,
            link: 0,
            info: 0,
            addralign: 1,
            entsize: 0,
        },
    );
    table.append(
        SectionHeader {
            name: names_len as u32,
            kind: SHT_PROGBITS,
            flags: 0,
            addr: 0,
            offset: base_len as u64,
            size: sig_len as u64,
            link: 0,
            info: 0,
            addralign: 1,
            entsize: 0,
        },
    );
    assert(table@ == fresh_table(a@, sig_len));
    let entries = table.serialize(enc);
    append_bytes(&mut out, entries.as_slice());
    Some(out)
}

/// Makes room in an image whose section `i` is the signature section.
fn build_resigned(a: &[u8], layout: Layout, i: usize, sig_len: usize) -> (r: Option<Vec<u8>>)
    requires
        layout.describes(a@),
        well_formed(a@),
        i < section_count(a@),
        sections(a@)[i as int].kind != SHT_NOBITS,
        sections(a@)[i as int].end() <= a.len(),
    ensures
        r is Some <==> resign_fits(a@, i as int, sig_len),
        r matches Some(out) ==> out@ == resigned_base(a@, i as int, sig_len),
{
    reveal(resigned_base);
    let n: usize = a.len();
    let h = layout.table.get(i);
    let cut: usize = if h.offset + h.size == n as u64 {
        h.offset as usize
    } else {
        n
    };
    assert(cut == resign_cut(a@, i as int));
    if i == layout.names_index || sig_len > usize::MAX - cut {
        return None;
    }
    let enc = layout.encoding;
    if !enc.wide && (cut > u32::MAX as usize || sig_len > u32::MAX as usize - cut) {
        return None;
    }
    proof {
        lemma_table_before_cut(a@, i as int);
    }
    let table_offset: usize = layout.table_offset;
    let mut table = layout.table;
    table.replace(
        i,
        SectionHeader {
            name: h.name,
            kind: SHT_PROGBITS,
            flags: 0,
            addr: 0,
            offset: cut as u64,
            size: sig_len as u64,
            link: 0,
            info: 0,
            addralign: 1,
            entsize: 0,
        },
    );
    assert(table@ == resigned_table(a@, i as int, sig_len));
    let entries = table.serialize(enc);
    proof {
        lemma_encode_table_len(table@, enc);
    }
    let mut out: Vec<u8> = Vec::new();
    append_bytes(&mut out, slice_subrange(a, 0, cut));
    overwrite(&mut out, table_offset, entries.as_slice());
    Some(out)
}

/// In a well-formed image the section table ends at the cut or before it.
pub proof fn lemma_table_before_cut(a: Seq<u8>, i: int)
    requires
        well_formed(a),
        0 <= i < section_count(a),
        sections(a)[i].kind != SHT_NOBITS,
        sections(a)[i].end() <= a.len(),
    ensures
        table_end(a) <= resign_cut(a, i),
        encoding_of(a).header_size() <= resign_cut(a, i) <= a.len(),
{
    assert(table_readable(a));
    assert(section_in_place(a, i));
}

/// Makes room in the image `a` for a signature of `sig_len` bytes: returns
/// the image that the signature is to be appended to. An image without a
/// signature section gets one, with its name; in an image that has one, the
/// section is pointed at the new payload, and an old payload at the end of
/// the file is dropped.
pub fn reserve_section(a: &[u8], sig_len: usize) -> (r: Result<Vec<u8>, FormatError>)
    ensures
        match r {
            Ok(base) => section_base(a@, sig_len) == Ok::<Seq<u8>, FormatError>(base@),
            Err(e) => section_base(a@, sig_len) == Err::<Seq<u8>, FormatError>(e),
        },
{
    let found = locate_section(a);
    let index = match found {
        Lookup::Unreadable => {
            return Err(FormatError::Unsupported);
        },
        Lookup::Malformed => {
            return Err(FormatError::MalformedContainer);
        },
        Lookup::Absent => None,
        Lookup::Found { index, span } => Some(index),
    };
    let layout = match read_layout(a) {
        Some(layout) => layout,
        None => {
            return Err(FormatError::Unsupported);
        },
    };
    if !check_well_formed(a, &layout) {
        return Err(FormatError::Unsupported);
    }
    let built = match index {
        None => build_fresh(a, layout, sig_len),
        Some(i) => {
            proof {
                let chosen = choose|k: int| is_signature_section(a@, k);
                assert(chosen == i);
            }
            build_resigned(a, layout, i, sig_len)
        },
    };
    match built {
        Some(base) => Ok(base),
        None => Err(FormatError::Unsupported),
    }
}

/// Adds `signature` to the image `a` as the payload of its signature
/// section: makes room for it and appends it. The sections that the image
/// had are neither moved nor resized; a signature section that it had is
/// the one that holds the new signature.
pub fn add_signature_to_elf(a: &[u8], signature: &[u8]) -> (r: Result<Vec<u8>, FormatError>)
    ensures
        match section_base(a@, signature.len()) {
            Ok(base) => r matches Ok(out) && out@ == base + signature@,
            Err(e) => r == Err::<Vec<u8>, FormatError>(e),
        },
{
    match reserve_section(a, signature.len()) {
        Ok(base) => {
            let mut out = base;
            append_bytes(&mut out, signature);
            Ok(out)
        },
        Err(e) => Err(e),
    }
}

/// Why no signature was taken out of an artifact.
#[derive(Clone, Copy, Debug, PartialEq, Eq, Structural)]
pub enum ExtractError {
    /// The artifact holds no signature container.
    NotSigned,
    /// The artifact holds a signature container that is malformed.
    MalformedContainer,
}

/// Takes the signature out of the image `a`: the payload of its signature
/// section, byte for byte. An image without that section, or whose
/// sections cannot be read, is not signed.
pub fn extract_signature_from_elf(a: &[u8]) -> (r: Result<Vec<u8>, ExtractError>)
    ensures
        match lookup_of(a@) {
            Lookup::Found { index, span } => r matches Ok(signature) && signature@ == covered(
                a@,
                span,
            ) && signature@ == a@.subrange(span.start as int, span.end()),
            Lookup::Malformed => r == Err::<Vec<u8>, ExtractError>(ExtractError::MalformedContainer),
            _ => r == Err::<Vec<u8>, ExtractError>(ExtractError::NotSigned),
        },
{
    match locate_section(a) {
        Lookup::Found { index, span } => Ok(covered_bytes(a, span)),
        Lookup::Malformed => Err(ExtractError::MalformedContainer),
        _ => Err(ExtractError::NotSigned),
    }
}

} // verus!
