//! What signing does to an ELF image, proved of every image: the sections
//! that were there stay as they were, one section bears the reserved name
//! afterwards, and the search finds the payload where it was put.

use vstd::prelude::*;

use crate::bytes::{
    enc16, lemma_enc_len, lemma_splice, lemma_uint16_of_enc16, lemma_uint32_of_enc32,
    lemma_uint64_of_enc64, splice, uint16,
};
use crate::format::{has_elf_magic, ELF_HEADER_SIZE};
use crate::image::{
    encoding_of, header_supported, lemma_name_survives_extension, lemma_same_header_same_fields,
    name_table, names_header, names_index, names_readable, readable, section_bytes,
    section_count, section_count_at, section_in_place, section_name, sections, sections_apart,
    table_end, table_offset, table_offset_at, table_readable, well_formed,
};
use crate::section::{
    encode_table, lemma_decoded_fits, lemma_encode_table_entry, lemma_encode_table_len,
    lemma_table_encodes_back, lemma_table_round_trip, table_fits, SHT_NOBITS,
};
use crate::signature_section::{
    extended_names, extended_names_header, fresh_base, fresh_base_len, fresh_fits, fresh_head,
    fresh_table, fresh_table_offset, is_signature_section, lemma_reserved_name_spelled,
    lemma_table_before_cut, lookup_of, reserved_name, resign_cut, resign_fits, resigned_base,
    resigned_table, section_base, signature_header, table_offset_field, FormatError, Lookup,
    RESERVED_NAME_SIZE,
};

verus! {

/// The positions of the header fields that signing rewrites.
pub open spec fn rewritten(a: Seq<u8>, p: int) -> bool {
    ||| table_offset_at(encoding_of(a)) <= p < table_offset_at(encoding_of(a)) + (if encoding_of(
        a,
    ).wide {
        8int
    } else {
        4int
    })
    ||| section_count_at(encoding_of(a)) <= p < section_count_at(encoding_of(a)) + 4
}

/// The rewritten head of a freshly signed image: as long as the old image,
/// equal to it outside the three fields, and the fields read as written.
proof fn lemma_fresh_head(a: Seq<u8>)
    requires
        header_supported(a),
        0 <= section_count(a),
        section_count(a) + 2 < 0x1_0000,
        0 <= fresh_table_offset(a) < 0x1_0000_0000_0000_0000,
        !encoding_of(a).wide ==> fresh_table_offset(a) < 0x1_0000_0000,
    ensures
        fresh_head(a).len() == a.len(),
        forall|p: int|
            0 <= p < a.len() && !rewritten(a, p) ==> #[trigger] fresh_head(a)[p] == a[p],
        encoding_of(fresh_head(a)) == encoding_of(a),
        header_supported(fresh_head(a)),
        table_offset(fresh_head(a)) == fresh_table_offset(a),
        section_count(fresh_head(a)) == section_count(a) + 2,
        names_index(fresh_head(a)) == section_count(a),
{
    reveal(fresh_head);
    let enc = encoding_of(a);
    let big = enc.big;
    let c = section_count(a);
    let t = fresh_table_offset(a);
    let field = table_offset_field(t, enc);
    let first = splice(a, table_offset_at(enc), field);
    let counts = enc16(c + 2, big) + enc16(c, big);
    let at = section_count_at(enc);
    let head = splice(first, at, counts);
    lemma_enc_len(t, big);
    lemma_enc_len(c + 2, big);
    lemma_enc_len(c, big);
    lemma_splice(a, table_offset_at(enc), field);
    lemma_splice(first, at, counts);
    assert(head == fresh_head(a));
    assert(head[4] == a[4] && head[5] == a[5]);
    assert(encoding_of(head) == enc);
    assert(has_elf_magic(head)) by {
        assert(head[0] == a[0] && head[1] == a[1] && head[2] == a[2] && head[3] == a[3]);
    }
    assert(head.subrange(at, at + 2) =~= enc16(c + 2, big)) by {
        assert(head.subrange(at, at + 2) =~= head.subrange(at, at + 4).subrange(0, 2));
    }
    assert(head.subrange(at + 2, at + 4) =~= enc16(c, big)) by {
        assert(head.subrange(at + 2, at + 4) =~= head.subrange(at, at + 4).subrange(2, 4));
    }
    lemma_uint16_of_enc16(head, at, c + 2, big);
    lemma_uint16_of_enc16(head, at + 2, c, big);
    if enc.wide {
        assert(head.subrange(40, 48) =~= first.subrange(40, 48));
        lemma_uint64_of_enc64(head, 40, t, big);
        assert(uint16(head, 58, big) == uint16(a, 58, big)) by {
            assert(head[58] == a[58] && head[59] == a[59]);
        }
    } else {
        assert(head.subrange(32, 36) =~= first.subrange(32, 36));
        lemma_uint32_of_enc32(head, 32, t, big);
        assert(uint16(head, 46, big) == uint16(a, 46, big)) by {
            assert(head[46] == a[46] && head[47] == a[47]);
        }
    }
}

/// A freshly signed image: the image with room made, then the signature.
pub open spec fn fresh_image(a: Seq<u8>, sig: Seq<u8>) -> Seq<u8> {
    fresh_base(a, sig.len() as usize) + sig
}

/// Where the parts of a freshly signed image stand, and what its header
/// fields read.
proof fn lemma_fresh_parts(a: Seq<u8>, sig: Seq<u8>)
    requires
        readable(a),
        sig.len() <= usize::MAX,
        fresh_fits(a, sig.len() as usize),
    ensures
        fresh_base(a, sig.len() as usize).len() == fresh_base_len(a),
        fresh_image(a, sig).len() == fresh_base_len(a) + sig.len(),
        encoding_of(fresh_image(a, sig)) == encoding_of(a),
        header_supported(fresh_image(a, sig)),
        table_offset(fresh_image(a, sig)) == fresh_table_offset(a),
        section_count(fresh_image(a, sig)) == section_count(a) + 2,
        names_index(fresh_image(a, sig)) == section_count(a),
        fresh_image(a, sig).subrange(a.len() as int, fresh_table_offset(a)) == extended_names(a),
        fresh_image(a, sig).subrange(fresh_table_offset(a), fresh_base_len(a)) == encode_table(
            fresh_table(a, sig.len() as usize),
            encoding_of(a),
        ),
        fresh_image(a, sig).subrange(fresh_base_len(a), fresh_base_len(a) + sig.len()) == sig,
        forall|p: int|
            0 <= p < a.len() && !rewritten(a, p) ==> #[trigger] fresh_image(a, sig)[p] == a[p],
{
    reveal(fresh_base);
    let l = sig.len() as usize;
    let out = fresh_image(a, sig);
    let head = fresh_head(a);
    let names = extended_names(a);
    let table = encode_table(fresh_table(a, l), encoding_of(a));
    assert(table_readable(a));
    assert(names_readable(a));
    lemma_fresh_head(a);
    lemma_encode_table_len(fresh_table(a, l), encoding_of(a));
    assert(names.len() == names_header(a).size + RESERVED_NAME_SIZE);
    assert(out =~= head + names + table + sig);
    assert(out.subrange(a.len() as int, fresh_table_offset(a)) =~= names);
    assert(out.subrange(fresh_table_offset(a), fresh_base_len(a)) =~= table);
    assert(out.subrange(fresh_base_len(a), fresh_base_len(a) + sig.len()) =~= sig);
    assert forall|p: int| 0 <= p < a.len() implies #[trigger] out[p] == head[p] by {}
    lemma_same_header_same_fields(head, out);
}

/// The section table and the table of names of a freshly signed image.
proof fn lemma_fresh_tables(a: Seq<u8>, sig: Seq<u8>)
    requires
        readable(a),
        sig.len() <= usize::MAX,
        fresh_fits(a, sig.len() as usize),
    ensures
        sections(fresh_image(a, sig)) == fresh_table(a, sig.len() as usize),
        name_table(fresh_image(a, sig)) == extended_names(a),
        names_header(fresh_image(a, sig)) == extended_names_header(a),
        readable(fresh_image(a, sig)),
{
    let l = sig.len() as usize;
    let out = fresh_image(a, sig);
    let table = fresh_table(a, l);
    let c = section_count(a);
    assert(table_readable(a));
    assert(names_readable(a));
    lemma_fresh_parts(a, sig);
    assert(table.len() == c + 2);
    let enc = encoding_of(a);
    assert(table_fits(table, enc)) by {
        assert forall|j: int| 0 <= j < table.len() implies (#[trigger] table[j]).fits(enc) by {
            if j < c {
                lemma_decoded_fits(a, table_offset(a) + enc.entry_offset(j), enc);
                assert(table[j] == sections(a)[j]);
            }
        }
    }
    lemma_table_round_trip(out, fresh_table_offset(a), table, enc);
    assert(sections(out) == table);
    assert(names_header(out) == table[c]);
    assert(table[c] == extended_names_header(a));
    assert(name_table(out) == extended_names(a));
    let names = extended_names(a);
    assert(names[names.len() - 1] == 0);
    assert(out[names_header(out).end() - 1] == 0) by {
        assert(out.subrange(a.len() as int, fresh_table_offset(a))[names.len() - 1] == out[a.len()
            + names.len() - 1]);
    }
    assert forall|j: int| 0 <= j < section_count(out) implies (#[trigger] sections(out)[j]).name
        < names_header(out).size by {
        if j < c {
            assert(table[j] == sections(a)[j]);
        }
    }
    assert(table_readable(out));
    assert(names_readable(out));
}

/// The names of the sections of a freshly signed image: the old sections
/// keep theirs, the holder of the extended names has the name of the old
/// holder, and the last section has the reserved name.
proof fn lemma_fresh_names(a: Seq<u8>, sig: Seq<u8>)
    requires
        readable(a),
        sig.len() <= usize::MAX,
        fresh_fits(a, sig.len() as usize),
    ensures
        forall|j: int|
            0 <= j < section_count(a) ==> #[trigger] section_name(fresh_image(a, sig), j)
                == section_name(a, j),
        section_name(fresh_image(a, sig), section_count(a)) == section_name(a, names_index(a)),
        section_name(fresh_image(a, sig), section_count(a) + 1) == reserved_name(),
{
    let l = sig.len() as usize;
    let out = fresh_image(a, sig);
    let c = section_count(a);
    let old_names = name_table(a);
    let more = reserved_name() + seq![0u8];
    let names = extended_names(a);
    assert(table_readable(a));
    assert(names_readable(a));
    lemma_fresh_tables(a, sig);
    assert(names =~= old_names + more);
    assert(old_names.len() == names_header(a).size);
    assert(old_names[old_names.len() - 1] == 0) by {
        assert(old_names[old_names.len() - 1] == a[names_header(a).end() - 1]);
    }
    assert forall|j: int| 0 <= j < c implies #[trigger] section_name(out, j) == section_name(
        a,
        j,
    ) by {
        assert(sections(out)[j] == sections(a)[j]);
        lemma_name_survives_extension(old_names, more, sections(a)[j].name as int);
    }
    assert(section_name(out, c) == section_name(a, names_index(a))) by {
        assert(sections(out)[c].name == names_header(a).name);
        lemma_name_survives_extension(old_names, more, names_header(a).name as int);
    }
    assert(section_name(out, c + 1) == reserved_name()) by {
        let at = old_names.len() as int;
        assert(sections(out)[c + 1].name == at);
        assert(names.subrange(at, at + 10) =~= reserved_name());
        assert(names[at + 10] == 0);
        lemma_reserved_name_spelled(names, at);
    }
}

/// Signing leaves the sections of an image as they were. After an image
/// without a signature section is signed, each section that it had has the
/// entry, the name and the bytes that it had before; the image has two
/// sections more, the holder of the extended names and, last, the
/// signature section; and the signature section is the only section that
/// bears the reserved name. Its payload is the signature, at the end of the
/// file.
pub proof fn lemma_fresh_signing_preserves_sections(a: Seq<u8>, sig: Seq<u8>)
    requires
        sig.len() <= usize::MAX,
        lookup_of(a) == Lookup::Absent,
        section_base(a, sig.len() as usize) is Ok,
    ensures
        section_base(a, sig.len() as usize) == Ok::<Seq<u8>, FormatError>(
            fresh_base(a, sig.len() as usize),
        ),
        readable(fresh_image(a, sig)),
        section_count(fresh_image(a, sig)) == section_count(a) + 2,
        forall|j: int|
            0 <= j < section_count(a) ==> {
                &&& (#[trigger] sections(fresh_image(a, sig))[j]) == sections(a)[j]
                &&& section_name(fresh_image(a, sig), j) == section_name(a, j)
                &&& sections(a)[j].occupies_file() ==> section_bytes(fresh_image(a, sig), j)
                    == section_bytes(a, j)
            },
        forall|j: int|
            is_signature_section(fresh_image(a, sig), j) <==> j == section_count(a) + 1,
        sections(fresh_image(a, sig))[section_count(a) + 1] == signature_header(
            names_header(a).size as u32,
            fresh_base_len(a) as u64,
            sig.len() as u64,
        ),
        section_bytes(fresh_image(a, sig), section_count(a) + 1) == sig,
        fresh_image(a, sig).len() == fresh_base_len(a) + sig.len(),
{
    let l = sig.len() as usize;
    let out = fresh_image(a, sig);
    let c = section_count(a);
    assert(readable(a));
    assert(table_readable(a));
    assert(names_readable(a));
    assert(well_formed(a) && fresh_fits(a, l));
    lemma_fresh_parts(a, sig);
    lemma_fresh_tables(a, sig);
    lemma_fresh_names(a, sig);
    assert forall|j: int| 0 <= j < c implies {
        &&& (#[trigger] sections(out)[j]) == sections(a)[j]
        &&& section_name(out, j) == section_name(a, j)
        &&& sections(a)[j].occupies_file() ==> section_bytes(out, j) == section_bytes(a, j)
    } by {
        assert(fresh_table(a, l)[j] == sections(a)[j]);
        if sections(a)[j].occupies_file() {
            assert(section_in_place(a, j));
            assert(section_bytes(out, j) =~= section_bytes(a, j));
        }
    }
    assert forall|j: int| is_signature_section(out, j) <==> j == c + 1 by {
        if 0 <= j < c {
            assert(!is_signature_section(a, j));
            assert(section_name(out, j) == section_name(a, j));
        } else if j == c {
            assert(!is_signature_section(a, names_index(a)));
        }
    }
    assert(section_bytes(out, c + 1) == sig) by {
        assert(sections(out)[c + 1].offset == fresh_base_len(a));
        assert(sections(out)[c + 1].end() == fresh_base_len(a) + sig.len());
    }
}

/// An image signed anew: the image with room made, then the signature.
pub open spec fn resigned_image(a: Seq<u8>, i: int, sig: Seq<u8>) -> Seq<u8> {
    resigned_base(a, i, sig.len() as usize) + sig
}

/// The position `p` lies in the entry of section `i` in the section table.
pub open spec fn in_entry(a: Seq<u8>, i: int, p: int) -> bool {
    table_offset(a) + encoding_of(a).entry_offset(i) <= p < table_offset(a) + encoding_of(
        a,
    ).entry_offset(i) + encoding_of(a).entry_size()
}

/// Where the parts of an image signed anew stand.
proof fn lemma_resigned_parts(a: Seq<u8>, i: int, sig: Seq<u8>)
    requires
        readable(a),
        0 <= i < section_count(a),
        sig.len() <= usize::MAX,
        table_end(a) <= resign_cut(a, i) <= a.len(),
    ensures
        resigned_base(a, i, sig.len() as usize).len() == resign_cut(a, i),
        resigned_image(a, i, sig).len() == resign_cut(a, i) + sig.len(),
        resigned_image(a, i, sig).subrange(table_offset(a), table_end(a)) == encode_table(
            resigned_table(a, i, sig.len() as usize),
            encoding_of(a),
        ),
        resigned_image(a, i, sig).subrange(resign_cut(a, i), resign_cut(a, i) + sig.len()) == sig,
        forall|p: int|
            0 <= p < resign_cut(a, i) && !in_entry(a, i, p) ==> #[trigger] resigned_image(
                a,
                i,
                sig,
            )[p] == a[p],
{
    reveal(resigned_base);
    let l = sig.len() as usize;
    let enc = encoding_of(a);
    let cut = resign_cut(a, i);
    let t = table_offset(a);
    let table = resigned_table(a, i, l);
    let entries = encode_table(table, enc);
    let kept = a.subrange(0, cut);
    let base = splice(kept, t, entries);
    let out = resigned_image(a, i, sig);
    assert(table_readable(a));
    lemma_encode_table_len(table, enc);
    lemma_splice(kept, t, entries);
    assert(out.subrange(t, table_end(a)) =~= base.subrange(t, t + entries.len()));
    assert(out.subrange(cut, cut + sig.len()) =~= sig);
    lemma_table_encodes_back(a, t, section_count(a) as nat, enc);
    let old_entries = a.subrange(t, table_end(a));
    assert(old_entries == encode_table(sections(a), enc));
    assert forall|p: int| 0 <= p < cut && !in_entry(a, i, p) implies #[trigger] out[p]
        == a[p] by {
        assert(out[p] == base[p]);
        if t <= p < table_end(a) {
            let j = if enc.wide { (p - t) / 64 } else { (p - t) / 40 };
            assert(0 <= j < section_count(a) && j != i);
            let from = enc.entry_offset(j);
            assert(from <= p - t < from + enc.entry_size());
            lemma_encode_table_entry(table, j, enc);
            lemma_encode_table_entry(sections(a), j, enc);
            assert(table[j] == sections(a)[j]);
            let block = entries.subrange(from, from + enc.entry_size());
            let old_block = old_entries.subrange(from, from + enc.entry_size());
            assert(block == old_block);
            assert(base[p] == entries[p - t]);
            assert(entries[p - t] == block[p - t - from]);
            assert(old_entries[p - t] == old_block[p - t - from]);
            assert(old_entries[p - t] == a[p]);
        } else {
            assert(base[p] == kept[p]);
        }
    }
}

/// The header fields and the section table of an image signed anew.
proof fn lemma_resigned_table(a: Seq<u8>, i: int, sig: Seq<u8>)
    requires
        readable(a),
        0 <= i < section_count(a),
        sig.len() <= usize::MAX,
        table_end(a) <= resign_cut(a, i) <= a.len(),
        !encoding_of(a).wide ==> resign_cut(a, i) + sig.len() <= u32::MAX,
    ensures
        encoding_of(resigned_image(a, i, sig)) == encoding_of(a),
        header_supported(resigned_image(a, i, sig)),
        table_offset(resigned_image(a, i, sig)) == table_offset(a),
        section_count(resigned_image(a, i, sig)) == section_count(a),
        names_index(resigned_image(a, i, sig)) == names_index(a),
        sections(resigned_image(a, i, sig)) == resigned_table(a, i, sig.len() as usize),
{
    let l = sig.len() as usize;
    let enc = encoding_of(a);
    let out = resigned_image(a, i, sig);
    let table = resigned_table(a, i, l);
    assert(table_readable(a));
    lemma_resigned_parts(a, i, sig);
    assert forall|p: int| 0 <= p < enc.header_size() implies #[trigger] out[p] == a[p] by {
        assert(!in_entry(a, i, p));
    }
    lemma_same_header_same_fields(a, out);
    assert(table_fits(table, enc)) by {
        assert forall|j: int| 0 <= j < table.len() implies (#[trigger] table[j]).fits(enc) by {
            if j != i {
                lemma_decoded_fits(a, table_offset(a) + enc.entry_offset(j), enc);
                assert(table[j] == sections(a)[j]);
            }
        }
    }
    lemma_table_round_trip(out, table_offset(a), table, enc);
}

/// In a well-formed image every section but the signature section ends
/// at the cut or before it.
proof fn lemma_sections_before_cut(a: Seq<u8>, i: int)
    requires
        well_formed(a),
        0 <= i < section_count(a),
        sections(a)[i].kind != SHT_NOBITS,
        sections(a)[i].end() <= a.len(),
    ensures
        forall|j: int|
            0 <= j < section_count(a) && j != i && (#[trigger] sections(a)[j]).occupies_file()
                ==> sections(a)[j].end() <= resign_cut(a, i),
{
    assert forall|j: int|
        0 <= j < section_count(a) && j != i && (#[trigger] sections(a)[j]).occupies_file() implies sections(
        a,
    )[j].end() <= resign_cut(a, i) by {
        assert(section_in_place(a, j));
        if j < i {
            assert(sections_apart(a, j, i));
        } else {
            assert(sections_apart(a, i, j));
        }
    }
}

/// Signing an image anew leaves one signature section. After an image
/// whose section `i` is the signature section is signed again, the image
/// has as many sections as before; section `i` is still the only one that
/// bears the reserved name, and its payload is the new signature, at the
/// end of the file; every other section has the entry, the name and the
/// bytes that it had before.
pub proof fn lemma_resigning_keeps_one_signature(a: Seq<u8>, i: int, sig: Seq<u8>)
    requires
        sig.len() <= usize::MAX,
        lookup_of(a) matches Lookup::Found { index, .. } && index == i,
        section_base(a, sig.len() as usize) is Ok,
    ensures
        section_base(a, sig.len() as usize) == Ok::<Seq<u8>, FormatError>(
            resigned_base(a, i, sig.len() as usize),
        ),
        readable(resigned_image(a, i, sig)),
        section_count(resigned_image(a, i, sig)) == section_count(a),
        forall|j: int| is_signature_section(resigned_image(a, i, sig), j) <==> j == i,
        forall|j: int| is_signature_section(a, j) <==> j == i,
        sections(resigned_image(a, i, sig))[i] == signature_header(
            sections(a)[i].name,
            resign_cut(a, i) as u64,
            sig.len() as u64,
        ),
        section_bytes(resigned_image(a, i, sig), i) == sig,
        resigned_image(a, i, sig).len() == resign_cut(a, i) + sig.len(),
        forall|j: int|
            0 <= j < section_count(a) && j != i ==> {
                &&& (#[trigger] sections(resigned_image(a, i, sig))[j]) == sections(a)[j]
                &&& section_name(resigned_image(a, i, sig), j) == section_name(a, j)
                &&& sections(a)[j].occupies_file() ==> section_bytes(resigned_image(a, i, sig), j)
                    == section_bytes(a, j)
            },
{
    let l = sig.len() as usize;
    let out = resigned_image(a, i, sig);
    let c = section_count(a);
    let cut = resign_cut(a, i);
    assert(readable(a));
    assert(table_readable(a));
    assert(names_readable(a));
    let chosen = choose|k: int| is_signature_section(a, k);
    assert(chosen == i);
    assert(is_signature_section(a, i));
    assert(sections(a)[i].kind != SHT_NOBITS && sections(a)[i].end() <= a.len());
    assert(well_formed(a) && resign_fits(a, i, l));
    lemma_table_before_cut(a, i);
    lemma_sections_before_cut(a, i);
    lemma_resigned_parts(a, i, sig);
    lemma_resigned_table(a, i, sig);
    let n = names_index(a);
    assert(n != i);
    assert(sections(out)[n] == sections(a)[n]);
    assert(sections(a)[n].occupies_file());
    assert(section_in_place(a, n));
    assert(name_table(out) =~= name_table(a));
    assert forall|j: int| 0 <= j < c implies #[trigger] section_name(out, j) == section_name(
        a,
        j,
    ) by {
        assert(sections(out)[j].name == sections(a)[j].name);
    }
    assert(names_readable(out)) by {
        assert(out[names_header(out).end() - 1] == a[names_header(a).end() - 1]);
        assert forall|j: int| 0 <= j < section_count(out) implies (#[trigger] sections(
            out,
        )[j]).name < names_header(out).size by {
            assert(sections(out)[j].name == sections(a)[j].name);
        }
    }
    assert(table_readable(out));
    assert forall|j: int| is_signature_section(out, j) <==> j == i by {
        if 0 <= j < c {
            assert(section_name(out, j) == section_name(a, j));
            assert(is_signature_section(a, j) ==> j == i);
        }
    }
    assert forall|j: int| 0 <= j < c && j != i implies {
        &&& (#[trigger] sections(out)[j]) == sections(a)[j]
        &&& section_name(out, j) == section_name(a, j)
        &&& sections(a)[j].occupies_file() ==> section_bytes(out, j) == section_bytes(a, j)
    } by {
        if sections(a)[j].occupies_file() {
            assert(section_in_place(a, j));
            assert(section_bytes(out, j) =~= section_bytes(a, j));
        }
    }
    assert(section_bytes(out, i) == sig);
}

/// Signing leaves the bytes of an image where they are. Of the bytes of
/// an image that had no signature section, only the three header fields
/// that locate and count the sections and name the holder of the names
/// are rewritten; everything else that signing writes stands behind the
/// old image.
pub proof fn lemma_fresh_signing_keeps_bytes(a: Seq<u8>, sig: Seq<u8>)
    requires
        sig.len() <= usize::MAX,
        lookup_of(a) == Lookup::Absent,
        section_base(a, sig.len() as usize) is Ok,
    ensures
        fresh_image(a, sig).len() > a.len(),
        forall|p: int|
            0 <= p < a.len() && !rewritten(a, p) ==> #[trigger] fresh_image(a, sig)[p] == a[p],
{
    assert(well_formed(a) && fresh_fits(a, sig.len() as usize));
    assert(table_readable(a));
    lemma_fresh_parts(a, sig);
}

/// Signing anew leaves the bytes of an image where they are. Of the bytes
/// of an image whose section `i` is the signature section, only the entry
/// of that section is rewritten, and only an old payload at the end of the
/// file is dropped; the new payload stands behind what is kept.
pub proof fn lemma_resigning_keeps_bytes(a: Seq<u8>, i: int, sig: Seq<u8>)
    requires
        sig.len() <= usize::MAX,
        lookup_of(a) matches Lookup::Found { index, .. } && index == i,
        section_base(a, sig.len() as usize) is Ok,
    ensures
        resigned_image(a, i, sig).len() == resign_cut(a, i) + sig.len(),
        resign_cut(a, i) == a.len() || (resign_cut(a, i) == sections(a)[i].offset && sections(
            a,
        )[i].end() == a.len()),
        forall|p: int|
            0 <= p < resign_cut(a, i) && !in_entry(a, i, p) ==> #[trigger] resigned_image(
                a,
                i,
                sig,
            )[p] == a[p],
{
    let chosen = choose|k: int| is_signature_section(a, k);
    assert(chosen == i);
    assert(well_formed(a));
    lemma_table_before_cut(a, i);
    lemma_resigned_parts(a, i, sig);
}

/// The search finds what signing put. Where room can be made in an image,
/// the image with a signature appended to that room has exactly one
/// signature section, well formed, whose payload is the appended
/// signature: the bytes from the end of the room to the end of the file.
pub proof fn lemma_section_round_trip(a: Seq<u8>, sig: Seq<u8>)
    requires
        sig.len() <= usize::MAX,
        section_base(a, sig.len() as usize) is Ok,
    ensures
        lookup_of(section_base(a, sig.len() as usize)->Ok_0 + sig) matches Lookup::Found {
            index,
            span,
        } && span.start == section_base(a, sig.len() as usize)->Ok_0.len() && span.len
            == sig.len() && index != names_index(
            section_base(a, sig.len() as usize)->Ok_0 + sig,
        ),
{
    let l = sig.len() as usize;
    let base = section_base(a, l)->Ok_0;
    let out = base + sig;
    match lookup_of(a) {
        Lookup::Absent => {
            lemma_fresh_signing_preserves_sections(a, sig);
            let i = section_count(a) + 1;
            assert(out == fresh_image(a, sig));
            assert(is_signature_section(out, i));
            let chosen = choose|k: int| is_signature_section(out, k);
            assert(chosen == i);
            assert(names_readable(out));
        },
        Lookup::Found { index, span } => {
            let i = index as int;
            lemma_resigning_keeps_one_signature(a, i, sig);
            assert(out == resigned_image(a, i, sig));
            assert(is_signature_section(out, i));
            let chosen = choose|k: int| is_signature_section(out, k);
            assert(chosen == i);
            assert(names_readable(out));
        },
        _ => {},
    }
}

/// An image with room made, and the signature behind it, fits in memory.
pub proof fn lemma_section_base_len(a: Seq<u8>, sig_len: usize)
    requires
        section_base(a, sig_len) is Ok,
    ensures
        section_base(a, sig_len)->Ok_0.len() + sig_len <= usize::MAX,
        !encoding_of(a).wide ==> section_base(a, sig_len)->Ok_0.len() + sig_len <= u32::MAX,
        section_base(a, sig_len)->Ok_0.len() >= ELF_HEADER_SIZE,
        encoding_of(section_base(a, sig_len)->Ok_0) == encoding_of(a),
{
    let sig = Seq::new(sig_len as nat, |k: int| 0u8);
    let base = section_base(a, sig_len)->Ok_0;
    assert(table_readable(a));
    match lookup_of(a) {
        Lookup::Absent => {
            lemma_fresh_signing_preserves_sections(a, sig);
            lemma_fresh_parts(a, sig);
            assert(fresh_image(a, sig).len() == fresh_base(a, sig_len).len() + sig_len);
            assert(base[4] == fresh_image(a, sig)[4] && base[5] == fresh_image(a, sig)[5]);
        },
        Lookup::Found { index, span } => {
            let chosen = choose|k: int| is_signature_section(a, k);
            assert(chosen == index);
            lemma_table_before_cut(a, index as int);
            lemma_resigned_table(a, index as int, sig);
            assert(base[4] == resigned_image(a, index as int, sig)[4] && base[5]
                == resigned_image(a, index as int, sig)[5]);
            lemma_resigning_keeps_one_signature(a, index as int, sig);
            assert(resigned_image(a, index as int, sig).len() == resigned_base(
                a,
                index as int,
                sig_len,
            ).len() + sig_len);
            assert(table_readable(a));
        },
        _ => {},
    }
}

/// A signed image is a well-formed image again: signing keeps the
/// invariant of the images it accepts, so that what was signed can be
/// signed anew.
pub proof fn lemma_signed_image_is_well_formed(a: Seq<u8>, sig: Seq<u8>)
    requires
        sig.len() <= usize::MAX,
        section_base(a, sig.len() as usize) is Ok,
    ensures
        well_formed(section_base(a, sig.len() as usize)->Ok_0 + sig),
{
    let l = sig.len() as usize;
    let out = section_base(a, l)->Ok_0 + sig;
    let c = section_count(a);
    assert(well_formed(a));
    assert(table_readable(a));
    assert(names_readable(a));
    match lookup_of(a) {
        Lookup::Absent => {
            lemma_fresh_signing_preserves_sections(a, sig);
            lemma_fresh_parts(a, sig);
            lemma_fresh_tables(a, sig);
            assert(out == fresh_image(a, sig));
            assert forall|j: int| 0 <= j < section_count(out) implies #[trigger] section_in_place(
                out,
                j,
            ) by {
                if j < c {
                    assert(sections(out)[j] == sections(a)[j]);
                    assert(section_in_place(a, j));
                }
            }
            assert forall|j: int, k: int| 0 <= j < k < section_count(out) implies #[trigger] sections_apart(
                out,
                j,
                k,
            ) by {
                if j < c {
                    assert(sections(out)[j] == sections(a)[j]);
                    assert(section_in_place(a, j));
                }
                if k < c {
                    assert(sections(out)[k] == sections(a)[k]);
                    assert(sections_apart(a, j, k));
                }
            }
        },
        Lookup::Found { index, span } => {
            let i = index as int;
            lemma_resigning_keeps_one_signature(a, i, sig);
            let chosen = choose|k: int| is_signature_section(a, k);
            assert(chosen == i);
            lemma_table_before_cut(a, i);
            lemma_sections_before_cut(a, i);
            lemma_resigned_table(a, i, sig);
            assert(out == resigned_image(a, i, sig));
            assert forall|j: int| 0 <= j < section_count(out) implies #[trigger] section_in_place(
                out,
                j,
            ) by {
                if j != i {
                    assert(sections(out)[j] == sections(a)[j]);
                    assert(section_in_place(a, j));
                }
            }
            assert forall|j: int, k: int| 0 <= j < k < section_count(out) implies #[trigger] sections_apart(
                out,
                j,
                k,
            ) by {
                if j != i {
                    assert(sections(out)[j] == sections(a)[j]);
                }
                if k != i {
                    assert(sections(out)[k] == sections(a)[k]);
                }
                if j != i && k != i {
                    assert(sections_apart(a, j, k));
                }
            }
        },
        _ => {},
    }
}

/// Signing twice leaves one signature section. Let `once` be an image
/// signed with `first`. Then `once` can be signed anew with any
/// signature that fits in memory behind its room, and the image signed
/// twice has as many sections as `once`, one of them, the same as in
/// `once`, the signature section; it is `once` with the second signature
/// in the place of the first.
pub proof fn lemma_signing_twice_leaves_one_signature(
    a: Seq<u8>,
    first: Seq<u8>,
    second: Seq<u8>,
)
    requires
        first.len() <= usize::MAX,
        second.len() <= usize::MAX,
        section_base(a, first.len() as usize) matches Ok(room) && room.len() + second.len()
            <= usize::MAX && (!encoding_of(a).wide ==> room.len() + second.len() <= u32::MAX),
    ensures
        ({
            let room = section_base(a, first.len() as usize)->Ok_0;
            let once = room + first;
            &&& lookup_of(once) matches Lookup::Found { index, span } && span.start == room.len()
                && span.len == first.len()
            &&& section_base(once, second.len() as usize) matches Ok(again) && {
                let twice = again + second;
                &&& twice.len() == room.len() + second.len()
                &&& section_count(twice) == section_count(once)
                &&& forall|j: int|
                    is_signature_section(twice, j) <==> is_signature_section(once, j)
                &&& lookup_of(twice) matches Lookup::Found { index, span } && span.start
                    == room.len() && span.len == second.len() && index == lookup_of(
                    once,
                )->Found_index
            }
        }),
{
    let room = section_base(a, first.len() as usize)->Ok_0;
    let once = room + first;
    lemma_section_base_len(a, first.len() as usize);
    assert(once[4] == room[4] && once[5] == room[5]);
    lemma_section_round_trip(a, first);
    lemma_signed_image_is_well_formed(a, first);
    let i = lookup_of(once)->Found_index as int;
    let chosen = choose|k: int| is_signature_section(once, k);
    assert(chosen == i);
    assert(sections(once)[i].offset == room.len());
    assert(sections(once)[i].end() == once.len());
    assert(resign_cut(once, i) == room.len());
    assert(resign_fits(once, i, second.len() as usize));
    lemma_resigning_keeps_one_signature(once, i, second);
    lemma_section_round_trip(once, second);
    let again = section_base(once, second.len() as usize)->Ok_0;
    let twice = again + second;
    assert(twice == resigned_image(once, i, second));
    let chosen_twice = choose|k: int| is_signature_section(twice, k);
    assert(is_signature_section(twice, i));
    assert(chosen_twice == i);
}

/// Signing again makes the same room. Let `once` be an image signed with
/// `first`. The room that is made in `once` for a signature of the same
/// length is the room that `first` was appended to: every byte of `once`
/// but its payload. So the digest that is signed at the second signing is
/// the digest that verification takes of `once`.
pub proof fn lemma_resigning_makes_the_same_room(a: Seq<u8>, first: Seq<u8>)
    requires
        first.len() <= usize::MAX,
        section_base(a, first.len() as usize) is Ok,
    ensures
        section_base(section_base(a, first.len() as usize)->Ok_0 + first, first.len() as usize)
            == section_base(a, first.len() as usize),
{
    let l = first.len() as usize;
    let room = section_base(a, l)->Ok_0;
    let once = room + first;
    lemma_section_base_len(a, l);
    assert(once[4] == room[4] && once[5] == room[5]);
    lemma_section_round_trip(a, first);
    lemma_signed_image_is_well_formed(a, first);
    let i = lookup_of(once)->Found_index as int;
    let chosen = choose|k: int| is_signature_section(once, k);
    assert(chosen == i);
    assert(table_readable(once));
    assert(sections(once)[i].offset == room.len());
    assert(sections(once)[i].end() == once.len());
    assert(resign_cut(once, i) == room.len());
    assert(resign_fits(once, i, l));
    match lookup_of(a) {
        Lookup::Absent => {
            lemma_fresh_signing_preserves_sections(a, first);
            assert(once == fresh_image(a, first));
            assert(is_signature_section(once, section_count(a) + 1));
        },
        Lookup::Found { index, span } => {
            lemma_resigning_keeps_one_signature(a, index as int, first);
            assert(once == resigned_image(a, index as int, first));
            assert(is_signature_section(once, index as int));
        },
        _ => {},
    }
    let entry = sections(once)[i];
    assert(entry == signature_header(entry.name, room.len() as u64, l as u64));
    assert(resigned_table(once, i, l) =~= sections(once));
    lemma_table_before_cut(once, i);
    lemma_table_encodes_back(
        once,
        table_offset(once),
        section_count(once) as nat,
        encoding_of(once),
    );
    reveal(resigned_base);
    let kept = once.subrange(0, room.len() as int);
    assert(kept =~= room);
    let entries = encode_table(sections(once), encoding_of(once));
    lemma_encode_table_len(sections(once), encoding_of(once));
    assert(entries == once.subrange(table_offset(once), table_end(once)));
    assert(splice(kept, table_offset(once), entries) =~= room) by {
        lemma_splice(kept, table_offset(once), entries);
        assert forall|p: int| 0 <= p < room.len() implies #[trigger] splice(
            kept,
            table_offset(once),
            entries,
        )[p] == room[p] by {
            if table_offset(once) <= p < table_end(once) {
                assert(splice(kept, table_offset(once), entries).subrange(
                    table_offset(once),
                    table_end(once),
                )[p - table_offset(once)] == entries[p - table_offset(once)]);
                assert(entries[p - table_offset(once)] == once[p]);
            }
        }
    }
    assert(resigned_base(once, i, l) == room);
}

} // verus!
