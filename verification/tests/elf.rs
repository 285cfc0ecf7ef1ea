use signtool::bytes::{read_u16, read_u64};
use signtool::container::{
    embed_signature, extract_signature, locate_container, reserve, Extraction,
};
use signtool::digest::Span;
use signtool::format::{detect_format, ArtifactFormat};
use signtool::image::{is_well_formed, read_layout};
use signtool::keys::{generate_keypair, SigningKey, VerifyingKey};
use signtool::section::{Encoding, SectionHeader, SHT_NOBITS, SHT_PROGBITS, SHT_STRTAB};
use signtool::signature_section::{
    add_signature_to_elf, extract_signature_from_elf, locate_section, reserve_section,
    ExtractError, FormatError, Lookup,
};
use signtool::signing::{sign, sign_elf_file, SignError};
use signtool::verification::{verify, verify_elf_file, Verdict};

struct Part {
    name: &'static str,
    kind: u32,
    bytes: Vec<u8>,
}

fn word(v: u64, width: usize, big: bool) -> Vec<u8> {
    let le = v.to_le_bytes();
    let mut bytes = le[..width].to_vec();
    if big {
        bytes.reverse();
    }
    bytes
}

fn put_entry(out: &mut Vec<u8>, h: &SectionHeader, enc: Encoding) {
    let wide = if enc.wide { 8 } else { 4 };
    out.extend_from_slice(&word(h.name as u64, 4, enc.big));
    out.extend_from_slice(&word(h.kind as u64, 4, enc.big));
    out.extend_from_slice(&word(h.flags, wide, enc.big));
    out.extend_from_slice(&word(h.addr, wide, enc.big));
    out.extend_from_slice(&word(h.offset, wide, enc.big));
    out.extend_from_slice(&word(h.size, wide, enc.big));
    out.extend_from_slice(&word(h.link as u64, 4, enc.big));
    out.extend_from_slice(&word(h.info as u64, 4, enc.big));
    out.extend_from_slice(&word(h.addralign, wide, enc.big));
    out.extend_from_slice(&word(h.entsize, wide, enc.big));
}

/// An image with a null section, the given sections, and `.shstrtab` last.
fn image_in(parts: &[Part], enc: Encoding) -> Vec<u8> {
    let mut names = vec![0u8];
    let mut name_at = Vec::new();
    for p in parts {
        name_at.push(names.len() as u32);
        names.extend_from_slice(p.name.as_bytes());
        names.push(0);
    }
    let names_name = names.len() as u32;
    names.extend_from_slice(b".shstrtab\0");

    let header = if enc.wide { 64 } else { 52 };
    let mut out = vec![0u8; header];
    out[..4].copy_from_slice(&[0x7f, b'E', b'L', b'F']);
    out[4] = if enc.wide { 2 } else { 1 };
    out[5] = if enc.big { 2 } else { 1 };
    out[6] = 1;
    out[16..18].copy_from_slice(&word(2, 2, enc.big));
    out[18..20].copy_from_slice(&word(62, 2, enc.big));
    out[20..24].copy_from_slice(&word(1, 4, enc.big));

    let mut entries = vec![SectionHeader {
        name: 0,
        kind: 0,
        flags: 0,
        addr: 0,
        offset: 0,
        size: 0,
        link: 0,
        info: 0,
        addralign: 0,
        entsize: 0,
    }];
    for (p, at) in parts.iter().zip(name_at.iter()) {
        let offset = out.len() as u64;
        let size = p.bytes.len() as u64;
        if p.kind != SHT_NOBITS {
            out.extend_from_slice(&p.bytes);
        }
        entries.push(SectionHeader {
            name: *at,
            kind: p.kind,
            flags: 2,
            addr: 0x40_0000 + offset,
            offset,
            size,
            link: 0,
            info: 0,
            addralign: 1,
            entsize: 0,
        });
    }
    entries.push(SectionHeader {
        name: names_name,
        kind: SHT_STRTAB,
        flags: 0,
        addr: 0,
        offset: out.len() as u64,
        size: names.len() as u64,
        link: 0,
        info: 0,
        addralign: 1,
        entsize: 0,
    });
    out.extend_from_slice(&names);
    let table_at = out.len() as u64;
    for h in &entries {
        put_entry(&mut out, h, enc);
    }
    let count = word(entries.len() as u64, 2, enc.big);
    let last = word(entries.len() as u64 - 1, 2, enc.big);
    if enc.wide {
        out[40..48].copy_from_slice(&word(table_at, 8, enc.big));
        out[52..54].copy_from_slice(&word(64, 2, enc.big));
        out[58..60].copy_from_slice(&word(64, 2, enc.big));
        out[60..62].copy_from_slice(&count);
        out[62..64].copy_from_slice(&last);
    } else {
        out[32..36].copy_from_slice(&word(table_at, 4, enc.big));
        out[40..42].copy_from_slice(&word(52, 2, enc.big));
        out[46..48].copy_from_slice(&word(40, 2, enc.big));
        out[48..50].copy_from_slice(&count);
        out[50..52].copy_from_slice(&last);
    }
    out
}

fn image_of(parts: &[Part]) -> Vec<u8> {
    image_in(parts, Encoding { wide: true, big: false })
}

fn sample_parts() -> Vec<Part> {
    vec![
        Part { name: ".text", kind: SHT_PROGBITS, bytes: vec![0x90; 40] },
        Part { name: ".data", kind: SHT_PROGBITS, bytes: b"some data here".to_vec() },
        Part { name: ".bss", kind: SHT_NOBITS, bytes: vec![0; 1000] },
    ]
}

fn every_encoding() -> Vec<Encoding> {
    vec![
        Encoding { wide: true, big: false },
        Encoding { wide: true, big: true },
        Encoding { wide: false, big: false },
        Encoding { wide: false, big: true },
    ]
}

fn sample_image() -> Vec<u8> {
    image_of(&sample_parts())
}

fn name_of(image: &[u8], j: usize) -> Vec<u8> {
    let layout = read_layout(image).unwrap();
    let names = &image[layout.names_offset..layout.names_offset + layout.names_len];
    let start = layout.table.get(j).name as usize;
    let len = names[start..].iter().position(|b| *b == 0).unwrap();
    names[start..start + len].to_vec()
}

fn bytes_of(image: &[u8], j: usize) -> Vec<u8> {
    let h = read_layout(image).unwrap().table.get(j);
    image[h.offset as usize..(h.offset + h.size) as usize].to_vec()
}

fn elf_keys() -> (SigningKey, VerifyingKey) {
    let pair = generate_keypair().unwrap();
    (
        SigningKey::from_pem(&pair.private_pem).unwrap(),
        VerifyingKey::from_pem(&pair.public_pem).unwrap(),
    )
}

#[test]
fn sample_image_is_readable_and_unsigned() {
    let image = sample_image();
    assert_eq!(detect_format(&image), ArtifactFormat::StructuredExecutable);
    let layout = read_layout(&image).unwrap();
    assert_eq!(layout.table.len(), 5);
    assert_eq!(layout.names_index, 4);
    assert_eq!(name_of(&image, 1), b".text".to_vec());
    assert_eq!(name_of(&image, 4), b".shstrtab".to_vec());
    assert_eq!(locate_section(&image), Lookup::Absent);
    assert_eq!(locate_container(&image, 256), Extraction::NotSigned);
    assert_eq!(extract_signature_from_elf(&image), Err(ExtractError::NotSigned));
}

#[test]
fn fresh_signature_section_has_the_stated_layout() {
    let image = sample_image();
    let n = image.len();
    let old = read_layout(&image).unwrap();
    let names_len = old.names_len;
    let signature = vec![0xa5u8; 48];
    let signed = add_signature_to_elf(&image, &signature).unwrap();

    let table_at = n + names_len + 11;
    let payload_at = table_at + 64 * 7;
    assert_eq!(signed.len(), payload_at + 48);
    assert_eq!(read_u64(&signed, 40, false), table_at as u64);
    assert_eq!(read_u16(&signed, 60, false), 7);
    assert_eq!(read_u16(&signed, 62, false), 5);
    for p in 0..n {
        if !(40..48).contains(&p) && !(60..64).contains(&p) {
            assert_eq!(signed[p], image[p]);
        }
    }
    assert_eq!(&signed[n..n + names_len], &image[old.names_offset..old.names_offset + names_len]);
    assert_eq!(&signed[n + names_len..table_at], b".signature\0");
    assert_eq!(&signed[payload_at..], &signature[..]);

    let new = read_layout(&signed).unwrap();
    assert_eq!(new.table.len(), 7);
    assert_eq!(new.names_index, 5);
    assert_eq!(new.names_offset, n);
    assert_eq!(new.names_len, names_len + 11);
    assert_eq!(
        new.table.get(5),
        SectionHeader {
            name: old.table.get(4).name,
            kind: SHT_STRTAB,
            flags: 0,
            addr: 0,
            offset: n as u64,
            size: (names_len + 11) as u64,
            link: 0,
            info: 0,
            addralign: 1,
            entsize: 0,
        }
    );
    assert_eq!(
        new.table.get(6),
        SectionHeader {
            name: names_len as u32,
            kind: SHT_PROGBITS,
            flags: 0,
            addr: 0,
            offset: payload_at as u64,
            size: 48,
            link: 0,
            info: 0,
            addralign: 1,
            entsize: 0,
        }
    );
}

#[test]
fn signing_keeps_every_section_that_was_there() {
    let (signing, verifying) = elf_keys();
    let image = sample_image();
    let signed = sign(&image, &signing).unwrap();
    let old = read_layout(&image).unwrap();
    let new = read_layout(&signed).unwrap();
    assert_eq!(new.table.len(), old.table.len() + 2);
    for j in 0..old.table.len() {
        assert_eq!(new.table.get(j), old.table.get(j));
        assert_eq!(name_of(&signed, j), name_of(&image, j));
        if old.table.get(j).has_file_bytes() {
            assert_eq!(bytes_of(&signed, j), bytes_of(&image, j));
        }
    }
    let mut bearers = Vec::new();
    for j in 0..new.table.len() {
        if name_of(&signed, j) == b".signature".to_vec() {
            bearers.push(j);
        }
    }
    assert_eq!(bearers, vec![6]);
    assert_eq!(new.table.get(6).size, 256);
    assert_eq!(bytes_of(&signed, 6), signed[signed.len() - 256..].to_vec());
    assert_eq!(verify(&signed, &verifying), Verdict::Valid);
    assert_eq!(verify_elf_file(&signed, &verifying), Verdict::Valid);
}

#[test]
fn search_finds_the_payload_that_was_put() {
    let image = sample_image();
    let signature: Vec<u8> = (0..=255u8).collect();
    let signed = embed_signature(&image, &signature).unwrap();
    let base = reserve(&image, 256).unwrap();
    assert_eq!(signed, [base.as_slice(), signature.as_slice()].concat());
    assert_eq!(
        locate_section(&signed),
        Lookup::Found { index: 6, span: Span { start: base.len(), len: 256 } }
    );
    assert_eq!(
        locate_container(&signed, 9999),
        Extraction::Found(Span { start: base.len(), len: 256 })
    );
    assert_eq!(extract_signature_from_elf(&signed), Ok(signature.clone()));
    assert_eq!(extract_signature(&signed, 256), Ok(signature));
}

#[test]
fn signing_again_with_the_same_key_changes_nothing() {
    let (signing, verifying) = elf_keys();
    let image = sample_image();
    let once = sign(&image, &signing).unwrap();
    let twice = sign(&once, &signing).unwrap();
    assert_eq!(twice, once);
    assert_eq!(read_layout(&twice).unwrap().table.len(), 7);
    assert_eq!(verify(&twice, &verifying), Verdict::Valid);
}

#[test]
fn signing_again_replaces_the_signature() {
    let (first, first_pub) = elf_keys();
    let (second, second_pub) = elf_keys();
    let image = sample_image();
    let once = sign(&image, &first).unwrap();
    let twice = sign_elf_file(&once, &second).unwrap();
    assert_eq!(twice.len(), once.len());
    assert_eq!(&twice[..twice.len() - 256], &once[..once.len() - 256]);
    assert_ne!(&twice[twice.len() - 256..], &once[once.len() - 256..]);
    let layout = read_layout(&twice).unwrap();
    assert_eq!(layout.table.len(), 7);
    let mut count = 0;
    for j in 0..layout.table.len() {
        if name_of(&twice, j) == b".signature".to_vec() {
            count += 1;
        }
    }
    assert_eq!(count, 1);
    assert_eq!(verify(&twice, &second_pub), Verdict::Valid);
    assert_eq!(verify(&twice, &first_pub), Verdict::Invalid);
}

#[test]
fn signature_of_another_length_takes_the_place_of_the_old_one() {
    let image = sample_image();
    let once = add_signature_to_elf(&image, &[1u8; 100]).unwrap();
    let shorter = add_signature_to_elf(&once, &[2u8; 30]).unwrap();
    let longer = add_signature_to_elf(&once, &[3u8; 300]).unwrap();
    assert_eq!(shorter.len(), once.len() - 70);
    assert_eq!(longer.len(), once.len() + 200);
    assert_eq!(extract_signature_from_elf(&shorter), Ok(vec![2u8; 30]));
    assert_eq!(extract_signature_from_elf(&longer), Ok(vec![3u8; 300]));
    assert_eq!(read_layout(&shorter).unwrap().table.len(), 7);
    assert_eq!(read_layout(&longer).unwrap().table.len(), 7);
    let start = once.len() - 100;
    assert_eq!(
        locate_section(&longer),
        Lookup::Found { index: 6, span: Span { start, len: 300 } }
    );
    let before = read_layout(&once).unwrap();
    let after = read_layout(&longer).unwrap();
    for j in 0..6 {
        assert_eq!(after.table.get(j), before.table.get(j));
        assert_eq!(name_of(&longer, j), name_of(&once, j));
    }
}

#[test]
fn signature_section_in_the_middle_is_pointed_at_the_end() {
    let image = image_of(&[
        Part { name: ".signature", kind: SHT_PROGBITS, bytes: vec![0x11; 20] },
        Part { name: ".text", kind: SHT_PROGBITS, bytes: vec![0x90; 40] },
    ]);
    assert_eq!(
        locate_section(&image),
        Lookup::Found { index: 1, span: Span { start: 64, len: 20 } }
    );
    let signed = add_signature_to_elf(&image, &[0x22; 32]).unwrap();
    assert_eq!(signed.len(), image.len() + 32);
    assert_eq!(
        locate_section(&signed),
        Lookup::Found { index: 1, span: Span { start: image.len(), len: 32 } }
    );
    assert_eq!(&signed[64..84], &[0x11; 20]);
    assert_eq!(bytes_of(&signed, 2), vec![0x90; 40]);
    assert_eq!(read_layout(&signed).unwrap().table.len(), 4);
    assert_eq!(extract_signature_from_elf(&signed), Ok(vec![0x22; 32]));
}

#[test]
fn change_in_a_section_is_noticed() {
    let (signing, verifying) = elf_keys();
    let image = sample_image();
    let signed = sign(&image, &signing).unwrap();
    let mut in_text = signed.clone();
    in_text[70] ^= 0x01;
    assert_eq!(verify(&in_text, &verifying), Verdict::Invalid);
    let mut in_header = signed.clone();
    in_header[24] ^= 0x40;
    assert_eq!(verify(&in_header, &verifying), Verdict::Invalid);
    let mut in_payload = signed.clone();
    let last = in_payload.len() - 1;
    in_payload[last] ^= 0x01;
    assert_eq!(verify(&in_payload, &verifying), Verdict::Invalid);
}

#[test]
fn change_that_hides_the_section_table_leaves_no_signature_to_find() {
    let (signing, verifying) = elf_keys();
    let signed = sign(&sample_image(), &signing).unwrap();
    let mut no_table = signed.clone();
    no_table[47] ^= 0x80;
    assert_eq!(verify(&no_table, &verifying), Verdict::NotSigned);
    let mut other_class = signed.clone();
    other_class[4] = 1;
    assert_eq!(verify(&other_class, &verifying), Verdict::NotSigned);
}

#[test]
fn unsigned_image_is_not_signed() {
    let (_, verifying) = elf_keys();
    assert_eq!(verify(&sample_image(), &verifying), Verdict::NotSigned);
    let mut garbage = vec![0x7f, b'E', b'L', b'F'];
    garbage.resize(4000, 0xff);
    assert_eq!(verify(&garbage, &verifying), Verdict::NotSigned);
}

#[test]
fn cut_off_payload_is_a_malformed_container() {
    let (signing, verifying) = elf_keys();
    let signed = sign(&sample_image(), &signing).unwrap();
    let cut = &signed[..signed.len() - 1];
    assert_eq!(locate_section(cut), Lookup::Malformed);
    assert_eq!(verify(cut, &verifying), Verdict::MalformedContainer);
    assert_eq!(extract_signature_from_elf(cut), Err(ExtractError::MalformedContainer));
    assert_eq!(sign(cut, &signing), Err(SignError::MalformedContainer));
    assert_eq!(add_signature_to_elf(cut, &[0; 8]), Err(FormatError::MalformedContainer));
}

#[test]
fn two_signature_sections_are_a_malformed_container() {
    let (signing, verifying) = elf_keys();
    let image = image_of(&[
        Part { name: ".signature", kind: SHT_PROGBITS, bytes: vec![1; 8] },
        Part { name: ".signature", kind: SHT_PROGBITS, bytes: vec![2; 8] },
    ]);
    assert_eq!(locate_section(&image), Lookup::Malformed);
    assert_eq!(verify(&image, &verifying), Verdict::MalformedContainer);
    assert_eq!(sign(&image, &signing), Err(SignError::MalformedContainer));
}

#[test]
fn signature_section_without_bytes_is_a_malformed_container() {
    let image = image_of(&[Part { name: ".signature", kind: SHT_NOBITS, bytes: vec![0; 8] }]);
    assert_eq!(locate_section(&image), Lookup::Malformed);
}

#[test]
fn name_that_only_starts_or_ends_like_the_reserved_one_is_another_name() {
    let image = image_of(&[
        Part { name: ".signature2", kind: SHT_PROGBITS, bytes: vec![1; 8] },
        Part { name: ".signatur", kind: SHT_PROGBITS, bytes: vec![2; 8] },
        Part { name: "x.signature", kind: SHT_PROGBITS, bytes: vec![3; 8] },
    ]);
    assert_eq!(locate_section(&image), Lookup::Absent);
    let signed = add_signature_to_elf(&image, &[9; 16]).unwrap();
    assert_eq!(read_layout(&signed).unwrap().table.len(), 7);
    assert_eq!(extract_signature_from_elf(&signed), Ok(vec![9; 16]));
}

#[test]
fn image_whose_class_or_byte_order_byte_lies_is_not_extended() {
    let (signing, verifying) = elf_keys();
    let mut narrow = sample_image();
    narrow[4] = 1;
    assert_eq!(locate_section(&narrow), Lookup::Unreadable);
    assert_eq!(sign(&narrow, &signing), Err(SignError::UnsupportedFormat));
    let mut big_endian = sample_image();
    big_endian[5] = 2;
    assert_eq!(sign(&big_endian, &signing), Err(SignError::UnsupportedFormat));
    assert_eq!(reserve_section(&big_endian, 256), Err(FormatError::Unsupported));
    let mut no_class = sample_image();
    no_class[4] = 3;
    assert_eq!(sign(&no_class, &signing), Err(SignError::UnsupportedFormat));
    assert_eq!(verify(&no_class, &verifying), Verdict::NotSigned);
    let mut no_order = sample_image();
    no_order[5] = 0;
    assert_eq!(sign(&no_order, &signing), Err(SignError::UnsupportedFormat));
}

#[test]
fn images_of_every_class_and_byte_order_are_signed_and_verified() {
    let (signing, verifying) = elf_keys();
    for enc in every_encoding() {
        let image = image_in(&sample_parts(), enc);
        let old = read_layout(&image).unwrap();
        assert_eq!(old.encoding, enc);
        assert_eq!(old.table.len(), 5);
        assert_eq!(name_of(&image, 2), b".data".to_vec());
        assert!(is_well_formed(&image));
        assert_eq!(verify(&image, &verifying), Verdict::NotSigned);

        let signed = sign(&image, &signing).unwrap();
        let entry = enc.entry_len();
        assert_eq!(signed.len(), image.len() + old.names_len + 11 + 7 * entry + 256);
        let new = read_layout(&signed).unwrap();
        assert_eq!(new.encoding, enc);
        assert_eq!(new.table.len(), 7);
        assert_eq!(new.names_index, 5);
        assert_eq!(new.table_offset, image.len() + old.names_len + 11);
        for j in 0..5 {
            assert_eq!(new.table.get(j), old.table.get(j));
            assert_eq!(name_of(&signed, j), name_of(&image, j));
            if old.table.get(j).has_file_bytes() {
                assert_eq!(bytes_of(&signed, j), bytes_of(&image, j));
            }
        }
        assert_eq!(name_of(&signed, 6), b".signature".to_vec());
        assert_eq!(new.table.get(6).offset as usize, signed.len() - 256);
        assert!(is_well_formed(&signed));
        assert_eq!(verify(&signed, &verifying), Verdict::Valid);
        assert_eq!(sign(&signed, &signing), Ok(signed.clone()));

        let mut tampered = signed.clone();
        tampered[header_of(enc) + 3] ^= 0x10;
        assert_eq!(verify(&tampered, &verifying), Verdict::Invalid);
        let cut = &signed[..signed.len() - 1];
        assert_eq!(verify(cut, &verifying), Verdict::MalformedContainer);
    }
}

fn header_of(enc: Encoding) -> usize {
    if enc.wide {
        64
    } else {
        52
    }
}

#[test]
fn narrow_image_keeps_its_sections_right_behind_the_short_header() {
    let enc = Encoding { wide: false, big: false };
    let image = image_in(&sample_parts(), enc);
    let layout = read_layout(&image).unwrap();
    assert_eq!(layout.table.get(1).offset, 52);
    assert!(is_well_formed(&image));
    let signed = add_signature_to_elf(&image, &[5u8; 20]).unwrap();
    for p in 0..image.len() {
        if !(32..36).contains(&p) && !(48..52).contains(&p) {
            assert_eq!(signed[p], image[p]);
        }
    }
    assert_eq!(extract_signature_from_elf(&signed), Ok(vec![5u8; 20]));
}

#[test]
fn image_with_a_broken_table_is_not_extended() {
    let image = sample_image();
    let mut no_sections = image.clone();
    no_sections[60] = 0;
    no_sections[61] = 0;
    assert_eq!(reserve_section(&no_sections, 8), Err(FormatError::Unsupported));
    let mut table_outside = image.clone();
    table_outside[40..48].copy_from_slice(&(image.len() as u64 - 10).to_le_bytes());
    assert_eq!(reserve_section(&table_outside, 8), Err(FormatError::Unsupported));
    let mut names_nowhere = image.clone();
    names_nowhere[62] = 9;
    assert_eq!(reserve_section(&names_nowhere, 8), Err(FormatError::Unsupported));
    let mut odd_entries = image.clone();
    odd_entries[58] = 40;
    assert_eq!(reserve_section(&odd_entries, 8), Err(FormatError::Unsupported));
}

#[test]
fn image_with_a_section_outside_the_file_is_not_extended() {
    let (_, verifying) = elf_keys();
    let image = sample_image();
    let table_at = read_u64(&image, 40, false) as usize;
    let mut outside = image.clone();
    let size_at = table_at + 64 + 32;
    outside[size_at..size_at + 8].copy_from_slice(&(image.len() as u64).to_le_bytes());
    assert_eq!(locate_section(&outside), Lookup::Absent);
    assert_eq!(reserve_section(&outside, 8), Err(FormatError::Unsupported));
    assert_eq!(verify(&outside, &verifying), Verdict::NotSigned);
    let mut in_header = image.clone();
    let offset_at = table_at + 64 + 24;
    in_header[offset_at..offset_at + 8].copy_from_slice(&32u64.to_le_bytes());
    assert_eq!(reserve_section(&in_header, 8), Err(FormatError::Unsupported));
}

#[test]
fn names_that_do_not_end_with_a_zero_byte_are_not_read() {
    let image = sample_image();
    let layout = read_layout(&image).unwrap();
    let mut open_ended = image.clone();
    open_ended[layout.names_offset + layout.names_len - 1] = b'x';
    assert!(read_layout(&open_ended).is_none());
    assert_eq!(locate_section(&open_ended), Lookup::Unreadable);
}

#[test]
fn image_with_overlapping_sections_is_not_extended() {
    let (signing, verifying) = elf_keys();
    let image = sample_image();
    let table_at = read_u64(&image, 40, false) as usize;
    let mut overlapping = image.clone();
    let data_offset_at = table_at + 2 * 64 + 24;
    overlapping[data_offset_at..data_offset_at + 8].copy_from_slice(&100u64.to_le_bytes());
    assert!(read_layout(&overlapping).is_some());
    assert!(!is_well_formed(&overlapping));
    assert_eq!(reserve_section(&overlapping, 8), Err(FormatError::Unsupported));
    assert_eq!(sign(&overlapping, &signing), Err(SignError::UnsupportedFormat));
    assert_eq!(verify(&overlapping, &verifying), Verdict::NotSigned);
    assert!(is_well_formed(&image));
}

#[test]
fn section_that_reaches_into_the_section_table_is_not_accepted() {
    let image = sample_image();
    let table_at = read_u64(&image, 40, false) as usize;
    let mut reaching = image.clone();
    let names_size_at = table_at + 4 * 64 + 32;
    let size = read_u64(&image, names_size_at, false);
    reaching[names_size_at..names_size_at + 8].copy_from_slice(&(size + 1).to_le_bytes());
    assert!(!is_well_formed(&reaching));
    assert_eq!(reserve_section(&reaching, 8), Err(FormatError::Unsupported));
}

#[test]
fn signed_image_is_well_formed_and_can_be_signed_anew() {
    let image = sample_image();
    let once = add_signature_to_elf(&image, &[7; 64]).unwrap();
    assert!(is_well_formed(&once));
    let twice = add_signature_to_elf(&once, &[8; 64]).unwrap();
    assert!(is_well_formed(&twice));
    assert_eq!(twice.len(), once.len());
}

#[test]
fn signature_section_of_another_type_is_found_by_its_name() {
    let (signing, verifying) = elf_keys();
    let image = image_of(&[
        Part { name: ".text", kind: SHT_PROGBITS, bytes: vec![0x90; 16] },
        Part { name: ".signature", kind: 7, bytes: vec![0x33; 24] },
    ]);
    assert_eq!(
        locate_section(&image),
        Lookup::Found { index: 2, span: Span { start: 80, len: 24 } }
    );
    assert_eq!(extract_signature_from_elf(&image), Ok(vec![0x33; 24]));
    assert_eq!(verify(&image, &verifying), Verdict::Invalid);
    let signed = sign(&image, &signing).unwrap();
    assert_eq!(read_layout(&signed).unwrap().table.len(), 4);
    assert_eq!(read_layout(&signed).unwrap().table.get(2).kind, SHT_PROGBITS);
    assert_eq!(verify(&signed, &verifying), Verdict::Valid);
}

#[test]
fn holder_of_the_names_is_not_made_the_signature_section() {
    let (signing, verifying) = elf_keys();
    let mut image = image_of(&[Part { name: ".signature", kind: SHT_PROGBITS, bytes: vec![1; 8] }]);
    let layout = read_layout(&image).unwrap();
    let table_at = layout.table_offset;
    let name_of_first = layout.table.get(1).name;
    image[table_at + 2 * 64..table_at + 2 * 64 + 4].copy_from_slice(&name_of_first.to_le_bytes());
    image[table_at + 64..table_at + 64 + 4].copy_from_slice(&0u32.to_le_bytes());
    match locate_section(&image) {
        Lookup::Found { index, .. } => assert_eq!(index, 2),
        other => panic!("{:?}", other),
    }
    assert_eq!(reserve_section(&image, 16), Err(FormatError::Unsupported));
    assert_eq!(sign(&image, &signing), Err(SignError::UnsupportedFormat));
    assert_eq!(verify(&image, &verifying), Verdict::Invalid);
}
