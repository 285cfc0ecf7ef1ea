use signtool::bytes::{
    append_bytes, overwrite, push_u16, push_u32, push_u64, read_u16, read_u32, read_u64,
};

#[test]
fn little_endian_fields_are_read() {
    let data = [0x01, 0x02, 0x03, 0x04, 0x05, 0x06, 0x07, 0x08, 0x09];
    assert_eq!(read_u16(&data, 0, false), 0x0201);
    assert_eq!(read_u16(&data, 7, false), 0x0908);
    assert_eq!(read_u32(&data, 1, false), 0x0504_0302);
    assert_eq!(read_u64(&data, 0, false), 0x0807_0605_0403_0201);
    assert_eq!(read_u64(&data, 1, false), 0x0908_0706_0504_0302);
}

#[test]
fn little_endian_fields_are_written() {
    let mut out = vec![0xaa];
    push_u16(&mut out, 0x1234, false);
    push_u32(&mut out, 0xdead_beef, false);
    push_u64(&mut out, 0x0123_4567_89ab_cdef, false);
    assert_eq!(
        out,
        vec![
            0xaa, 0x34, 0x12, 0xef, 0xbe, 0xad, 0xde, 0xef, 0xcd, 0xab, 0x89, 0x67, 0x45, 0x23,
            0x01
        ]
    );
    assert_eq!(read_u16(&out, 1, false), 0x1234);
    assert_eq!(read_u32(&out, 3, false), 0xdead_beef);
    assert_eq!(read_u64(&out, 7, false), 0x0123_4567_89ab_cdef);
}

#[test]
fn extreme_values_survive_a_round_trip() {
    let mut out = Vec::new();
    push_u16(&mut out, u16::MAX, false);
    push_u32(&mut out, u32::MAX, false);
    push_u64(&mut out, u64::MAX, false);
    push_u64(&mut out, 0, false);
    assert_eq!(out.len(), 22);
    assert_eq!(read_u16(&out, 0, false), u16::MAX);
    assert_eq!(read_u32(&out, 2, false), u32::MAX);
    assert_eq!(read_u64(&out, 6, false), u64::MAX);
    assert_eq!(read_u64(&out, 14, false), 0);
}

#[test]
fn overwrite_changes_only_the_patched_bytes() {
    let mut out = vec![1, 2, 3, 4, 5, 6];
    overwrite(&mut out, 2, &[9, 8]);
    assert_eq!(out, vec![1, 2, 9, 8, 5, 6]);
    overwrite(&mut out, 6, &[]);
    assert_eq!(out, vec![1, 2, 9, 8, 5, 6]);
    overwrite(&mut out, 0, &[7, 7, 7, 7, 7, 7]);
    assert_eq!(out, vec![7; 6]);
}

#[test]
fn append_bytes_extends_at_the_end() {
    let mut out = vec![1, 2];
    append_bytes(&mut out, &[3, 4, 5]);
    append_bytes(&mut out, &[]);
    assert_eq!(out, vec![1, 2, 3, 4, 5]);
}

#[test]
fn big_endian_fields_are_read_and_written() {
    let data = [0x01, 0x02, 0x03, 0x04, 0x05, 0x06, 0x07, 0x08, 0x09];
    assert_eq!(read_u16(&data, 0, true), 0x0102);
    assert_eq!(read_u32(&data, 1, true), 0x0203_0405);
    assert_eq!(read_u64(&data, 1, true), 0x0203_0405_0607_0809);
    let mut out = vec![0xaa];
    push_u16(&mut out, 0x1234, true);
    push_u32(&mut out, 0xdead_beef, true);
    push_u64(&mut out, 0x0123_4567_89ab_cdef, true);
    assert_eq!(
        out,
        vec![
            0xaa, 0x12, 0x34, 0xde, 0xad, 0xbe, 0xef, 0x01, 0x23, 0x45, 0x67, 0x89, 0xab, 0xcd,
            0xef
        ]
    );
    assert_eq!(read_u16(&out, 1, true), 0x1234);
    assert_eq!(read_u32(&out, 3, true), 0xdead_beef);
    assert_eq!(read_u64(&out, 7, true), 0x0123_4567_89ab_cdef);
    assert_eq!(read_u64(&out, 7, false), 0xefcd_ab89_6745_2301);
}
