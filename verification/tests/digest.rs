use signtool::digest::{canonical_digest, covered_bytes, signable_bytes, Span, DIGEST_SIZE};

fn hex(bytes: &[u8]) -> String {
    let mut s = String::new();
    for b in bytes {
        s.push_str(&format!("{:02x}", b));
    }
    s
}

#[test]
fn digest_of_a_whole_file_is_its_sha256() {
    let d = canonical_digest(b"abc", Span::empty());
    assert_eq!(d.len(), DIGEST_SIZE);
    assert_eq!(hex(&d), "ba7816bf8f01cfea414140de5dae2223b00361a396177a9cb410ff61f20015ad");
    let e = canonical_digest(b"", Span::empty());
    assert_eq!(hex(&e), "e3b0c44298fc1c149afbf4c8996fb92427ae41e4649b934ca495991b7852b855");
}

#[test]
fn excluded_span_is_left_out_of_the_digest() {
    let whole = canonical_digest(b"abc", Span::empty());
    let with_hole = canonical_digest(b"aXYZbc", Span { start: 1, len: 3 });
    let with_tail = canonical_digest(b"abc....", Span { start: 3, len: 4 });
    let with_head = canonical_digest(b"__abc", Span { start: 0, len: 2 });
    assert_eq!(with_hole, whole);
    assert_eq!(with_tail, whole);
    assert_eq!(with_head, whole);
    assert_ne!(canonical_digest(b"aXYZbc", Span { start: 1, len: 2 }), whole);
}

#[test]
fn signable_and_covered_bytes_share_out_the_artifact() {
    let data = b"0123456789";
    assert_eq!(signable_bytes(data, Span { start: 3, len: 4 }), b"012789".to_vec());
    assert_eq!(covered_bytes(data, Span { start: 3, len: 4 }), b"3456".to_vec());
    assert_eq!(signable_bytes(data, Span::empty()), data.to_vec());
    assert_eq!(covered_bytes(data, Span::empty()), Vec::<u8>::new());
    assert_eq!(signable_bytes(data, Span { start: 0, len: 10 }), Vec::<u8>::new());
    assert_eq!(covered_bytes(data, Span { start: 0, len: 10 }), data.to_vec());
}

#[test]
fn span_that_leaves_the_artifact_is_cut_off() {
    let data = b"0123456789";
    assert_eq!(signable_bytes(data, Span { start: 8, len: 100 }), b"01234567".to_vec());
    assert_eq!(covered_bytes(data, Span { start: 8, len: 100 }), b"89".to_vec());
    assert_eq!(signable_bytes(data, Span { start: 50, len: 1 }), data.to_vec());
    assert_eq!(covered_bytes(data, Span { start: 50, len: usize::MAX }), Vec::<u8>::new());
    assert_eq!(signable_bytes(data, Span { start: 2, len: usize::MAX }), b"01".to_vec());
}
