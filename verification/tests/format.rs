use signtool::format::{detect_format, is_elf_file, ArtifactFormat};

fn with_magic(len: usize) -> Vec<u8> {
    let mut data = vec![0x7f, b'E', b'L', b'F', 2, 1, 1];
    data.resize(len.max(4), 0);
    data
}

#[test]
fn magic_prefix_and_a_whole_header_make_an_image() {
    assert!(is_elf_file(&with_magic(64)));
    assert!(is_elf_file(&with_magic(65)));
    assert!(is_elf_file(&with_magic(4096)));
    let mut other = with_magic(64);
    other[3] = b'G';
    assert!(!is_elf_file(&other));
    assert!(!is_elf_file(&vec![b'x'; 64]));
    assert!(!is_elf_file(b"hello, world"));
}

#[test]
fn magic_prefix_alone_makes_no_image() {
    assert!(!is_elf_file(&[0x7f, b'E', b'L', b'F']));
    assert!(!is_elf_file(&[0x7f, b'E', b'L', b'F', 2, 1, 1]));
    assert!(!is_elf_file(&with_magic(63)));
    assert!(!is_elf_file(&[0x7f, b'E', b'L']));
    assert!(!is_elf_file(&[]));
}

#[test]
fn short_file_with_magic_is_opaque() {
    let mut data = vec![0x7f, b'E', b'L', b'F'];
    data.resize(63, 0);
    assert_eq!(detect_format(&data), ArtifactFormat::Opaque);
    data.push(0);
    assert_eq!(detect_format(&data), ArtifactFormat::StructuredExecutable);
    assert_eq!(detect_format(b"plain text"), ArtifactFormat::Opaque);
}

#[test]
fn entry_points_are_reachable_from_the_crate_root() {
    assert!(!signtool::is_elf_file(b"\x7fELF"));
    assert_eq!(signtool::detect_format(b"\x7fELF"), signtool::ArtifactFormat::Opaque);
    assert_eq!(signtool::Verdict::Valid.exit_code(), 0);
    assert_eq!(
        signtool::sign_file(b"", b"data"),
        Err(signtool::SignError::KeyMaterialInvalid)
    );
    assert_eq!(
        signtool::verify_file(b"", b"data"),
        Err(signtool::KeyError::KeyMaterialInvalid)
    );
}
