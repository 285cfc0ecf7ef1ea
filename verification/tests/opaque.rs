use signtool::container::{
    checked_format, embed_signature, extract_signature, locate_container, locate_in_sections,
    locate_in_trailer, reserve, reserve_trailer, Extraction,
};
use signtool::digest::Span;
use signtool::keys::{generate_keypair, KeyPair, SigningKey, VerifyingKey};
use signtool::signature_section::ExtractError;
use signtool::signing::{seal, sign, sign_file, sign_regular_file, SignError};
use signtool::trailer::{check_trailer_fits, locate_trailer};
use signtool::verification::{judge, verify, verify_file, verify_regular_file, Verdict};

fn opaque_keys() -> (KeyPair, SigningKey, VerifyingKey) {
    let pair = generate_keypair().unwrap();
    let signing = SigningKey::from_pem(&pair.private_pem).unwrap();
    let verifying = VerifyingKey::from_pem(&pair.public_pem).unwrap();
    (pair, signing, verifying)
}

#[test]
fn ten_byte_file_is_signed_and_verified() {
    let (_, signing, verifying) = opaque_keys();
    let content = b"0123456789".to_vec();
    let signed = sign(&content, &signing).unwrap();
    let l = signing.signature_len();
    assert_eq!(l, 256);
    assert_eq!(signed.len(), 10 + l);
    assert_eq!(&signed[..10], &content[..]);
    assert_eq!(verify(&signed, &verifying), Verdict::Valid);

    let mut extended = content.clone();
    extended.push(0);
    extended.extend_from_slice(&signed[10..]);
    assert_eq!(extended.len(), 11 + l);
    assert_eq!(verify(&extended, &verifying), Verdict::Invalid);
}

#[test]
fn every_flipped_bit_of_a_small_file_is_noticed() {
    let (_, signing, verifying) = opaque_keys();
    let content = b"abcd".to_vec();
    let signed = sign(&content, &signing).unwrap();
    for at in 0..content.len() {
        for bit in 0..8 {
            let mut tampered = signed.clone();
            tampered[at] ^= 1 << bit;
            assert_eq!(verify(&tampered, &verifying), Verdict::Invalid);
        }
    }
    let mut bent = signed.clone();
    let last = bent.len() - 1;
    bent[last] ^= 0x80;
    assert_eq!(verify(&bent, &verifying), Verdict::Invalid);
}

#[test]
fn file_shorter_than_a_signature_is_not_signed() {
    let (_, _, verifying) = opaque_keys();
    assert_eq!(verify(b"", &verifying), Verdict::NotSigned);
    assert_eq!(verify(b"short", &verifying), Verdict::NotSigned);
    assert_eq!(verify(&vec![7u8; 255], &verifying), Verdict::NotSigned);
    assert_eq!(verify_regular_file(&vec![7u8; 255], &verifying), Verdict::NotSigned);
    assert_eq!(verify(&vec![7u8; 256], &verifying), Verdict::Invalid);
}

#[test]
fn long_unsigned_file_has_its_tail_taken_for_a_signature() {
    let (_, _, verifying) = opaque_keys();
    let text = vec![b'x'; 300];
    assert_eq!(
        locate_container(&text, 256),
        Extraction::Found(Span { start: 44, len: 256 })
    );
    assert_eq!(verify(&text, &verifying), Verdict::Invalid);
}

#[test]
fn wrong_key_does_not_accept() {
    let (_, signing, _) = opaque_keys();
    let (_, _, stranger) = opaque_keys();
    let signed = sign(b"payload of the release", &signing).unwrap();
    assert_eq!(verify(&signed, &stranger), Verdict::Invalid);
}

#[test]
fn empty_file_is_signed_too() {
    let (_, signing, verifying) = opaque_keys();
    let signed = sign(b"", &signing).unwrap();
    assert_eq!(signed.len(), 256);
    assert_eq!(verify(&signed, &verifying), Verdict::Valid);
}

#[test]
fn signing_again_appends_again() {
    let (_, signing, verifying) = opaque_keys();
    let once = sign(b"data", &signing).unwrap();
    let twice = sign(&once, &signing).unwrap();
    assert_eq!(twice.len(), 4 + 2 * 256);
    assert_eq!(&twice[..once.len()], &once[..]);
    assert_eq!(verify(&twice, &verifying), Verdict::Valid);
}

#[test]
fn trailer_is_put_in_and_taken_out() {
    let signature = vec![0x5a; 16];
    let signed = embed_signature(b"content", &signature).unwrap();
    assert_eq!(signed, [b"content".as_slice(), signature.as_slice()].concat());
    assert_eq!(extract_signature(&signed, 16), Ok(signature.clone()));
    assert_eq!(extract_signature(&signed, 4), Ok(vec![0x5a; 4]));
    assert_eq!(extract_signature(&signed, 23), Ok(signed.clone()));
    assert_eq!(extract_signature(&signed, 24), Err(ExtractError::NotSigned));
    assert_eq!(reserve(b"content", 16), Ok(b"content".to_vec()));
    assert_eq!(embed_signature(b"content", &[]), Ok(b"content".to_vec()));
}

#[test]
fn trailer_span_is_the_tail() {
    assert_eq!(locate_trailer(10, 4), Some(Span { start: 6, len: 4 }));
    assert_eq!(locate_trailer(4, 4), Some(Span { start: 0, len: 4 }));
    assert_eq!(locate_trailer(3, 4), None);
    assert_eq!(locate_trailer(0, 0), Some(Span { start: 0, len: 0 }));
    assert!(check_trailer_fits(10, 4));
    assert!(check_trailer_fits(usize::MAX - 4, 4));
    assert!(!check_trailer_fits(usize::MAX - 3, 4));
}

#[test]
fn short_file_with_magic_prefix_is_not_signed_into_an_image() {
    let (_, signing, verifying) = opaque_keys();
    let mut stub = vec![0x7f, b'E', b'L', b'F'];
    stub.extend_from_slice(b"tiny");
    assert_eq!(sign(&stub, &signing), Err(SignError::UnsupportedFormat));
    assert_eq!(
        embed_signature(&stub, &[0u8; 256]),
        Err(signtool::signature_section::FormatError::Unsupported)
    );
    assert_eq!(embed_signature(&stub, &[0u8; 55]).unwrap().len(), 63);
    assert_eq!(
        embed_signature(&stub, &[0u8; 56]),
        Err(signtool::signature_section::FormatError::Unsupported)
    );
    let by_trailer = sign_regular_file(&stub, &signing).unwrap();
    assert_eq!(by_trailer.len(), 8 + 256);
    assert_eq!(verify_regular_file(&by_trailer, &verifying), Verdict::Valid);
    assert_eq!(verify(&by_trailer, &verifying), Verdict::NotSigned);
}

#[test]
fn signature_that_completes_the_magic_prefix_is_not_appended() {
    let stub = vec![0x7f, b'E'];
    let mut completing = vec![b'L', b'F'];
    completing.resize(100, 0);
    assert_eq!(
        embed_signature(&stub, &completing),
        Err(signtool::signature_section::FormatError::Unsupported)
    );
    let mut harmless = vec![b'L', b'G'];
    harmless.resize(100, 0);
    assert_eq!(embed_signature(&stub, &harmless).unwrap().len(), 102);
    assert_eq!(
        checked_format(&stub, [stub.as_slice(), completing.as_slice()].concat()),
        Err(signtool::signature_section::FormatError::Unsupported)
    );
    assert_eq!(checked_format(b"abc", b"abcdef".to_vec()), Ok(b"abcdef".to_vec()));
}

#[test]
fn strategies_can_be_asked_for_by_name() {
    assert_eq!(
        locate_in_trailer(b"0123456789", 4),
        Extraction::Found(Span { start: 6, len: 4 })
    );
    assert_eq!(locate_in_trailer(b"012", 4), Extraction::NotSigned);
    assert_eq!(locate_in_sections(b"0123456789"), Extraction::NotSigned);
    assert_eq!(reserve_trailer(b"abc", 5), Ok(b"abc".to_vec()));
}

#[test]
fn sign_regular_file_appends_whatever_the_bytes_are() {
    let (_, signing, verifying) = opaque_keys();
    let mut looks_like_image = vec![0x7f, b'E', b'L', b'F'];
    looks_like_image.resize(100, 0);
    let signed = sign_regular_file(&looks_like_image, &signing).unwrap();
    assert_eq!(signed.len(), 356);
    assert_eq!(&signed[..100], &looks_like_image[..]);
    assert_eq!(verify_regular_file(&signed, &verifying), Verdict::Valid);
}

#[test]
fn key_files_are_parsed_before_anything_else() {
    let (pair, _, _) = opaque_keys();
    let signed = sign_file(&pair.private_pem, b"release notes").unwrap();
    assert_eq!(verify_file(&pair.public_pem, &signed), Ok(Verdict::Valid));
    assert_eq!(verify_file(&pair.public_pem, b"release notes"), Ok(Verdict::NotSigned));
    assert_eq!(sign_file(b"junk", b"release notes"), Err(SignError::KeyMaterialInvalid));
    assert_eq!(sign_file(&pair.public_pem, b"release notes"), Err(SignError::KeyMaterialInvalid));
    assert!(verify_file(b"junk", &signed).is_err());
}

#[test]
fn seal_appends_or_reports_the_provider() {
    assert_eq!(seal(vec![1, 2], Ok(vec![3])), Ok(vec![1, 2, 3]));
    assert_eq!(
        seal(vec![1, 2], Err(signtool::keys::KeyError::ProviderFailure)),
        Err(SignError::KeyProvider)
    );
}

#[test]
fn verdicts_follow_the_search_and_the_key() {
    let span = Span { start: 1, len: 2 };
    assert_eq!(judge(Extraction::NotSigned, true), Verdict::NotSigned);
    assert_eq!(judge(Extraction::NotSigned, false), Verdict::NotSigned);
    assert_eq!(judge(Extraction::Malformed, true), Verdict::MalformedContainer);
    assert_eq!(judge(Extraction::Found(span), true), Verdict::Valid);
    assert_eq!(judge(Extraction::Found(span), false), Verdict::Invalid);
}

#[test]
fn verdicts_have_labels_and_exit_codes() {
    assert_eq!(Verdict::Valid.label(), "Valid");
    assert_eq!(Verdict::Invalid.label(), "Invalid");
    assert_eq!(Verdict::NotSigned.label(), "NotSigned");
    assert_eq!(Verdict::MalformedContainer.label(), "MalformedContainer");
    assert_eq!(Verdict::Valid.exit_code(), 0);
    assert_ne!(Verdict::Invalid.exit_code(), 0);
    assert_ne!(Verdict::NotSigned.exit_code(), 0);
    assert_ne!(Verdict::MalformedContainer.exit_code(), 0);
}

#[test]
fn provider_that_fails_leaves_nothing_signed() {
    let broken = SigningKey::assemble(Some((b"no key".to_vec(), 256))).unwrap();
    assert_eq!(sign(b"data", &broken), Err(SignError::KeyProvider));
    assert_eq!(sign_regular_file(b"data", &broken), Err(SignError::KeyProvider));
    let deaf = VerifyingKey::assemble(Some((b"no key".to_vec(), 4))).unwrap();
    assert_eq!(verify(b"data and more", &deaf), Verdict::Invalid);
    assert_eq!(verify(b"abc", &deaf), Verdict::NotSigned);
}

#[test]
fn key_of_another_size_looks_at_another_tail() {
    let (_, signing, _) = opaque_keys();
    let signed = sign(b"0123456789", &signing).unwrap();
    let wide = VerifyingKey::assemble(Some((b"no key".to_vec(), 512))).unwrap();
    assert_eq!(verify(&signed, &wide), Verdict::NotSigned);
    assert_eq!(
        locate_container(&signed, 100),
        Extraction::Found(Span { start: 166, len: 100 })
    );
}
