//! The signer: detects the format, makes room for the signature, signs the
//! digest of what the signature will attest, and appends the signature.

use vstd::prelude::*;

use crate::bytes::append_bytes;
use crate::container::{
    base_of, checked_format, grows_into_image, reserve_trailer, trailer_base,
};
use crate::digest::{canonical_digest, lemma_signable_of_empty_span, sha256_of, Span};
use crate::format::{detect_format, format_of, ArtifactFormat};
use crate::image::{readable, table_readable};
use crate::keys::{pkcs1_signature, signing_key_of, KeyError, SigningKey};
use crate::section_laws::{lemma_resigning_makes_the_same_room, lemma_section_round_trip};
use crate::signature_section::{reserve_section, section_base, FormatError};

verus! {

/// Why an artifact was not signed. Nothing is written in any of the cases.
#[derive(Clone, Copy, Debug, PartialEq, Eq, Structural)]
pub enum SignError {
    /// The private key does not parse.
    KeyMaterialInvalid,
    /// The artifact is an image that this library cannot extend, or an
    /// opaque file that its signature would turn into an image.
    UnsupportedFormat,
    /// The artifact holds a signature container that is malformed.
    MalformedContainer,
    /// The key provider gave no signature, or one of another length than
    /// the key announced.
    KeyProvider,
}

/// The signature that the key `private_der` gives for the artifact whose
/// bytes, with room made, are `base`: the signature of their digest.
pub open spec fn signature_of(base: Seq<u8>, private_der: Seq<u8>) -> Option<Seq<u8>> {
    pkcs1_signature(private_der, sha256_of(base))
}

/// What signing comes to once it is settled whether room can be made:
/// where it cannot, the error that says why; where it can, the room with
/// the signature of the key behind it, if the provider gives one of the
/// length `signature_len`, and a provider failure if not.
pub open spec fn sealed(
    room: Result<Seq<u8>, FormatError>,
    private_der: Seq<u8>,
    signature_len: usize,
) -> Result<Seq<u8>, SignError> {
    match room {
        Err(FormatError::Unsupported) => Err(SignError::UnsupportedFormat),
        Err(FormatError::MalformedContainer) => Err(SignError::MalformedContainer),
        Ok(base) => match signature_of(base, private_der) {
            Some(signature) => if signature.len() == signature_len {
                Ok(base + signature)
            } else {
                Err(SignError::KeyProvider)
            },
            None => Err(SignError::KeyProvider),
        },
    }
}

/// What signing the artifact `a` comes to under the key `private_der`
/// with signatures of `signature_len` bytes: the artifact with room made
/// by the strategy of its format and the signature behind it. An opaque
/// file that its signature would turn into an image is refused.
pub open spec fn sign_outcome(a: Seq<u8>, private_der: Seq<u8>, signature_len: usize) -> Result<
    Seq<u8>,
    SignError,
> {
    match sealed(base_of(a, signature_len), private_der, signature_len) {
        Ok(signed) => if grows_into_image(a, signed) {
            Err(SignError::UnsupportedFormat)
        } else {
            Ok(signed)
        },
        Err(e) => Err(e),
    }
}

/// What signing the artifact `a` comes to under the key file `pem`: a key
/// file that gives no key is refused; otherwise the artifact is signed
/// under the key that the file gives.
pub open spec fn sign_file_outcome(pem: Seq<u8>, a: Seq<u8>) -> Result<Seq<u8>, SignError> {
    match signing_key_of(pem) {
        Some((private_der, signature_len)) => sign_outcome(a, private_der, signature_len),
        None => Err(SignError::KeyMaterialInvalid),
    }
}

/// The result `r` is the outcome `want`: the same error, or the same
/// bytes.
pub open spec fn is_outcome(r: Result<Vec<u8>, SignError>, want: Result<Seq<u8>, SignError>)
    -> bool {
    match want {
        Ok(signed) => r matches Ok(out) && out@ == signed,
        Err(e) => r matches Err(f) && f == e,
    }
}

/// The outcome of signing once room is made and the key provider has
/// answered: the signature is appended to the room; a provider that gave
/// none fails the signing.
pub fn seal(base: Vec<u8>, signature: Result<Vec<u8>, KeyError>) -> (r: Result<Vec<u8>, SignError>)
    ensures
        match signature {
            Ok(s) => r matches Ok(out) && out@ == base@ + s@,
            Err(_) => r == Err::<Vec<u8>, SignError>(SignError::KeyProvider),
        },
{
    match signature {
        Ok(s) => {
            let mut out = base;
            append_bytes(&mut out, s.as_slice());
            Ok(out)
        },
        Err(_) => Err(SignError::KeyProvider),
    }
}

/// Signs the digest of the room that was made, and appends the signature;
/// passes on why no room was made.
fn sign_room(room: Result<Vec<u8>, FormatError>, key: &SigningKey) -> (r: Result<
    Vec<u8>,
    SignError,
>)
    ensures
        is_outcome(
            r,
            sealed(
                match room {
                    Ok(base) => Ok(base@),
                    Err(e) => Err(e),
                },
                key.der(),
                key.signature_len(),
            ),
        ),
{
    match room {
        Ok(base) => {
            let digest = canonical_digest(base.as_slice(), Span::empty());
            proof {
                lemma_signable_of_empty_span(base@, Span { start: 0, len: 0 });
            }
            let signature = key.sign_digest(digest.as_slice());
            seal(base, signature)
        },
        Err(FormatError::Unsupported) => Err(SignError::UnsupportedFormat),
        Err(FormatError::MalformedContainer) => Err(SignError::MalformedContainer),
    }
}

/// Signs a file by the trailer strategy, whatever its bytes are: the
/// result is the file followed by the signature of its digest.
pub fn sign_regular_file(artifact: &[u8], key: &SigningKey) -> (r: Result<Vec<u8>, SignError>)
    ensures
        is_outcome(
            r,
            sealed(trailer_base(artifact@, key.signature_len()), key.der(), key.signature_len()),
        ),
{
    sign_room(reserve_trailer(artifact, key.signature_len()), key)
}

/// Signs an ELF image by the section strategy: the result is the image
/// with room made for the signature section, followed by the signature of
/// the digest of that image. An image that is signed already has its
/// signature replaced.
pub fn sign_elf_file(artifact: &[u8], key: &SigningKey) -> (r: Result<Vec<u8>, SignError>)
    ensures
        is_outcome(
            r,
            sealed(section_base(artifact@, key.signature_len()), key.der(), key.signature_len()),
        ),
{
    sign_room(reserve_section(artifact, key.signature_len()), key)
}

/// Signs `artifact` with `key` and returns the signed artifact, which
/// holds exactly one signature container: its last bytes.
///
/// The format is detected once and decides the strategy. The signature
/// attests every byte of the result but its own: it is made over the
/// digest of the artifact with room made for it. Whether room can be made
/// is decided by the artifact alone; where it can, the result is the room
/// with the signature behind it, or a provider failure where the key gives
/// no signature of its length. An opaque file that its signature would
/// turn into an image is refused.
pub fn sign(artifact: &[u8], key: &SigningKey) -> (r: Result<Vec<u8>, SignError>)
    ensures
        is_outcome(r, sign_outcome(artifact@, key.der(), key.signature_len())),
{
    match detect_format(artifact) {
        ArtifactFormat::Opaque => match sign_regular_file(artifact, key) {
            Ok(signed) => match checked_format(artifact, signed) {
                Ok(out) => Ok(out),
                Err(_) => Err(SignError::UnsupportedFormat),
            },
            Err(e) => Err(e),
        },
        ArtifactFormat::StructuredExecutable => sign_elf_file(artifact, key),
    }
}

/// Signs `artifact` with the private key that a key file holds,
/// PEM-encoded. A key file that gives no key is refused before the
/// artifact is looked at; otherwise the outcome is that of [`sign`] under
/// the key that the file gives.
pub fn sign_file(private_key_pem: &[u8], artifact: &[u8]) -> (r: Result<Vec<u8>, SignError>)
    ensures
        is_outcome(r, sign_file_outcome(private_key_pem@, artifact@)),
{
    match SigningKey::from_pem(private_key_pem) {
        Ok(key) => sign(artifact, &key),
        Err(_) => Err(SignError::KeyMaterialInvalid),
    }
}

/// Signing an image again with the same key changes nothing. Where
/// signing the image `a` gives `once`, signing `once` gives `once`: the
/// room that is made is the room of the first signing, every byte of
/// `once` but its payload, so that the digest and with it the signature
/// are those of the first signing.
pub proof fn lemma_signing_again_changes_nothing(
    a: Seq<u8>,
    once: Seq<u8>,
    private_der: Seq<u8>,
    signature_len: usize,
)
    requires
        format_of(a) == ArtifactFormat::StructuredExecutable,
        sign_outcome(a, private_der, signature_len) == Ok::<Seq<u8>, SignError>(once),
    ensures
        format_of(once) == ArtifactFormat::StructuredExecutable,
        base_of(once, signature_len) == base_of(a, signature_len),
        sign_outcome(once, private_der, signature_len) == Ok::<Seq<u8>, SignError>(once),
{
    let room = base_of(a, signature_len)->Ok_0;
    let signature = signature_of(room, private_der)->Some_0;
    assert(once == room + signature);
    lemma_section_round_trip(a, signature);
    assert(format_of(once) == ArtifactFormat::StructuredExecutable) by {
        assert(readable(once));
        assert(table_readable(once));
    }
    lemma_resigning_makes_the_same_room(a, signature);
}

} // verus!
