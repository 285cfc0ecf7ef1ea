//! The verifier: detects the format, finds the signature container, and
//! has the key provider check the signature against the digest of every
//! byte outside the container.

use vstd::prelude::*;

use crate::container::{
    base_of, extraction_of, lemma_round_trip, lemma_tampering_changes_signable,
    locate_container, locate_in_sections, locate_in_trailer, section_extraction, signed_with,
    trailer_extraction, Extraction,
};
use crate::digest::{canonical_digest, covered, covered_bytes, sha256_of, signable, Span};
use crate::format::{format_of, ArtifactFormat};
use crate::keys::{
    pkcs1_accepts, pkcs1_signature, signing_key_of, verifying_key_of, KeyError, SigningKey,
    VerifyingKey,
};
use crate::signature_section::FormatError;
use crate::signing::{sign_file_outcome, sign_outcome, signature_of, SignError};

verus! {

/// What verification comes to. Each outcome asks for another remedy.
#[derive(Clone, Copy, Debug, PartialEq, Eq, Structural)]
pub enum Verdict {
    /// The signature is that of the artifact under the key.
    Valid,
    /// The artifact holds a signature that the key does not accept for it.
    Invalid,
    /// The artifact holds no signature.
    NotSigned,
    /// The artifact holds a signature container that is malformed.
    MalformedContainer,
}

impl Verdict {
    /// The label under which the outcome is reported.
    pub fn label(&self) -> (s: &'static str)
        ensures
            s@ == match *self {
                Verdict::Valid => "Valid"@,
                Verdict::Invalid => "Invalid"@,
                Verdict::NotSigned => "NotSigned"@,
                Verdict::MalformedContainer => "MalformedContainer"@,
            },
    {
        match self {
            Verdict::Valid => "Valid",
            Verdict::Invalid => "Invalid",
            Verdict::NotSigned => "NotSigned",
            Verdict::MalformedContainer => "MalformedContainer",
        }
    }

    /// The exit code that reports the outcome: zero for a valid signature
    /// and for nothing else.
    pub fn exit_code(&self) -> (code: u8)
        ensures
            code == 0 <==> *self == Verdict::Valid,
            code <= 1,
    {
        match self {
            Verdict::Valid => 0,
            _ => 1,
        }
    }
}

/// Whether the key `public_der` accepts the bytes of `span` as the
/// signature of the digest of all other bytes of `a`.
pub open spec fn container_accepted(a: Seq<u8>, span: Span, public_der: Seq<u8>) -> bool {
    pkcs1_accepts(public_der, sha256_of(signable(a, span)), covered(a, span))
}

/// The verdict on the artifact `a` once its container has been looked
/// for: without a container the artifact is not signed; a malformed
/// container is reported as such; with a container the verdict is `Valid`
/// where the key accepts it, and `Invalid` where it does not.
pub open spec fn verdict_of(a: Seq<u8>, extraction: Extraction, public_der: Seq<u8>) -> Verdict {
    match extraction {
        Extraction::NotSigned => Verdict::NotSigned,
        Extraction::Malformed => Verdict::MalformedContainer,
        Extraction::Found(span) => if container_accepted(a, span, public_der) {
            Verdict::Valid
        } else {
            Verdict::Invalid
        },
    }
}

/// What verifying the artifact `a` comes to under the key file `pem`: a
/// key file that gives no key is an error; otherwise the verdict is that
/// under the key that the file gives.
pub open spec fn verify_file_outcome(pem: Seq<u8>, a: Seq<u8>) -> Result<Verdict, KeyError> {
    match verifying_key_of(pem) {
        Some((public_der, signature_len)) => Ok(
            verdict_of(a, extraction_of(a, signature_len), public_der),
        ),
        None => Err(KeyError::KeyMaterialInvalid),
    }
}

/// The verdict once the container has been looked for and, if it was
/// found, the key provider has said whether it accepts the signature.
pub fn judge(extraction: Extraction, accepted: bool) -> (v: Verdict)
    ensures
        v == match extraction {
            Extraction::NotSigned => Verdict::NotSigned,
            Extraction::Malformed => Verdict::MalformedContainer,
            Extraction::Found(_) => if accepted {
                Verdict::Valid
            } else {
                Verdict::Invalid
            },
        },
{
    match extraction {
        Extraction::NotSigned => Verdict::NotSigned,
        Extraction::Malformed => Verdict::MalformedContainer,
        Extraction::Found(_) => if accepted {
            Verdict::Valid
        } else {
            Verdict::Invalid
        },
    }
}

/// Has the key provider check the container that was found, if one was.
fn check(artifact: &[u8], extraction: Extraction, key: &VerifyingKey) -> (v: Verdict)
    ensures
        v == verdict_of(artifact@, extraction, key.der()),
{
    match extraction {
        Extraction::Found(span) => {
            let digest = canonical_digest(artifact, span);
            let signature = covered_bytes(artifact, span);
            let accepted = key.verify_digest(digest.as_slice(), signature.as_slice());
            judge(extraction, accepted)
        },
        _ => judge(extraction, false),
    }
}

/// Verifies a file by the trailer strategy, whatever its bytes are: its
/// last bytes, as many as a signature of the key has, are checked against
/// the digest of the bytes before them. A file shorter than a signature is
/// not signed.
pub fn verify_regular_file(artifact: &[u8], key: &VerifyingKey) -> (v: Verdict)
    ensures
        v == verdict_of(
            artifact@,
            trailer_extraction(artifact@.len(), key.signature_len()),
            key.der(),
        ),
{
    check(artifact, locate_in_trailer(artifact, key.signature_len()), key)
}

/// Verifies an ELF image by the section strategy: the payload of its
/// signature section is checked against the digest of every other byte of
/// the file. An image without that section, or whose sections cannot be
/// read, is not signed.
pub fn verify_elf_file(artifact: &[u8], key: &VerifyingKey) -> (v: Verdict)
    ensures
        v == verdict_of(artifact@, section_extraction(artifact@), key.der()),
{
    check(artifact, locate_in_sections(artifact), key)
}

/// Verifies `artifact` against `key`. Nothing is changed.
///
/// The format is detected once and decides the strategy. An artifact
/// without a container is not signed: an opaque file shorter than a
/// signature of the key, an image without a signature section, an image
/// whose sections cannot be read. A malformed container is reported as
/// such. Otherwise the verdict is `Valid` where the key accepts the bytes
/// of the container as the signature of the digest of all other bytes, and
/// `Invalid` where it does not.
pub fn verify(artifact: &[u8], key: &VerifyingKey) -> (v: Verdict)
    ensures
        v == verdict_of(artifact@, extraction_of(artifact@, key.signature_len()), key.der()),
        extraction_of(artifact@, key.signature_len()) is NotSigned <==> v == Verdict::NotSigned,
        format_of(artifact@) == ArtifactFormat::Opaque && artifact@.len() < key.signature_len()
            ==> v == Verdict::NotSigned,
{
    check(artifact, locate_container(artifact, key.signature_len()), key)
}

/// Verifies `artifact` against the public key that a key file holds,
/// PEM-encoded. A key file that gives no key is an error, and no verdict;
/// otherwise the verdict is that of [`verify`] under the key that the file
/// gives.
pub fn verify_file(public_key_pem: &[u8], artifact: &[u8]) -> (r: Result<Verdict, KeyError>)
    ensures
        r == verify_file_outcome(public_key_pem@, artifact@),
{
    match VerifyingKey::from_pem(public_key_pem) {
        Ok(key) => Ok(verify(artifact, &key)),
        Err(e) => Err(e),
    }
}

/// The two encodings are those of the halves of one key pair: the public
/// key accepts every signature that the private key gives, for the digest
/// that it was given for.
pub open spec fn halves_match(private_der: Seq<u8>, public_der: Seq<u8>) -> bool {
    forall|digest: Seq<u8>|
        (#[trigger] pkcs1_signature(private_der, digest)) matches Some(signature)
            ==> pkcs1_accepts(public_der, digest, signature)
}

/// The two keys are the halves of one pair: they make and take signatures
/// of one length, and the verifying key accepts what the signing key
/// signs.
pub open spec fn keys_match(signing: &SigningKey, verifying: &VerifyingKey) -> bool {
    signing.signature_len() == verifying.signature_len() && halves_match(
        signing.der(),
        verifying.der(),
    )
}

/// What is signed with one half of a key pair is valid under the other.
/// Whatever artifact `a` is, an opaque file, an image, or an image that
/// is signed already: if signing it under the private key gives `signed`,
/// then the container that verification finds in `signed` is its tail of
/// the length of a signature; that tail is the signature, the bytes before
/// it are the bytes that were signed, and the verdict under the public key
/// is `Valid`.
pub proof fn lemma_signed_artifact_is_valid(
    a: Seq<u8>,
    signed: Seq<u8>,
    private_der: Seq<u8>,
    public_der: Seq<u8>,
    signature_len: usize,
)
    requires
        halves_match(private_der, public_der),
        sign_outcome(a, private_der, signature_len) == Ok::<Seq<u8>, SignError>(signed),
    ensures
        signed.len() >= signature_len,
        ({
            let span = Span { start: (signed.len() - signature_len) as usize, len: signature_len };
            &&& extraction_of(signed, signature_len) == Extraction::Found(span)
            &&& signature_of(signable(signed, span), private_der) == Some(covered(signed, span))
            &&& container_accepted(signed, span, public_der)
            &&& verdict_of(signed, extraction_of(signed, signature_len), public_der)
                == Verdict::Valid
        }),
{
    let base = base_of(a, signature_len)->Ok_0;
    let signature = signature_of(base, private_der)->Some_0;
    assert(signed == base + signature);
    assert(signed_with(a, signature) == Ok::<Seq<u8>, FormatError>(signed));
    lemma_round_trip(a, signature);
}

/// What [`crate::signing::sign`] gives under a signing key,
/// [`verify`] finds valid under the matching verifying key.
pub proof fn lemma_matching_key_accepts_signed_artifact(
    a: Seq<u8>,
    signed: Seq<u8>,
    signing: &SigningKey,
    verifying: &VerifyingKey,
)
    requires
        keys_match(signing, verifying),
        sign_outcome(a, signing.der(), signing.signature_len()) == Ok::<Seq<u8>, SignError>(
            signed,
        ),
    ensures
        verdict_of(signed, extraction_of(signed, verifying.signature_len()), verifying.der())
            == Verdict::Valid,
{
    lemma_signed_artifact_is_valid(
        a,
        signed,
        signing.der(),
        verifying.der(),
        signing.signature_len(),
    );
}

/// What is signed under a private key file is valid under the public key
/// file of the same pair. Where the two key files give keys with
/// signatures of one length whose halves match, and signing `a` under the
/// one gives `signed`, verifying `signed` under the other gives `Valid`.
pub proof fn lemma_matching_key_file_accepts_signed_file(
    private_pem: Seq<u8>,
    public_pem: Seq<u8>,
    a: Seq<u8>,
    signed: Seq<u8>,
)
    requires
        signing_key_of(private_pem) matches Some((private_der, signing_len))
            && verifying_key_of(public_pem) matches Some((public_der, verifying_len))
            && signing_len == verifying_len && halves_match(private_der, public_der),
        sign_file_outcome(private_pem, a) == Ok::<Seq<u8>, SignError>(signed),
    ensures
        verify_file_outcome(public_pem, signed) == Ok::<Verdict, KeyError>(Verdict::Valid),
{
    let (private_der, signature_len) = signing_key_of(private_pem)->Some_0;
    let (public_der, _) = verifying_key_of(public_pem)->Some_0;
    lemma_signed_artifact_is_valid(a, signed, private_der, public_der, signature_len);
}

/// A change outside the container is noticed unless the signature holds
/// for the changed bytes too. Let `span` be the container that is found
/// in `signed` and, after the change, in `tampered` as well: for an
/// opaque file, or by the trailer strategy, that is the tail of the
/// length of a signature, which a change of one byte does not move. Where
/// `tampered` differs from `signed` in one byte outside the container,
/// the signature is the same and is checked against the digest of other
/// bytes than before; the verdict is `Invalid` exactly where the key does
/// not accept the signature for them, and `Valid` otherwise.
pub proof fn lemma_tampering_is_noticed(
    signed: Seq<u8>,
    tampered: Seq<u8>,
    span: Span,
    public_der: Seq<u8>,
    at: int,
)
    requires
        0 <= at < signed.len(),
        tampered.len() == signed.len(),
        tampered[at] != signed[at],
        forall|p: int| 0 <= p < signed.len() && p != at ==> tampered[p] == signed[p],
        span.within(signed.len()),
        !(span.start <= at < span.end()),
    ensures
        signable(tampered, span) != signable(signed, span),
        covered(tampered, span) == covered(signed, span),
        trailer_extraction(signed.len(), span.len) == Extraction::Found(span)
            ==> trailer_extraction(tampered.len(), span.len) == Extraction::Found(span),
        verdict_of(tampered, Extraction::Found(span), public_der) == (if pkcs1_accepts(
            public_der,
            sha256_of(signable(tampered, span)),
            covered(signed, span),
        ) {
            Verdict::Valid
        } else {
            Verdict::Invalid
        }),
{
    lemma_tampering_changes_signable(signed, tampered, span, at);
}

} // verus!
