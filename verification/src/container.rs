//! The signature container of an artifact, whatever its format: where it
//! is, how room is made for it, how a signature is put in and taken out.
//!
//! The format is detected once for each operation and decides the strategy.
//! With either strategy a signed artifact ends with its signature.

use vstd::prelude::*;

use crate::bytes::append_bytes;
use crate::digest::{covered, covered_bytes, signable, Span};
use crate::format::{detect_format, format_of, is_elf_file, ArtifactFormat};
use crate::section_laws::{lemma_section_base_len, lemma_section_round_trip};
use crate::signature_section::{
    locate_section, lookup_of, reserve_section, section_base, ExtractError, FormatError, Lookup,
};
use crate::trailer::{check_trailer_fits, locate_trailer, trailer_fits, trailer_of};

verus! {

/// What a search for the signature container can come to.
#[derive(Clone, Copy, Debug, PartialEq, Eq, Structural)]
pub enum Extraction {
    /// The artifact holds no container.
    NotSigned,
    /// The artifact holds a container that is malformed.
    Malformed,
    /// The container is the span given.
    Found(Span),
}

/// The container of a file of `n` bytes by the trailer strategy, for
/// signatures of `sig_len` bytes: its trailer, if it is long enough for
/// one.
pub open spec fn trailer_extraction(n: nat, sig_len: usize) -> Extraction {
    match trailer_of(n, sig_len) {
        Some(span) => Extraction::Found(span),
        None => Extraction::NotSigned,
    }
}

/// The container of the image `a` by the section strategy: the payload of
/// its signature section. An image whose sections cannot be read has
/// none.
pub open spec fn section_extraction(a: Seq<u8>) -> Extraction {
    match lookup_of(a) {
        Lookup::Unreadable => Extraction::NotSigned,
        Lookup::Absent => Extraction::NotSigned,
        Lookup::Malformed => Extraction::Malformed,
        Lookup::Found { index, span } => Extraction::Found(span),
    }
}

/// The container of the artifact `a`, for signatures of `sig_len` bytes,
/// by the strategy of its format.
pub open spec fn extraction_of(a: Seq<u8>, sig_len: usize) -> Extraction {
    match format_of(a) {
        ArtifactFormat::Opaque => trailer_extraction(a.len(), sig_len),
        ArtifactFormat::StructuredExecutable => section_extraction(a),
    }
}

/// The file `a` with room made for a trailer of `sig_len` bytes: the file
/// itself, where it fits in memory with the trailer behind it.
pub open spec fn trailer_base(a: Seq<u8>, sig_len: usize) -> Result<Seq<u8>, FormatError> {
    if trailer_fits(a.len(), sig_len) {
        Ok(a)
    } else {
        Err(FormatError::Unsupported)
    }
}

/// The artifact `a` with room made for a signature of `sig_len` bytes: the
/// bytes that the signature is appended to, and that it attests.
pub open spec fn base_of(a: Seq<u8>, sig_len: usize) -> Result<Seq<u8>, FormatError> {
    match format_of(a) {
        ArtifactFormat::Opaque => trailer_base(a, sig_len),
        ArtifactFormat::StructuredExecutable => section_base(a, sig_len),
    }
}

/// With its signature behind it, the opaque file `a` would be taken for
/// an image: `signed` has the magic prefix and room for a file header,
/// and `a` has not. No search would find the trailer of such a file.
pub open spec fn grows_into_image(a: Seq<u8>, signed: Seq<u8>) -> bool {
    format_of(a) == ArtifactFormat::Opaque && format_of(signed)
        == ArtifactFormat::StructuredExecutable
}

/// The artifact `a` signed with `signature`: the room made, and the
/// signature behind it. An opaque file that its signature would turn into
/// an image is refused.
pub open spec fn signed_with(a: Seq<u8>, signature: Seq<u8>) -> Result<Seq<u8>, FormatError> {
    match base_of(a, signature.len() as usize) {
        Ok(base) => if grows_into_image(a, base + signature) {
            Err(FormatError::Unsupported)
        } else {
            Ok(base + signature)
        },
        Err(e) => Err(e),
    }
}

/// Finds the container of `artifact` by the trailer strategy, whatever its
/// bytes are.
pub fn locate_in_trailer(artifact: &[u8], sig_len: usize) -> (r: Extraction)
    ensures
        r == trailer_extraction(artifact@.len(), sig_len),
        r matches Extraction::Found(span) ==> span.within(artifact@.len()),
{
    match locate_trailer(artifact.len(), sig_len) {
        Some(span) => Extraction::Found(span),
        None => Extraction::NotSigned,
    }
}

/// Finds the container of `artifact` by the section strategy.
pub fn locate_in_sections(artifact: &[u8]) -> (r: Extraction)
    ensures
        r == section_extraction(artifact@),
        r matches Extraction::Found(span) ==> span.within(artifact@.len()),
{
    match locate_section(artifact) {
        Lookup::Unreadable => Extraction::NotSigned,
        Lookup::Absent => Extraction::NotSigned,
        Lookup::Malformed => Extraction::Malformed,
        Lookup::Found { index, span } => Extraction::Found(span),
    }
}

/// Finds the signature container of `artifact`.
pub fn locate_container(artifact: &[u8], sig_len: usize) -> (r: Extraction)
    ensures
        r == extraction_of(artifact@, sig_len),
        r matches Extraction::Found(span) ==> span.within(artifact@.len()),
{
    match detect_format(artifact) {
        ArtifactFormat::Opaque => locate_in_trailer(artifact, sig_len),
        ArtifactFormat::StructuredExecutable => locate_in_sections(artifact),
    }
}

/// Makes room behind `artifact` for a trailer of `sig_len` bytes,
/// whatever its bytes are: returns the file as it is.
pub fn reserve_trailer(artifact: &[u8], sig_len: usize) -> (r: Result<Vec<u8>, FormatError>)
    ensures
        match r {
            Ok(base) => trailer_base(artifact@, sig_len) == Ok::<Seq<u8>, FormatError>(base@)
                && base@.len() + sig_len <= usize::MAX,
            Err(e) => trailer_base(artifact@, sig_len) == Err::<Seq<u8>, FormatError>(e),
        },
{
    if !check_trailer_fits(artifact.len(), sig_len) {
        return Err(FormatError::Unsupported);
    }
    let mut base: Vec<u8> = Vec::new();
    append_bytes(&mut base, artifact);
    assert(base@ =~= artifact@);
    Ok(base)
}

/// Makes room in `artifact` for a signature of `sig_len` bytes: returns
/// the bytes that the signature is to be appended to. An opaque file is
/// returned as it is.
pub fn reserve(artifact: &[u8], sig_len: usize) -> (r: Result<Vec<u8>, FormatError>)
    ensures
        match r {
            Ok(base) => base_of(artifact@, sig_len) == Ok::<Seq<u8>, FormatError>(base@)
                && base@.len() + sig_len <= usize::MAX,
            Err(e) => base_of(artifact@, sig_len) == Err::<Seq<u8>, FormatError>(e),
        },
{
    match detect_format(artifact) {
        ArtifactFormat::Opaque => reserve_trailer(artifact, sig_len),
        ArtifactFormat::StructuredExecutable => {
            let r = reserve_section(artifact, sig_len);
            proof {
                if r is Ok {
                    lemma_section_base_len(artifact@, sig_len);
                }
            }
            r
        },
    }
}

/// Holds a signed artifact against the artifact it was made from: what
/// was an opaque file and would now be taken for an image is refused,
/// anything else passes.
pub fn checked_format(artifact: &[u8], signed: Vec<u8>) -> (r: Result<Vec<u8>, FormatError>)
    ensures
        match r {
            Ok(out) => !grows_into_image(artifact@, signed@) && out == signed,
            Err(e) => grows_into_image(artifact@, signed@) && e == FormatError::Unsupported,
        },
{
    if !is_elf_file(artifact) && is_elf_file(signed.as_slice()) {
        Err(FormatError::Unsupported)
    } else {
        Ok(signed)
    }
}

/// Embeds `signature` in `artifact`: makes room for it and appends it. An
/// image that holds a signature already has that one replaced. An opaque
/// file that the signature would turn into an image is refused.
pub fn embed_signature(artifact: &[u8], signature: &[u8]) -> (r: Result<Vec<u8>, FormatError>)
    ensures
        match r {
            Ok(out) => signed_with(artifact@, signature@) == Ok::<Seq<u8>, FormatError>(out@),
            Err(e) => signed_with(artifact@, signature@) == Err::<Seq<u8>, FormatError>(e),
        },
{
    match reserve(artifact, signature.len()) {
        Ok(base) => {
            let mut out = base;
            append_bytes(&mut out, signature);
            checked_format(artifact, out)
        },
        Err(e) => Err(e),
    }
}

/// Takes the signature out of `artifact`: the bytes of its container.
pub fn extract_signature(artifact: &[u8], sig_len: usize) -> (r: Result<Vec<u8>, ExtractError>)
    ensures
        match extraction_of(artifact@, sig_len) {
            Extraction::Found(span) => r matches Ok(signature) && signature@ == covered(
                artifact@,
                span,
            ),
            Extraction::Malformed => r == Err::<Vec<u8>, ExtractError>(
                ExtractError::MalformedContainer,
            ),
            Extraction::NotSigned => r == Err::<Vec<u8>, ExtractError>(ExtractError::NotSigned),
        },
{
    match locate_container(artifact, sig_len) {
        Extraction::Found(span) => Ok(covered_bytes(artifact, span)),
        Extraction::Malformed => Err(ExtractError::MalformedContainer),
        Extraction::NotSigned => Err(ExtractError::NotSigned),
    }
}

/// What is put in is what is taken out. Where `a` is signed with
/// `signature`, the container of the signed artifact is its tail of the
/// length of the signature: the signature is read back from it, and the
/// bytes outside it are the bytes that the signature was appended to.
pub proof fn lemma_round_trip(a: Seq<u8>, signature: Seq<u8>)
    requires
        signature.len() <= usize::MAX,
        signed_with(a, signature) is Ok,
    ensures
        base_of(a, signature.len() as usize) is Ok,
        ({
            let base = base_of(a, signature.len() as usize)->Ok_0;
            let out = signed_with(a, signature)->Ok_0;
            let span = Span { start: base.len() as usize, len: signature.len() as usize };
            &&& out == base + signature
            &&& base.len() + signature.len() <= usize::MAX
            &&& format_of(out) == format_of(a)
            &&& extraction_of(out, signature.len() as usize) == Extraction::Found(span)
            &&& covered(out, span) == signature
            &&& signable(out, span) == base
        }),
{
    let l = signature.len() as usize;
    let base = base_of(a, l)->Ok_0;
    let out = base + signature;
    match format_of(a) {
        ArtifactFormat::Opaque => {
            assert(base == a);
        },
        ArtifactFormat::StructuredExecutable => {
            lemma_section_base_len(a, l);
            lemma_section_round_trip(a, signature);
            assert(lookup_of(out) is Found);
            assert(format_of(out) == ArtifactFormat::StructuredExecutable);
        },
    }
    let span = Span { start: base.len() as usize, len: l };
    assert(covered(out, span) =~= signature);
    assert(signable(out, span) =~= base);
}

/// A change outside the container changes what the signature is checked
/// against. Where `tampered` differs from `signed` in one byte outside the
/// span `span`, the two have the same bytes in the span and different
/// bytes outside it.
pub proof fn lemma_tampering_changes_signable(
    signed: Seq<u8>,
    tampered: Seq<u8>,
    span: Span,
    at: int,
)
    requires
        0 <= at < signed.len(),
        tampered.len() == signed.len(),
        tampered[at] != signed[at],
        forall|p: int| 0 <= p < signed.len() && p != at ==> tampered[p] == signed[p],
        span.within(signed.len()),
        !(span.start <= at < span.end()),
    ensures
        covered(tampered, span) == covered(signed, span),
        signable(tampered, span) != signable(signed, span),
        signable(tampered, span).len() == signable(signed, span).len(),
{
    assert(covered(tampered, span) =~= covered(signed, span));
    let s = signable(signed, span);
    let t = signable(tampered, span);
    if at < span.start {
        assert(s[at] == signed[at]);
        assert(t[at] == tampered[at]);
    } else {
        assert(s[at - span.len] == signed[at]);
        assert(t[at - span.len] == tampered[at]);
    }
}

} // verus!
