//! Classification of an artifact by its leading bytes.

use vstd::prelude::*;

verus! {

/// Size of the file header of a 64-bit ELF image, the longer of the two:
/// the least an artifact of either class must hold before its section
/// table is looked for.
pub const ELF_HEADER_SIZE: usize = 64;

/// How a signature is carried by an artifact.
#[derive(Clone, Copy, Debug, PartialEq, Eq, Structural)]
pub enum ArtifactFormat {
    /// An executable image with a section table; the signature is a section.
    StructuredExecutable,
    /// Any other file; the signature is a trailer.
    Opaque,
}

/// Whether `data` opens with the four magic bytes `7f 45 4c 46`.
pub open spec fn has_elf_magic(data: Seq<u8>) -> bool {
    data.len() >= 4 && data[0] == 0x7f && data[1] == 0x45 && data[2] == 0x4c && data[3] == 0x46
}

/// The format of `data`: structured when it has the magic prefix and room
/// for a whole file header, opaque otherwise.
pub open spec fn format_of(data: Seq<u8>) -> ArtifactFormat {
    if has_elf_magic(data) && data.len() >= ELF_HEADER_SIZE {
        ArtifactFormat::StructuredExecutable
    } else {
        ArtifactFormat::Opaque
    }
}

/// Tells whether `data` is an ELF image: it opens with the magic number
/// and is long enough to hold a file header. The magic bytes alone do not
/// make an image.
pub fn is_elf_file(data: &[u8]) -> (r: bool)
    ensures
        r == (format_of(data@) == ArtifactFormat::StructuredExecutable),
{
    data.len() >= ELF_HEADER_SIZE && data[0] == 0x7f && data[1] == 0x45 && data[2] == 0x4c
        && data[3] == 0x46
}

/// Classifies `data`. A file with the magic prefix that is too short to hold
/// a file header is opaque.
pub fn detect_format(data: &[u8]) -> (r: ArtifactFormat)
    ensures
        r == format_of(data@),
{
    if is_elf_file(data) {
        ArtifactFormat::StructuredExecutable
    } else {
        ArtifactFormat::Opaque
    }
}

} // verus!
