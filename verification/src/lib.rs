//! Signing and verification of binary artifacts.
//!
//! A signature is an RSA signature over the SHA-256 digest of an artifact,
//! and it is embedded in the artifact that it attests: as a trailer behind
//! an opaque file, or as the payload of the `.signature` section of an ELF
//! image of either class and byte order. Either way the signed artifact
//! ends with its signature, and the digest covers every other byte of it.
//!
//! [`signing::sign`] and [`verification::verify`] are the two entry
//! points; [`container`] finds, makes room for, embeds and extracts the
//! signature container; [`section_laws`] proves what signing does to the
//! sections of an image.

pub mod bytes;
pub mod container;
pub mod digest;
pub mod format;
pub mod image;
pub mod keys;
pub mod section;
pub mod section_laws;
pub mod signature_section;
pub mod signing;
pub mod trailer;
pub mod verification;

pub use crate::format::{detect_format, is_elf_file, ArtifactFormat};
pub use crate::keys::{generate_keypair, KeyError, KeyPair, SigningKey, VerifyingKey};
pub use crate::signing::{sign, sign_file, SignError};
pub use crate::verification::{verify, verify_file, Verdict};
