//! Signed, self-contained archives of a directory of files.
//!
//! An [`Archive`] holds a timestamp and an ordered list of files. Its
//! canonical form is a small subset of CBOR, and an [`Envelope`] carries
//! that form together with a detached Ed25519 signature over it.
pub mod archive;
pub mod cbor;
pub mod envelope;
pub mod keys;

pub use archive::{is_safe_path, now_epoch_secs, Archive, DecodeError, File};
pub use envelope::{Envelope, VerificationError, ARCHIVE_CONTENT_TYPE};
pub use keys::{
    format_key_base32, generate_private_key, parse_key_base32, public_key, sign, signature_valid,
    KeyFormatError,
};
