//! Verification and repair of CRC32 checksum tokens embedded in file names.
//!
//! A file name may carry an 8-hex-digit token in square brackets, such as
//! `archive[A1B2C3D4].zip`, recording the expected CRC32 of the file's
//! content.  This library extracts such tokens, models the checksum of the
//! content, decides per file whether the name matches, and plans the rename
//! that repairs or adds a token.  All file system work is left to the caller,
//! which hands in names and checksums and carries out the planned renames.

pub mod batch;
pub mod checksum;
pub mod laws;
pub mod policy;
pub mod token;

pub use policy::{EngineError, Outcome, Verdict};
pub use token::{extract_hash, find_surrounded, is_u32_hex};
