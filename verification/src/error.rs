//! Error type shared by every operation of the library.
//!
//! No operation of the library panics: each failure is one of the variants
//! below, carried in a [`Result`].

use vstd::prelude::*;

verus! {

/// The failure domains of the library.
///
/// Each variant carries a human readable description of the failure.
#[derive(Debug, Clone)]
pub enum ParcodeError {
    /// Low-level I/O failure (missing file, permissions, full disk, ...).
    Io(String),
    /// Encoding or decoding of a payload failed.
    Serialization(String),
    /// A compression algorithm failed or is not registered.
    Compression(String),
    /// The bytes do not follow the file format (bad magic, truncated data, bad offsets, ...).
    Format(String),
    /// An inconsistency in the task graph or scheduler.
    Internal(String),
}

/// Result of every fallible operation of the library.
pub type Result<T> = std::result::Result<T, ParcodeError>;

} // verus!
