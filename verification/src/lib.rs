//! Parcode: a graph-based, lazily readable object storage format.
//!
//! An object is decomposed into a tree of chunks. Chunks are written children
//! first, each one as `[payload][children table][meta byte]`, and a fixed-size
//! global header at the end of the file points to the root chunk. Readers start
//! from the header and only touch the chunks they need.

pub mod api;
pub mod codec;
pub mod collection;
pub mod compression;
pub mod error;
pub mod executor;
pub mod format;
pub mod graph;
pub mod inspector;
pub mod io;
pub mod map;
pub mod readback;
pub mod reader;
pub mod rt;
pub mod text;
pub mod visitor_impls;

pub use compression::{Compressor, NoCompression};
pub use error::{ParcodeError, Result};
