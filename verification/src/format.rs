//! The physical layout of a file.
//!
//! ```text
//! [chunk] [chunk] ... [root chunk] [global header (26 bytes)]
//! chunk = [payload] [children table, if chunkable] [meta byte]
//! children table = [ChildRef (16 bytes)]* [child count (u32 LE)]
//! global header = magic "PAR4" | version u16 | root offset u64 | root length u64 | checksum u32
//! ```
//!
//! All multi-byte integers are little endian.

use crate::error::{ParcodeError, Result};
use vstd::bytes::*;
use vstd::prelude::*;

verus! {

broadcast use vstd::seq_lib::group_seq_properties;

/// Magic bytes identifying the file format: "PAR4".
pub const MAGIC_BYTES: [u8; 4] = [0x50u8, 0x41u8, 0x52u8, 0x34u8];

/// The fixed size of the global header:
/// magic (4) + version (2) + root offset (8) + root length (8) + checksum (4).
pub const GLOBAL_HEADER_SIZE: usize = 26;

/// The format version written and accepted by this library.
pub const FORMAT_VERSION: u16 = 4;

/// The magic bytes as a sequence.
pub open spec fn magic_seq() -> Seq<u8> {
    seq![0x50u8, 0x41u8, 0x52u8, 0x34u8]
}

/// Configuration flags of a chunk, stored in its last byte.
///
/// Bit 0 tells whether the chunk has a children table; bits 1-3 hold the
/// compression algorithm id; bits 4-7 are reserved.
#[derive(Debug, Clone, Copy, PartialEq, Eq, Structural)]
pub struct MetaByte(u8);

/// The byte that `MetaByte::new` produces for the given flags.
pub open spec fn meta_byte_value(is_chunkable: bool, compression_id: u8) -> u8 {
    (if is_chunkable { 1u8 } else { 0u8 }) | ((compression_id & 7u8) << 1u8)
}

impl MetaByte {
    /// The raw byte.
    pub closed spec fn byte(self) -> u8 {
        self.0
    }

    /// Bit 0 of the byte.
    pub open spec fn spec_is_chunkable(self) -> bool {
        self.byte() & 1u8 != 0
    }

    /// Bits 1-3 of the byte.
    pub open spec fn spec_compression_method(self) -> u8 {
        (self.byte() & 0x0eu8) >> 1u8
    }

    /// Creates a meta byte from its flags; only the low three bits of
    /// `compression_id` are kept.
    pub fn new(is_chunkable: bool, compression_id: u8) -> (r: Self)
        ensures
            r.byte() == meta_byte_value(is_chunkable, compression_id),
            r.spec_is_chunkable() == is_chunkable,
            r.spec_compression_method() == compression_id & 7u8,
    {
        let low: u8 = (compression_id & 0x07u8) << 1u8;
        let byte: u8 = if is_chunkable { 1u8 | low } else { 0u8 | low };
        proof {
            lemma_meta_byte_fields(is_chunkable, compression_id);
        }
        MetaByte(byte)
    }

    /// Wraps a raw byte read from a file.
    pub fn from_byte(byte: u8) -> (r: Self)
        ensures
            r.byte() == byte,
    {
        MetaByte(byte)
    }

    /// Returns true if the chunk carries a children table.
    pub fn is_chunkable(&self) -> (r: bool)
        ensures
            r == self.spec_is_chunkable(),
    {
        (self.0 & 1u8) != 0
    }

    /// Returns the compression algorithm id (0-7).
    pub fn compression_method(&self) -> (r: u8)
        ensures
            r == self.spec_compression_method(),
            r < 8,
    {
        let b = self.0;
        assert((b & 0x0eu8) >> 1u8 < 8u8) by (bit_vector);
        (b & 0x0eu8) >> 1u8
    }

    /// Returns the raw byte.
    pub fn as_u8(&self) -> (r: u8)
        ensures
            r == self.byte(),
    {
        self.0
    }
}

/// Decoding a meta byte gives back the flags it was built from (the id
/// reduced to its low three bits).
pub proof fn lemma_meta_byte_fields(is_chunkable: bool, compression_id: u8)
    ensures
        (meta_byte_value(is_chunkable, compression_id) & 1u8 != 0) == is_chunkable,
        (meta_byte_value(is_chunkable, compression_id) & 0x0eu8) >> 1u8 == compression_id & 7u8,
{
    let id = compression_id;
    if is_chunkable {
        assert((1u8 | ((id & 7u8) << 1u8)) & 1u8 != 0) by (bit_vector);
        assert(((1u8 | ((id & 7u8) << 1u8)) & 0x0eu8) >> 1u8 == id & 7u8) by (bit_vector);
    } else {
        assert((0u8 | ((id & 7u8) << 1u8)) & 1u8 == 0) by (bit_vector);
        assert(((0u8 | ((id & 7u8) << 1u8)) & 0x0eu8) >> 1u8 == id & 7u8) by (bit_vector);
    }
}

/// A reference from a parent chunk to one of its children.
#[derive(Debug, Clone, Copy)]
pub struct ChildRef {
    /// Absolute offset in the file where the child chunk starts.
    pub offset: u64,
    /// Total length of the child chunk (including its meta byte).
    pub length: u64,
}

/// The serialized size of a `ChildRef`.
pub const CHILD_REF_SIZE: usize = 16;

impl ChildRef {
    /// The size in bytes of a serialized `ChildRef` (8 bytes offset + 8 bytes length).
    pub const SIZE: usize = 16;

    /// The 16 bytes of a reference: offset then length, little endian.
    pub open spec fn spec_to_bytes(self) -> Seq<u8> {
        spec_u64_to_le_bytes(self.offset) + spec_u64_to_le_bytes(self.length)
    }

    /// The reference that the first 16 bytes of `bytes` denote.
    pub open spec fn spec_from_bytes(bytes: Seq<u8>) -> ChildRef {
        ChildRef {
            offset: spec_u64_from_le_bytes(bytes.subrange(0, 8)),
            length: spec_u64_from_le_bytes(bytes.subrange(8, 16)),
        }
    }

    /// Serializes to a fixed-size byte array (little endian).
    pub fn to_bytes(&self) -> (r: [u8; 16])
        ensures
            r@ == self.spec_to_bytes(),
    {
        let o = u64_to_le_bytes(self.offset);
        let l = u64_to_le_bytes(self.length);
        let r = [
            o[0], o[1], o[2], o[3], o[4], o[5], o[6], o[7],
            l[0], l[1], l[2], l[3], l[4], l[5], l[6], l[7],
        ];
        assert(r@ =~= self.spec_to_bytes());
        r
    }

    /// Deserializes from the first 16 bytes of `bytes`.
    pub fn from_bytes(bytes: &[u8]) -> (r: Result<Self>)
        ensures
            r is Err <==> bytes@.len() < 16,
            r matches Err(e) ==> e is Format,
            r matches Ok(c) ==> c == Self::spec_from_bytes(bytes@),
    {
        if bytes.len() < 16 {
            return Err(ParcodeError::Format("Buffer too small for ChildRef".to_string()));
        }
        let offset = u64_from_le_bytes(&bytes[0..8]);
        let length = u64_from_le_bytes(&bytes[8..16]);
        Ok(ChildRef { offset, length })
    }
}

/// Reading back the bytes of a reference gives the reference.
pub proof fn lemma_child_ref_roundtrip(c: ChildRef)
    ensures
        c.spec_to_bytes().len() == 16,
        ChildRef::spec_from_bytes(c.spec_to_bytes()) == c,
{
    lemma_auto_spec_u64_to_from_le_bytes();
    let o = spec_u64_to_le_bytes(c.offset);
    let l = spec_u64_to_le_bytes(c.length);
    assert((o + l).subrange(0, 8) =~= o);
    assert((o + l).subrange(8, 16) =~= l);
}

/// The global header, located at the very end of the file. It points to the root chunk.
#[derive(Debug, Clone, Copy)]
pub struct GlobalHeader {
    /// The magic bytes identifying the file format.
    pub magic: [u8; 4],
    /// The version of the file format (currently 4).
    pub version: u16,
    /// Offset of the root chunk.
    pub root_offset: u64,
    /// Total length of the root chunk.
    pub root_length: u64,
    /// Reserved for a checksum of the header.
    pub checksum: u32,
}

impl GlobalHeader {
    /// The 26 bytes of the header.
    pub open spec fn spec_to_bytes(self) -> Seq<u8> {
        self.magic@ + spec_u16_to_le_bytes(self.version) + spec_u64_to_le_bytes(self.root_offset)
            + spec_u64_to_le_bytes(self.root_length) + spec_u32_to_le_bytes(self.checksum)
    }

    /// Creates the header of the current format version pointing at a root chunk.
    pub fn new(root_offset: u64, root_length: u64) -> (r: Self)
        ensures
            r.magic@ == magic_seq(),
            r.version == FORMAT_VERSION,
            r.root_offset == root_offset,
            r.root_length == root_length,
            r.checksum == 0,
    {
        let r = GlobalHeader {
            magic: MAGIC_BYTES,
            version: FORMAT_VERSION,
            root_offset,
            root_length,
            checksum: 0,
        };
        assert(r.magic@ =~= magic_seq());
        r
    }

    /// Serializes the header to bytes.
    pub fn to_bytes(&self) -> (r: [u8; 26])
        ensures
            r@ == self.spec_to_bytes(),
    {
        let m = self.magic;
        let v = u16_to_le_bytes(self.version);
        let o = u64_to_le_bytes(self.root_offset);
        let l = u64_to_le_bytes(self.root_length);
        let c = u32_to_le_bytes(self.checksum);
        let r = [
            m[0], m[1], m[2], m[3],
            v[0], v[1],
            o[0], o[1], o[2], o[3], o[4], o[5], o[6], o[7],
            l[0], l[1], l[2], l[3], l[4], l[5], l[6], l[7],
            c[0], c[1], c[2], c[3],
        ];
        assert(r@ =~= self.spec_to_bytes());
        r
    }
}

} // verus!
