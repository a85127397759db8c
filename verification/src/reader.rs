//! The read side: locating chunks, reading their payloads and navigating to children.
//!
//! A [`ParcodeFile`] owns the bytes of a file and its parsed global header.
//! A [`ChunkNode`] is a light view of one chunk: its position, meta byte and
//! children table. Nothing is decompressed until a payload is asked for.

use crate::compression::{Compressor, CompressorRegistry};
use crate::error::{ParcodeError, Result};
use crate::format::{
    magic_seq, ChildRef, GlobalHeader, MetaByte, CHILD_REF_SIZE, FORMAT_VERSION,
    GLOBAL_HEADER_SIZE, MAGIC_BYTES,
};
use crate::text::{decimal, spec_decimal};
use vstd::bytes::*;
use vstd::prelude::*;
use vstd::string::StringExecFns;

verus! {

broadcast use vstd::seq_lib::group_seq_properties;

/// The global header stored in the last 26 bytes of `file`, when it is well formed:
/// the file is long enough, starts the tail with the magic bytes and has version 4.
pub open spec fn spec_header(file: Seq<u8>) -> Option<GlobalHeader> {
    if file.len() < GLOBAL_HEADER_SIZE {
        None
    } else {
        let t = file.subrange(file.len() - GLOBAL_HEADER_SIZE, file.len() as int);
        if t.subrange(0, 4) != magic_seq() {
            None
        } else if spec_u16_from_le_bytes(t.subrange(4, 6)) != FORMAT_VERSION {
            None
        } else {
            Some(
                GlobalHeader {
                    magic: MAGIC_BYTES,
                    version: FORMAT_VERSION,
                    root_offset: spec_u64_from_le_bytes(t.subrange(6, 14)),
                    root_length: spec_u64_from_le_bytes(t.subrange(14, 22)),
                    checksum: spec_u32_from_le_bytes(t.subrange(22, 26)),
                },
            )
        }
    }
}

/// Where the parts of a chunk lie, as read from its last bytes.
pub struct ChunkLayout {
    /// The meta byte.
    pub meta: u8,
    /// The number of entries of the children table.
    pub child_count: u32,
    /// The absolute offset where the payload ends (and the children table starts).
    pub payload_end: int,
}

/// The message of the error that opening `file` gives when its global header
/// is not valid.
pub open spec fn header_error_text(file: Seq<u8>) -> Seq<char> {
    if file.len() < GLOBAL_HEADER_SIZE {
        "File smaller than header"@
    } else {
        let t = file.subrange(file.len() - GLOBAL_HEADER_SIZE, file.len() as int);
        if t.subrange(0, 4) != magic_seq() {
            "Invalid Magic Bytes"@
        } else {
            "Unsupported version: "@ + spec_decimal(spec_u16_from_le_bytes(t.subrange(4, 6)) as nat)
                + ". Expected V4."@
        }
    }
}

/// The message of the error that resolving the chunk of `length` bytes at
/// `offset` gives when the chunk is empty or does not fit in the file.
pub open spec fn chunk_bounds_text(offset: u64, length: u64) -> Seq<char> {
    "Chunk out of bounds: "@ + spec_decimal(offset as nat) + " + "@ + spec_decimal(length as nat)
}

/// The layout of the chunk of `length` bytes at `offset` in `file`, when it is
/// well formed: non-empty, inside the file, and long enough for the children
/// table that its meta byte and child count announce.
pub open spec fn spec_chunk_layout(file: Seq<u8>, offset: u64, length: u64) -> Option<ChunkLayout> {
    let end = offset + length;
    if length == 0 || end > file.len() {
        None
    } else {
        let meta = file[end - 1];
        if meta & 1u8 == 0 {
            Some(ChunkLayout { meta, child_count: 0, payload_end: end - 1 })
        } else if length < 5 {
            None
        } else {
            let count = spec_u32_from_le_bytes(file.subrange(end - 5, end - 1));
            let total = 5 + 16 * count;
            if length < total {
                None
            } else {
                Some(ChunkLayout { meta, child_count: count, payload_end: end - total })
            }
        }
    }
}

/// The `i`-th entry of the children table that starts at `table_start`.
pub open spec fn spec_child_ref(file: Seq<u8>, table_start: int, i: int) -> ChildRef {
    ChildRef::spec_from_bytes(file.subrange(table_start + 16 * i, table_start + 16 * i + 16))
}

/// The item count that a container payload starts with (0 for a payload shorter than 8 bytes).
pub open spec fn container_len(payload: Seq<u8>) -> u64 {
    if payload.len() >= 8 {
        spec_u64_from_le_bytes(payload.subrange(0, 8))
    } else {
        0
    }
}

/// An open file: its bytes, its global header and the registry used to
/// decompress its chunks.
pub struct ParcodeFile {
    /// The content of the file.
    source: Vec<u8>,
    /// The parsed global header.
    header: GlobalHeader,
    /// Total size of the file in bytes.
    file_size: u64,
    /// The decompression algorithms.
    registry: CompressorRegistry,
}

impl ParcodeFile {
    /// The bytes of the file.
    pub closed spec fn bytes(&self) -> Seq<u8> {
        self.source@
    }

    /// The parsed global header.
    pub closed spec fn spec_header(&self) -> GlobalHeader {
        self.header
    }

    /// The registry used to decompress chunks.
    pub closed spec fn spec_registry(&self) -> CompressorRegistry {
        self.registry
    }

    #[verifier::type_invariant]
    closed spec fn inv(&self) -> bool {
        &&& self.file_size == self.source@.len()
        &&& self.registry.is_default()
        &&& spec_header(self.source@) == Some(self.header)
    }

    /// Opens a file held in memory. It fails with a format error exactly when
    /// the bytes do not end with a valid global header.
    pub fn from_bytes(data: Vec<u8>) -> (r: Result<Self>)
        ensures
            r is Ok <==> spec_header(data@) is Some,
            r matches Ok(f) ==> f.bytes() == data@ && Some(f.spec_header()) == spec_header(data@),
            r matches Ok(f) ==> f.spec_registry().is_default(),
            r matches Err(e) ==> e matches ParcodeError::Format(s) && s@ == header_error_text(data@),
    {
        let size = data.len() as u64;
        Self::init(data, size)
    }

    fn init(source: Vec<u8>, file_size: u64) -> (r: Result<Self>)
        requires
            file_size == source@.len(),
        ensures
            r is Ok <==> spec_header(source@) is Some,
            r matches Ok(f) ==> f.bytes() == source@ && Some(f.spec_header()) == spec_header(source@),
            r matches Ok(f) ==> f.spec_registry().is_default(),
            r matches Err(e) ==> e matches ParcodeError::Format(s) && s@ == header_error_text(source@),
    {
        if file_size < GLOBAL_HEADER_SIZE as u64 {
            return Err(ParcodeError::Format("File smaller than header".to_string()));
        }
        let header_start = source.len() - GLOBAL_HEADER_SIZE;
        let header_bytes = &source.as_slice()[header_start..source.len()];
        let ghost t = source@.subrange(header_start as int, source@.len() as int);
        assert(header_bytes@ == t);
        if header_bytes[0] != MAGIC_BYTES[0] || header_bytes[1] != MAGIC_BYTES[1]
            || header_bytes[2] != MAGIC_BYTES[2] || header_bytes[3] != MAGIC_BYTES[3] {
            assert(t.subrange(0, 4) != magic_seq()) by {
                if t.subrange(0, 4) == magic_seq() {
                    assert(t.subrange(0, 4)[0] == t[0]);
                    assert(t.subrange(0, 4)[1] == t[1]);
                    assert(t.subrange(0, 4)[2] == t[2]);
                    assert(t.subrange(0, 4)[3] == t[3]);
                }
            }
            return Err(ParcodeError::Format("Invalid Magic Bytes".to_string()));
        }
        assert(t.subrange(0, 4) =~= magic_seq());
        let version = u16_from_le_bytes(&header_bytes[4..6]);
        if version != FORMAT_VERSION {
            let mut msg = String::from_str("Unsupported version: ");
            let v = decimal(version as u64);
            msg.append(v.as_str());
            msg.append(". Expected V4.");
            return Err(ParcodeError::Format(msg));
        }
        let root_offset = u64_from_le_bytes(&header_bytes[6..14]);
        let root_length = u64_from_le_bytes(&header_bytes[14..22]);
        let checksum = u32_from_le_bytes(&header_bytes[22..26]);
        let header = GlobalHeader {
            magic: MAGIC_BYTES,
            version,
            root_offset,
            root_length,
            checksum,
        };
        Ok(ParcodeFile { source, header, file_size, registry: CompressorRegistry::new() })
    }

    /// Returns the total size of the file in bytes.
    pub fn file_size(&self) -> (r: u64)
        ensures
            r == self.bytes().len(),
    {
        proof {
            use_type_invariant(self);
        }
        self.file_size
    }

    /// Returns the parsed global header.
    pub fn header(&self) -> (r: GlobalHeader)
        ensures
            r == self.spec_header(),
    {
        self.header
    }

    /// Returns the node of the root chunk, the one the global header points to.
    pub fn root_node(&self) -> (r: Result<ChunkNode<'_>>)
        ensures
            r is Ok <==> spec_chunk_layout(self.bytes(), self.spec_header().root_offset, self.spec_header().root_length) is Some,
            r matches Ok(n) ==> n.is_chunk_of(self, self.spec_header().root_offset, self.spec_header().root_length),
            r matches Err(e) ==> e is Format,
    {
        self.get_chunk(self.header.root_offset, self.header.root_length)
    }

    /// Resolves the chunk of `length` bytes at `offset`: reads its meta byte and,
    /// for a chunk with children, its child count, and checks that the children
    /// table fits in the chunk.
    pub fn get_chunk(&self, offset: u64, length: u64) -> (r: Result<ChunkNode<'_>>)
        ensures
            r is Ok <==> spec_chunk_layout(self.bytes(), offset, length) is Some,
            r matches Ok(n) ==> n.is_chunk_of(self, offset, length),
            r matches Err(e) ==> e is Format,
            (length == 0 || offset + length > self.bytes().len()) ==> (r matches Err(e) && e matches ParcodeError::Format(
                s,
            ) && s@ == chunk_bounds_text(offset, length)),
    {
        proof {
            use_type_invariant(self);
        }
        if length == 0 || offset > self.file_size || length > self.file_size - offset {
            let mut msg = String::from_str("Chunk out of bounds: ");
            let o = decimal(offset);
            msg.append(o.as_str());
            msg.append(" + ");
            let l = decimal(length);
            msg.append(l.as_str());
            return Err(ParcodeError::Format(msg));
        }
        let src_len = self.source.len();
        assert(offset + length <= src_len);
        let chunk_end = (offset + length) as usize;
        assert(chunk_end == offset + length);
        let meta = MetaByte::from_byte(self.source[chunk_end - 1]);
        let mut child_count: u32 = 0;
        let mut payload_end: usize = chunk_end - 1;
        if meta.is_chunkable() {
            if length < 5 {
                return Err(ParcodeError::Format("Chunk too small for metadata".to_string()));
            }
            let count_start = chunk_end - 5;
            child_count = u32_from_le_bytes(&self.source.as_slice()[count_start..count_start + 4]);
            let total_meta_size: u64 = 5 + (child_count as u64) * 16;
            if length < total_meta_size {
                return Err(ParcodeError::Format("Invalid footer size".to_string()));
            }
            payload_end = chunk_end - total_meta_size as usize;
        }
        let node = ChunkNode {
            reader: self,
            offset,
            length,
            meta,
            child_count,
            payload_end_offset: payload_end as u64,
        };
        Ok(node)
    }
}

/// A light view of one chunk of an open file.
#[derive(Clone, Copy)]
pub struct ChunkNode<'a> {
    reader: &'a ParcodeFile,
    /// Physical start offset.
    offset: u64,
    /// Total physical length.
    length: u64,
    /// Parsed metadata flags.
    meta: MetaByte,
    /// Number of direct children.
    child_count: u32,
    /// End of the payload (start of the children table).
    payload_end_offset: u64,
}

impl<'a> ChunkNode<'a> {
    /// The file this node belongs to.
    pub closed spec fn file(&self) -> ParcodeFile {
        *self.reader
    }

    /// Offset of the chunk.
    pub closed spec fn spec_offset(&self) -> u64 {
        self.offset
    }

    /// Total length of the chunk.
    pub closed spec fn spec_length(&self) -> u64 {
        self.length
    }

    /// The meta byte of the chunk.
    pub closed spec fn spec_meta(&self) -> MetaByte {
        self.meta
    }

    /// The number of children of the chunk.
    pub closed spec fn spec_child_count(&self) -> u32 {
        self.child_count
    }

    /// Where the payload ends and the children table starts.
    pub closed spec fn spec_payload_end(&self) -> u64 {
        self.payload_end_offset
    }

    #[verifier::type_invariant]
    closed spec fn inv(&self) -> bool {
        &&& self.reader.inv()
        &&& spec_chunk_layout(self.reader.source@, self.offset, self.length) matches Some(l)
            && l.meta == self.meta.byte() && l.child_count == self.child_count
            && l.payload_end == self.payload_end_offset
    }

    /// This node is the chunk of `length` bytes at `offset` in `file`, with the
    /// layout that its bytes give.
    pub open spec fn is_chunk_of(&self, file: &ParcodeFile, offset: u64, length: u64) -> bool {
        &&& self.file() == *file
        &&& self.spec_offset() == offset
        &&& self.spec_length() == length
        &&& spec_chunk_layout(file.bytes(), offset, length) matches Some(l)
            && l.meta == self.spec_meta().byte() && l.child_count == self.spec_child_count()
            && l.payload_end == self.spec_payload_end()
    }

    /// The stored (possibly compressed) payload bytes.
    pub open spec fn raw_payload(&self) -> Seq<u8> {
        self.file().bytes().subrange(self.spec_offset() as int, self.spec_payload_end() as int)
    }

    /// The stored payload is the compressed form of `x` under the algorithm
    /// that the meta byte names.
    pub open spec fn holds(&self, x: Seq<u8>) -> bool {
        let m = self.spec_meta().spec_compression_method();
        &&& self.file().spec_registry().has(m)
        &&& self.file().spec_registry().algo(m).spec_compress(x) == Some(self.raw_payload())
    }

    /// The reference stored in the `i`-th entry of the children table.
    pub open spec fn spec_child(&self, i: int) -> ChildRef {
        spec_child_ref(self.file().bytes(), self.spec_payload_end() as int, i)
    }

    /// Returns the absolute file offset of this chunk.
    pub fn offset(&self) -> (r: u64)
        ensures
            r == self.spec_offset(),
    {
        self.offset
    }

    /// Returns the total physical length of this chunk.
    pub fn length(&self) -> (r: u64)
        ensures
            r == self.spec_length(),
    {
        self.length
    }

    /// Returns the number of children.
    pub fn child_count(&self) -> (r: u32)
        ensures
            r == self.spec_child_count(),
            self.is_chunk_of(&self.file(), self.spec_offset(), self.spec_length()),
    {
        proof {
            use_type_invariant(self);
        }
        self.child_count
    }

    /// Returns the metadata flags.
    pub fn meta(&self) -> (r: MetaByte)
        ensures
            r == self.spec_meta(),
    {
        self.meta
    }

    /// Reads and decompresses the payload of this chunk with the algorithm that
    /// its meta byte names. A payload stored as the compressed form of some data
    /// is read back as that data; an uncompressed payload is read as stored.
    pub fn read_raw(&self) -> (r: Result<Vec<u8>>)
        ensures
            forall|x: Seq<u8>| #[trigger] self.holds(x) ==> (r matches Ok(v) && v@ == x),
            self.spec_meta().spec_compression_method() == 0 ==> (r matches Ok(v) && v@ == self.raw_payload()),
            !self.file().spec_registry().has(self.spec_meta().spec_compression_method()) ==> r is Err,
            r matches Err(e) ==> e is Compression,
    {
        proof {
            use_type_invariant(self);
            use_type_invariant(self.reader);
        }
        let src_len = self.reader.source.len();
        assert(self.offset <= self.payload_end_offset <= src_len);
        let start = self.offset as usize;
        let end = self.payload_end_offset as usize;
        let raw = &self.reader.source.as_slice()[start..end];
        let method = self.meta.compression_method();
        let algo = self.reader.registry.get(method)?;
        proof {
            if method == 0 {
                assert(self.holds(self.raw_payload()));
            }
        }
        algo.decompress(raw)
    }

    /// Returns the child referenced by the `index`-th entry of the children table.
    pub fn get_child_by_index(&self, index: usize) -> (r: Result<Self>)
        ensures
            r is Ok <==> index < self.spec_child_count() && spec_chunk_layout(
                self.file().bytes(),
                self.spec_child(index as int).offset,
                self.spec_child(index as int).length,
            ) is Some,
            r matches Ok(c) ==> c.is_chunk_of(
                &self.file(),
                self.spec_child(index as int).offset,
                self.spec_child(index as int).length,
            ),
            r matches Err(e) ==> e is Format,
    {
        proof {
            use_type_invariant(self);
            use_type_invariant(self.reader);
        }
        if index >= self.child_count as usize {
            return Err(ParcodeError::Format("Child index out of bounds".to_string()));
        }
        let src_len = self.reader.source.len();
        assert(self.payload_end_offset + 16 * self.child_count <= src_len);
        let footer_start = self.payload_end_offset as usize;
        let entry_start = footer_start + index * CHILD_REF_SIZE;
        let bytes = &self.reader.source.as_slice()[entry_start..entry_start + CHILD_REF_SIZE];
        let r = ChildRef::from_bytes(bytes)?;
        assert(bytes@.subrange(0, 8) =~= self.file().bytes().subrange(entry_start as int, entry_start + 8));
        assert(bytes@.subrange(8, 16) =~= self.file().bytes().subrange(entry_start + 8, entry_start + 16));
        assert(r == self.spec_child(index as int));
        self.reader.get_chunk(r.offset, r.length)
    }

    /// Returns the nodes of all direct children, in the order of the children table.
    pub fn children(&self) -> (r: Result<Vec<Self>>)
        ensures
            r is Ok <==> forall|i: int| 0 <= i < self.spec_child_count() ==> #[trigger] spec_chunk_layout(
                self.file().bytes(),
                self.spec_child(i).offset,
                self.spec_child(i).length,
            ) is Some,
            r matches Ok(v) ==> v@.len() == self.spec_child_count() && forall|i: int|
                0 <= i < v@.len() ==> #[trigger] v@[i].is_chunk_of(
                    &self.file(),
                    self.spec_child(i).offset,
                    self.spec_child(i).length,
                ),
            r matches Err(e) ==> e is Format,
    {
        let count = self.child_count as usize;
        let mut list: Vec<Self> = Vec::new();
        let mut i: usize = 0;
        while i < count
            invariant
                count == self.spec_child_count(),
                i <= count,
                list@.len() == i,
                forall|j: int| 0 <= j < i ==> #[trigger] list@[j].is_chunk_of(
                    &self.file(),
                    self.spec_child(j).offset,
                    self.spec_child(j).length,
                ),
                forall|j: int| 0 <= j < i ==> #[trigger] spec_chunk_layout(
                    self.file().bytes(),
                    self.spec_child(j).offset,
                    self.spec_child(j).length,
                ) is Some,
            decreases count - i,
        {
            let c = self.get_child_by_index(i)?;
            list.push(c);
            i = i + 1;
        }
        Ok(list)
    }

    /// Returns the logical number of items of a collection container: the
    /// first 8 bytes of its payload as a little-endian `u64`, or 0 where the
    /// payload cannot be read or is shorter than 8 bytes.
    pub fn len(&self) -> (r: u64)
        ensures
            forall|x: Seq<u8>| #[trigger] self.holds(x) ==> r == container_len(x),
    {
        match self.read_raw() {
            Ok(payload) => {
                if payload.len() >= 8 {
                    u64_from_le_bytes(&payload.as_slice()[0..8])
                } else {
                    0
                }
            },
            Err(_) => 0,
        }
    }

    /// Checks whether the container holds no item.
    pub fn is_empty(&self) -> (r: bool)
        ensures
            forall|x: Seq<u8>| #[trigger] self.holds(x) ==> r == (container_len(x) == 0),
    {
        self.len() == 0
    }

    /// Returns the size of the file the chunk belongs to.
    pub fn file_size(&self) -> (r: u64)
        ensures
            r == self.file().bytes().len(),
    {
        self.reader.file_size()
    }

    /// Returns the size of the stored payload (excluding children table and meta byte).
    pub fn payload_len(&self) -> (r: u64)
        ensures
            r == self.spec_payload_end() - self.spec_offset(),
    {
        proof {
            use_type_invariant(self);
        }
        self.payload_end_offset - self.offset
    }
}

} // verus!
