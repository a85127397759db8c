//! Pluggable compression backends.
//!
//! Each algorithm has an id (0-7) stored in bits 1-3 of a chunk's meta byte.
//! The [`CompressorRegistry`] maps ids to implementations; it is used when
//! writing (to compress) and when reading (to decompress).
//!
//! * id 0: [`NoCompression`] (pass-through)
//! * id 1: [`Lz4Compressor`] (LZ4 block format with the uncompressed size prepended)

use crate::error::{ParcodeError, Result};
use lz4_flex::block::{CompressError, DecompressError};
use vstd::bytes::*;
use crate::text::{decimal, spec_decimal};
use vstd::prelude::*;
use vstd::string::StringExecFns;

verus! {

broadcast use vstd::seq_lib::group_seq_properties;

/// Interface of a compression algorithm.
///
/// An implementation describes itself by two specification functions: its id,
/// and the bytes that compressing some data produces (`None` where it refuses
/// the data). The methods are bound to these: compressing appends exactly those
/// bytes, and decompressing them gives the data back.
pub trait Compressor: Send + Sync {
    /// The id stored in the meta byte of chunks compressed with this algorithm.
    spec fn spec_id(&self) -> u8;

    /// The compressed form of `data`, or `None` where the algorithm cannot compress it.
    spec fn spec_compress(&self, data: Seq<u8>) -> Option<Seq<u8>>;

    /// Returns the unique id (0-7) of the algorithm.
    fn id(&self) -> (r: u8)
        ensures
            r == self.spec_id(),
    ;

    /// Compresses `data` into a new buffer.
    fn compress(&self, data: &[u8]) -> (r: Result<Vec<u8>>)
        ensures
            r is Ok <==> self.spec_compress(data@) is Some,
            r matches Ok(v) ==> self.spec_compress(data@) == Some(v@),
    ;

    /// Decompresses `data`. Whatever the algorithm produced from some input is
    /// decompressed to that input.
    fn decompress(&self, data: &[u8]) -> (r: Result<Vec<u8>>)
        ensures
            forall|x: Seq<u8>| #[trigger] self.spec_compress(x) == Some(data@) ==> (r matches Ok(v) && v@ == x),
            r matches Err(e) ==> e is Compression,
    ;

    /// Compresses `data` and appends the result to `output`. It fails where the
    /// algorithm refuses the data, and may fail where `output` has no room left,
    /// leaving `output` as it was; appending to an empty buffer succeeds whenever
    /// the algorithm accepts the data.
    fn compress_append(&self, data: &[u8], output: &mut Vec<u8>) -> (r: Result<()>)
        ensures
            self.spec_compress(data@) is None ==> r is Err,
            self.spec_compress(data@) is Some && old(output)@.len() == 0 ==> r is Ok,
            r is Ok ==> self.spec_compress(data@) is Some,
            r is Ok ==> final(output)@ == old(output)@ + self.spec_compress(data@).unwrap(),
            r is Err ==> final(output)@ == old(output)@,
            r matches Err(e) ==> e is Compression,
    ;
}

// --- No Compression (Pass-through) ---

/// A compressor that leaves the data unchanged (id 0).
#[derive(Debug, Clone, Copy)]
pub struct NoCompression;

impl Compressor for NoCompression {
    open spec fn spec_id(&self) -> u8 {
        0
    }

    open spec fn spec_compress(&self, data: Seq<u8>) -> Option<Seq<u8>> {
        Some(data)
    }

    fn id(&self) -> (r: u8) {
        0
    }

    fn compress(&self, data: &[u8]) -> (r: Result<Vec<u8>>) {
        Ok(vstd::slice::slice_to_vec(data))
    }

    fn decompress(&self, data: &[u8]) -> (r: Result<Vec<u8>>) {
        Ok(vstd::slice::slice_to_vec(data))
    }

    fn compress_append(&self, data: &[u8], output: &mut Vec<u8>) -> (r: Result<()>)
        ensures
            r is Ok,
            final(output)@ == old(output)@ + data@,
    {
        output.extend_from_slice(data);
        Ok(())
    }
}

// --- LZ4 ---

/// The largest stored LZ4 payload (length prefix and block) that this library
/// writes and reads. Below it the block decoder's sums of length bytes stay
/// within a `u32`, and its positions within a `usize` on every target.
pub const LZ4_MAX_STORED: usize = 8_388_608;

/// What `lz4_flex::block::compress_into` writes for `input`: the LZ4 block
/// encoding of the input, a function of the input alone.
pub uninterp spec fn lz4_block(input: Seq<u8>) -> Seq<u8>;

/// `lz4_flex::block::CompressError`, carried through unchanged.
#[verifier::external_type_specification]
#[verifier::external_body]
pub struct ExCompressError(CompressError);

/// `lz4_flex::block::DecompressError`, carried through unchanged.
#[verifier::external_type_specification]
#[verifier::external_body]
pub struct ExDecompressError(DecompressError);

/// Calls `lz4_flex::block::get_maximum_output_size`, which its source defines
/// as `16 + 4 + len * 110 / 100`.
#[verifier::external_body]
fn lz4_max_output_size(input_len: usize) -> (r: usize)
    requires
        input_len * 110 <= usize::MAX - 20,
    ensures
        r == 20 + input_len * 110 / 100,
{
    lz4_flex::block::get_maximum_output_size(input_len)
}

/// Calls `lz4_flex::block::compress_into` on `output[start..]`. The source
/// writes `lz4_block(input)` at `start` and returns its length, and fails only
/// when fewer than `get_maximum_output_size(input.len())` bytes are available;
/// bytes before `start` are not touched, those after the written block are left
/// unspecified.
#[verifier::external_body]
fn lz4_compress_into(input: &[u8], output: &mut Vec<u8>, start: usize) -> (r: core::result::Result<usize, CompressError>)
    requires
        start <= old(output)@.len(),
        input@.len() * 110 <= usize::MAX - 20,
    ensures
        final(output)@.len() == old(output)@.len(),
        final(output)@.subrange(0, start as int) == old(output)@.subrange(0, start as int),
        r matches Ok(n) ==> start + n <= old(output)@.len()
            && final(output)@.subrange(start as int, start + n) == lz4_block(input@),
        old(output)@.len() - start >= 20 + input@.len() * 110 / 100 ==> r is Ok,
{
    lz4_flex::block::compress_into(input, &mut output[start..])
}

/// Calls `lz4_flex::block::compress_prepend_size`. Its source writes the input
/// length as a little-endian `u32` followed by what `compress_into` writes.
#[verifier::external_body]
fn lz4_compress_prepend_size(input: &[u8]) -> (r: Vec<u8>)
    requires
        input@.len() * 110 <= usize::MAX - 24,
    ensures
        input@.len() <= u32::MAX ==> r@ == spec_u32_to_le_bytes(input@.len() as u32) + lz4_block(input@),
{
    lz4_flex::block::compress_prepend_size(input)
}

/// Calls `lz4_flex::block::decompress_size_prepended`, documented as the
/// inverse of `compress_prepend_size`: a length prefix followed by the block
/// of some input decompresses to that input. What it returns on other bytes is
/// left unsaid. The source adds length bytes into a `u32` and allocates a
/// buffer of the announced size, so the input is bounded: at most
/// `LZ4_MAX_STORED` bytes, announcing at most `isize::MAX` bytes.
#[verifier::external_body]
fn lz4_decompress_size_prepended(input: &[u8]) -> (r: core::result::Result<Vec<u8>, DecompressError>)
    requires
        input@.len() <= LZ4_MAX_STORED,
        input@.len() >= 4 ==> spec_u32_from_le_bytes(input@.take(4)) <= isize::MAX,
    ensures
        r matches Ok(v) ==> forall|x: Seq<u8>| #[trigger] lz4_prepended_form(x, input@) ==> v@ == x,
        (exists|x: Seq<u8>| #[trigger] lz4_prepended_form(x, input@)) ==> r is Ok,
{
    lz4_flex::block::decompress_size_prepended(input)
}

/// `input` is the length of `x` as a little-endian `u32` followed by the LZ4 block of `x`.
pub open spec fn lz4_prepended_form(x: Seq<u8>, input: Seq<u8>) -> bool {
    &&& x.len() <= u32::MAX
    &&& input.len() >= 4
    &&& input.take(4) == spec_u32_to_le_bytes(x.len() as u32)
    &&& input.skip(4) == lz4_block(x)
}

/// Whether LZ4 accepts an input of this length: its size must fit the `u32`
/// prefix and the worst-case output size must be computable.
pub open spec fn lz4_accepts(len: nat) -> bool {
    len <= u32::MAX && len * 110 <= usize::MAX - 24
}

/// Whether the stored form of `data` (length prefix and block) fits in `LZ4_MAX_STORED`.
pub open spec fn lz4_fits(data: Seq<u8>) -> bool {
    4 + lz4_block(data).len() <= LZ4_MAX_STORED
}

/// A compressor using the LZ4 block format with the uncompressed size
/// prepended as a little-endian `u32` (id 1).
#[derive(Debug, Clone, Copy)]
pub struct Lz4Compressor;

impl Compressor for Lz4Compressor {
    open spec fn spec_id(&self) -> u8 {
        1
    }

    open spec fn spec_compress(&self, data: Seq<u8>) -> Option<Seq<u8>> {
        if lz4_accepts(data.len()) && lz4_fits(data) {
            Some(spec_u32_to_le_bytes(data.len() as u32) + lz4_block(data))
        } else {
            None
        }
    }

    fn id(&self) -> (r: u8) {
        1
    }

    fn compress(&self, data: &[u8]) -> (r: Result<Vec<u8>>)
        ensures
            lz4_accepts(data@.len()) && lz4_fits(data@) ==> (r matches Ok(v) && v@ == spec_u32_to_le_bytes(
                data@.len() as u32,
            ) + lz4_block(data@)),
    {
        if data.len() > 0xffff_ffffusize || data.len() > (usize::MAX - 24) / 110 {
            return Err(ParcodeError::Compression("Data too large for u32".to_string()));
        }
        let out = lz4_compress_prepend_size(data);
        proof {
            lemma_auto_spec_u32_to_from_le_bytes();
            assert(out@.len() == 4 + lz4_block(data@).len());
        }
        if out.len() > LZ4_MAX_STORED {
            return Err(ParcodeError::Compression("Compressed block too large".to_string()));
        }
        Ok(out)
    }

    fn decompress(&self, data: &[u8]) -> (r: Result<Vec<u8>>) {
        proof {
            lemma_auto_spec_u32_to_from_le_bytes();
            assert forall|x: Seq<u8>| #[trigger] self.spec_compress(x) == Some(data@)
                implies lz4_prepended_form(x, data@) by {
                let p = spec_u32_to_le_bytes(x.len() as u32);
                assert(data@ == p + lz4_block(x));
                assert(data@.take(4) =~= p);
                assert(data@.skip(4) =~= lz4_block(x));
            }
        }
        if data.len() > LZ4_MAX_STORED {
            return Err(ParcodeError::Compression("Compressed block too large".to_string()));
        }
        if data.len() >= 4 {
            let announced = u32_from_le_bytes(&data[0..4]);
            assert(data@.subrange(0, 4) =~= data@.take(4));
            if announced as u64 > isize::MAX as u64 {
                return Err(ParcodeError::Compression("Announced size too large".to_string()));
            }
        }
        match lz4_decompress_size_prepended(data) {
            Ok(v) => Ok(v),
            Err(e) => Err(ParcodeError::Compression(e.to_string())),
        }
    }

    fn compress_append(&self, data: &[u8], output: &mut Vec<u8>) -> (r: Result<()>)
        ensures
            r is Ok <==> self.spec_compress(data@) is Some && old(output)@.len() + 4 + 20 + data@.len() * 110 / 100
                <= usize::MAX,
            lz4_accepts(data@.len()) && lz4_fits(data@) && old(output)@.len() + 4 + 20 + data@.len() * 110 / 100
                <= usize::MAX ==> (r is Ok && final(output)@ == old(output)@ + spec_u32_to_le_bytes(data@.len() as u32)
                + lz4_block(data@)),
    {
        if data.len() > 0xffff_ffffusize || data.len() > (usize::MAX - 24) / 110 {
            return Err(ParcodeError::Compression("Data too large for u32".to_string()));
        }
        let start_len = output.len();
        let uncompressed_len = data.len() as u32;
        let prefix = u32_to_le_bytes(uncompressed_len);
        output.extend_from_slice(prefix.as_slice());
        let ghost prefixed = output@;
        let max_size = lz4_max_output_size(data.len());
        let current_len = output.len();
        if current_len > usize::MAX - max_size {
            output.truncate(start_len);
            assert(output@ =~= old(output)@);
            return Err(ParcodeError::Compression("Output buffer resizing failed".to_string()));
        }
        output.resize(current_len + max_size, 0u8);
        assert(output@.subrange(0, current_len as int) =~= prefixed);
        match lz4_compress_into(data, output, current_len) {
            Ok(bytes_written) => {
                if bytes_written > LZ4_MAX_STORED - 4 {
                    output.truncate(start_len);
                    assert(output@ =~= old(output)@);
                    return Err(ParcodeError::Compression("Compressed block too large".to_string()));
                }
                output.truncate(current_len + bytes_written);
                assert(output@ =~= old(output)@ + self.spec_compress(data@).unwrap());
                Ok(())
            },
            Err(e) => {
                output.truncate(start_len);
                assert(output@ =~= old(output)@);
                Err(ParcodeError::Compression(e.to_string()))
            },
        }
    }
}

/// A boxed compressor behaves as the compressor inside the box.
impl Compressor for Box<dyn Compressor> {
    open spec fn spec_id(&self) -> u8 {
        (**self).spec_id()
    }

    open spec fn spec_compress(&self, data: Seq<u8>) -> Option<Seq<u8>> {
        (**self).spec_compress(data)
    }

    fn id(&self) -> (r: u8) {
        (**self).id()
    }

    fn compress(&self, data: &[u8]) -> (r: Result<Vec<u8>>) {
        (**self).compress(data)
    }

    fn decompress(&self, data: &[u8]) -> (r: Result<Vec<u8>>) {
        (**self).decompress(data)
    }

    fn compress_append(&self, data: &[u8], output: &mut Vec<u8>) -> (r: Result<()>) {
        (**self).compress_append(data, output)
    }
}

/// LZ4 accepts every input whose length fits its `u32` prefix and whose
/// stored form fits `LZ4_MAX_STORED`, and stores it as that length followed by
/// the LZ4 block; it refuses every other input.
pub proof fn lemma_lz4_accepted_inputs(data: Seq<u8>)
    ensures
        data.len() <= u32::MAX && data.len() * 110 <= usize::MAX - 24 && 4 + lz4_block(data).len()
            <= LZ4_MAX_STORED ==> Lz4Compressor.spec_compress(data) == Some(
            spec_u32_to_le_bytes(data.len() as u32) + lz4_block(data),
        ),
        !(data.len() <= u32::MAX && data.len() * 110 <= usize::MAX - 24 && 4 + lz4_block(data).len()
            <= LZ4_MAX_STORED) ==> Lz4Compressor.spec_compress(data) is None,
{
}

// --- REGISTRY ---

/// Maps algorithm ids to their implementations.
pub struct CompressorRegistry<C = Box<dyn Compressor>> {
    algorithms: Vec<Option<C>>,
}

/// Two compressors describe the same algorithm: same id, same output on every input.
pub open spec fn same_algo<C: Compressor, D: Compressor>(a: C, b: D) -> bool {
    &&& a.spec_id() == b.spec_id()
    &&& forall|x: Seq<u8>| #[trigger] a.spec_compress(x) == b.spec_compress(x)
}

impl<C: Compressor> CompressorRegistry<C> {
    /// The slots of the registry, indexed by algorithm id.
    pub closed spec fn slots(&self) -> Seq<Option<C>> {
        self.algorithms@
    }

    /// Every registered algorithm sits in the slot of its own id.
    pub open spec fn wf(&self) -> bool {
        forall|i: int|
            0 <= i < self.slots().len() && (#[trigger] self.slots()[i]) is Some
                ==> self.slots()[i].unwrap().spec_id() == i
    }

    /// Whether an algorithm is registered under `id`.
    pub open spec fn has(&self, id: u8) -> bool {
        id < self.slots().len() && self.slots()[id as int] is Some
    }

    /// The algorithm registered under `id`.
    pub open spec fn algo(&self, id: u8) -> C {
        self.slots()[id as int].unwrap()
    }

    /// What a new registry holds: the identity under id 0, LZ4 under id 1, and
    /// nothing under ids 2 to 7.
    pub open spec fn is_default(&self) -> bool {
        &&& self.wf()
        &&& self.slots().len() == 8
        &&& self.has(0)
        &&& self.has(1)
        &&& forall|i: u8| 2 <= i < 8 ==> !self.has(i)
        &&& forall|x: Seq<u8>| #[trigger] self.algo(0).spec_compress(x) == Some(x)
        &&& forall|x: Seq<u8>| #[trigger] self.algo(1).spec_compress(x) == Lz4Compressor.spec_compress(x)
    }

    /// Creates a registry with eight empty slots.
    pub fn empty() -> (r: Self)
        ensures
            r.wf(),
            r.slots().len() == 8,
            forall|i: u8| !r.has(i),
    {
        let mut algorithms: Vec<Option<C>> = Vec::new();
        let mut i: usize = 0;
        while i < 8
            invariant
                i <= 8,
                algorithms@.len() == i,
                forall|j: int| 0 <= j < i ==> (#[trigger] algorithms@[j]) is None,
            decreases 8 - i,
        {
            algorithms.push(None);
            i = i + 1;
        }
        CompressorRegistry { algorithms }
    }

    /// Registers a compressor in the slot of its id, replacing any compressor
    /// already there. The registry grows with empty slots where needed.
    pub fn register(&mut self, algo: C)
        requires
            old(self).wf(),
        ensures
            final(self).wf(),
            final(self).slots().len() == if algo.spec_id() < old(self).slots().len() {
                old(self).slots().len()
            } else {
                (algo.spec_id() + 1) as nat
            },
            final(self).has(algo.spec_id()),
            final(self).algo(algo.spec_id()) == algo,
            forall|i: u8| i != algo.spec_id() ==> (#[trigger] final(self).has(i) <==> old(self).has(i)),
            forall|i: u8| i != algo.spec_id() && #[trigger] old(self).has(i) ==> final(self).algo(i) == old(self).algo(i),
    {
        let id = algo.id() as usize;
        let ghost old_slots = self.algorithms@;
        while self.algorithms.len() <= id
            invariant
                old_slots.len() <= self.algorithms@.len(),
                self.algorithms@.len() <= if id < old_slots.len() { old_slots.len() } else { (id + 1) as nat },
                forall|i: int| 0 <= i < old_slots.len() ==> #[trigger] self.algorithms@[i] == old_slots[i],
                forall|i: int| old_slots.len() <= i < self.algorithms@.len() ==> (#[trigger] self.algorithms@[i]) is None,
            decreases id + 1 - self.algorithms@.len(),
        {
            self.algorithms.push(None);
        }
        self.algorithms.set(id, Some(algo));
    }

    /// Retrieves the compressor registered under `id`.
    pub fn get(&self, id: u8) -> (r: Result<&C>)
        ensures
            r is Ok <==> self.has(id),
            r matches Ok(c) ==> *c == self.algo(id),
            r matches Err(e) ==> e matches ParcodeError::Compression(s) && s@ == "Algorithm ID "@ + spec_decimal(
                id as nat,
            ) + " is not registered or available"@,
    {
        let idx = id as usize;
        if idx < self.algorithms.len() {
            match &self.algorithms[idx] {
                Some(algo) => {
                    return Ok(algo);
                },
                None => {},
            }
        }
        let mut msg = String::from_str("Algorithm ID ");
        let n = decimal(id as u64);
        msg.append(n.as_str());
        msg.append(" is not registered or available");
        Err(ParcodeError::Compression(msg))
    }
}

impl CompressorRegistry<Box<dyn Compressor>> {
    /// Creates a registry with the default algorithms: id 0 `NoCompression`, id 1 `Lz4Compressor`.
    pub fn new() -> (r: Self)
        ensures
            r.is_default(),
    {
        let mut reg = Self::empty();
        reg.register(Box::new(NoCompression));
        reg.register(Box::new(Lz4Compressor));
        reg
    }
}

impl Default for CompressorRegistry<Box<dyn Compressor>> {
    fn default() -> (r: Self)
        ensures
            r.is_default(),
    {
        Self::new()
    }
}

} // verus!
