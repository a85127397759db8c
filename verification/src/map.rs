//! Hash-sharded maps.
//!
//! A map is stored as a container whose payload starts with the number of
//! shards, and one child chunk per shard. An entry goes to shard
//! `hash(key) % shards`. A shard's payload has a struct-of-arrays layout:
//!
//! ```text
//! [count: u32 LE] [4 zero bytes] [hashes: count x u64 LE] [offsets: count x u32 LE] [data]
//! ```
//!
//! where each offset locates the encoded `(key, value)` pair of an entry in
//! the data blob. A lookup scans the hashes and decodes only the candidates.

use crate::error::{ParcodeError, Result};
use crate::format::ChildRef;
use crate::graph::{JobConfig, SerializationJob};
use crate::reader::{spec_chunk_layout, ChunkNode};
use std::hash::Hash;
use vstd::bytes::*;
use vstd::prelude::*;

verus! {

broadcast use vstd::seq_lib::group_seq_properties;

/// Calls `twox_hash::XxHash64::with_seed(0)`, feeds it the key through the
/// key's `Hash` impl and returns `finish()`. What comes out depends on that
/// impl, so nothing is stated of it.
#[verifier::external_body]
pub(crate) fn hash_key<K: Hash>(key: &K) -> u64 {
    let mut hasher = twox_hash::XxHash64::with_seed(0);
    key.hash(&mut hasher);
    std::hash::Hasher::finish(&hasher)
}

/// One entry of a map shard: the hash of its key and the encoding of its
/// `(key, value)` pair.
#[derive(Clone, Debug)]
pub struct MapEntry {
    /// The hash of the key.
    pub hash: u64,
    /// The encoded `(key, value)` pair.
    pub encoded: Vec<u8>,
}

impl MapEntry {
    /// An entry for `key`, whose `(key, value)` pair encodes to `encoded`.
    pub fn for_key<K: Hash>(key: &K, encoded: Vec<u8>) -> (r: MapEntry)
        ensures
            r.encoded@ == encoded@,
    {
        MapEntry { hash: hash_key(key), encoded }
    }
}

/// The data blob of the entries: their encodings one after the other.
pub open spec fn entries_blob(items: Seq<MapEntry>) -> Seq<u8>
    decreases items.len(),
{
    if items.len() == 0 {
        Seq::empty()
    } else {
        entries_blob(items.drop_last()) + items.last().encoded@
    }
}

/// The hashes of the entries, each a little-endian `u64`.
pub open spec fn entries_hashes(items: Seq<MapEntry>) -> Seq<u8>
    decreases items.len(),
{
    if items.len() == 0 {
        Seq::empty()
    } else {
        entries_hashes(items.drop_last()) + spec_u64_to_le_bytes(items.last().hash)
    }
}

/// The offsets of the entries in the blob, each a little-endian `u32`.
pub open spec fn entries_offsets(items: Seq<MapEntry>) -> Seq<u8>
    decreases items.len(),
{
    if items.len() == 0 {
        Seq::empty()
    } else {
        entries_offsets(items.drop_last()) + spec_u32_to_le_bytes(
            entries_blob(items.drop_last()).len() as u32,
        )
    }
}

/// The payload of a shard holding `items`; an empty shard has an empty payload.
pub open spec fn shard_payload(items: Seq<MapEntry>) -> Seq<u8> {
    if items.len() == 0 {
        Seq::empty()
    } else {
        spec_u32_to_le_bytes(items.len() as u32) + seq![0u8, 0u8, 0u8, 0u8] + entries_hashes(items)
            + entries_offsets(items) + entries_blob(items)
    }
}

/// The job of one map shard.
pub struct MapShardJob {
    /// The entries of the shard, in order.
    pub items: Vec<MapEntry>,
}

impl MapShardJob {
    /// Creates the job of a shard holding `items`.
    pub fn new(items: Vec<MapEntry>) -> (r: Self)
        ensures
            r.items@ == items@,
    {
        MapShardJob { items }
    }
}

impl<'a> SerializationJob<'a> for MapShardJob {
    open spec fn spec_execute(&self, children_refs: Seq<ChildRef>) -> Option<Seq<u8>> {
        Some(shard_payload(self.items@))
    }

    open spec fn spec_execute_error(&self, children_refs: Seq<ChildRef>) -> ParcodeError {
        vstd::pervasive::arbitrary()
    }

    open spec fn spec_config(&self) -> JobConfig {
        JobConfig { compression_id: 0, is_map: false }
    }

    open spec fn spec_estimated_size(&self) -> usize {
        if 12 * self.items@.len() <= usize::MAX { (12 * self.items@.len()) as usize } else { usize::MAX }
    }

    fn execute(&self, children_refs: &[ChildRef]) -> (r: Result<Vec<u8>>) {
        let count = self.items.len();
        if count == 0 {
            return Ok(Vec::new());
        }
        let mut data_blob: Vec<u8> = Vec::new();
        let mut offsets: Vec<u8> = Vec::new();
        let mut hashes: Vec<u8> = Vec::new();
        let mut i: usize = 0;
        while i < count
            invariant
                count == self.items@.len(),
                i <= count,
                data_blob@ == entries_blob(self.items@.take(i as int)),
                offsets@ == entries_offsets(self.items@.take(i as int)),
                hashes@ == entries_hashes(self.items@.take(i as int)),
            decreases count - i,
        {
            let ghost prefix = self.items@.take(i as int);
            let ghost next = self.items@.take(i + 1);
            proof {
                assert(next.drop_last() =~= prefix);
                assert(next.last() == self.items@[i as int]);
            }
            let entry = &self.items[i];
            let mut h = u64_to_le_bytes(entry.hash);
            hashes.append(&mut h);
            let pos = data_blob.len() as u32;
            let mut o = u32_to_le_bytes(pos);
            offsets.append(&mut o);
            let mut e: Vec<u8> = Vec::new();
            let mut j: usize = 0;
            while j < entry.encoded.len()
                invariant
                    j <= entry.encoded@.len(),
                    e@ == entry.encoded@.subrange(0, j as int),
                decreases entry.encoded@.len() - j,
            {
                e.push(entry.encoded[j]);
                j = j + 1;
            }
            assert(e@ =~= entry.encoded@);
            data_blob.append(&mut e);
            i = i + 1;
        }
        assert(self.items@.take(count as int) =~= self.items@);
        let mut final_buf = u32_to_le_bytes(count as u32);
        final_buf.push(0u8);
        final_buf.push(0u8);
        final_buf.push(0u8);
        final_buf.push(0u8);
        final_buf.append(&mut hashes);
        final_buf.append(&mut offsets);
        final_buf.append(&mut data_blob);
        assert(final_buf@ =~= shard_payload(self.items@));
        Ok(final_buf)
    }

    fn estimated_size(&self) -> (r: usize)
        ensures
            r == if 12 * self.items@.len() <= usize::MAX { (12 * self.items@.len()) as int } else { usize::MAX as int },
    {
        let size: u128 = (self.items.len() as u128) * 12;
        if size > usize::MAX as u128 { usize::MAX } else { size as usize }
    }

    fn config(&self) -> (r: JobConfig) {
        JobConfig { compression_id: 0, is_map: false }
    }
}

/// The entry count a shard payload starts with.
pub open spec fn shard_count(p: Seq<u8>) -> u32 {
    spec_u32_from_le_bytes(p.subrange(0, 4))
}

/// The hash of entry `i` of a shard payload.
pub open spec fn hash_at(p: Seq<u8>, i: int) -> u64 {
    spec_u64_from_le_bytes(p.subrange(8 + 8 * i, 16 + 8 * i))
}

/// The blob offset of entry `i` of a shard payload of `count` entries.
pub open spec fn offset_at(p: Seq<u8>, count: int, i: int) -> u32 {
    spec_u32_from_le_bytes(p.subrange(8 + 8 * count + 4 * i, 12 + 8 * count + 4 * i))
}

/// The first entry at or after `from` whose hash is `target`.
pub open spec fn first_match(p: Seq<u8>, count: int, target: u64, from: int) -> Option<int>
    decreases count - from,
{
    if from >= count || from < 0 {
        None
    } else if hash_at(p, from) == target {
        Some(from)
    } else {
        first_match(p, count, target, from + 1)
    }
}

/// The number of shards a map container payload announces: its first 4 bytes
/// as a little-endian `u32`, or `None` for a payload shorter than 4 bytes.
pub open spec fn spec_num_shards(payload: Seq<u8>) -> Option<u32> {
    if payload.len() < 4 {
        None
    } else {
        Some(spec_u32_from_le_bytes(payload.subrange(0, 4)))
    }
}

/// Reads the number of shards from a map container payload.
pub fn num_shards(payload: &[u8]) -> (r: Option<u32>)
    ensures
        r == spec_num_shards(payload@),
{
    if payload.len() < 4 {
        None
    } else {
        Some(u32_from_le_bytes(&payload[0..4]))
    }
}

/// The shard a hash falls into: the hash (taken as 0 where it does not fit in
/// a `usize`) modulo the number of shards.
pub open spec fn spec_shard_for(hash: u64, shards: u32) -> int {
    (if hash <= usize::MAX { hash as int } else { 0 }) % (shards as int)
}

/// Selects the shard of a hash.
pub fn shard_for(hash: u64, shards: u32) -> (r: usize)
    requires
        shards > 0,
    ensures
        r == spec_shard_for(hash, shards),
        hash <= usize::MAX ==> r == (hash as int) % (shards as int),
        r < shards,
{
    let h: usize = if hash <= usize::MAX as u64 { hash as usize } else { 0 };
    h % (shards as usize)
}

/// The shard of a hash is the full 64-bit hash modulo the number of shards,
/// wherever the hash fits in a `usize`; it is always one of the shards.
pub proof fn lemma_shard_is_hash_modulo(hash: u64, shards: u32)
    requires
        shards > 0,
    ensures
        hash <= usize::MAX ==> spec_shard_for(hash, shards) == (hash as int) % (shards as int),
        0 <= spec_shard_for(hash, shards) < shards,
{
}

/// Reads the header of a shard payload. An empty shard (a payload shorter
/// than 8 bytes) gives `None`; otherwise the entry count, checked against the
/// length of the hash array, which must fit in the payload.
pub fn shard_header(payload: &[u8]) -> (r: Result<Option<usize>>)
    ensures
        payload@.len() < 8 ==> r == Ok::<Option<usize>, ParcodeError>(None),
        payload@.len() >= 8 ==> (r is Ok <==> 8 + 8 * shard_count(payload@) <= payload@.len()),
        payload@.len() >= 8 ==> (r matches Ok(c) ==> c == Some(shard_count(payload@) as usize)),
        r matches Err(e) ==> e is Format,
{
    if payload.len() < 8 {
        return Ok(None);
    }
    let count = u32_from_le_bytes(&payload[0..4]);
    let hashes_end: u64 = 8 + (count as u64) * 8;
    if hashes_end > payload.len() as u64 {
        return Err(ParcodeError::Format("Hashes slice out of bounds".to_string()));
    }
    Ok(Some(count as usize))
}

/// Finds the next entry at or after `from` whose hash is `target_hash`, and
/// the position in the payload where its encoded pair starts. Reading the
/// candidate's offset, or its data, outside the payload is a format error.
pub fn next_candidate(payload: &[u8], count: usize, target_hash: u64, from: usize) -> (r: Result<Option<(usize, usize)>>)
    requires
        8 + 8 * count <= payload@.len(),
    ensures
        match first_match(payload@, count as int, target_hash, from as int) {
            None => r == Ok::<Option<(usize, usize)>, ParcodeError>(None),
            Some(i) => {
                let ok = 12 + 8 * count + 4 * i <= payload@.len()
                    && 8 + 12 * count + offset_at(payload@, count as int, i) <= payload@.len();
                &&& (r is Ok <==> ok)
                &&& (r matches Ok(Some((j, start))) ==> j == i && start == 8 + 12 * count + offset_at(
                    payload@,
                    count as int,
                    i,
                ))
                &&& !(r matches Ok(None))
            },
        },
        r matches Err(e) ==> e is Format,
{
    let mut i = from;
    assert(payload@.len() == payload.len());
    while i < count
        invariant
            8 + 8 * count <= payload@.len(),
            payload@.len() <= usize::MAX,
            first_match(payload@, count as int, target_hash, from as int) == first_match(
                payload@,
                count as int,
                target_hash,
                i as int,
            ),
        decreases count - i,
    {
        let start = 8 + 8 * i;
        let h = u64_from_le_bytes(&payload[start..start + 8]);
        if h == target_hash {
            let offsets_start: u128 = 8 + (count as u128) * 8;
            let pos: u128 = offsets_start + (i as u128) * 4;
            if pos + 4 > payload.len() as u128 {
                return Err(ParcodeError::Format("Offset bytes out of bounds".to_string()));
            }
            let p = pos as usize;
            let offset = u32_from_le_bytes(&payload[p..p + 4]);
            let data_start: u128 = offsets_start + (count as u128) * 4;
            let item_start: u128 = data_start + offset as u128;
            if item_start > payload.len() as u128 {
                return Err(ParcodeError::Format("Data slice out of bounds".to_string()));
            }
            return Ok(Some((i, item_start as usize)));
        }
        i = i + 1;
    }
    Ok(None)
}

/// The position where the encoded pair of entry `i` of a shard of `count`
/// entries starts. Reading its offset, or pointing past the payload, is a
/// format error.
pub fn entry_start(payload: &[u8], count: usize, i: usize) -> (r: Result<usize>)
    requires
        8 + 8 * count <= payload@.len(),
        i < count,
    ensures
        r is Ok <==> 12 + 8 * count + 4 * i <= payload@.len() && 8 + 12 * count + offset_at(
            payload@,
            count as int,
            i as int,
        ) <= payload@.len(),
        r matches Ok(s) ==> s == 8 + 12 * count + offset_at(payload@, count as int, i as int),
        r matches Err(e) ==> e is Format,
{
    let offsets_start: u128 = 8 + (count as u128) * 8;
    let pos: u128 = offsets_start + (i as u128) * 4;
    if pos + 4 > payload.len() as u128 {
        return Err(ParcodeError::Format("Offset bytes out of bounds".to_string()));
    }
    let p = pos as usize;
    let offset = u32_from_le_bytes(&payload[p..p + 4]);
    let data_start: u128 = offsets_start + (count as u128) * 4;
    let item_start: u128 = data_start + offset as u128;
    if item_start > payload.len() as u128 {
        return Err(ParcodeError::Format("Data slice out of bounds".to_string()));
    }
    Ok(item_start as usize)
}

/// The positions where the encoded pairs of a shard's entries start, in
/// order. An empty shard (a payload shorter than 8 bytes) has none. The offset
/// array must fit in the payload, and so must each entry's start.
pub fn shard_entry_starts(payload: &[u8]) -> (r: Result<Vec<usize>>)
    ensures
        payload@.len() < 8 ==> (r matches Ok(v) && v@.len() == 0),
        payload@.len() >= 8 ==> {
            let count = shard_count(payload@) as int;
            &&& (r is Ok <==> 8 + 12 * count <= payload@.len() && forall|i: int|
                0 <= i < count ==> 8 + 12 * count + #[trigger] offset_at(payload@, count, i) <= payload@.len())
            &&& (r matches Ok(v) ==> v@.len() == count && forall|i: int|
                0 <= i < count ==> #[trigger] v@[i] == 8 + 12 * count + offset_at(payload@, count, i))
        },
        r matches Err(e) ==> e is Format,
{
    let mut starts: Vec<usize> = Vec::new();
    if payload.len() < 8 {
        return Ok(starts);
    }
    let count = u32_from_le_bytes(&payload[0..4]) as usize;
    let data_start: u128 = 8 + (count as u128) * 12;
    if data_start > payload.len() as u128 {
        return Err(ParcodeError::Format("Offsets out of bounds".to_string()));
    }
    let ds = data_start as usize;
    let mut i: usize = 0;
    while i < count
        invariant
            count == shard_count(payload@),
            ds == 8 + 12 * count,
            data_start == ds,
            ds <= payload@.len(),
            i <= count,
            starts@.len() == i,
            forall|j: int| 0 <= j < i ==> #[trigger] starts@[j] == ds + offset_at(payload@, count as int, j),
            forall|j: int| 0 <= j < i ==> ds + #[trigger] offset_at(payload@, count as int, j) <= payload@.len(),
        decreases count - i,
    {
        let p = 8 + 8 * count + 4 * i;
        let offset = u32_from_le_bytes(&payload[p..p + 4]);
        let item_start: u128 = data_start + offset as u128;
        if item_start > payload.len() as u128 {
            assert(!(ds + offset_at(payload@, count as int, i as int) <= payload@.len()));
            return Err(ParcodeError::Format("Data slice out of bounds".to_string()));
        }
        starts.push(item_start as usize);
        i = i + 1;
    }
    Ok(starts)
}

/// The index of the first entry at or after `from` whose hash is `h`.
pub open spec fn first_with_hash(items: Seq<MapEntry>, h: u64, from: int) -> Option<int>
    decreases items.len() - from,
{
    if from >= items.len() || from < 0 {
        None
    } else if items[from].hash == h {
        Some(from)
    } else {
        first_with_hash(items, h, from + 1)
    }
}

impl<'a> ChunkNode<'a> {
    /// Finds the shard of a map container that `key` falls into: reads the
    /// container payload, hashes the key and opens the shard its hash selects.
    /// Returns `None` when the container payload is shorter than 4 bytes (an
    /// empty map), otherwise the shard's node and the key's hash. A container
    /// that announces no shard is a format error.
    pub fn map_shard_for<K: Hash>(&self, key: &K) -> (r: Result<Option<(Self, u64)>>)
        ensures
            forall|x: Seq<u8>| #[trigger] self.holds(x) ==> {
                &&& (spec_num_shards(x) is None ==> r == Ok::<Option<(Self, u64)>, ParcodeError>(None))
                &&& (spec_num_shards(x) == Some(0u32) ==> r is Err)
                &&& (r matches Ok(Some((shard, h))) ==> spec_num_shards(x) matches Some(n) && n > 0 && {
                    let s = spec_shard_for(h, n);
                    &&& s < self.spec_child_count()
                    &&& shard.is_chunk_of(&self.file(), self.spec_child(s).offset, self.spec_child(s).length)
                })
                &&& ((spec_num_shards(x) matches Some(n) && 0 < n <= self.spec_child_count() && forall|q: int|
                    0 <= q < n ==> #[trigger] spec_chunk_layout(
                        self.file().bytes(),
                        self.spec_child(q).offset,
                        self.spec_child(q).length,
                    ) is Some) ==> r matches Ok(Some(_)))
                &&& (r matches Ok(None) ==> spec_num_shards(x) is None)
            },
            r matches Err(e) ==> e is Format || e is Compression,
    {
        let payload = self.read_raw()?;
        let n = match num_shards(payload.as_slice()) {
            None => return Ok(None),
            Some(n) => n,
        };
        if n == 0 {
            return Err(ParcodeError::Format("Map container announces no shard".to_string()));
        }
        let h = hash_key(key);
        let idx = shard_for(h, n);
        let shard = self.get_child_by_index(idx)?;
        Ok(Some((shard, h)))
    }
}

/// The hash array holds each entry's hash at its index.
proof fn lemma_entries_hashes(items: Seq<MapEntry>, i: int)
    requires
        0 <= i < items.len(),
    ensures
        entries_hashes(items).len() == 8 * items.len(),
        entries_hashes(items).subrange(8 * i, 8 * i + 8) == spec_u64_to_le_bytes(items[i].hash),
    decreases items.len(),
{
    lemma_auto_spec_u64_to_from_le_bytes();
    let init = items.drop_last();
    if i < items.len() - 1 {
        lemma_entries_hashes(init, i);
        assert(entries_hashes(items).subrange(8 * i, 8 * i + 8) =~= entries_hashes(init).subrange(8 * i, 8 * i + 8));
    } else {
        lemma_entries_hashes_len(init);
        assert(entries_hashes(items).subrange(8 * i, 8 * i + 8) =~= spec_u64_to_le_bytes(items[i].hash));
    }
}

/// The hash array has 8 bytes per entry.
proof fn lemma_entries_hashes_len(items: Seq<MapEntry>)
    ensures
        entries_hashes(items).len() == 8 * items.len(),
    decreases items.len(),
{
    lemma_auto_spec_u64_to_from_le_bytes();
    if items.len() > 0 {
        lemma_entries_hashes_len(items.drop_last());
    }
}

/// The offset array has 4 bytes per entry.
proof fn lemma_entries_offsets_len(items: Seq<MapEntry>)
    ensures
        entries_offsets(items).len() == 4 * items.len(),
    decreases items.len(),
{
    lemma_auto_spec_u32_to_from_le_bytes();
    if items.len() > 0 {
        lemma_entries_offsets_len(items.drop_last());
    }
}

/// The offset array holds, at each entry's index, the length of the blob of
/// the entries before it.
proof fn lemma_entries_offsets(items: Seq<MapEntry>, i: int)
    requires
        0 <= i < items.len(),
    ensures
        entries_offsets(items).subrange(4 * i, 4 * i + 4) == spec_u32_to_le_bytes(
            entries_blob(items.take(i)).len() as u32,
        ),
    decreases items.len(),
{
    lemma_auto_spec_u32_to_from_le_bytes();
    let init = items.drop_last();
    if i < items.len() - 1 {
        lemma_entries_offsets(init, i);
        lemma_entries_offsets_len(init);
        assert(init.take(i) =~= items.take(i));
        assert(entries_offsets(items).subrange(4 * i, 4 * i + 4) =~= entries_offsets(init).subrange(4 * i, 4 * i + 4));
    } else {
        lemma_entries_offsets_len(init);
        assert(init =~= items.take(i));
        assert(entries_offsets(items).subrange(4 * i, 4 * i + 4) =~= spec_u32_to_le_bytes(
            entries_blob(items.take(i)).len() as u32,
        ));
    }
}

/// The blob of a prefix of the entries is a prefix of the blob, followed by
/// the next entry's encoding.
proof fn lemma_entries_blob_prefix(items: Seq<MapEntry>, i: int)
    requires
        0 <= i < items.len(),
    ensures
        entries_blob(items.take(i)).len() + items[i].encoded@.len() <= entries_blob(items).len(),
        entries_blob(items).subrange(
            entries_blob(items.take(i)).len() as int,
            (entries_blob(items.take(i)).len() + items[i].encoded@.len()) as int,
        ) == items[i].encoded@,
    decreases items.len(),
{
    let init = items.drop_last();
    if i < items.len() - 1 {
        lemma_entries_blob_prefix(init, i);
        assert(init.take(i) =~= items.take(i));
        let a = entries_blob(items.take(i)).len() as int;
        assert(entries_blob(items).subrange(a, a + items[i].encoded@.len()) =~= entries_blob(init).subrange(
            a,
            a + items[i].encoded@.len(),
        ));
    } else {
        assert(init =~= items.take(i));
    }
}

/// A shard written for `items` reads back entry by entry: its count, each
/// entry's hash, and each entry's encoded pair at the position its offset
/// gives. This holds when the count and the blob fit in a `u32`, as the
/// format's fields require.
pub proof fn lemma_shard_readback(items: Seq<MapEntry>, i: int)
    requires
        0 <= i < items.len(),
        items.len() <= u32::MAX,
        entries_blob(items).len() <= u32::MAX,
    ensures
        ({
            let p = shard_payload(items);
            let n = items.len() as int;
            let start = 8 + 12 * n + offset_at(p, n, i);
            &&& p.len() >= 8
            &&& shard_count(p) == n
            &&& 8 + 12 * n + entries_blob(items).len() == p.len()
            &&& hash_at(p, i) == items[i].hash
            &&& offset_at(p, n, i) == entries_blob(items.take(i)).len()
            &&& start + items[i].encoded@.len() <= p.len()
            &&& p.subrange(start, start + items[i].encoded@.len()) == items[i].encoded@
        }),
{
    lemma_auto_spec_u32_to_from_le_bytes();
    lemma_auto_spec_u64_to_from_le_bytes();
    let p = shard_payload(items);
    let n = items.len() as int;
    let hs = entries_hashes(items);
    let os = entries_offsets(items);
    let bl = entries_blob(items);
    let head = spec_u32_to_le_bytes(n as u32) + seq![0u8, 0u8, 0u8, 0u8];
    lemma_entries_hashes(items, i);
    lemma_entries_offsets(items, i);
    lemma_entries_offsets_len(items);
    lemma_entries_blob_prefix(items, i);
    assert(p == head + hs + os + bl);
    assert(p.subrange(0, 4) =~= spec_u32_to_le_bytes(n as u32));
    assert(p.subrange(8 + 8 * i, 16 + 8 * i) =~= hs.subrange(8 * i, 8 * i + 8));
    assert(p.subrange(8 + 8 * n + 4 * i, 12 + 8 * n + 4 * i) =~= os.subrange(4 * i, 4 * i + 4));
    let off = entries_blob(items.take(i)).len() as int;
    assert(off as u32 == off);
    let start = 8 + 12 * n + off;
    assert(p.subrange(start, start + items[i].encoded@.len()) =~= bl.subrange(off, off + items[i].encoded@.len()));
}

/// In a shard written for `items`, the scan for a hash finds the first entry
/// with that hash.
pub proof fn lemma_shard_first_match(items: Seq<MapEntry>, h: u64, from: int)
    requires
        0 <= from <= items.len(),
        items.len() <= u32::MAX,
        entries_blob(items).len() <= u32::MAX,
    ensures
        first_match(shard_payload(items), items.len() as int, h, from) == first_with_hash(items, h, from),
    decreases items.len() - from,
{
    if from < items.len() {
        lemma_shard_readback(items, from);
        lemma_shard_first_match(items, h, from + 1);
    }
}

} // verus!
