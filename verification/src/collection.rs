//! Random access into sharded vectors.
//!
//! A vector's container payload holds the total item count and a run-length
//! table of shard sizes. The table tells, for any item index, which shard holds
//! the item and at which position, and it tells a full load which range of the
//! result each shard fills.

use crate::codec::{bincode_decode_runs, bincode_decode_u64, parse_runs, parse_varint_u64};
use crate::error::{ParcodeError, Result};
use crate::reader::{spec_chunk_layout, ChunkNode};
use crate::visitor_impls::{expand_runs, repeated, shard_sizes};
use crate::text::{decimal, spec_decimal};
use vstd::bytes::*;
use vstd::prelude::*;
use vstd::string::StringExecFns;

verus! {

broadcast use vstd::seq_lib::group_seq_properties;

/// Where item `idx` lies in a table of runs `(item_count, repeat)`: the index
/// of its shard and its index inside that shard.
pub open spec fn rle_locate(runs: Seq<(u32, u32)>, idx: int) -> Option<(int, int)>
    decreases runs.len(),
{
    if runs.len() == 0 || idx < 0 {
        None
    } else {
        let count = runs[0].0 as int;
        let total = count * runs[0].1;
        if idx < total {
            Some((idx / count, idx % count))
        } else {
            match rle_locate(runs.drop_first(), idx - total) {
                Some((s, l)) => Some((s + runs[0].1, l)),
                None => None,
            }
        }
    }
}

/// Where item `idx` lies among consecutive shards of the given sizes.
pub open spec fn locate_in_sizes(sizes: Seq<nat>, idx: int) -> Option<(int, int)>
    decreases sizes.len(),
{
    if sizes.len() == 0 || idx < 0 {
        None
    } else if idx < sizes[0] {
        Some((0, idx))
    } else {
        match locate_in_sizes(sizes.drop_first(), idx - sizes[0]) {
            Some((s, l)) => Some((s + 1, l)),
            None => None,
        }
    }
}

/// The sum of a sequence of sizes.
pub open spec fn seq_sum(s: Seq<nat>) -> nat
    decreases s.len(),
{
    if s.len() == 0 {
        0
    } else {
        seq_sum(s.drop_last()) + s.last()
    }
}

/// The part of a full load that one shard fills.
#[derive(Debug, Clone, Copy, PartialEq, Eq, Structural)]
pub struct ShardJob {
    /// The index of the shard among the container's children.
    pub shard_index: usize,
    /// The index in the result of the shard's first item.
    pub start: usize,
    /// The number of items the shard holds.
    pub count: usize,
}

/// The jobs are one per shard, in order, each starting where the previous ends.
pub open spec fn jobs_match_sizes(jobs: Seq<ShardJob>, sizes: Seq<nat>) -> bool {
    &&& jobs.len() == sizes.len()
    &&& forall|j: int| #![trigger jobs[j]] 0 <= j < jobs.len() ==> {
        &&& jobs[j].shard_index == j
        &&& jobs[j].start == seq_sum(sizes.take(j))
        &&& jobs[j].count == sizes[j]
    }
}

/// The header of a vector's container payload: the total item count and the
/// table of runs, when the payload has at least 8 bytes and the table decodes.
pub open spec fn spec_vec_header(payload: Seq<u8>) -> Option<(u64, Seq<(u32, u32)>)> {
    if payload.len() < 8 {
        None
    } else {
        match parse_runs(payload.skip(8)) {
            Some((runs, _)) => Some((spec_u64_from_le_bytes(payload.subrange(0, 8)), runs)),
            None => None,
        }
    }
}

/// Reads the header of a vector's container payload: the total item count
/// (the first 8 bytes, little-endian) and the table of runs that follows.
/// A payload shorter than 8 bytes is a format error; a table that does not
/// decode is a serialization error.
pub fn parse_vec_header(payload: &[u8]) -> (r: Result<(u64, Vec<(u32, u32)>)>)
    ensures
        r is Ok <==> spec_vec_header(payload@) is Some,
        r matches Ok((t, runs)) ==> spec_vec_header(payload@) == Some((t, runs@)),
        payload@.len() < 8 ==> (r matches Err(e) && e is Format),
        payload@.len() >= 8 ==> (r matches Err(e) ==> e is Serialization),
{
    if payload.len() < 8 {
        return Err(ParcodeError::Format("Invalid container payload".to_string()));
    }
    let total = u64_from_le_bytes(&payload[0..8]);
    let runs_data = &payload[8..payload.len()];
    assert(runs_data@ =~= payload@.skip(8));
    match bincode_decode_runs(runs_data) {
        Some((runs, _)) => Ok((total, runs)),
        None => Err(ParcodeError::Serialization("Invalid shard run table".to_string())),
    }
}

/// Maps a global item index to the shard that holds it and the index inside
/// that shard. An index past the end of the table is a format error; so is a
/// shard index that does not fit in a `usize`.
pub fn resolve_rle_index(global_index: usize, runs: &[(u32, u32)]) -> (r: Result<(usize, usize)>)
    ensures
        r is Ok <==> (rle_locate(runs@, global_index as int) matches Some((s, l)) && s <= usize::MAX),
        r matches Ok((s, l)) ==> rle_locate(runs@, global_index as int) == Some((s as int, l as int)),
        r matches Err(e) ==> e is Format,
{
    let mut current_base: u128 = 0;
    let mut shard_base: u128 = 0;
    let mut i: usize = 0;
    while i < runs.len()
        invariant
            i <= runs@.len(),
            current_base <= global_index,
            shard_base <= i * 0x1_0000_0000,
            rle_locate(runs@, global_index as int) == match rle_locate(runs@.skip(i as int), global_index - current_base) {
                Some((s, l)) => Some((s + shard_base, l)),
                None => None,
            },
        decreases runs@.len() - i,
    {
        let (count32, repeat32) = runs[i];
        let count = count32 as u128;
        let repeat = repeat32 as u128;
        assert(count * repeat < 0x1_0000_0000_0000_0000) by (nonlinear_arith)
            requires
                count < 0x1_0000_0000,
                repeat < 0x1_0000_0000,
        ;
        let total_run = count * repeat;
        let ghost rest = runs@.skip(i as int);
        proof {
            assert(rest[0] == runs@[i as int]);
            assert(rest.drop_first() =~= runs@.skip(i + 1));
        }
        if (global_index as u128) < current_base + total_run {
            let offset = global_index as u128 - current_base;
            assert(count > 0) by (nonlinear_arith)
                requires
                    offset < total_run,
                    total_run == count * repeat,
            ;
            let s = shard_base + offset / count;
            let l = offset % count;
            if s > usize::MAX as u128 {
                return Err(ParcodeError::Format("Shard index exceeds usize".to_string()));
            }
            assert(l < count);
            return Ok((s as usize, l as usize));
        }
        current_base = current_base + total_run;
        shard_base = shard_base + repeat;
        i = i + 1;
    }
    assert(runs@.skip(i as int) =~= Seq::<(u32, u32)>::empty());
    Err(ParcodeError::Format("Index out of bounds".to_string()))
}

/// Adding the sizes of a run to a table adds that run's shards to its expansion.
proof fn lemma_expand_prefix(runs: Seq<(u32, u32)>, i: int)
    requires
        0 <= i < runs.len(),
    ensures
        expand_runs(runs.take(i + 1)) == expand_runs(runs.take(i)) + repeated(runs[i].0, runs[i].1 as nat),
{
    crate::visitor_impls::lemma_expand_runs_append(runs.take(i), seq![runs[i]]);
    assert(runs.take(i + 1) =~= runs.take(i) + seq![runs[i]]);
    crate::visitor_impls::lemma_expand_single(runs[i].0, runs[i].1);
}

/// The sum of a sequence with one more element.
proof fn lemma_sum_push(s: Seq<nat>, x: nat)
    ensures
        seq_sum(s.push(x)) == seq_sum(s) + x,
{
    assert(s.push(x).drop_last() =~= s);
}

/// The sums of the prefixes of a sequence grow with the prefix.
proof fn lemma_sum_prefix_mono(s: Seq<nat>, a: int, b: int)
    requires
        0 <= a <= b <= s.len(),
    ensures
        seq_sum(s.take(a)) <= seq_sum(s.take(b)),
    decreases b - a,
{
    if a < b {
        lemma_sum_prefix_mono(s, a, b - 1);
        assert(s.take(b) =~= s.take(b - 1).push(s[b - 1]));
        lemma_sum_push(s.take(b - 1), s[b - 1]);
    }
}

/// Turns a table of runs into the list of shards a full load reads: one per
/// shard, with the range of the result it fills. Fails with a format error
/// when the sizes add up past `usize::MAX` or to another total than
/// `total_items`.
pub fn plan_shard_jobs(total_items: u64, runs: &[(u32, u32)]) -> (r: Result<Vec<ShardJob>>)
    ensures
        r is Ok <==> seq_sum(expand_runs(runs@)) == total_items && total_items <= usize::MAX,
        r matches Ok(jobs) ==> jobs_match_sizes(jobs@, expand_runs(runs@)),
        r matches Err(e) ==> e is Format,
        total_items <= usize::MAX && seq_sum(expand_runs(runs@)) <= total_items && seq_sum(expand_runs(runs@))
            != total_items ==> (r matches Err(e) && e matches ParcodeError::Format(s) && s@ == "Metadata mismatch: Header="@
            + spec_decimal(total_items as nat) + ", RLE="@ + spec_decimal(seq_sum(expand_runs(runs@)))),
{
    if total_items > usize::MAX as u64 {
        proof {
            assert(!(seq_sum(expand_runs(runs@)) == total_items && total_items <= usize::MAX));
        }
        return Err(ParcodeError::Format("total_items exceeds usize".to_string()));
    }
    let total = total_items as usize;
    let mut jobs: Vec<ShardJob> = Vec::new();
    let mut current_global: usize = 0;
    let mut i: usize = 0;
    while i < runs.len()
        invariant
            i <= runs@.len(),
            jobs_match_sizes(jobs@, expand_runs(runs@.take(i as int))),
            current_global == seq_sum(expand_runs(runs@.take(i as int))),
        decreases runs@.len() - i,
    {
        let (count32, repeat32) = runs[i];
        let count = count32 as usize;
        let ghost before = expand_runs(runs@.take(i as int));
        let mut t: u32 = 0;
        while t < repeat32
            invariant
                i < runs@.len(),
                runs@[i as int] == (count32, repeat32),
                before == expand_runs(runs@.take(i as int)),
                count == count32,
                t <= repeat32,
                jobs_match_sizes(jobs@, before + repeated(count32, t as nat)),
                current_global == seq_sum(before + repeated(count32, t as nat)),
            decreases repeat32 - t,
        {
            let ghost sizes = before + repeated(count32, t as nat);
            let ghost next = before + repeated(count32, (t + 1) as nat);
            proof {
                assert(next =~= sizes.push(count32 as nat));
                lemma_sum_push(sizes, count32 as nat);
            }
            let end = match current_global.checked_add(count) {
                Some(e) => e,
                None => {
                    proof {
                        let full = expand_runs(runs@);
                        lemma_expand_prefix(runs@, i as int);
                        crate::visitor_impls::lemma_expand_runs_append(runs@.take(i + 1), runs@.skip(i + 1));
                        assert(runs@.take(i + 1) + runs@.skip(i + 1) =~= runs@);
                        assert(full == before + repeated(count32, repeat32 as nat) + expand_runs(runs@.skip(i + 1)));
                        assert(full.take(next.len() as int) =~= next);
                        lemma_sum_prefix_mono(full, next.len() as int, full.len() as int);
                        assert(full.take(full.len() as int) =~= full);
                    }
                    return Err(ParcodeError::Format("Integer overflow in RLE".to_string()));
                },
            };
            jobs.push(ShardJob { shard_index: jobs.len(), start: current_global, count });
            proof {
                assert(next.take(sizes.len() as int) =~= sizes);
                assert forall|j: int| #![trigger jobs@[j]] 0 <= j < jobs@.len() implies {
                    &&& jobs@[j].shard_index == j
                    &&& jobs@[j].start == seq_sum(next.take(j))
                    &&& jobs@[j].count == next[j]
                } by {
                    if j < sizes.len() {
                        assert(next.take(j) =~= sizes.take(j));
                    }
                }
            }
            current_global = end;
            t = t + 1;
        }
        proof {
            lemma_expand_prefix(runs@, i as int);
        }
        i = i + 1;
    }
    assert(runs@.take(i as int) =~= runs@);
    if current_global != total {
        let mut msg = String::from_str("Metadata mismatch: Header=");
        let h = decimal(total_items);
        msg.append(h.as_str());
        msg.append(", RLE=");
        let c = decimal(current_global as u64);
        msg.append(c.as_str());
        return Err(ParcodeError::Format(msg));
    }
    Ok(jobs)
}

/// The items of a sequence of parts, one part after the other.
pub open spec fn join_parts<T>(parts: Seq<Seq<T>>) -> Seq<T>
    decreases parts.len(),
{
    if parts.len() == 0 {
        Seq::empty()
    } else {
        join_parts(parts.drop_last()) + parts.last()
    }
}

/// The items of each vector of a sequence.
pub open spec fn part_views<T>(parts: Seq<Vec<T>>) -> Seq<Seq<T>> {
    parts.map_values(|v: Vec<T>| v@)
}

/// The first part, from `from` on, whose length is not the count of its job.
pub open spec fn first_count_mismatch<T>(jobs: Seq<ShardJob>, parts: Seq<Vec<T>>, from: int) -> Option<int>
    decreases jobs.len() - from,
{
    if from < 0 || from >= jobs.len() {
        None
    } else if parts[from]@.len() != jobs[from].count {
        Some(from)
    } else {
        first_count_mismatch(jobs, parts, from + 1)
    }
}

/// Joins the items decoded from the shards of a full load, in job order.
/// Each shard must give exactly its job's count of items: the first one that
/// does not is a format error naming it, the count it should give and the
/// count it gave.
pub fn assemble_shards<T>(jobs: &[ShardJob], parts: Vec<Vec<T>>) -> (r: Result<Vec<T>>)
    requires
        parts@.len() == jobs@.len(),
    ensures
        r is Ok <==> forall|j: int| 0 <= j < jobs@.len() ==> (#[trigger] parts@[j])@.len() == jobs@[j].count,
        r matches Ok(v) ==> v@ == join_parts(part_views(parts@)),
        r matches Err(e) ==> first_count_mismatch(jobs@, parts@, 0) matches Some(j) && e matches ParcodeError::Format(s)
            && s@ == "Shard "@ + spec_decimal(jobs@[j].shard_index as nat) + " items mismatch: expected "@
            + spec_decimal(jobs@[j].count as nat) + ", got "@ + spec_decimal(parts@[j]@.len()),
{
    let n = jobs.len();
    let mut i: usize = 0;
    while i < n
        invariant
            n == jobs@.len(),
            parts@.len() == n,
            i <= n,
            forall|j: int| 0 <= j < i ==> (#[trigger] parts@[j])@.len() == jobs@[j].count,
            first_count_mismatch(jobs@, parts@, 0) == first_count_mismatch(jobs@, parts@, i as int),
        decreases n - i,
    {
        if parts[i].len() != jobs[i].count {
            let mut msg = String::from_str("Shard ");
            let a = decimal(jobs[i].shard_index as u64);
            msg.append(a.as_str());
            msg.append(" items mismatch: expected ");
            let b = decimal(jobs[i].count as u64);
            msg.append(b.as_str());
            msg.append(", got ");
            let c = decimal(parts[i].len() as u64);
            msg.append(c.as_str());
            return Err(ParcodeError::Format(msg));
        }
        i = i + 1;
    }
    let ghost orig = parts@;
    let mut parts = parts;
    let mut out: Vec<T> = Vec::new();
    let mut i: usize = 0;
    assert(orig.take(0) =~= Seq::<Vec<T>>::empty());
    assert(part_views(orig.take(0)) =~= Seq::<Seq<T>>::empty());
    while i < n
        invariant
            n == orig.len(),
            parts@.len() == n,
            i <= n,
            forall|j: int| i <= j < n ==> (#[trigger] parts@[j])@ == orig[j]@,
            out@ == join_parts(part_views(orig.take(i as int))),
        decreases n - i,
    {
        let mut taken: Vec<T> = Vec::new();
        std::mem::swap(&mut parts[i], &mut taken);
        assert(taken@ == orig[i as int]@);
        out.append(&mut taken);
        proof {
            let pv = part_views(orig.take(i + 1));
            assert(pv.drop_last() =~= part_views(orig.take(i as int)));
            assert(pv.last() == orig[i as int]@);
        }
        i = i + 1;
        assert(forall|j: int| i <= j < n ==> (#[trigger] parts@[j])@ == orig[j]@);
    }
    assert(orig.take(n as int) =~= orig);
    Ok(out)
}

/// How a full load of a vector proceeds.
pub enum CollectionPlan {
    /// The vector is empty.
    Empty,
    /// The items are stored inline in the container payload, which is given.
    Inline(Vec<u8>),
    /// The items are stored in shards; each job says which shard fills which
    /// range of a result of `total_items` items.
    Shards { total_items: usize, jobs: Vec<ShardJob> },
}

/// Where item `index` lies, by the table of runs of a container payload `x`.
pub open spec fn item_location(x: Seq<u8>, index: int) -> Option<(int, int)> {
    match spec_vec_header(x) {
        Some((_, runs)) => rle_locate(runs, index),
        None => None,
    }
}

/// Reads the item count that a shard payload starts with (a variable-length
/// `u64`) and the number of bytes it takes. Bytes that do not start with such
/// a count are a serialization error.
pub fn read_shard_len(payload: &[u8]) -> (r: Result<(u64, usize)>)
    ensures
        r is Ok <==> parse_varint_u64(payload@) is Some,
        r matches Ok((v, n)) ==> parse_varint_u64(payload@) == Some((v, n as nat)),
        r matches Err(e) ==> e is Serialization,
{
    match bincode_decode_u64(payload) {
        Some((v, n)) => Ok((v, n)),
        None => Err(ParcodeError::Serialization("Invalid shard length".to_string())),
    }
}

/// What a streaming iteration does next.
#[derive(Debug, Clone, Copy, PartialEq, Eq, Structural)]
pub enum IterStep {
    /// All items were yielded.
    Done,
    /// Yield the next item of the loaded shard.
    Buffered,
    /// Load the shard with this index; call `shard_loaded` once it is loaded.
    LoadShard(usize),
    /// Items remain but there is no shard left to load: the container is inconsistent.
    OutOfShards,
}

/// The position of a streaming iteration over the shards of a vector.
#[derive(Debug, Clone, Copy)]
pub struct ShardCursor {
    total_items: usize,
    yielded: usize,
    next_shard: usize,
    shard_count: usize,
}

impl ShardCursor {
    /// The number of items of the vector.
    pub closed spec fn spec_total(&self) -> usize {
        self.total_items
    }

    /// The number of items yielded so far.
    pub closed spec fn spec_yielded(&self) -> usize {
        self.yielded
    }

    /// The index of the next shard to load.
    pub closed spec fn spec_next_shard(&self) -> usize {
        self.next_shard
    }

    /// The number of shards of the container.
    pub closed spec fn spec_shard_count(&self) -> usize {
        self.shard_count
    }

    #[verifier::type_invariant]
    closed spec fn inv(&self) -> bool {
        &&& self.yielded <= self.total_items
        &&& self.next_shard <= self.shard_count
    }

    /// A cursor at the start of a vector of `total_items` items in `shard_count` shards.
    pub fn new(total_items: usize, shard_count: usize) -> (r: Self)
        ensures
            r.spec_total() == total_items,
            r.spec_yielded() == 0,
            r.spec_next_shard() == 0,
            r.spec_shard_count() == shard_count,
    {
        ShardCursor { total_items, yielded: 0, next_shard: 0, shard_count }
    }

    /// The number of items still to come.
    pub fn remaining(&self) -> (r: usize)
        ensures
            self.spec_yielded() <= self.spec_total(),
            r == self.spec_total() - self.spec_yielded(),
    {
        proof {
            use_type_invariant(self);
        }
        self.total_items - self.yielded
    }

    /// Decides the next step. `has_buffered` tells whether an item of the
    /// loaded shard is waiting. Yielding a buffered item counts it.
    pub fn next_step(&mut self, has_buffered: bool) -> (r: IterStep)
        ensures
            old(self).spec_yielded() >= old(self).spec_total() ==> r == IterStep::Done && *final(self) == *old(self),
            old(self).spec_yielded() < old(self).spec_total() && has_buffered ==> r == IterStep::Buffered
                && final(self).spec_yielded() == old(self).spec_yielded() + 1
                && final(self).spec_next_shard() == old(self).spec_next_shard()
                && final(self).spec_total() == old(self).spec_total()
                && final(self).spec_shard_count() == old(self).spec_shard_count(),
            old(self).spec_yielded() < old(self).spec_total() && !has_buffered ==> *final(self) == *old(self) && (
            if old(self).spec_next_shard() < old(self).spec_shard_count() {
                r == IterStep::LoadShard(old(self).spec_next_shard())
            } else {
                r == IterStep::OutOfShards
            }),
    {
        proof {
            use_type_invariant(&*self);
        }
        if self.yielded >= self.total_items {
            return IterStep::Done;
        }
        if has_buffered {
            self.yielded = self.yielded + 1;
            return IterStep::Buffered;
        }
        if self.next_shard >= self.shard_count {
            return IterStep::OutOfShards;
        }
        IterStep::LoadShard(self.next_shard)
    }

    /// Records that the shard asked for was loaded.
    pub fn shard_loaded(&mut self)
        requires
            old(self).spec_next_shard() < old(self).spec_shard_count(),
        ensures
            final(self).spec_next_shard() == old(self).spec_next_shard() + 1,
            final(self).spec_yielded() == old(self).spec_yielded(),
            final(self).spec_total() == old(self).spec_total(),
            final(self).spec_shard_count() == old(self).spec_shard_count(),
    {
        proof {
            use_type_invariant(&*self);
        }
        self.next_shard = self.next_shard + 1;
    }
}

impl<'a> ChunkNode<'a> {
    /// Starts a streaming iteration over this vector container: an empty
    /// payload without children is an empty vector; otherwise the payload must
    /// hold the item count (which must fit in a `usize`) and a table of runs
    /// that decodes.
    pub fn iter_cursor(&self) -> (r: Result<ShardCursor>)
        ensures
            forall|x: Seq<u8>| #[trigger] self.holds(x) ==> {
                &&& (x.len() == 0 && self.spec_child_count() == 0 ==> (r matches Ok(c) && c.spec_total() == 0))
                &&& (!(x.len() == 0 && self.spec_child_count() == 0) ==> {
                    &&& (r is Ok <==> (spec_vec_header(x) matches Some((t, _)) && t <= usize::MAX))
                    &&& (r matches Ok(c) ==> (spec_vec_header(x) matches Some((t, _)) && c.spec_total() == t))
                    &&& (x.len() < 8 ==> (r matches Err(e) && e is Format))
                })
            },
            r matches Ok(c) ==> c.spec_yielded() == 0 && c.spec_next_shard() == 0 && c.spec_shard_count()
                == self.spec_child_count(),
            r matches Err(e) ==> e is Format || e is Serialization || e is Compression,
    {
        let payload = self.read_raw()?;
        let count = self.child_count() as usize;
        if payload.len() == 0 && count == 0 {
            return Ok(ShardCursor::new(0, count));
        }
        let (total, _) = parse_vec_header(payload.as_slice())?;
        if total > usize::MAX as u64 {
            return Err(ParcodeError::Format("total_len exceeds usize range".to_string()));
        }
        Ok(ShardCursor::new(total as usize, count))
    }

    /// Locates the shard holding item `index` of this vector container and the
    /// item's index in that shard.
    pub fn locate_shard_item(&self, index: usize) -> (r: Result<(Self, usize)>)
        ensures
            forall|x: Seq<u8>| #[trigger] self.holds(x) ==> {
                &&& (r is Ok <==> (item_location(x, index as int) matches Some((s, l))
                    && s < self.spec_child_count()
                    && spec_chunk_layout(self.file().bytes(), self.spec_child(s).offset, self.spec_child(s).length) is Some))
                &&& (r matches Ok((c, l)) ==> (item_location(x, index as int) matches Some((s, l2))
                    && l == l2
                    && c.is_chunk_of(&self.file(), self.spec_child(s).offset, self.spec_child(s).length)))
            },
            r matches Err(e) ==> e is Format || e is Serialization || e is Compression,
    {
        let payload = self.read_raw()?;
        let (_, runs) = parse_vec_header(payload.as_slice())?;
        let (shard_idx, local_idx) = resolve_rle_index(index, runs.as_slice())?;
        let shard = self.get_child_by_index(shard_idx)?;
        Ok((shard, local_idx))
    }

    /// The plan of a full load of this vector container: empty for an empty
    /// payload, inline for a payload shorter than 8 bytes, otherwise one job
    /// per shard as the header's table of runs describes, checked against the
    /// header's total.
    pub fn collection_plan(&self) -> (r: Result<CollectionPlan>)
        ensures
            forall|x: Seq<u8>| #[trigger] self.holds(x) ==> {
                &&& (x.len() == 0 ==> r matches Ok(CollectionPlan::Empty))
                &&& (0 < x.len() < 8 ==> (r matches Ok(CollectionPlan::Inline(p)) && p@ == x))
                &&& (x.len() >= 8 ==> match spec_vec_header(x) {
                    None => (r matches Err(e) && (e is Serialization || e is Format)),
                    Some((total, runs)) => {
                        &&& (r is Ok <==> seq_sum(expand_runs(runs)) == total && total <= usize::MAX)
                        &&& (r matches Ok(CollectionPlan::Empty) ==> total == 0 && expand_runs(runs).len() == 0)
                        &&& (r matches Ok(CollectionPlan::Shards { total_items, jobs }) ==> total_items == total
                            && jobs_match_sizes(jobs@, expand_runs(runs)) && jobs@.len() > 0)
                        &&& !(r matches Ok(CollectionPlan::Inline(_)))
                        &&& (r matches Err(e) ==> e is Format)
                    },
                })
            },
            r matches Err(e) ==> e is Format || e is Serialization || e is Compression,
    {
        let payload = self.read_raw()?;
        if payload.len() == 0 {
            return Ok(CollectionPlan::Empty);
        }
        if payload.len() < 8 {
            return Ok(CollectionPlan::Inline(payload));
        }
        let (total, runs) = parse_vec_header(payload.as_slice())?;
        let jobs = plan_shard_jobs(total, runs.as_slice())?;
        if jobs.len() == 0 {
            proof {
                assert(seq_sum(expand_runs(runs@)) == 0) by {
                    assert(expand_runs(runs@).len() == 0);
                }
            }
            return Ok(CollectionPlan::Empty);
        }
        Ok(CollectionPlan::Shards { total_items: total as usize, jobs })
    }
}

/// Locating an item among `r` shards of `c` items followed by other shards.
proof fn lemma_locate_repeated(c: u32, r: nat, tail: Seq<nat>, idx: int)
    requires
        idx >= 0,
    ensures
        locate_in_sizes(repeated(c, r) + tail, idx) == (if idx < c * r {
            Some((idx / (c as int), idx % (c as int)))
        } else {
            match locate_in_sizes(tail, idx - c * r) {
                Some((s, l)) => Some((s + r, l)),
                None => None,
            }
        }),
    decreases r,
{
    let sq = repeated(c, r) + tail;
    if r == 0 {
        assert(sq =~= tail);
        assert(c * r == 0) by (nonlinear_arith) requires r == 0;
    } else {
        let rest = repeated(c, (r - 1) as nat) + tail;
        assert(sq.drop_first() =~= rest);
        assert(sq[0] == c as nat);
        assert(c * r == c + c * (r - 1)) by (nonlinear_arith);
        if idx < c {
            assert(idx / (c as int) == 0 && idx % (c as int) == idx) by (nonlinear_arith)
                requires
                    0 <= idx < c,
            ;
            assert(c * r >= c) by (nonlinear_arith) requires r >= 1;
        } else {
            lemma_locate_repeated(c, (r - 1) as nat, tail, idx - c);
            if idx < c * r {
                assert(c > 0) by (nonlinear_arith)
                    requires
                        0 <= idx < c * r,
                ;
                assert((idx - c) / (c as int) + 1 == idx / (c as int) && (idx - c) % (c as int) == idx % (c as int))
                    by (nonlinear_arith)
                    requires
                        c <= idx,
                        c > 0,
                ;
            }
        }
    }
}

/// Locating by a table of runs is locating among the shards it describes.
proof fn lemma_rle_locate_expand(runs: Seq<(u32, u32)>, idx: int)
    requires
        idx >= 0,
    ensures
        rle_locate(runs, idx) == locate_in_sizes(expand_runs(runs), idx),
    decreases runs.len(),
{
    if runs.len() > 0 {
        let (c, r) = runs[0];
        assert(expand_runs(runs) == repeated(c, r as nat) + expand_runs(runs.drop_first()));
        lemma_locate_repeated(c, r as nat, expand_runs(runs.drop_first()), idx);
        if idx >= c * r {
            lemma_rle_locate_expand(runs.drop_first(), idx - c * r);
        }
    }
}

/// Cutting `n` items every `k`, item `i` lies in shard `i / k` at index `i % k`.
proof fn lemma_locate_shard_sizes(n: nat, k: nat, i: int)
    requires
        k >= 1,
        0 <= i < n,
    ensures
        locate_in_sizes(shard_sizes(n, k), i) == Some((i / (k as int), i % (k as int))),
    decreases n,
{
    let sizes = shard_sizes(n, k);
    if n <= k {
        assert(sizes == seq![n]);
        assert(i / (k as int) == 0 && i % (k as int) == i) by (nonlinear_arith)
            requires
                0 <= i < k,
        ;
    } else {
        let rest = shard_sizes((n - k) as nat, k);
        assert(sizes == seq![k] + rest);
        assert(sizes.drop_first() =~= rest);
        if i < k {
            assert(i / (k as int) == 0 && i % (k as int) == i) by (nonlinear_arith)
                requires
                    0 <= i < k,
            ;
        } else {
            lemma_locate_shard_sizes((n - k) as nat, k, i - k);
            assert((i - k) / (k as int) + 1 == i / (k as int) && (i - k) % (k as int) == i % (k as int))
                by (nonlinear_arith)
                requires
                    k <= i,
                    k > 0,
            ;
        }
    }
}

/// A located item lies inside its shard.
proof fn lemma_locate_in_bounds(sizes: Seq<nat>, idx: int)
    requires
        locate_in_sizes(sizes, idx) is Some,
    ensures
        locate_in_sizes(sizes, idx) matches Some((s, l)) && 0 <= s < sizes.len() && 0 <= l < sizes[s],
    decreases sizes.len(),
{
    if idx >= sizes[0] {
        lemma_locate_in_bounds(sizes.drop_first(), idx - sizes[0]);
    }
}

/// Every shard of a cut holds between 1 and `k` items.
proof fn lemma_shard_sizes_bounded(n: nat, k: nat)
    requires
        k >= 1,
    ensures
        forall|j: int| 0 <= j < shard_sizes(n, k).len() ==> 1 <= #[trigger] shard_sizes(n, k)[j] <= k,
    decreases n,
{
    if n > k {
        lemma_shard_sizes_bounded((n - k) as nat, k);
        assert(shard_sizes(n, k) == seq![k] + shard_sizes((n - k) as nat, k));
    }
}

/// The sum of a sequence with one more element in front.
proof fn lemma_sum_cons(a: nat, s: Seq<nat>)
    ensures
        seq_sum(seq![a] + s) == a + seq_sum(s),
    decreases s.len(),
{
    if s.len() == 0 {
        assert(seq![a] + s =~= seq![a]);
        assert(seq![a].drop_last() =~= Seq::<nat>::empty());
    } else {
        assert((seq![a] + s).drop_last() =~= seq![a] + s.drop_last());
        lemma_sum_cons(a, s.drop_last());
    }
}

/// The shards of a cut hold all the items.
proof fn lemma_shard_sizes_sum(n: nat, k: nat)
    requires
        k >= 1,
    ensures
        seq_sum(shard_sizes(n, k)) == n,
    decreases n,
{
    if n == 0 {
    } else if n <= k {
        assert(shard_sizes(n, k) == seq![n]);
        lemma_sum_cons(n, Seq::empty());
        assert(seq![n] + Seq::<nat>::empty() =~= seq![n]);
    } else {
        lemma_shard_sizes_sum((n - k) as nat, k);
        lemma_sum_cons(k, shard_sizes((n - k) as nat, k));
    }
}

/// The stored sizes are the shard sizes when a shard size fits in a `u32`.
proof fn lemma_stored_sizes_exact(n: nat, k: nat)
    requires
        1 <= k <= u32::MAX,
    ensures
        crate::visitor_impls::stored_sizes(n, k) == shard_sizes(n, k),
{
    lemma_shard_sizes_bounded(n, k);
    assert(crate::visitor_impls::stored_sizes(n, k) =~= shard_sizes(n, k));
}

/// In the table of runs that the writer builds for `n` items cut every `k`
/// items, item `i` is found in shard `i / k` at index `i % k`, and that shard
/// exists and holds that index.
pub proof fn lemma_built_runs_locate(runs: Seq<(u32, u32)>, n: nat, k: nat, i: int)
    requires
        1 <= k <= u32::MAX,
        expand_runs(runs) == crate::visitor_impls::stored_sizes(n, k),
        0 <= i < n,
    ensures
        rle_locate(runs, i) == Some((i / (k as int), i % (k as int))),
        i / (k as int) < expand_runs(runs).len(),
        i % (k as int) < expand_runs(runs)[i / (k as int)],
{
    lemma_stored_sizes_exact(n, k);
    lemma_rle_locate_expand(runs, i);
    lemma_locate_shard_sizes(n, k, i);
    lemma_locate_in_bounds(expand_runs(runs), i);
}

/// The shards that the writer's table of runs describes hold exactly the `n`
/// items it was built for, so a full load plans exactly `n` items.
pub proof fn lemma_built_runs_total(runs: Seq<(u32, u32)>, n: nat, k: nat)
    requires
        1 <= k <= u32::MAX,
        expand_runs(runs) == crate::visitor_impls::stored_sizes(n, k),
    ensures
        seq_sum(expand_runs(runs)) == n,
{
    lemma_stored_sizes_exact(n, k);
    lemma_shard_sizes_sum(n, k);
}

/// The container payload written for a vector of `n` items cut every `k`
/// reads back as written: its header gives the item count and the table of
/// runs, its length is `n`, and it locates item `i` at position `i % k` of
/// shard `i / k`.
pub proof fn lemma_container_locates(runs: Seq<crate::visitor_impls::ShardRun>, n: u64, k: nat, i: int)
    requires
        1 <= k <= u32::MAX,
        expand_runs(crate::visitor_impls::runs_pairs(runs)) == crate::visitor_impls::stored_sizes(n as nat, k),
        runs.len() <= usize::MAX,
        0 <= i < n,
    ensures
        ({
            let x = crate::visitor_impls::container_payload(n, runs);
            &&& spec_vec_header(x) == Some((n, crate::visitor_impls::runs_pairs(runs)))
            &&& crate::reader::container_len(x) == n
            &&& item_location(x, i) == Some((i / (k as int), i % (k as int)))
        }),
{
    lemma_auto_spec_u64_to_from_le_bytes();
    let pairs = crate::visitor_impls::runs_pairs(runs);
    let x = crate::visitor_impls::container_payload(n, runs);
    let enc = crate::codec::encode_runs(pairs);
    crate::codec::lemma_runs_roundtrip(pairs, Seq::empty());
    assert(enc + Seq::<u8>::empty() =~= enc);
    assert(x.subrange(0, 8) =~= spec_u64_to_le_bytes(n));
    assert(x.skip(8) =~= enc);
    lemma_built_runs_locate(pairs, n as nat, k, i);
}

} // verus!
