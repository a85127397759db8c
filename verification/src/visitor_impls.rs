//! The sharding strategy of vectors.
//!
//! A vector is written as a container chunk, whose payload holds the total
//! item count and a run-length encoded table of shard sizes, and one child
//! chunk per shard. The shard size aims at about 128 KB per chunk, at enough
//! chunks to keep every core busy, and at no less than 4 KB per chunk.

use crate::codec::{bincode_encode_runs, encode_runs};
use crate::error::{ParcodeError, Result};
use crate::format::ChildRef;
use crate::graph::{same_node_except_children, ChunkId, JobConfig, Node, SerializationJob, TaskGraph};
use vstd::bytes::*;
use vstd::prelude::*;

verus! {

broadcast use vstd::seq_lib::group_seq_properties;

/// Ideal size of a chunk on disk (128 KB).
pub const TARGET_SHARD_SIZE_BYTES: u64 = 131072;

/// Minimum size of a chunk (4 KB).
pub const MIN_SHARD_SIZE_BYTES: u64 = 4096;

/// Number of tasks wanted per core.
pub const TASKS_PER_CORE: usize = 4;

/// A run of `repeat` consecutive shards holding `item_count` items each.
#[derive(Debug, Clone, Copy, PartialEq, Eq, Structural)]
pub struct ShardRun {
    /// Items per shard in this run.
    pub item_count: u32,
    /// Number of consecutive shards of this size.
    pub repeat: u32,
}

/// The runs as pairs `(item_count, repeat)`.
pub open spec fn runs_pairs(runs: Seq<ShardRun>) -> Seq<(u32, u32)> {
    runs.map_values(|r: ShardRun| (r.item_count, r.repeat))
}

/// The larger of two integers.
pub open spec fn max_int(a: int, b: int) -> int {
    if a >= b { a } else { b }
}

/// The smaller of two integers.
pub open spec fn min_int(a: int, b: int) -> int {
    if a <= b { a } else { b }
}

/// The average encoded size of an item: measured on the sample when that
/// measure is positive, otherwise the in-memory size; at least 1.
pub open spec fn spec_avg_item_size(total_len: int, sample_size_bytes: int, item_size: int) -> int {
    let sample_count = min_int(total_len, 8);
    if sample_size_bytes > 0 {
        max_int(sample_size_bytes / sample_count, 1)
    } else {
        max_int(item_size, 1)
    }
}

/// The number of items per shard for a vector of `total_len` items.
pub open spec fn spec_items_per_shard(total_len: int, sample_size_bytes: int, item_size: int, num_cpus: int) -> int {
    if total_len == 0 {
        1
    } else {
        let avg = spec_avg_item_size(total_len, sample_size_bytes, item_size);
        let count_by_io = max_int(TARGET_SHARD_SIZE_BYTES as int / avg, 1);
        let count_by_cpu = max_int(total_len / (num_cpus * TASKS_PER_CORE as int), 1);
        let candidate = min_int(count_by_io, count_by_cpu);
        if candidate * avg < MIN_SHARD_SIZE_BYTES as int {
            max_int(MIN_SHARD_SIZE_BYTES as int / avg, 1)
        } else {
            candidate
        }
    }
}

/// Chooses how many items each shard of a vector holds.
///
/// * `total_len`: the number of items;
/// * `sample_size_bytes`: the encoded size of the first `min(total_len, 8)` items (0 if unknown);
/// * `item_size`: the in-memory size of one item;
/// * `num_cpus`: the available parallelism.
pub fn items_per_shard(total_len: usize, sample_size_bytes: u64, item_size: u64, num_cpus: usize) -> (r: usize)
    requires
        1 <= num_cpus <= usize::MAX / 4,
    ensures
        r == spec_items_per_shard(total_len as int, sample_size_bytes as int, item_size as int, num_cpus as int),
        r >= 1,
{
    if total_len == 0 {
        return 1;
    }
    let sample_count: u64 = if total_len < 8 { total_len as u64 } else { 8 };
    let avg_item_size: u64 = if sample_size_bytes > 0 {
        let a = sample_size_bytes / sample_count;
        if a > 1 { a } else { 1 }
    } else {
        if item_size > 1 { item_size } else { 1 }
    };
    let io = TARGET_SHARD_SIZE_BYTES / avg_item_size;
    let count_by_io: u64 = if io > 1 { io } else { 1 };
    let target_parallel_chunks = num_cpus * TASKS_PER_CORE;
    let cpu = total_len / target_parallel_chunks;
    let count_by_cpu: usize = if cpu > 1 { cpu } else { 1 };
    let candidate: usize = if (count_by_io as u128) < (count_by_cpu as u128) {
        count_by_io as usize
    } else {
        count_by_cpu
    };
    assert(candidate <= count_by_io);
    assert(count_by_io * avg_item_size <= TARGET_SHARD_SIZE_BYTES || count_by_io == 1) by (nonlinear_arith)
        requires
            count_by_io == (if io > 1 { io } else { 1 }),
            io == TARGET_SHARD_SIZE_BYTES / avg_item_size,
            avg_item_size >= 1,
    ;
    assert((candidate as u64) * avg_item_size <= count_by_io * avg_item_size) by (nonlinear_arith)
        requires
            candidate <= count_by_io,
    ;
    let estimated_chunk_size: u128 = (candidate as u128) * (avg_item_size as u128);
    if estimated_chunk_size < MIN_SHARD_SIZE_BYTES as u128 {
        let m = MIN_SHARD_SIZE_BYTES / avg_item_size;
        if m > 1 { m as usize } else { 1 }
    } else {
        candidate
    }
}

/// When a sample was measured, the shard size follows the measured average
/// encoded size (the sample's size over the number of sampled items, at least
/// 1), whatever the in-memory size of an item: two item sizes give the same
/// number of items per shard.
pub proof fn lemma_sample_decides_shard_size(
    total_len: int,
    sample_size_bytes: int,
    item_size_a: int,
    item_size_b: int,
    num_cpus: int,
)
    requires
        total_len > 0,
        sample_size_bytes > 0,
    ensures
        spec_avg_item_size(total_len, sample_size_bytes, item_size_a) == if sample_size_bytes / (if total_len < 8 {
            total_len
        } else {
            8
        }) >= 1 {
            sample_size_bytes / (if total_len < 8 {
                total_len
            } else {
                8
            })
        } else {
            1
        },
        spec_items_per_shard(total_len, sample_size_bytes, item_size_a, num_cpus) == spec_items_per_shard(
            total_len,
            sample_size_bytes,
            item_size_b,
            num_cpus,
        ),
{
}

/// The sizes of the shards of a vector of `total_len` items cut every `k` items:
/// full shards of `k` items and a last, shorter one when `k` does not divide `total_len`.
pub open spec fn shard_sizes(total_len: nat, k: nat) -> Seq<nat>
    decreases total_len,
{
    if k == 0 || total_len == 0 {
        Seq::empty()
    } else if total_len <= k {
        seq![total_len]
    } else {
        seq![k] + shard_sizes((total_len - k) as nat, k)
    }
}

/// The shard sizes that a table of runs describes, in order.
pub open spec fn expand_runs(runs: Seq<(u32, u32)>) -> Seq<nat>
    decreases runs.len(),
{
    if runs.len() == 0 {
        Seq::empty()
    } else {
        Seq::new(runs[0].1 as nat, |i: int| runs[0].0 as nat) + expand_runs(runs.drop_first())
    }
}

/// The shard sizes as stored in a table of runs: each size taken as a `u32`.
pub open spec fn stored_sizes(total_len: nat, k: nat) -> Seq<nat> {
    shard_sizes(total_len, k).map_values(|s: nat| (s as u32) as nat)
}

/// A table of runs in canonical form: every run holds at least one shard and
/// neighbouring runs have different shard sizes.
pub open spec fn runs_canonical(runs: Seq<(u32, u32)>) -> bool {
    &&& forall|i: int| 0 <= i < runs.len() ==> #[trigger] runs[i].1 >= 1
    &&& forall|i: int| 0 <= i < runs.len() - 1 ==> #[trigger] runs[i].0 != runs[i + 1].0
}

/// `n` shards of `c` items each.
pub open spec fn repeated(c: u32, n: nat) -> Seq<nat> {
    Seq::new(n, |i: int| c as nat)
}

/// Expanding a concatenation of tables expands each table in turn.
pub proof fn lemma_expand_runs_append(a: Seq<(u32, u32)>, b: Seq<(u32, u32)>)
    ensures
        expand_runs(a + b) == expand_runs(a) + expand_runs(b),
    decreases a.len(),
{
    if a.len() == 0 {
        assert(a + b =~= b);
    } else {
        assert((a + b).drop_first() =~= a.drop_first() + b);
        lemma_expand_runs_append(a.drop_first(), b);
        assert(expand_runs(a + b) =~= expand_runs(a) + expand_runs(b));
    }
}

/// A table of one run expands to that run's shards.
pub proof fn lemma_expand_single(c: u32, n: u32)
    ensures
        expand_runs(seq![(c, n)]) == repeated(c, n as nat),
{
    let s = seq![(c, n)];
    assert(s.drop_first() =~= Seq::<(u32, u32)>::empty());
    assert(expand_runs(s.drop_first()) == Seq::<nat>::empty());
    assert(expand_runs(s) == Seq::new(n as nat, |i: int| c as nat) + expand_runs(s.drop_first()));
    assert(expand_runs(s) =~= repeated(c, n as nat));
}

/// Builds the run-length table of the shards of a vector of `total_len` items
/// cut every `k` items: runs of consecutive shards of equal size, in order.
pub fn build_shard_runs(total_len: usize, k: usize) -> (r: Vec<ShardRun>)
    requires
        k >= 1,
        total_len / k < u32::MAX,
    ensures
        expand_runs(runs_pairs(r@)) == stored_sizes(total_len as nat, k as nat),
        runs_canonical(runs_pairs(r@)),
{
    let mut runs: Vec<ShardRun> = Vec::new();
    let mut start: usize = 0;
    let mut cur_count: u32 = 0;
    let mut cur_repeat: u32 = 0;
    let ghost mut done: Seq<nat> = Seq::empty();
    let ghost n = total_len as nat;
    let ghost kk = k as nat;
    while start < total_len
        invariant
            k >= 1,
            total_len / k < u32::MAX,
            n == total_len,
            kk == k,
            start <= total_len,
            shard_sizes(n, kk) == done + shard_sizes((n - start) as nat, kk),
            start < total_len ==> start == done.len() * k,
            cur_repeat <= done.len(),
            (cur_repeat == 0) == (done.len() == 0),
            expand_runs(runs_pairs(runs@)) + repeated(cur_count, cur_repeat as nat)
                == done.map_values(|s: nat| (s as u32) as nat),
            runs_canonical(runs_pairs(runs@)),
            runs@.len() > 0 ==> cur_repeat >= 1 && runs@.last().item_count != cur_count,
        decreases total_len - start,
    {
        let remaining = total_len - start;
        let len: usize = if remaining < k { remaining } else { k };
        let len32 = len as u32;
        assert(done.len() < u32::MAX) by (nonlinear_arith)
            requires
                start == done.len() * k,
                start < total_len,
                total_len / k < u32::MAX,
                k >= 1,
        {
            assert(done.len() <= total_len / k);
        }
        let ghost old_runs = runs_pairs(runs@);
        let ghost old_done = done;
        let ghost old_repeat = cur_repeat;
        let ghost old_count = cur_count;
        if cur_repeat > 0 && len32 == cur_count {
            cur_repeat = cur_repeat + 1;
            proof {
                assert(repeated(cur_count, cur_repeat as nat) =~= repeated(old_count, old_repeat as nat).push(len32 as nat));
            }
        } else {
            if cur_repeat > 0 {
                runs.push(ShardRun { item_count: cur_count, repeat: cur_repeat });
                proof {
                    assert(runs_pairs(runs@) =~= old_runs + seq![(old_count, old_repeat)]);
                    lemma_expand_runs_append(old_runs, seq![(old_count, old_repeat)]);
                    lemma_expand_single(old_count, old_repeat);
                }
            }
            cur_count = len32;
            cur_repeat = 1;
            proof {
                assert(repeated(cur_count, 1) =~= seq![len32 as nat]);
            }
        }
        proof {
            let rest = (n - start) as nat;
            assert(shard_sizes(rest, kk) == seq![len as nat] + shard_sizes((rest - len) as nat, kk) || (rest <= kk && shard_sizes(rest, kk) == seq![len as nat]));
            if rest <= kk {
                assert(shard_sizes((rest - len) as nat, kk) =~= Seq::<nat>::empty());
            }
            done = done.push(len as nat);
            assert(shard_sizes(n, kk) =~= done + shard_sizes((rest - len) as nat, kk));
            assert(done.map_values(|s: nat| (s as u32) as nat) =~= old_done.map_values(|s: nat| (s as u32) as nat).push(len32 as nat));
            assert(expand_runs(runs_pairs(runs@)) + repeated(cur_count, cur_repeat as nat)
                =~= done.map_values(|s: nat| (s as u32) as nat));
        }
        start = start + len;
        proof {
            if start < total_len {
                assert(len == k);
                assert(start == done.len() * k) by (nonlinear_arith)
                    requires
                        start == old_done.len() * k + k,
                        done.len() == old_done.len() + 1,
                ;
            }
        }
    }
    let ghost before = runs_pairs(runs@);
    if cur_repeat > 0 {
        runs.push(ShardRun { item_count: cur_count, repeat: cur_repeat });
        proof {
            assert(runs_pairs(runs@) =~= before + seq![(cur_count, cur_repeat)]);
            lemma_expand_runs_append(before, seq![(cur_count, cur_repeat)]);
            lemma_expand_single(cur_count, cur_repeat);
        }
    } else {
        assert(repeated(cur_count, 0) =~= Seq::<nat>::empty());
        assert(expand_runs(runs_pairs(runs@)) =~= expand_runs(runs_pairs(runs@)) + repeated(cur_count, 0));
    }
    proof {
        assert(shard_sizes(0, kk) =~= Seq::<nat>::empty());
        assert(done + shard_sizes(0, kk) =~= done);
    }
    runs
}

/// The ranges of items that the shards of a vector of `total_len` items cut
/// every `k` items hold: shard `j` holds items `j * k` up to the smaller of
/// `j * k + k` and `total_len`, so the ranges follow each other from 0 to
/// `total_len` and have the shard sizes.
pub fn shard_ranges(total_len: usize, k: usize) -> (r: Vec<(usize, usize)>)
    requires
        k >= 1,
    ensures
        r@.len() == shard_sizes(total_len as nat, k as nat).len(),
        forall|j: int| #![trigger r@[j]] 0 <= j < r@.len() ==> {
            &&& r@[j].0 == j * k
            &&& r@[j].1 == if j * k + k <= total_len { j * k + k } else { total_len as int }
            &&& r@[j].1 - r@[j].0 == shard_sizes(total_len as nat, k as nat)[j]
        },
        r@.len() > 0 ==> r@.last().1 == total_len,
        r@.len() == 0 <==> total_len == 0,
{
    let mut r: Vec<(usize, usize)> = Vec::new();
    let mut start: usize = 0;
    let ghost mut done: Seq<nat> = Seq::empty();
    let ghost n = total_len as nat;
    let ghost kk = k as nat;
    while start < total_len
        invariant
            k >= 1,
            n == total_len,
            kk == k,
            start <= total_len,
            shard_sizes(n, kk) == done + shard_sizes((n - start) as nat, kk),
            r@.len() == done.len(),
            start < total_len ==> start == done.len() * k,
            start == total_len && done.len() > 0 ==> r@.last().1 == total_len,
            forall|j: int| #![trigger r@[j]] 0 <= j < r@.len() ==> {
                &&& r@[j].0 == j * k
                &&& r@[j].1 == if j * k + k <= total_len { j * k + k } else { total_len as int }
                &&& r@[j].1 - r@[j].0 == done[j]
            },
        decreases total_len - start,
    {
        let remaining = total_len - start;
        let len: usize = if remaining < k { remaining } else { k };
        let ghost old_done = done;
        proof {
            let rest = (n - start) as nat;
            if rest <= kk {
                assert(shard_sizes((rest - len) as nat, kk) =~= Seq::<nat>::empty());
            }
            done = done.push(len as nat);
            assert(shard_sizes(n, kk) =~= done + shard_sizes((rest - len) as nat, kk));
        }
        r.push((start, start + len));
        start = start + len;
        proof {
            if start < total_len {
                assert(len == k);
                assert(start == done.len() * k) by (nonlinear_arith)
                    requires
                        start == old_done.len() * k + k,
                        done.len() == old_done.len() + 1,
                ;
            }
        }
    }
    proof {
        assert(shard_sizes(0, kk) =~= Seq::<nat>::empty());
        assert(done + shard_sizes(0, kk) =~= done);
    }
    r
}

/// The payload of a vector's container chunk: the total item count as a
/// little-endian `u64`, then the encoded table of runs.
pub open spec fn container_payload(total_items: u64, runs: Seq<ShardRun>) -> Seq<u8> {
    spec_u64_to_le_bytes(total_items) + encode_runs(runs_pairs(runs))
}

/// The job of a vector's container node. It holds only metadata: the total
/// number of items and the run-length table of shard sizes.
#[derive(Clone)]
pub struct VecContainerJob {
    /// The runs of equal-size shards, in order.
    pub shard_runs: Vec<ShardRun>,
    /// The total number of items of the vector.
    pub total_items: u64,
}

impl VecContainerJob {
    /// Creates the job of a container.
    pub fn new(shard_runs: Vec<ShardRun>, total_items: u64) -> (r: Self)
        ensures
            r.shard_runs@ == shard_runs@,
            r.total_items == total_items,
    {
        VecContainerJob { shard_runs, total_items }
    }
}

impl<'a> SerializationJob<'a> for VecContainerJob {
    open spec fn spec_execute(&self, children_refs: Seq<ChildRef>) -> Option<Seq<u8>> {
        Some(container_payload(self.total_items, self.shard_runs@))
    }

    open spec fn spec_execute_error(&self, children_refs: Seq<ChildRef>) -> ParcodeError {
        vstd::pervasive::arbitrary()
    }

    open spec fn spec_config(&self) -> JobConfig {
        JobConfig { compression_id: 0, is_map: false }
    }

    open spec fn spec_estimated_size(&self) -> usize {
        if 8 + 8 * self.shard_runs@.len() <= usize::MAX { (8 + 8 * self.shard_runs@.len()) as usize } else { usize::MAX }
    }

    fn execute(&self, children_refs: &[ChildRef]) -> (r: Result<Vec<u8>>) {
        let mut buffer = u64_to_le_bytes(self.total_items);
        let mut pairs: Vec<(u32, u32)> = Vec::new();
        let mut i: usize = 0;
        while i < self.shard_runs.len()
            invariant
                i <= self.shard_runs@.len(),
                pairs@ == runs_pairs(self.shard_runs@.subrange(0, i as int)),
            decreases self.shard_runs@.len() - i,
        {
            let run = self.shard_runs[i];
            pairs.push((run.item_count, run.repeat));
            i = i + 1;
            assert(pairs@ =~= runs_pairs(self.shard_runs@.subrange(0, i as int)));
        }
        assert(self.shard_runs@.subrange(0, i as int) =~= self.shard_runs@);
        let mut runs_bytes = bincode_encode_runs(pairs.as_slice());
        buffer.append(&mut runs_bytes);
        Ok(buffer)
    }

    fn estimated_size(&self) -> (r: usize)
        ensures
            r == if 8 + 8 * self.shard_runs@.len() <= usize::MAX { (8 + 8 * self.shard_runs@.len()) as int } else { usize::MAX as int },
    {
        let size: u128 = 8 + (self.shard_runs.len() as u128) * 8;
        if size > usize::MAX as u128 { usize::MAX } else { size as usize }
    }

    fn config(&self) -> (r: JobConfig) {
        JobConfig { compression_id: 0, is_map: false }
    }
}

/// The nodes of `g` below `base` are those of `old`, but for the one at `parent`
/// (when given), which got one more empty slot.
pub open spec fn extends_below<J>(old: Seq<Node<J>>, g: Seq<Node<J>>, parent: Option<ChunkId>) -> bool {
    &&& forall|i: int| 0 <= i < old.len() && (parent matches Some(p) ==> i != p.value()) ==> #[trigger] g[i] == old[i]
    &&& parent matches Some(p) ==> {
        let pi = p.value() as int;
        &&& g[pi].completed_children@ == old[pi].completed_children@.push(None)
        &&& g[pi].atomic_deps == old[pi].atomic_deps.wrapping_add(1)
        &&& same_node_except_children(g[pi], Node { atomic_deps: g[pi].atomic_deps, ..old[pi] })
    }
}

/// Adds a node holding `job` and links it under `parent_id`.
fn add_linked_node<J>(graph: &mut TaskGraph<J>, parent_id: ChunkId, job: J) -> (r: ChunkId)
    requires
        old(graph).wf(),
        old(graph).spec_nodes().len() < u32::MAX,
        parent_id.value() < old(graph).spec_nodes().len(),
    ensures
        final(graph).wf(),
        ({
            let o = old(graph).spec_nodes();
            let g = final(graph).spec_nodes();
            let p = parent_id.value() as int;
            &&& g.len() == o.len() + 1
            &&& r.value() == o.len()
            &&& g[o.len() as int].job == job
            &&& g[o.len() as int].parent == Some(parent_id)
            &&& g[o.len() as int].parent_slot == Some(o[p].completed_children@.len() as usize)
            &&& g[o.len() as int].completed_children@.len() == 0
            &&& extends_below(o, g, Some(parent_id))
        }),
{
    let ghost o = graph.spec_nodes();
    let id = graph.add_node(job);
    let ghost mid = graph.spec_nodes();
    graph.link_parent_child(parent_id, id);
    proof {
        let g = graph.spec_nodes();
        assert forall|i: int| 0 <= i < o.len() && i != parent_id.value() implies #[trigger] g[i] == o[i] by {
            assert(g[i] == mid[i]);
            assert(mid[i] == o[i]);
        }
        assert(mid[parent_id.value() as int] == o[parent_id.value() as int]);
    }
    id
}

/// `g` is `o` with the nodes of a vector added: the container at index
/// `o.len()`, holding `container` and linked under `parent` when given, then
/// one node per shard, holding the shard's job and linked under the container
/// in order, at the identifiers `ids`.
pub open spec fn vector_nodes_added<J>(
    o: Seq<Node<J>>,
    g: Seq<Node<J>>,
    parent: Option<ChunkId>,
    container: J,
    shards: Seq<J>,
    id: ChunkId,
    ids: Seq<ChunkId>,
) -> bool {
    let base = o.len() as int;
    &&& g.len() == base + 1 + shards.len()
    &&& id.value() == base
    &&& ids.len() == shards.len()
    &&& g[base].job == container
    &&& g[base].parent == parent
    &&& (parent matches Some(p) ==> g[base].parent_slot == Some(o[p.value() as int].completed_children@.len() as usize))
    &&& g[base].completed_children@.len() == shards.len()
    &&& g[base].atomic_deps == shards.len()
    &&& forall|j: int| #![trigger ids[j]] 0 <= j < shards.len() ==> {
        &&& ids[j].value() == base + 1 + j
        &&& g[base + 1 + j].job == shards[j]
        &&& g[base + 1 + j].parent == Some(id)
        &&& g[base + 1 + j].parent_slot == Some(j as usize)
        &&& g[base + 1 + j].completed_children@.len() == 0
        &&& g[base + 1 + j].atomic_deps == 0
    }
    &&& extends_below(o, g, parent)
}

/// Adds the nodes of a vector to the graph: its container node, linked under
/// `parent` when one is given, then one node per shard, each linked under the
/// container in order. Returns the identifier of the container and those of
/// the shards.
#[verifier::rlimit(80)]
pub fn add_vector_nodes<J>(graph: &mut TaskGraph<J>, parent: Option<ChunkId>, container: J, shards: Vec<J>) -> (r: (
    ChunkId,
    Vec<ChunkId>,
))
    requires
        old(graph).wf(),
        old(graph).spec_nodes().len() + 1 + shards@.len() <= u32::MAX,
        parent matches Some(p) ==> p.value() < old(graph).spec_nodes().len(),
    ensures
        final(graph).wf(),
        vector_nodes_added(old(graph).spec_nodes(), final(graph).spec_nodes(), parent, container, shards@, r.0, r.1@),
{
    let ghost old_nodes = graph.spec_nodes();
    let ghost base = old_nodes.len() as int;
    let my_id = match parent {
        Some(pid) => add_linked_node(graph, pid, container),
        None => graph.add_node(container),
    };
    assert(extends_below(old_nodes, graph.spec_nodes(), parent));
    let mut ids: Vec<ChunkId> = Vec::new();
    let ghost all = shards@;
    let mut pending = shards;
    let n = pending.len();
    // Take the shards out back to front, then pop them front to back.
    let mut rev: Vec<J> = Vec::new();
    while pending.len() > 0
        invariant
            n == all.len(),
            pending@ == all.subrange(0, pending@.len() as int),
            rev@.len() == n - pending@.len(),
            forall|i: int| 0 <= i < rev@.len() ==> #[trigger] rev@[i] == all[n - 1 - i],
        decreases pending@.len(),
    {
        let x = pending.pop().unwrap();
        rev.push(x);
    }
    let mut j: usize = 0;
    while j < n
        invariant
            graph.wf(),
            n == all.len(),
            j <= n,
            base + 1 + all.len() <= u32::MAX,
            rev@.len() == n - j,
            forall|i: int| 0 <= i < rev@.len() ==> #[trigger] rev@[i] == all[n - 1 - i],
            my_id.value() == base,
            ids@.len() == j,
            graph.spec_nodes().len() == base + 1 + j,
            graph.spec_nodes()[base].job == container,
            graph.spec_nodes()[base].parent == parent,
            parent matches Some(p) ==> graph.spec_nodes()[base].parent_slot == Some(
                old_nodes[p.value() as int].completed_children@.len() as usize,
            ),
            parent matches Some(p) ==> p.value() < base,
            graph.spec_nodes()[base].completed_children@.len() == j,
            forall|q: int| #![trigger ids@[q]] 0 <= q < j ==> {
                &&& ids@[q].value() == base + 1 + q
                &&& graph.spec_nodes()[base + 1 + q].job == all[q]
                &&& graph.spec_nodes()[base + 1 + q].parent == Some(my_id)
                &&& graph.spec_nodes()[base + 1 + q].parent_slot == Some(q as usize)
                &&& graph.spec_nodes()[base + 1 + q].completed_children@.len() == 0
            },
            extends_below(old_nodes, graph.spec_nodes(), parent),
            old_nodes.len() == base,
        decreases n - j,
    {
        let job = rev.pop().unwrap();
        assert(job == all[j as int]);
        let ghost before = graph.spec_nodes();
        let shard_id = add_linked_node(graph, my_id, job);
        ids.push(shard_id);
        proof {
            assert forall|q: int| #![trigger ids@[q]] 0 <= q < j + 1 implies {
                &&& ids@[q].value() == base + 1 + q
                &&& graph.spec_nodes()[base + 1 + q].job == all[q]
                &&& graph.spec_nodes()[base + 1 + q].parent == Some(my_id)
                &&& graph.spec_nodes()[base + 1 + q].parent_slot == Some(q as usize)
                &&& graph.spec_nodes()[base + 1 + q].completed_children@.len() == 0
            } by {
                if q < j {
                    assert(graph.spec_nodes()[base + 1 + q] == before[base + 1 + q]);
                    assert(ids@[q].value() == base + 1 + q);
                } else {
                    assert(ids@[q] == shard_id);
                    assert(before[base].completed_children@.len() == j);
                    assert(graph.spec_nodes()[base + 1 + q].parent_slot == Some(q as usize));
                }
            }
            assert forall|i: int| 0 <= i < old_nodes.len() && (parent matches Some(p) ==> i != p.value())
                implies #[trigger] graph.spec_nodes()[i] == old_nodes[i] by {
                assert(graph.spec_nodes()[i] == before[i]);
            }
            if let Some(p) = parent {
                assert(graph.spec_nodes()[p.value() as int] == before[p.value() as int]);
            }
        }
        j = j + 1;
    }
    let r = (my_id, ids);
    proof {
        let g = graph.spec_nodes();
        assert(g[base].atomic_deps == g[base].completed_children@.len());
        assert forall|q: int| #![trigger r.1@[q]] 0 <= q < all.len() implies g[base + 1 + q].atomic_deps == 0 by {
            assert(ids@[q].value() == base + 1 + q);
            assert(g[base + 1 + q].atomic_deps == g[base + 1 + q].completed_children@.len());
        }
    }
    assert(vector_nodes_added(old_nodes, graph.spec_nodes(), parent, container, all, my_id, r.1@));
    r
}

} // verus!
