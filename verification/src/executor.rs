//! The execution engine: turns a task graph into a sequence of chunks.
//!
//! Nodes are processed from the highest identifier down to 0, so that a
//! child (added after its parent) is written before its parent. Processing a
//! node serializes its job, compresses the payload, appends the children table
//! and the meta byte, writes the chunk and hands its reference to the parent's
//! slot. The reference of the node without parent is the root of the file.
//!
//! A [`Schedule`] keeps the bookkeeping of an execution driven by dependencies
//! instead: a node can run once all its children were written.

use crate::compression::{Compressor, CompressorRegistry};
use crate::error::{ParcodeError, Result};
use crate::format::{meta_byte_value, ChildRef, MetaByte};
use crate::graph::{same_node_except_children, ChunkId, JobConfig, Node, SerializationJob, TaskGraph};
use crate::io::SeqWriter;
use vstd::bytes::*;
use vstd::prelude::*;

verus! {

broadcast use vstd::seq_lib::group_seq_properties;

/// The bytes of consecutive child references.
pub open spec fn refs_bytes(cs: Seq<ChildRef>) -> Seq<u8>
    decreases cs.len(),
{
    if cs.len() == 0 {
        Seq::empty()
    } else {
        refs_bytes(cs.drop_last()) + cs.last().spec_to_bytes()
    }
}

/// The child count written in a children table (saturated to `u32::MAX`).
pub open spec fn child_count_field(n: nat) -> u32 {
    if n <= u32::MAX { n as u32 } else { u32::MAX }
}

/// The children table of a chunk: the references then their count, or
/// nothing for a chunk without children.
pub open spec fn chunk_tail(cs: Seq<ChildRef>) -> Seq<u8> {
    if cs.len() == 0 {
        Seq::empty()
    } else {
        refs_bytes(cs) + spec_u32_to_le_bytes(child_count_field(cs.len()))
    }
}

/// A whole chunk: the (compressed) payload, the children table and the meta byte.
pub open spec fn chunk_bytes(encoded: Seq<u8>, cs: Seq<ChildRef>, algo_id: u8) -> Seq<u8> {
    encoded + chunk_tail(cs) + seq![meta_byte_value(cs.len() > 0, algo_id)]
}

/// The compression id a node asks for: its own, or LZ4 (1) when it asks for the
/// default (0) and compression is enabled.
pub open spec fn effective_compression(cfg: JobConfig, use_compression: bool) -> u8 {
    if use_compression && cfg.compression_id == 0 { 1 } else { cfg.compression_id }
}

/// The algorithm actually used: the one asked for when registered, otherwise no compression (0).
pub open spec fn selected_algo<C: Compressor>(reg: CompressorRegistry<C>, id: u8) -> u8 {
    if reg.has(id) { id } else { 0 }
}

/// The chunk written for a job whose children were written at `cs`, or `None`
/// where serialization or compression fails.
pub open spec fn spec_chunk<'a, J: SerializationJob<'a>, C: Compressor>(
    job: J,
    cs: Seq<ChildRef>,
    reg: CompressorRegistry<C>,
    use_compression: bool,
) -> Option<Seq<u8>> {
    match job.spec_execute(cs) {
        None => None,
        Some(payload) => {
            let id = selected_algo(reg, effective_compression(job.spec_config(), use_compression));
            match reg.algo(id).spec_compress(payload) {
                None => None,
                Some(encoded) => Some(chunk_bytes(encoded, cs, id)),
            }
        },
    }
}

/// The state of a write after some nodes were processed.
pub struct WriteState {
    /// The bytes written so far.
    pub out: Seq<u8>,
    /// The completed-children slots of every node.
    pub slots: Seq<Seq<Option<ChildRef>>>,
    /// The reference of the chunk written for each node, once written.
    pub refs: Seq<Option<ChildRef>>,
    /// The reference of the last written node without parent.
    pub root: Option<ChildRef>,
}

/// All slots are filled.
pub open spec fn all_some(s: Seq<Option<ChildRef>>) -> bool {
    forall|j: int| 0 <= j < s.len() ==> (#[trigger] s[j]) is Some
}

/// The filled slots, unwrapped.
pub open spec fn unwrap_all(s: Seq<Option<ChildRef>>) -> Seq<ChildRef> {
    s.map_values(|o: Option<ChildRef>| o.unwrap())
}

/// Processing node `i` in state `s`.
pub open spec fn spec_step<'a, J: SerializationJob<'a>, C: Compressor>(
    nodes: Seq<Node<J>>,
    reg: CompressorRegistry<C>,
    use_compression: bool,
    i: int,
    s: WriteState,
) -> Option<WriteState> {
    let node = nodes[i];
    let raw = s.slots[i];
    if !all_some(raw) {
        None
    } else {
        let cs = unwrap_all(raw);
        match spec_chunk(node.job, cs, reg, use_compression) {
            None => None,
            Some(chunk) => {
                let r = ChildRef { offset: s.out.len() as u64, length: chunk.len() as u64 };
                let out = s.out + chunk;
                let slots = s.slots.update(i, Seq::empty());
                let refs = s.refs.update(i, Some(r));
                match node.parent {
                    Some(p) => {
                        let pi = p.value() as int;
                        let slot = node.parent_slot.unwrap() as int;
                        if slot < slots[pi].len() {
                            Some(WriteState { out, slots: slots.update(pi, slots[pi].update(slot, Some(r))), refs, root: s.root })
                        } else {
                            None
                        }
                    },
                    None => Some(WriteState { out, slots, refs, root: Some(r) }),
                }
            },
        }
    }
}

/// The state after processing nodes `nodes.len() - 1` down to `k`, starting from `init`.
pub open spec fn spec_run<'a, J: SerializationJob<'a>, C: Compressor>(
    nodes: Seq<Node<J>>,
    reg: CompressorRegistry<C>,
    use_compression: bool,
    k: int,
    init: WriteState,
) -> Option<WriteState>
    decreases nodes.len() - k,
{
    if k >= nodes.len() {
        Some(init)
    } else if k < 0 {
        None
    } else {
        match spec_run(nodes, reg, use_compression, k + 1, init) {
            None => None,
            Some(s) => spec_step(nodes, reg, use_compression, k, s),
        }
    }
}

/// The state before any node is processed, writing after `out`.
pub open spec fn initial_state<J>(nodes: Seq<Node<J>>, out: Seq<u8>) -> WriteState {
    WriteState {
        out,
        slots: nodes.map_values(|n: Node<J>| n.completed_children@),
        refs: Seq::new(nodes.len(), |i: int| None),
        root: None,
    }
}

/// The outcome of executing a whole graph after the bytes `out`: the final
/// state, when every node was processed and a root was written.
pub open spec fn spec_execute_graph<'a, J: SerializationJob<'a>, C: Compressor>(
    nodes: Seq<Node<J>>,
    reg: CompressorRegistry<C>,
    use_compression: bool,
    out: Seq<u8>,
) -> Option<WriteState> {
    match spec_run(nodes, reg, use_compression, 0, initial_state(nodes, out)) {
        Some(s) => if s.root is Some { Some(s) } else { None },
        None => None,
    }
}

/// Unwraps the completed-children slots of a node; fails if a child has not been written.
fn collect_children(raw: &Vec<Option<ChildRef>>) -> (r: Result<Vec<ChildRef>>)
    ensures
        r is Ok <==> all_some(raw@),
        r matches Ok(v) ==> v@ == unwrap_all(raw@),
        r matches Err(e) ==> e is Internal,
{
    let mut out: Vec<ChildRef> = Vec::new();
    let mut j: usize = 0;
    while j < raw.len()
        invariant
            j <= raw@.len(),
            out@.len() == j,
            forall|t: int| 0 <= t < j ==> (#[trigger] raw@[t]) is Some && out@[t] == raw@[t].unwrap(),
        decreases raw@.len() - j,
    {
        match raw[j] {
            Some(c) => out.push(c),
            None => {
                return Err(ParcodeError::Internal("Missing child result".to_string()));
            },
        }
        j = j + 1;
    }
    assert(out@ =~= unwrap_all(raw@));
    Ok(out)
}

/// Appends the children table (if any) and the meta byte of a chunk.
fn append_chunk_footer(buffer: &mut Vec<u8>, children_refs: &Vec<ChildRef>, algo_id: u8)
    ensures
        final(buffer)@ == old(buffer)@ + chunk_tail(children_refs@) + seq![
            meta_byte_value(children_refs@.len() > 0, algo_id),
        ],
{
    let is_chunkable = children_refs.len() > 0;
    let ghost start = buffer@;
    if is_chunkable {
        let mut j: usize = 0;
        while j < children_refs.len()
            invariant
                j <= children_refs@.len(),
                buffer@ == start + refs_bytes(children_refs@.subrange(0, j as int)),
            decreases children_refs@.len() - j,
        {
            let bytes = children_refs[j].to_bytes();
            buffer.extend_from_slice(&bytes);
            assert(children_refs@.subrange(0, j + 1).drop_last() =~= children_refs@.subrange(0, j as int));
            j = j + 1;
        }
        assert(children_refs@.subrange(0, children_refs@.len() as int) =~= children_refs@);
        let count: u32 = if children_refs.len() <= 0xffff_ffffusize {
            children_refs.len() as u32
        } else {
            0xffff_ffffu32
        };
        let count_bytes = u32_to_le_bytes(count);
        buffer.extend_from_slice(count_bytes.as_slice());
    }
    let meta = MetaByte::new(is_chunkable, algo_id);
    buffer.push(meta.as_u8());
}

/// Builds the chunk of a job whose children were written at `children_refs`:
/// serializes the job, compresses the payload with the algorithm the job asks
/// for (LZ4 for the default when compression is enabled), then appends the
/// children table and the meta byte. When that algorithm is not registered,
/// the chunk is left uncompressed if `fall_back` is set, and the call fails
/// with a compression error otherwise.
pub fn build_chunk<'a, J: SerializationJob<'a>, C: Compressor>(
    job: &J,
    children_refs: &Vec<ChildRef>,
    registry: &CompressorRegistry<C>,
    use_compression: bool,
    fall_back: bool,
) -> (r: Result<Vec<u8>>)
    requires
        registry.wf(),
        registry.has(0),
    ensures
        !fall_back && job.spec_execute(children_refs@) is Some && !registry.has(
            effective_compression(job.spec_config(), use_compression),
        ) ==> (r matches Err(e) && e is Compression),
        (fall_back || registry.has(effective_compression(job.spec_config(), use_compression))) ==> {
            &&& (r matches Ok(v) ==> spec_chunk(*job, children_refs@, *registry, use_compression) == Some(v@))
            &&& (spec_chunk(*job, children_refs@, *registry, use_compression) is None ==> r is Err)
        },
        r matches Ok(v) ==> spec_chunk(*job, children_refs@, *registry, use_compression) == Some(v@),
        (fall_back || registry.has(effective_compression(job.spec_config(), use_compression))) && spec_chunk(
            *job,
            children_refs@,
            *registry,
            use_compression,
        ) is Some ==> r is Ok,
{
    let raw_payload = job.execute(children_refs.as_slice())?;
    let config = job.config();
    let compression_id: u8 = if use_compression && config.compression_id == 0 { 1 } else { config.compression_id };
    let compressor = match registry.get(compression_id) {
        Ok(c) => c,
        Err(e) => {
            if !fall_back {
                return Err(e);
            }
            match registry.get(0) {
                Ok(c) => c,
                Err(e0) => { return Err(e0); },
            }
        },
    };
    let algo_id = compressor.id();
    let ghost sel = selected_algo(*registry, effective_compression(job.spec_config(), use_compression));
    assert(*compressor == registry.algo(sel));
    let mut buffer: Vec<u8> = Vec::new();
    compressor.compress_append(raw_payload.as_slice(), &mut buffer)?;
    let ghost enc = buffer@;
    append_chunk_footer(&mut buffer, children_refs, algo_id);
    assert(buffer@ == chunk_bytes(enc, children_refs@, sel));
    Ok(buffer)
}

/// A run that reaches node `j` went through every node after it.
proof fn lemma_run_prefix_some<'a, J: SerializationJob<'a>, C: Compressor>(
    nodes: Seq<Node<J>>,
    reg: CompressorRegistry<C>,
    use_compression: bool,
    j: int,
    k: int,
    init: WriteState,
)
    requires
        0 <= j <= k <= nodes.len(),
        spec_run(nodes, reg, use_compression, j, init) is Some,
    ensures
        spec_run(nodes, reg, use_compression, k, init) is Some,
    decreases k - j,
{
    if j < k {
        lemma_run_prefix_some(nodes, reg, use_compression, j + 1, k, init);
    }
}

/// Executes the graph on a single thread, writing one chunk per node from the
/// highest identifier down to 0, and returns the reference of the root chunk.
///
/// It succeeds exactly when `spec_execute_graph` does, and the writer then
/// holds exactly the chunks it describes. It fails where a child is not written
/// before its parent, a job fails, the algorithm refuses the data, or no node
/// is without parent.
pub fn execute_graph_sync<'a, J: SerializationJob<'a>, C: Compressor>(
    graph: &mut TaskGraph<J>,
    writer: &mut SeqWriter,
    registry: &CompressorRegistry<C>,
    use_compression: bool,
) -> (r: Result<ChildRef>)
    requires
        registry.wf(),
        registry.has(0),
        old(graph).wf(),
    ensures
        r matches Ok(root) ==> spec_execute_graph(old(graph).spec_nodes(), *registry, use_compression, old(writer).written())
            matches Some(s) && s.root == Some(root) && final(writer).written() == s.out,
        r is Ok <==> spec_execute_graph(old(graph).spec_nodes(), *registry, use_compression, old(writer).written()) is Some,
        final(graph).spec_nodes().len() == old(graph).spec_nodes().len(),
        forall|i: int| 0 <= i < final(graph).spec_nodes().len() ==> same_node_except_children(
            #[trigger] final(graph).spec_nodes()[i],
            old(graph).spec_nodes()[i],
        ),
{
    let ghost nodes0 = graph.spec_nodes();
    let ghost init = initial_state(nodes0, writer.written());
    let n = graph.len();
    let mut i: usize = n;
    let mut root_result: Option<ChildRef> = None;
    assert(spec_run(nodes0, *registry, use_compression, n as int, init) == Some(init));
    while i > 0
        invariant
            registry.wf(),
            registry.has(0),
            i <= n,
            n == nodes0.len(),
            graph.spec_nodes().len() == n,
            forall|t: int| 0 <= t < n ==> same_node_except_children(#[trigger] graph.spec_nodes()[t], nodes0[t]),
            old(graph).wf(),
            nodes0 == old(graph).spec_nodes(),
            init == initial_state(nodes0, old(writer).written()),
            spec_execute_graph(nodes0, *registry, use_compression, init.out) is Some ==> spec_run(
                nodes0,
                *registry,
                use_compression,
                0,
                init,
            ) is Some,
            spec_run(nodes0, *registry, use_compression, i as int, init) matches Some(s) && s.out == writer.written()
                && s.root == root_result && s.slots.len() == n
                && forall|t: int| 0 <= t < n ==> #[trigger] s.slots[t] == graph.spec_nodes()[t].completed_children@,
        decreases i,
    {
        i = i - 1;
        proof {
            if spec_execute_graph(nodes0, *registry, use_compression, init.out) is Some {
                lemma_run_prefix_some(nodes0, *registry, use_compression, 0, i as int, init);
            }
        }
        let ghost s = spec_run(nodes0, *registry, use_compression, (i + 1) as int, init).unwrap();
        assert(spec_run(nodes0, *registry, use_compression, i as int, init) == spec_step(nodes0, *registry, use_compression, i as int, s));
        let raw = graph.take_completed_children(i);
        assert(raw@ == s.slots[i as int]);
        let children_refs = collect_children(&raw)?;
        let ghost cs = unwrap_all(raw@);
        let node = graph.get_node(ChunkId::new(i as u32));
        assert(node.job == nodes0[i as int].job);
        let chunk = build_chunk(&node.job, &children_refs, registry, use_compression, true)?;
        let offset = writer.write_all(chunk.as_slice())?;
        let my_ref = ChildRef { offset, length: chunk.len() as u64 };
        match node.parent {
            Some(parent_id) => {
                let slot = match node.parent_slot {
                    Some(sl) => sl,
                    None => { return Err(ParcodeError::Internal("Parent slot missing".to_string())); },
                };
                graph.register_child_at(parent_id.as_u32() as usize, slot, my_ref)?;
            },
            None => {
                root_result = Some(my_ref);
            },
        }
    }
    writer.flush()?;
    match root_result {
        Some(root) => Ok(root),
        None => Err(ParcodeError::Internal("Graph execution completed but no root found".to_string())),
    }
}

/// What recording a written chunk leads to.
#[derive(Debug, Clone, Copy)]
pub enum Completion {
    /// The node has no parent: its reference is the root of the file.
    Root(ChildRef),
    /// The node was the last pending child of this parent, which can now run.
    ParentReady(usize),
    /// The parent still waits for other children.
    ParentWaiting,
}

/// Where a node's reference goes: the index of its parent and the slot there.
pub open spec fn parent_link<J>(node: Node<J>) -> Option<(usize, usize)> {
    match (node.parent, node.parent_slot) {
        (Some(p), Some(s)) => Some((p.value() as usize, s)),
        _ => None,
    }
}

/// The bookkeeping of a dependency-driven execution: for each node, how many
/// of its children are still to be written, the references of those already
/// written, and where its own reference goes. A node can run once its count
/// reaches zero.
pub struct Schedule {
    remaining: Vec<usize>,
    slots: Vec<Vec<Option<ChildRef>>>,
    parents: Vec<Option<(usize, usize)>>,
}

impl Schedule {
    /// The number of pending children of each node.
    pub closed spec fn spec_remaining(&self) -> Seq<usize> {
        self.remaining@
    }

    /// The children references written so far, per node and slot.
    pub closed spec fn spec_slots(&self) -> Seq<Seq<Option<ChildRef>>> {
        self.slots@.map_values(|v: Vec<Option<ChildRef>>| v@)
    }

    /// Where each node's reference goes.
    pub closed spec fn spec_parents(&self) -> Seq<Option<(usize, usize)>> {
        self.parents@
    }

    /// Every node has a count, slots and a link.
    pub closed spec fn wf(&self) -> bool {
        &&& self.slots@.len() == self.remaining@.len()
        &&& self.parents@.len() == self.remaining@.len()
    }

    /// The schedule of a graph before any node runs.
    pub fn new<J>(graph: &TaskGraph<J>) -> (r: Self)
        ensures
            r.wf(),
            r.spec_remaining().len() == graph.spec_nodes().len(),
            r.spec_slots().len() == graph.spec_nodes().len(),
            r.spec_parents().len() == graph.spec_nodes().len(),
            forall|i: int| 0 <= i < graph.spec_nodes().len() ==> {
                &&& #[trigger] r.spec_remaining()[i] == graph.spec_nodes()[i].atomic_deps
                &&& r.spec_slots()[i] == graph.spec_nodes()[i].completed_children@
                &&& r.spec_parents()[i] == parent_link(graph.spec_nodes()[i])
            },
    {
        let nodes = graph.nodes();
        let mut remaining: Vec<usize> = Vec::new();
        let mut slots: Vec<Vec<Option<ChildRef>>> = Vec::new();
        let mut parents: Vec<Option<(usize, usize)>> = Vec::new();
        let mut i: usize = 0;
        while i < nodes.len()
            invariant
                nodes@ == graph.spec_nodes(),
                i <= nodes@.len(),
                remaining@.len() == i,
                slots@.len() == i,
                parents@.len() == i,
                forall|j: int| 0 <= j < i ==> {
                    &&& #[trigger] remaining@[j] == nodes@[j].atomic_deps
                    &&& slots@[j]@ == nodes@[j].completed_children@
                    &&& parents@[j] == parent_link(nodes@[j])
                },
            decreases nodes@.len() - i,
        {
            let node = &nodes[i];
            remaining.push(node.atomic_deps);
            let mut s: Vec<Option<ChildRef>> = Vec::new();
            let mut j: usize = 0;
            while j < node.completed_children.len()
                invariant
                    j <= node.completed_children@.len(),
                    s@ == node.completed_children@.subrange(0, j as int),
                decreases node.completed_children@.len() - j,
            {
                s.push(node.completed_children[j]);
                j = j + 1;
            }
            assert(s@ =~= node.completed_children@);
            slots.push(s);
            let link = match (node.parent, node.parent_slot) {
                (Some(p), Some(sl)) => Some((p.as_u32() as usize, sl)),
                _ => None,
            };
            parents.push(link);
            i = i + 1;
        }
        let r = Schedule { remaining, slots, parents };
        assert forall|i: int| 0 <= i < graph.spec_nodes().len() implies {
            &&& #[trigger] r.spec_remaining()[i] == graph.spec_nodes()[i].atomic_deps
            &&& r.spec_slots()[i] == graph.spec_nodes()[i].completed_children@
            &&& r.spec_parents()[i] == parent_link(graph.spec_nodes()[i])
        } by {
            assert(r.remaining@[i] == nodes@[i].atomic_deps);
        }
        r
    }

    /// The nodes that can run at once, those without pending children, in order.
    pub fn ready_nodes(&self) -> (r: Vec<usize>)
        ensures
            forall|j: int| 0 <= j < r@.len() ==> #[trigger] r@[j] < self.spec_remaining().len()
                && self.spec_remaining()[r@[j] as int] == 0,
            forall|j: int, l: int| 0 <= j < l < r@.len() ==> #[trigger] r@[j] < #[trigger] r@[l],
            forall|i: int| 0 <= i < self.spec_remaining().len() && #[trigger] self.spec_remaining()[i] == 0
                ==> r@.contains(i as usize),
    {
        let mut out: Vec<usize> = Vec::new();
        let mut i: usize = 0;
        while i < self.remaining.len()
            invariant
                i <= self.remaining@.len(),
                forall|j: int| 0 <= j < out@.len() ==> #[trigger] out@[j] < i && self.remaining@[out@[j] as int] == 0,
                forall|j: int, l: int| 0 <= j < l < out@.len() ==> #[trigger] out@[j] < #[trigger] out@[l],
                forall|t: int| 0 <= t < i && #[trigger] self.remaining@[t] == 0 ==> out@.contains(t as usize),
            decreases self.remaining@.len() - i,
        {
            if self.remaining[i] == 0 {
                let ghost before = out@;
                out.push(i);
                assert forall|t: int| 0 <= t < i + 1 && #[trigger] self.remaining@[t] == 0 implies out@.contains(
                    t as usize,
                ) by {
                    if t < i {
                        let w = choose|w: int| 0 <= w < before.len() && before[w] == t as usize;
                        assert(out@[w] == t as usize);
                    } else {
                        assert(out@[out@.len() - 1] == t as usize);
                    }
                }
            }
            i = i + 1;
        }
        out
    }

    /// Takes the references of node `i`'s children, leaving its slots empty;
    /// fails if a child has not been written yet.
    pub fn take_children(&mut self, i: usize) -> (r: Result<Vec<ChildRef>>)
        requires
            old(self).wf(),
            i < old(self).spec_remaining().len(),
        ensures
            final(self).wf(),
            r is Ok <==> all_some(old(self).spec_slots()[i as int]),
            r matches Ok(v) ==> v@ == unwrap_all(old(self).spec_slots()[i as int]),
            r matches Err(e) ==> e is Internal,
            final(self).spec_remaining() == old(self).spec_remaining(),
            final(self).spec_parents() == old(self).spec_parents(),
            final(self).spec_slots() == old(self).spec_slots().update(i as int, Seq::empty()),
    {
        let mut taken: Vec<Option<ChildRef>> = Vec::new();
        let ghost old_slots = self.slots@;
        std::mem::swap(&mut self.slots[i], &mut taken);
        assert(self.spec_slots() =~= old(self).spec_slots().update(i as int, Seq::empty()));
        collect_children(&taken)
    }

    /// Records that node `i` was written at `r`: its reference goes to its
    /// parent's slot and the parent's count drops by one (wrapping at zero),
    /// or it is the root. The parent is ready when its count was one.
    pub fn complete(&mut self, i: usize, r: ChildRef) -> (res: Result<Completion>)
        requires
            old(self).wf(),
            i < old(self).spec_remaining().len(),
        ensures
            final(self).wf(),
            final(self).spec_parents() == old(self).spec_parents(),
            match old(self).spec_parents()[i as int] {
                None => (res matches Ok(Completion::Root(q)) && q == r) && final(self).spec_slots() == old(self).spec_slots()
                    && final(self).spec_remaining() == old(self).spec_remaining(),
                Some((p, sl)) => if p < old(self).spec_remaining().len() && sl < old(self).spec_slots()[p as int].len() {
                    &&& final(self).spec_slots() == old(self).spec_slots().update(
                        p as int,
                        old(self).spec_slots()[p as int].update(sl as int, Some(r)),
                    )
                    &&& final(self).spec_remaining() == old(self).spec_remaining().update(
                        p as int,
                        old(self).spec_remaining()[p as int].wrapping_sub(1),
                    )
                    &&& (old(self).spec_remaining()[p as int] == 1 ==> (res matches Ok(Completion::ParentReady(q)) && q == p))
                    &&& (old(self).spec_remaining()[p as int] != 1 ==> res matches Ok(Completion::ParentWaiting))
                } else {
                    &&& res matches Err(e) && e is Internal
                    &&& final(self).spec_slots() == old(self).spec_slots()
                    &&& final(self).spec_remaining() == old(self).spec_remaining()
                },
            },
    {
        match self.parents[i] {
            None => Ok(Completion::Root(r)),
            Some((p, sl)) => {
                if p >= self.remaining.len() || sl >= self.slots[p].len() {
                    return Err(ParcodeError::Internal("Slot out of bounds for node".to_string()));
                }
                let ghost old_slots = self.spec_slots();
                self.slots[p].set(sl, Some(r));
                assert(self.spec_slots() =~= old_slots.update(p as int, old_slots[p as int].update(sl as int, Some(r))));
                let prev = self.remaining[p];
                self.remaining.set(p, prev.wrapping_sub(1));
                if prev == 1 {
                    Ok(Completion::ParentReady(p))
                } else {
                    Ok(Completion::ParentWaiting)
                }
            },
        }
    }
}

/// The number of empty slots.
pub open spec fn count_none(s: Seq<Option<ChildRef>>) -> nat
    decreases s.len(),
{
    if s.len() == 0 {
        0
    } else {
        count_none(s.drop_last()) + if s.last() is None { 1nat } else { 0nat }
    }
}

/// Filling an empty slot leaves one empty slot fewer.
proof fn lemma_count_none_fill(s: Seq<Option<ChildRef>>, k: int, r: ChildRef)
    requires
        0 <= k < s.len(),
        s[k] is None,
    ensures
        count_none(s) >= 1,
        count_none(s.update(k, Some(r))) == count_none(s) - 1,
    decreases s.len(),
{
    let u = s.update(k, Some(r));
    if k == s.len() - 1 {
        assert(u.drop_last() =~= s.drop_last());
    } else {
        assert(u.drop_last() =~= s.drop_last().update(k, Some(r)));
        lemma_count_none_fill(s.drop_last(), k, r);
    }
}

/// A sequence of slots that are all empty has as many empty slots as slots.
proof fn lemma_count_none_all(s: Seq<Option<ChildRef>>)
    requires
        forall|j: int| 0 <= j < s.len() ==> (#[trigger] s[j]) is None,
    ensures
        count_none(s) == s.len(),
    decreases s.len(),
{
    if s.len() > 0 {
        lemma_count_none_all(s.drop_last());
    }
}

/// The pending counts and slots of a schedule of `nodes` after the nodes of
/// `order` completed, in that order, the `t`-th one written at `refs[t]`: each
/// completion fills the node's slot in its parent and drops the parent's count
/// by one (wrapping at zero), as `Schedule::complete` does; the counts and
/// slots start as `Schedule::new` sets them.
pub open spec fn completions<J>(nodes: Seq<Node<J>>, order: Seq<int>, refs: Seq<ChildRef>) -> (
    Seq<usize>,
    Seq<Seq<Option<ChildRef>>>,
)
    decreases order.len(),
{
    if order.len() == 0 {
        (
            Seq::new(nodes.len(), |i: int| nodes[i].atomic_deps),
            Seq::new(nodes.len(), |i: int| nodes[i].completed_children@),
        )
    } else {
        let (rem, slots) = completions(nodes, order.drop_last(), refs);
        match parent_link(nodes[order.last()]) {
            Some((p, sl)) => if p < rem.len() && sl < slots[p as int].len() {
                (
                    rem.update(p as int, rem[p as int].wrapping_sub(1)),
                    slots.update(p as int, slots[p as int].update(sl as int, Some(refs[order.len() - 1]))),
                )
            } else {
                (rem, slots)
            },
            None => (rem, slots),
        }
    }
}

/// When the nodes of a well-formed graph complete, each at most once, every
/// node's pending count stays equal to its number of empty slots, and each
/// completed node's reference sits in its slot of its parent. So a parent is
/// released (its count reaches zero) exactly when every child has stored its
/// reference, and never earlier.
pub proof fn lemma_completions_count<J>(nodes: Seq<Node<J>>, order: Seq<int>, refs: Seq<ChildRef>)
    requires
        crate::graph::nodes_wf(nodes),
        refs.len() == order.len(),
        forall|t: int| 0 <= t < order.len() ==> 0 <= #[trigger] order[t] < nodes.len(),
        forall|t: int, u: int| 0 <= t < u < order.len() ==> #[trigger] order[t] != #[trigger] order[u],
    ensures
        ({
            let (rem, slots) = completions(nodes, order, refs);
            &&& rem.len() == nodes.len() && slots.len() == nodes.len()
            &&& forall|p: int| 0 <= p < nodes.len() ==> #[trigger] slots[p].len() == nodes[p].completed_children@.len()
            &&& forall|p: int| 0 <= p < nodes.len() ==> #[trigger] rem[p] == count_none(slots[p])
            &&& forall|t: int| 0 <= t < order.len() && (#[trigger] nodes[order[t]]).parent is Some ==> slots[nodes[order[t]].parent.unwrap().value() as int][nodes[order[t]].parent_slot.unwrap() as int] == Some(refs[t])
            &&& forall|p: int, j: int| 0 <= p < nodes.len() && 0 <= j < slots[p].len() && (#[trigger] slots[p][j]) is Some ==> exists|t: int|
                0 <= t < order.len() && #[trigger] parent_link(nodes[order[t]]) == Some((p as usize, j as usize))
        }),
    decreases order.len(),
{
    let n = nodes.len() as int;
    if order.len() == 0 {
        let (rem, slots) = completions(nodes, order, refs);
        assert forall|p: int| 0 <= p < n implies #[trigger] rem[p] == count_none(slots[p]) by {
            assert forall|j: int| 0 <= j < slots[p].len() implies (#[trigger] slots[p][j]) is None by {
                assert(nodes[p].completed_children@[j] is None);
            }
            lemma_count_none_all(slots[p]);
        }
    } else {
        let o2 = order.drop_last();
        let r2 = refs.drop_last();
        assert forall|t: int| 0 <= t < o2.len() implies 0 <= #[trigger] o2[t] < nodes.len() by {
            assert(o2[t] == order[t]);
        }
        assert forall|t: int, u: int| 0 <= t < u < o2.len() implies #[trigger] o2[t] != #[trigger] o2[u] by {
            assert(o2[t] == order[t] && o2[u] == order[u]);
        }
        lemma_completions_count(nodes, o2, r2);
        assert(completions(nodes, o2, refs) == completions(nodes, o2, r2)) by {
            lemma_completions_prefix_refs(nodes, o2, refs, r2);
        }
        let (rem0, slots0) = completions(nodes, o2, refs);
        let (rem, slots) = completions(nodes, order, refs);
        let i = order.last();
        let last = order.len() - 1;
        assert(order[last] == i);
        if nodes[i].parent is Some {
            let p = nodes[i].parent.unwrap().value() as int;
            let sl = nodes[i].parent_slot.unwrap() as int;
            assert(parent_link(nodes[i]) == Some((p as usize, sl as usize)));
            assert(0 <= p < n && sl < slots0[p].len());
            assert(slots0[p][sl] is None) by {
                if slots0[p][sl] is Some {
                    let t = choose|t: int| 0 <= t < o2.len() && #[trigger] parent_link(nodes[o2[t]]) == Some((p as usize, sl as usize));
                    let c = o2[t];
                    assert(c == order[t]);
                    assert(c != i);
                    assert(nodes[c].parent is Some);
                }
            }
            lemma_count_none_fill(slots0[p], sl, refs[last]);
            assert forall|t: int| 0 <= t < order.len() && (#[trigger] nodes[order[t]]).parent is Some implies slots[nodes[order[t]].parent.unwrap().value() as int][nodes[order[t]].parent_slot.unwrap() as int] == Some(refs[t]) by {
                if t < last {
                    let c = order[t];
                    assert(o2[t] == c);
                    assert(c != i);
                    if nodes[c].parent.unwrap().value() == p {
                        assert(nodes[c].parent_slot != nodes[i].parent_slot);
                    }
                }
            }
            assert forall|q: int, j: int| 0 <= q < n && 0 <= j < slots[q].len() && (#[trigger] slots[q][j]) is Some implies exists|t: int|
                0 <= t < order.len() && #[trigger] parent_link(nodes[order[t]]) == Some((q as usize, j as usize)) by {
                if q == p && j == sl {
                    assert(parent_link(nodes[order[last]]) == Some((q as usize, j as usize)));
                } else {
                    assert(slots0[q][j] is Some);
                    let t = choose|t: int| 0 <= t < o2.len() && #[trigger] parent_link(nodes[o2[t]]) == Some((q as usize, j as usize));
                    assert(o2[t] == order[t]);
                }
            }
        } else {
            assert(parent_link(nodes[i]) is None);
            assert forall|t: int| 0 <= t < order.len() && (#[trigger] nodes[order[t]]).parent is Some implies slots[nodes[order[t]].parent.unwrap().value() as int][nodes[order[t]].parent_slot.unwrap() as int] == Some(refs[t]) by {
                assert(o2[t] == order[t]);
            }
            assert forall|q: int, j: int| 0 <= q < n && 0 <= j < slots[q].len() && (#[trigger] slots[q][j]) is Some implies exists|t: int|
                0 <= t < order.len() && #[trigger] parent_link(nodes[order[t]]) == Some((q as usize, j as usize)) by {
                let t = choose|t: int| 0 <= t < o2.len() && #[trigger] parent_link(nodes[o2[t]]) == Some((q as usize, j as usize));
                assert(o2[t] == order[t]);
            }
        }
    }
}

/// The counts and slots after a sequence of completions depend only on the
/// references of those completions.
proof fn lemma_completions_prefix_refs<J>(nodes: Seq<Node<J>>, order: Seq<int>, a: Seq<ChildRef>, b: Seq<ChildRef>)
    requires
        order.len() <= a.len(),
        order.len() <= b.len(),
        forall|t: int| 0 <= t < order.len() ==> a[t] == b[t],
    ensures
        completions(nodes, order, a) == completions(nodes, order, b),
    decreases order.len(),
{
    if order.len() > 0 {
        lemma_completions_prefix_refs(nodes, order.drop_last(), a, b);
    }
}

} // verus!
