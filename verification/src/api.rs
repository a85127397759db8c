//! The entry points: writing a task graph as a file, opening a file, and
//! inspecting one.
//!
//! Building the task graph of an object (visiting it) and moving bytes to and
//! from files are done by the caller; this module turns a graph into the bytes
//! of a file and bytes into an open file.

use crate::compression::{Compressor, CompressorRegistry};
use crate::error::Result;
use crate::executor::{
    effective_compression, execute_graph_sync, initial_state, selected_algo, spec_chunk, spec_execute_graph,
    spec_run, spec_step,
};
use crate::format::{GlobalHeader, FORMAT_VERSION, MAGIC_BYTES};
use crate::graph::{Node, SerializationJob, TaskGraph};
use crate::visitor_impls::expand_runs;
use crate::inspector::{DebugReport, ParcodeInspector};
use crate::io::SeqWriter;
use crate::reader::ParcodeFile;
use vstd::prelude::*;

verus! {

/// The registry that writing uses: a default one (identity under id 0, LZ4 under id 1).
pub open spec fn write_registry() -> CompressorRegistry<Box<dyn Compressor>> {
    choose|r: CompressorRegistry<Box<dyn Compressor>>| r.is_default()
}

/// The header bytes pointing at a root chunk.
pub open spec fn header_bytes(root_offset: u64, root_length: u64) -> Seq<u8> {
    GlobalHeader { magic: MAGIC_BYTES, version: FORMAT_VERSION, root_offset, root_length, checksum: 0 }.spec_to_bytes()
}

/// The bytes of the file written for a graph of `nodes`: the chunks, then the
/// header pointing at the root chunk; `None` where the write fails.
pub open spec fn spec_file_bytes<'a, J: SerializationJob<'a>>(nodes: Seq<Node<J>>, use_compression: bool) -> Option<Seq<u8>> {
    match spec_execute_graph(nodes, write_registry(), use_compression, Seq::empty()) {
        Some(s) => Some(s.out + header_bytes(s.root.unwrap().offset, s.root.unwrap().length)),
        None => None,
    }
}

/// Two default registries compress alike.
proof fn lemma_default_chunk<'a, J: SerializationJob<'a>>(
    job: J,
    cs: Seq<crate::format::ChildRef>,
    a: CompressorRegistry<Box<dyn Compressor>>,
    b: CompressorRegistry<Box<dyn Compressor>>,
    use_compression: bool,
)
    requires
        a.is_default(),
        b.is_default(),
    ensures
        spec_chunk(job, cs, a, use_compression) == spec_chunk(job, cs, b, use_compression),
{
    let id = effective_compression(job.spec_config(), use_compression);
    assert(a.has(id) == b.has(id)) by {
        if 2 <= id < 8 {
        }
    }
    let sel = selected_algo(a, id);
    assert(sel == selected_algo(b, id));
    match job.spec_execute(cs) {
        Some(payload) => {
            assert(sel == 0 || sel == 1);
            assert(a.algo(sel).spec_compress(payload) == b.algo(sel).spec_compress(payload));
        },
        None => {},
    }
}

/// Running a graph does not depend on which default registry is used.
proof fn lemma_default_run<'a, J: SerializationJob<'a>>(
    nodes: Seq<Node<J>>,
    a: CompressorRegistry<Box<dyn Compressor>>,
    b: CompressorRegistry<Box<dyn Compressor>>,
    use_compression: bool,
    k: int,
    init: crate::executor::WriteState,
)
    requires
        a.is_default(),
        b.is_default(),
    ensures
        spec_run(nodes, a, use_compression, k, init) == spec_run(nodes, b, use_compression, k, init),
    decreases nodes.len() - k,
{
    if 0 <= k < nodes.len() {
        lemma_default_run(nodes, a, b, use_compression, k + 1, init);
        match spec_run(nodes, a, use_compression, k + 1, init) {
            Some(s) => {
                let cs = crate::executor::unwrap_all(s.slots[k]);
                lemma_default_chunk(nodes[k].job, cs, a, b, use_compression);
                assert(spec_step(nodes, a, use_compression, k, s) == spec_step(nodes, b, use_compression, k, s));
            },
            None => {},
        }
    }
}

/// The main entry point.
#[derive(Debug)]
pub struct Parcode;

impl Parcode {
    /// Creates the options builder, with compression disabled.
    pub fn builder() -> (r: ParcodeOptions)
        ensures
            !r.spec_use_compression(),
    {
        ParcodeOptions::default()
    }

    /// Opens a file held in memory; it fails with a format error exactly when
    /// the bytes do not end with a valid global header.
    pub fn open_bytes(data: Vec<u8>) -> (r: Result<ParcodeFile>)
        ensures
            r is Ok <==> crate::reader::spec_header(data@) is Some,
            r matches Ok(f) ==> f.bytes() == data@,
            r matches Err(e) ==> e is Format,
    {
        ParcodeFile::from_bytes(data)
    }

    /// Builds the structural report of a file held in memory.
    pub fn inspect_bytes(data: Vec<u8>) -> (r: Result<DebugReport>)
        ensures
            r is Ok <==> (crate::reader::spec_header(data@) matches Some(h) && crate::inspector::reportable(
                data@,
                h.root_offset,
                h.root_length,
                crate::inspector::depth_budget(data@.len()),
            )),
            r matches Ok(rep) ==> rep.file_size == data@.len() && rep.global_version == 4
                && crate::inspector::tree_complete(rep.tree),
            r matches Ok(rep) ==> (crate::reader::spec_header(data@) matches Some(h) && rep.root_offset == h.root_offset
                && rep.tree.offset == h.root_offset && rep.tree.total_length == h.root_length),
            r matches Err(e) ==> e is Format,
    {
        let file = ParcodeFile::from_bytes(data)?;
        ParcodeInspector::inspect_file(&file)
    }
}

/// Options of a write.
#[derive(Debug)]
pub struct ParcodeOptions {
    /// Whether chunks that ask for the default algorithm are compressed with LZ4.
    use_compression: bool,
}

impl Default for ParcodeOptions {
    fn default() -> (r: Self)
        ensures
            !r.spec_use_compression(),
    {
        ParcodeOptions { use_compression: false }
    }
}

impl ParcodeOptions {
    /// Whether compression is enabled.
    pub closed spec fn spec_use_compression(&self) -> bool {
        self.use_compression
    }

    /// Whether compression is enabled.
    pub fn use_compression(&self) -> (r: bool)
        ensures
            r == self.spec_use_compression(),
    {
        self.use_compression
    }

    /// Enables or disables compression for all chunks that ask for the default algorithm.
    pub fn compression(self, enable: bool) -> (r: Self)
        ensures
            r.spec_use_compression() == enable,
    {
        let mut s = self;
        s.use_compression = enable;
        s
    }

    /// Writes a task graph as the bytes of a file: executes the graph on one
    /// thread, chunks first, then appends the global header pointing at the
    /// root chunk. It succeeds exactly when `spec_file_bytes` is defined, and
    /// returns those bytes.
    pub fn serialize_graph<'a, J: SerializationJob<'a>>(&self, graph: &mut TaskGraph<J>) -> (r: Result<Vec<u8>>)
        requires
            old(graph).wf(),
        ensures
            r matches Ok(bytes) ==> spec_file_bytes(old(graph).spec_nodes(), self.spec_use_compression()) == Some(bytes@),
            r is Ok <==> spec_file_bytes(old(graph).spec_nodes(), self.spec_use_compression()) is Some,
    {
        let registry = CompressorRegistry::new();
        let ghost nodes = graph.spec_nodes();
        proof {
            let init = initial_state(nodes, Seq::<u8>::empty());
            lemma_default_run(nodes, registry, write_registry(), self.use_compression, 0, init);
        }
        let mut writer = SeqWriter::new();
        let root = execute_graph_sync(graph, &mut writer, &registry, self.use_compression)?;
        let header = GlobalHeader::new(root.offset, root.length);
        let bytes = header.to_bytes();
        proof {
            assert(MAGIC_BYTES@ =~= crate::format::magic_seq());
            assert(header.spec_to_bytes() =~= header_bytes(root.offset, root.length));
        }
        writer.write_all(&bytes)?;
        writer.flush()?;
        Ok(writer.into_bytes())
    }
}

/// A file written for a well-formed graph opens, and its header points at the
/// chunk of a node without parent; every node's reference in the file holds
/// the chunk its job produced from the references of its children, each
/// child's reference in the child's slot. Together with
/// `lemma_node_chunk_layout`, reading any chunk gives back what its job
/// serialized.
pub proof fn lemma_serialized_file_readback<'a, J: SerializationJob<'a>>(nodes: Seq<Node<J>>, use_compression: bool)
    requires
        crate::graph::nodes_wf(nodes),
        spec_file_bytes(nodes, use_compression) is Some,
        spec_file_bytes(nodes, use_compression).unwrap().len() <= u64::MAX,
    ensures
        ({
            let bytes = spec_file_bytes(nodes, use_compression).unwrap();
            let s = spec_execute_graph(nodes, write_registry(), use_compression, Seq::empty()).unwrap();
            &&& crate::reader::spec_header(bytes) matches Some(h) && Some(crate::format::ChildRef {
                offset: h.root_offset,
                length: h.root_length,
            }) == s.root
            &&& exists|i: int| 0 <= i < nodes.len() && nodes[i].parent is None && #[trigger] s.refs[i] == s.root
            &&& forall|i: int| 0 <= i < nodes.len() ==> (#[trigger] s.refs[i] matches Some(r)
                && crate::readback::tree_chunk_of_node(nodes, write_registry(), use_compression, bytes, s.refs, i, r))
        }),
{
    let s = spec_execute_graph(nodes, write_registry(), use_compression, Seq::empty()).unwrap();
    let root = s.root.unwrap();
    assert(header_bytes(root.offset, root.length).len() == 26) by {
        vstd::bytes::lemma_auto_spec_u16_to_from_le_bytes();
        vstd::bytes::lemma_auto_spec_u32_to_from_le_bytes();
        vstd::bytes::lemma_auto_spec_u64_to_from_le_bytes();
    }
    crate::readback::lemma_written_file_readback(nodes, write_registry(), use_compression, Seq::empty());
    assert(crate::reader::spec_header(s.out + header_bytes(root.offset, root.length)) matches Some(h)
        && h.root_offset == root.offset && h.root_length == root.length);
}

/// Every file written for a well-formed graph can be inspected: its header is
/// valid and the whole tree below the root can be walked, every child lying
/// before its parent, so that `ParcodeInspector::inspect` succeeds on it. This holds as long as no node
/// has more children than a children table can count.
pub proof fn lemma_serialized_file_inspectable<'a, J: SerializationJob<'a>>(nodes: Seq<Node<J>>, use_compression: bool)
    requires
        crate::graph::nodes_wf(nodes),
        spec_file_bytes(nodes, use_compression) is Some,
        spec_file_bytes(nodes, use_compression).unwrap().len() <= u64::MAX,
        forall|i: int| 0 <= i < nodes.len() ==> #[trigger] nodes[i].completed_children@.len() <= u32::MAX,
    ensures
        ({
            let bytes = spec_file_bytes(nodes, use_compression).unwrap();
            crate::reader::spec_header(bytes) matches Some(h) && crate::inspector::walkable(
                bytes,
                h.root_offset,
                h.root_length,
            ) && crate::inspector::reportable(
                bytes,
                h.root_offset,
                h.root_length,
                crate::inspector::depth_budget(bytes.len()),
            )
        }),
{
    let s = spec_execute_graph(nodes, write_registry(), use_compression, Seq::empty()).unwrap();
    let root = s.root.unwrap();
    assert(header_bytes(root.offset, root.length).len() == 26) by {
        vstd::bytes::lemma_auto_spec_u16_to_from_le_bytes();
        vstd::bytes::lemma_auto_spec_u32_to_from_le_bytes();
        vstd::bytes::lemma_auto_spec_u64_to_from_le_bytes();
    }
    crate::readback::lemma_written_file_walkable(nodes, write_registry(), use_compression, Seq::empty());
    let bytes = spec_file_bytes(nodes, use_compression).unwrap();
    let len = bytes.len();
    assert(root.offset < len);
    assert(len <= len * len) by (nonlinear_arith)
        requires
            len >= 1,
    ;
    crate::inspector::lemma_walkable_reportable(bytes, root.offset, root.length, crate::inspector::depth_budget(len));
}

/// Reading any node of a written file gives back what its job serialized:
/// the chunk opened at the node's reference holds that payload (compressed as
/// the write chose), and its children table lists, in each child's slot, the
/// reference of that child's chunk.
pub proof fn lemma_node_reads_back<'a, 'b, J: SerializationJob<'a>>(
    nodes: Seq<Node<J>>,
    use_compression: bool,
    file: ParcodeFile,
    i: int,
    node: crate::reader::ChunkNode<'b>,
)
    requires
        crate::graph::nodes_wf(nodes),
        spec_file_bytes(nodes, use_compression) is Some,
        spec_file_bytes(nodes, use_compression).unwrap().len() <= u64::MAX,
        forall|a: int| 0 <= a < nodes.len() ==> #[trigger] nodes[a].completed_children@.len() <= u32::MAX,
        file.bytes() == spec_file_bytes(nodes, use_compression).unwrap(),
        file.spec_registry().is_default(),
        0 <= i < nodes.len(),
        ({
            let s = spec_execute_graph(nodes, write_registry(), use_compression, Seq::empty()).unwrap();
            node.is_chunk_of(&file, s.refs[i].unwrap().offset, s.refs[i].unwrap().length)
        }),
    ensures
        ({
            let s = spec_execute_graph(nodes, write_registry(), use_compression, Seq::empty()).unwrap();
            exists|cs: Seq<crate::format::ChildRef>|
                #![trigger nodes[i].job.spec_execute(cs)]
                nodes[i].job.spec_execute(cs) is Some
                    && node.holds(nodes[i].job.spec_execute(cs).unwrap()) && cs.len() == node.spec_child_count()
                    && (forall|j: int| 0 <= j < cs.len() ==> #[trigger] node.spec_child(j) == cs[j])
                    && (forall|c: int|
                    0 <= c < nodes.len() && #[trigger] crate::readback::is_child_of(nodes, c, i) ==> s.refs[c]
                        == Some(node.spec_child(nodes[c].parent_slot.unwrap() as int)))
        }),
{
    let bytes = spec_file_bytes(nodes, use_compression).unwrap();
    let s = spec_execute_graph(nodes, write_registry(), use_compression, Seq::empty()).unwrap();
    lemma_serialized_file_readback(nodes, use_compression);
    let r = s.refs[i].unwrap();
    assert(s.refs[i] matches Some(q) && crate::readback::tree_chunk_of_node(
        nodes,
        write_registry(),
        use_compression,
        bytes,
        s.refs,
        i,
        q,
    ));
    crate::readback::lemma_node_chunk_layout(nodes, write_registry(), use_compression, bytes, s.refs, i, r);
    let cs = choose|cs: Seq<crate::format::ChildRef>| {
        let id = selected_algo(write_registry(), effective_compression(nodes[i].job.spec_config(), use_compression));
        let payload = nodes[i].job.spec_execute(cs).unwrap();
        &&& cs.len() == nodes[i].completed_children@.len()
        &&& #[trigger] nodes[i].job.spec_execute(cs) is Some
        &&& crate::reader::spec_chunk_layout(bytes, r.offset, r.length) matches Some(l)
            && l.child_count == cs.len()
            && l.meta == crate::format::meta_byte_value(cs.len() > 0, id)
            && write_registry().algo(id).spec_compress(payload) == Some(bytes.subrange(r.offset as int, l.payload_end))
            && forall|j: int| 0 <= j < cs.len() ==> #[trigger] crate::reader::spec_child_ref(bytes, l.payload_end, j) == cs[j]
        &&& forall|c: int| 0 <= c < nodes.len() && #[trigger] crate::readback::is_child_of(nodes, c, i) ==> s.refs[c] == Some(
            cs[nodes[c].parent_slot.unwrap() as int],
        )
    };
    let id = selected_algo(write_registry(), effective_compression(nodes[i].job.spec_config(), use_compression));
    let payload = nodes[i].job.spec_execute(cs).unwrap();
    let wr = write_registry();
    assert(wr.is_default()) by {
        assert(file.spec_registry().is_default());
    }
    assert(id == 0 || id == 1);
    crate::format::lemma_meta_byte_fields(cs.len() > 0, id);
    assert(id & 7u8 == id) by (bit_vector)
        requires
            id < 2,
    ;
    let l = crate::reader::spec_chunk_layout(bytes, r.offset, r.length).unwrap();
    assert(node.spec_meta().byte() == l.meta);
    assert(node.spec_meta().spec_compression_method() == id);
    assert(file.spec_registry().algo(id).spec_compress(payload) == wr.algo(id).spec_compress(payload));
    assert(node.holds(payload));
    assert forall|c: int| 0 <= c < nodes.len() && #[trigger] crate::readback::is_child_of(nodes, c, i) implies s.refs[c]
        == Some(node.spec_child(nodes[c].parent_slot.unwrap() as int)) by {
        let j = nodes[c].parent_slot.unwrap() as int;
        assert(0 <= j < cs.len());
        assert(crate::reader::spec_child_ref(bytes, l.payload_end, j) == cs[j]);
    }
}

/// Reading the root of a written file gives back what a root job serialized:
/// the root node opened on the file holds that payload (compressed as the
/// write chose), and its children table lists, in each child's slot, the
/// reference of that child's chunk.
pub proof fn lemma_root_reads_back<'a, 'b, J: SerializationJob<'a>>(
    nodes: Seq<Node<J>>,
    use_compression: bool,
    file: ParcodeFile,
    root: crate::reader::ChunkNode<'b>,
)
    requires
        crate::graph::nodes_wf(nodes),
        spec_file_bytes(nodes, use_compression) is Some,
        spec_file_bytes(nodes, use_compression).unwrap().len() <= u64::MAX,
        forall|i: int| 0 <= i < nodes.len() ==> #[trigger] nodes[i].completed_children@.len() <= u32::MAX,
        file.bytes() == spec_file_bytes(nodes, use_compression).unwrap(),
        file.spec_registry().is_default(),
        root.is_chunk_of(&file, file.spec_header().root_offset, file.spec_header().root_length),
        Some(file.spec_header()) == crate::reader::spec_header(file.bytes()),
    ensures
        ({
            let s = spec_execute_graph(nodes, write_registry(), use_compression, Seq::empty()).unwrap();
            exists|i: int, cs: Seq<crate::format::ChildRef>|
                #![trigger nodes[i].job.spec_execute(cs)]
                0 <= i < nodes.len() && nodes[i].parent is None && nodes[i].job.spec_execute(cs) is Some
                    && root.holds(nodes[i].job.spec_execute(cs).unwrap()) && cs.len() == root.spec_child_count()
                    && (forall|j: int| 0 <= j < cs.len() ==> #[trigger] root.spec_child(j) == cs[j])
                    && (forall|c: int|
                    0 <= c < nodes.len() && #[trigger] crate::readback::is_child_of(nodes, c, i) ==> s.refs[c]
                        == Some(root.spec_child(nodes[c].parent_slot.unwrap() as int)))
        }),
{
    let s = spec_execute_graph(nodes, write_registry(), use_compression, Seq::empty()).unwrap();
    lemma_serialized_file_readback(nodes, use_compression);
    let r = s.root.unwrap();
    assert(r.offset == file.spec_header().root_offset && r.length == file.spec_header().root_length);
    let i = choose|i: int| 0 <= i < nodes.len() && nodes[i].parent is None && #[trigger] s.refs[i] == s.root;
    lemma_node_reads_back(nodes, use_compression, file, i, root);
}

/// A vector written as a container and its shards (`add_vector_nodes` on an
/// empty graph, with the container payload of `n` items cut every `k`) reads
/// back by item: the root holds the container payload, which locates item `i`
/// at position `i % k` of shard `i / k`; the root's children table lists that
/// shard's chunk, which can be opened, in entry `i / k`, where the write put
/// the chunk of the node holding shard `i / k`.
pub proof fn lemma_vector_file_locates<'a, 'b, J: SerializationJob<'a>>(
    g: Seq<Node<J>>,
    container: J,
    shards: Seq<J>,
    id: crate::graph::ChunkId,
    ids: Seq<crate::graph::ChunkId>,
    runs: Seq<crate::visitor_impls::ShardRun>,
    n: u64,
    k: nat,
    use_compression: bool,
    file: ParcodeFile,
    root: crate::reader::ChunkNode<'b>,
    i: int,
)
    requires
        crate::visitor_impls::vector_nodes_added(Seq::empty(), g, None, container, shards, id, ids),
        forall|cs: Seq<crate::format::ChildRef>| #[trigger] container.spec_execute(cs) == Some(
            crate::visitor_impls::container_payload(n, runs),
        ),
        1 <= k <= u32::MAX,
        expand_runs(crate::visitor_impls::runs_pairs(runs)) == crate::visitor_impls::stored_sizes(n as nat, k),
        runs.len() <= usize::MAX,
        shards.len() == expand_runs(crate::visitor_impls::runs_pairs(runs)).len(),
        0 <= i < n,
        crate::graph::nodes_wf(g),
        spec_file_bytes(g, use_compression) is Some,
        spec_file_bytes(g, use_compression).unwrap().len() <= u64::MAX,
        file.bytes() == spec_file_bytes(g, use_compression).unwrap(),
        file.spec_registry().is_default(),
        root.is_chunk_of(&file, file.spec_header().root_offset, file.spec_header().root_length),
        Some(file.spec_header()) == crate::reader::spec_header(file.bytes()),
    ensures
        ({
            let s = spec_execute_graph(g, write_registry(), use_compression, Seq::empty()).unwrap();
            let x = crate::visitor_impls::container_payload(n, runs);
            let sh = i / (k as int);
            &&& root.holds(x)
            &&& crate::collection::item_location(x, i) == Some((sh, i % (k as int)))
            &&& sh < shards.len() == root.spec_child_count()
            &&& s.refs[1 + sh] == Some(root.spec_child(sh))
            &&& g[1 + sh].job == shards[sh]
            &&& crate::reader::spec_chunk_layout(file.bytes(), root.spec_child(sh).offset, root.spec_child(sh).length) is Some
            &&& crate::inspector::spec_payload_kind(x, root.spec_child_count()) == (
            crate::inspector::PayloadKind::VecContainer {
                total_items: n,
                shards: (root.spec_child_count() as nat % 0x1_0000_0000) as u32,
            })
        }),
{
    let bytes = spec_file_bytes(g, use_compression).unwrap();
    let s = spec_execute_graph(g, write_registry(), use_compression, Seq::empty()).unwrap();
    let x = crate::visitor_impls::container_payload(n, runs);
    let sh = i / (k as int);
    assert forall|a: int| 0 <= a < g.len() implies #[trigger] g[a].completed_children@.len() <= u32::MAX by {
        if a > 0 {
            let j = a - 1;
            assert(ids[j].value() == 1 + j);
        }
    }
    lemma_root_reads_back(g, use_compression, file, root);
    let (r0, cs0) = choose|r0: int, cs: Seq<crate::format::ChildRef>|
        #![trigger g[r0].job.spec_execute(cs)]
        0 <= r0 < g.len() && g[r0].parent is None && g[r0].job.spec_execute(cs) is Some
            && root.holds(g[r0].job.spec_execute(cs).unwrap()) && cs.len() == root.spec_child_count()
            && (forall|j: int| 0 <= j < cs.len() ==> #[trigger] root.spec_child(j) == cs[j])
            && (forall|c: int|
            0 <= c < g.len() && #[trigger] crate::readback::is_child_of(g, c, r0) ==> s.refs[c]
                == Some(root.spec_child(g[c].parent_slot.unwrap() as int)));
    assert(r0 == 0) by {
        if r0 > 0 {
            let j = r0 - 1;
            assert(ids[j].value() == 1 + j);
        }
    }
    assert(container.spec_execute(cs0) == Some(x));
    crate::collection::lemma_container_locates(runs, n, k, i);
    crate::inspector::lemma_vector_kind_counts_shards(x, root.spec_child_count());
    crate::collection::lemma_built_runs_locate(crate::visitor_impls::runs_pairs(runs), n as nat, k, i);
    assert(ids[sh].value() == 1 + sh);
    let c = 1 + sh;
    assert(crate::readback::is_child_of(g, c, 0));
    lemma_serialized_file_readback(g, use_compression);
    assert(s.refs[c] matches Some(q) && crate::readback::tree_chunk_of_node(
        g,
        write_registry(),
        use_compression,
        bytes,
        s.refs,
        c,
        q,
    ));
    crate::readback::lemma_node_chunk_layout(g, write_registry(), use_compression, bytes, s.refs, c, s.refs[c].unwrap());
    let r = s.root.unwrap();
    let i0 = choose|i0: int| 0 <= i0 < g.len() && g[i0].parent is None && #[trigger] s.refs[i0] == s.root;
    assert(i0 == 0) by {
        if i0 > 0 {
            let j = i0 - 1;
            assert(ids[j].value() == 1 + j);
        }
    }
    assert(s.refs[0] matches Some(q) && crate::readback::tree_chunk_of_node(
        g,
        write_registry(),
        use_compression,
        bytes,
        s.refs,
        0,
        q,
    ));
    crate::readback::lemma_node_chunk_layout(g, write_registry(), use_compression, bytes, s.refs, 0, r);
    assert(r.offset == file.spec_header().root_offset && r.length == file.spec_header().root_length);
}

} // verus!
