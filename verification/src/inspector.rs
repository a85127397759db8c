//! Structural inspection of files, for debugging sharding strategies.
//!
//! The inspector walks the chunk tree from the root and reports, for each
//! chunk, its position, sizes, compression algorithm and what its payload
//! looks like (a vector container, a map container, a plain blob...).

use crate::codec::{bincode_decode_runs, parse_runs};
use crate::error::{ParcodeError, Result};
use crate::reader::{spec_chunk_layout, ChunkNode, ParcodeFile};
use crate::text::{decimal, spec_decimal};
use vstd::bytes::*;
use vstd::prelude::*;
use vstd::string::StringExecFns;

verus! {

broadcast use vstd::seq_lib::group_seq_properties;

/// A structural report of a file.
#[derive(Debug)]
pub struct DebugReport {
    /// Total size of the file.
    pub file_size: u64,
    /// Offset where the root chunk starts.
    pub root_offset: u64,
    /// Format version.
    pub global_version: u16,
    /// The tree of chunks, from the root.
    pub tree: ChunkInfo,
}

/// Metadata of a single chunk of the tree.
#[derive(Debug)]
pub struct ChunkInfo {
    /// Absolute offset.
    pub offset: u64,
    /// Total chunk length (payload, children table and meta byte).
    pub total_length: u64,
    /// Size of the stored payload.
    pub payload_size: u64,
    /// Number of children.
    pub child_count: u32,
    /// Name of the compression algorithm.
    pub compression_algo: String,
    /// Whether the chunk is flagged as having children.
    pub is_chunkable: bool,
    /// What the payload looks like ("Vec Container", "Map Container", "Leaf/Blob"...).
    pub node_type_hint: String,
    /// Extra information on how the data is distributed (number of shards...).
    pub distribution_info: Option<String>,
    /// The children, in the order of the children table.
    pub children: Vec<ChunkInfo>,
}

/// The connector drawn before a chunk: a corner for the last child, a tee otherwise.
pub open spec fn connector_text(is_last: bool) -> Seq<char> {
    if is_last {
        "\u{2514}\u{2500}\u{2500} "@
    } else {
        "\u{251c}\u{2500}\u{2500} "@
    }
}

/// What the lines of the children of a chunk start with, after the chunk's own prefix.
pub open spec fn child_prefix_text(is_last: bool) -> Seq<char> {
    if is_last {
        "    "@
    } else {
        "\u{2502}   "@
    }
}

/// The distribution suffix of a chunk's line, when it has one.
pub open spec fn distribution_suffix(d: Option<String>) -> Seq<char> {
    match d {
        Some(t) => " ["@ + t@ + "]"@,
        None => Seq::empty(),
    }
}

/// The line that describes one chunk, drawn after `prefix`.
pub open spec fn render_line(info: ChunkInfo, prefix: Seq<char>, is_last: bool) -> Seq<char> {
    prefix + connector_text(is_last) + "["@ + info.node_type_hint@ + "] Size: "@ + spec_decimal(
        info.payload_size as nat,
    ) + "b | Algo: "@ + info.compression_algo@ + " | Children: "@ + spec_decimal(info.child_count as nat)
        + distribution_suffix(info.distribution_info) + "\n"@
}

/// The drawing of a chunk and, indented below it, of its children, the last
/// child with a corner.
pub open spec fn render(info: ChunkInfo, prefix: Seq<char>, is_last: bool) -> Seq<char>
    decreases info, 0nat,
{
    render_line(info, prefix, is_last) + render_children(
        info.children@,
        prefix + child_prefix_text(is_last),
        info.children@.len(),
    )
}

/// The drawings of the first `m` chunks of `kids`, one after the other, each
/// after `prefix`; the last of `kids` is drawn with a corner.
pub open spec fn render_children(kids: Seq<ChunkInfo>, prefix: Seq<char>, m: nat) -> Seq<char>
    decreases kids, m,
{
    if m == 0 || m > kids.len() {
        Seq::empty()
    } else {
        render_children(kids, prefix, (m - 1) as nat) + render(kids[m - 1], prefix, m == kids.len())
    }
}

impl DebugReport {
    /// The text of the report: a title, the root offset and the tree of chunks.
    pub fn to_string(&self) -> (r: String)
        ensures
            r@ == "=== PARCODE INSPECTOR REPORT ===\n"@ + "Root Offset:    "@ + spec_decimal(self.root_offset as nat)
                + "\n[GRAPH LAYOUT]\n"@ + render(self.tree, Seq::empty(), true),
    {
        let mut out = String::from_str("=== PARCODE INSPECTOR REPORT ===\n");
        out.append("Root Offset:    ");
        let o = decimal(self.root_offset);
        out.append(o.as_str());
        out.append("\n[GRAPH LAYOUT]\n");
        let empty = "";
        proof {
            reveal_strlit("");
        }
        let tree = self.tree.fmt_recursive(empty, true);
        out.append(tree.as_str());
        out
    }
}

impl ChunkInfo {
    /// Renders this chunk as one line of a tree drawn after `prefix`, then its
    /// children below it, indented; `is_last` tells whether the chunk is the
    /// last child of its parent.
    pub fn fmt_recursive(&self, prefix: &str, is_last: bool) -> (r: String)
        ensures
            r@ == render(*self, prefix@, is_last),
        decreases self,
    {
        let connector = if is_last { "\u{2514}\u{2500}\u{2500} " } else { "\u{251c}\u{2500}\u{2500} " };
        let child_prefix = if is_last { "    " } else { "\u{2502}   " };
        let mut line = String::from_str(prefix);
        line.append(connector);
        line.append("[");
        line.append(self.node_type_hint.as_str());
        line.append("] Size: ");
        let size = decimal(self.payload_size);
        line.append(size.as_str());
        line.append("b | Algo: ");
        line.append(self.compression_algo.as_str());
        line.append(" | Children: ");
        let count = decimal(self.child_count as u64);
        line.append(count.as_str());
        match &self.distribution_info {
            Some(d) => {
                line.append(" [");
                line.append(d.as_str());
                line.append("]");
            },
            None => {},
        }
        line.append("\n");
        let ghost head = line@;
        assert(head =~= render_line(*self, prefix@, is_last));
        let mut next_prefix = String::from_str(prefix);
        next_prefix.append(child_prefix);
        let ghost kids = self.children@;
        let ghost p2 = prefix@ + child_prefix_text(is_last);
        let n = self.children.len();
        let mut i: usize = 0;
        while i < n
            invariant
                n == kids.len(),
                kids == self.children@,
                i <= n,
                next_prefix@ == p2,
                line@ == head + render_children(kids, p2, i as nat),
            decreases n - i,
        {
            let is_last_child = i + 1 == n;
            let sub = self.children[i].fmt_recursive(next_prefix.as_str(), is_last_child);
            line.append(sub.as_str());
            assert(line@ =~= head + render_children(kids, p2, (i + 1) as nat));
            i = i + 1;
        }
        line
    }
}

/// What a chunk's payload looks like.
#[derive(Debug, Clone, Copy, PartialEq, Eq, Structural)]
pub enum PayloadKind {
    /// A chunk without children.
    LeafBlob,
    /// A chunk with children whose payload could not be read.
    Corrupted,
    /// A vector container: the item count and the number of shards (summed
    /// over the runs, wrapping at `u32::MAX`).
    VecContainer { total_items: u64, shards: u32 },
    /// A map container: exactly 4 bytes announcing as many shards as the chunk has children.
    MapContainer { buckets: u32 },
    /// Any other chunk with children.
    GenericContainer,
}

/// The sum of the repeat counts of a table of runs.
pub open spec fn repeat_sum(runs: Seq<(u32, u32)>) -> nat
    decreases runs.len(),
{
    if runs.len() == 0 {
        0
    } else {
        repeat_sum(runs.drop_last()) + runs.last().1 as nat
    }
}

/// What the payload `x` of a chunk with `child_count` children looks like.
pub open spec fn spec_payload_kind(x: Seq<u8>, child_count: u32) -> PayloadKind {
    if x.len() >= 8 && parse_runs(x.skip(8)) is Some {
        PayloadKind::VecContainer {
            total_items: spec_u64_from_le_bytes(x.subrange(0, 8)),
            shards: (repeat_sum(parse_runs(x.skip(8)).unwrap().0) % 0x1_0000_0000) as u32,
        }
    } else if x.len() == 4 && spec_u32_from_le_bytes(x) == child_count {
        PayloadKind::MapContainer { buckets: child_count }
    } else {
        PayloadKind::GenericContainer
    }
}

/// A table of runs describes as many shards as its repeat counts add up to.
proof fn lemma_expand_runs_len(runs: Seq<(u32, u32)>)
    ensures
        crate::visitor_impls::expand_runs(runs).len() == repeat_sum(runs),
    decreases runs.len(),
{
    if runs.len() > 0 {
        let init = runs.drop_last();
        let last = runs.last();
        lemma_expand_runs_len(init);
        assert(runs =~= init + seq![last]);
        crate::visitor_impls::lemma_expand_runs_append(init, seq![last]);
        crate::visitor_impls::lemma_expand_single(last.0, last.1);
    }
}

/// A payload that starts with an item count and a table of runs that decodes
/// is reported as a vector container of that many items, spread over as many
/// shards as the table describes (counted modulo 2^32), whatever number of
/// children its chunk has.
pub proof fn lemma_vector_kind_counts_shards(x: Seq<u8>, child_count: u32)
    requires
        x.len() >= 8,
        parse_runs(x.skip(8)) is Some,
    ensures
        spec_payload_kind(x, child_count) == (PayloadKind::VecContainer {
            total_items: spec_u64_from_le_bytes(x.subrange(0, 8)),
            shards: (crate::visitor_impls::expand_runs(parse_runs(x.skip(8)).unwrap().0).len() % 0x1_0000_0000) as u32,
        }),
{
    lemma_expand_runs_len(parse_runs(x.skip(8)).unwrap().0);
}

/// The name shown for a compression algorithm id.
pub open spec fn algo_text(id: u8) -> Seq<char> {
    if id == 0 {
        "None"@
    } else if id == 1 {
        "LZ4"@
    } else {
        "Unknown("@ + spec_decimal(id as nat) + ")"@
    }
}

/// The distribution text shown for a kind of payload, when it has one.
pub open spec fn distribution_text(kind: PayloadKind) -> Option<Seq<char>> {
    match kind {
        PayloadKind::VecContainer { total_items, .. } => Some(
            "Vec<"@ + spec_decimal(total_items as nat) + "> items"@,
        ),
        PayloadKind::MapContainer { buckets } => Some("Hashtable with "@ + spec_decimal(buckets as nat) + " buckets"@),
        _ => None,
    }
}

/// The view of an optional text.
pub open spec fn opt_text(t: Option<String>) -> Option<Seq<char>> {
    match t {
        Some(x) => Some(x@),
        None => None,
    }
}

/// The hint shown for a kind of payload.
pub open spec fn hint_text(kind: PayloadKind) -> Seq<char> {
    match kind {
        PayloadKind::LeafBlob => "Leaf/Blob"@,
        PayloadKind::Corrupted => "Corrupted"@,
        PayloadKind::VecContainer { .. } => "Vec Container"@,
        PayloadKind::MapContainer { .. } => "Map Container"@,
        PayloadKind::GenericContainer => "Generic Container"@,
    }
}

/// Every chunk of a reported tree lists as many children as it counts.
pub open spec fn tree_complete(info: ChunkInfo) -> bool
    decreases info,
{
    &&& info.children@.len() == info.child_count
    &&& forall|j: int| 0 <= j < info.children@.len() ==> tree_complete(#[trigger] info.children@[j])
}

/// How many levels of children the inspector follows in a file of `len`
/// bytes: more than any chain of distinct chunks can have, so that only a
/// file whose chunks refer back to themselves runs out of it.
pub open spec fn depth_budget(len: nat) -> nat {
    len * len
}

/// The tree of chunks under the chunk of `length` bytes at `offset` can be
/// reported within `depth` levels: every chunk is well formed, and a chunk
/// with children has a level left for them.
pub open spec fn reportable(file: Seq<u8>, offset: u64, length: u64, depth: nat) -> bool
    decreases depth,
{
    match spec_chunk_layout(file, offset, length) {
        None => false,
        Some(l) => l.child_count == 0 || (depth > 0 && forall|i: int|
            #![trigger crate::reader::spec_child_ref(file, l.payload_end, i)]
            0 <= i < l.child_count ==> reportable(
                file,
                crate::reader::spec_child_ref(file, l.payload_end, i).offset,
                crate::reader::spec_child_ref(file, l.payload_end, i).length,
                (depth - 1) as nat,
            )),
    }
}

/// A tree whose children lie before their parents can be reported within
/// any number of levels greater than its root's offset: each level down
/// starts at a smaller offset.
pub proof fn lemma_walkable_reportable(file: Seq<u8>, offset: u64, length: u64, depth: nat)
    requires
        walkable(file, offset, length),
        depth > offset,
    ensures
        reportable(file, offset, length, depth),
    decreases offset,
{
    let l = spec_chunk_layout(file, offset, length).unwrap();
    if l.child_count > 0 {
        assert forall|i: int|
            #![trigger crate::reader::spec_child_ref(file, l.payload_end, i)]
            0 <= i < l.child_count implies reportable(
                file,
                crate::reader::spec_child_ref(file, l.payload_end, i).offset,
                crate::reader::spec_child_ref(file, l.payload_end, i).length,
                (depth - 1) as nat,
            ) by {
            let c = crate::reader::spec_child_ref(file, l.payload_end, i);
            lemma_walkable_reportable(file, c.offset, c.length, (depth - 1) as nat);
        }
    }
}

/// The tree of chunks under the chunk of `length` bytes at `offset` can be
/// walked: every chunk is well formed, and every child lies entirely before
/// its parent, as the writer places it.
pub open spec fn walkable(file: Seq<u8>, offset: u64, length: u64) -> bool
    decreases offset,
{
    match spec_chunk_layout(file, offset, length) {
        None => false,
        Some(l) => forall|i: int|
            #![trigger crate::reader::spec_child_ref(file, l.payload_end, i)]
            0 <= i < l.child_count ==> {
                &&& crate::reader::spec_child_ref(file, l.payload_end, i).offset + crate::reader::spec_child_ref(
                    file,
                    l.payload_end,
                    i,
                ).length <= offset
                &&& crate::reader::spec_child_ref(file, l.payload_end, i).length > 0
                &&& walkable(
                    file,
                    crate::reader::spec_child_ref(file, l.payload_end, i).offset,
                    crate::reader::spec_child_ref(file, l.payload_end, i).length,
                )
            },
    }
}

/// The inspector tool.
#[derive(Debug)]
pub struct ParcodeInspector;

impl ParcodeInspector {
    /// Opens the bytes of a file and builds its report.
    pub fn inspect(data: Vec<u8>) -> (r: Result<DebugReport>)
        ensures
            r is Ok <==> (crate::reader::spec_header(data@) matches Some(h) && reportable(
                data@,
                h.root_offset,
                h.root_length,
                depth_budget(data@.len()),
            )),
            r matches Ok(rep) ==> rep.file_size == data@.len() && rep.global_version == 4 && tree_complete(rep.tree),
            r matches Ok(rep) ==> (crate::reader::spec_header(data@) matches Some(h) && rep.root_offset
                == h.root_offset && rep.tree.offset == h.root_offset && rep.tree.total_length == h.root_length),
            r matches Err(e) ==> e is Format,
    {
        let file = ParcodeFile::from_bytes(data)?;
        Self::inspect_file(&file)
    }

    /// Builds the report of an open file, walking the tree from the root.
    pub fn inspect_file(file: &ParcodeFile) -> (r: Result<DebugReport>)
        ensures
            r matches Ok(rep) ==> rep.file_size == file.bytes().len() && rep.root_offset
                == file.spec_header().root_offset && rep.global_version == 4
                && rep.tree.offset == file.spec_header().root_offset
                && rep.tree.total_length == file.spec_header().root_length && tree_complete(rep.tree),
            r is Ok <==> reportable(
                file.bytes(),
                file.spec_header().root_offset,
                file.spec_header().root_length,
                depth_budget(file.bytes().len()),
            ),
            r matches Err(e) ==> e is Format,
    {
        let root = file.root_node()?;
        let tree = Self::inspect_node(&root)?;
        Ok(DebugReport { file_size: file.file_size(), root_offset: root.offset(), global_version: 4, tree })
    }

    /// Describes one chunk and, recursively, its children.
    pub fn inspect_node(node: &ChunkNode<'_>) -> (r: Result<ChunkInfo>)
        ensures
            r matches Ok(info) ==> info.offset == node.spec_offset() && info.total_length == node.spec_length()
                && info.payload_size == node.spec_payload_end() - node.spec_offset()
                && info.child_count == node.spec_child_count()
                && info.is_chunkable == node.spec_meta().spec_is_chunkable(),
            r matches Ok(info) ==> info.compression_algo@ == algo_text(node.spec_meta().spec_compression_method()),
            r matches Ok(info) ==> (node.spec_child_count() == 0 ==> info.node_type_hint@ == hint_text(
                PayloadKind::LeafBlob,
            ) && info.distribution_info is None),
            r matches Ok(info) ==> (node.spec_child_count() > 0 ==> forall|x: Seq<u8>| #[trigger] node.holds(x)
                ==> info.node_type_hint@ == hint_text(spec_payload_kind(x, node.spec_child_count())) && opt_text(
                info.distribution_info,
            ) == distribution_text(spec_payload_kind(x, node.spec_child_count()))),
            r matches Ok(info) ==> info.children@.len() == node.spec_child_count() && tree_complete(info),
            r matches Ok(info) ==> forall|j: int| 0 <= j < info.children@.len() ==> #[trigger] info.children@[j].offset
                == node.spec_child(j).offset && info.children@[j].total_length == node.spec_child(j).length,
            r is Ok <==> reportable(node.file().bytes(), node.spec_offset(), node.spec_length(), depth_budget(
                node.file().bytes().len(),
            )),
            r matches Err(e) ==> e is Format,
    {
        let n = node.file_size() as u128;
        assert(n * n <= u128::MAX) by (nonlinear_arith)
            requires
                n <= u64::MAX,
        ;
        Self::inspect_within(node, n * n)
    }

    /// Describes one chunk and, recursively, its children, following at most
    /// `depth` levels of children.
    pub fn inspect_within(node: &ChunkNode<'_>, depth: u128) -> (r: Result<ChunkInfo>)
        ensures
            r matches Ok(info) ==> info.offset == node.spec_offset() && info.total_length == node.spec_length()
                && info.payload_size == node.spec_payload_end() - node.spec_offset()
                && info.child_count == node.spec_child_count()
                && info.is_chunkable == node.spec_meta().spec_is_chunkable(),
            r matches Ok(info) ==> info.compression_algo@ == algo_text(node.spec_meta().spec_compression_method()),
            r matches Ok(info) ==> (node.spec_child_count() == 0 ==> info.node_type_hint@ == hint_text(
                PayloadKind::LeafBlob,
            ) && info.distribution_info is None),
            r matches Ok(info) ==> (node.spec_child_count() > 0 ==> forall|x: Seq<u8>| #[trigger] node.holds(x)
                ==> info.node_type_hint@ == hint_text(spec_payload_kind(x, node.spec_child_count())) && opt_text(
                info.distribution_info,
            ) == distribution_text(spec_payload_kind(x, node.spec_child_count()))),
            r matches Ok(info) ==> info.children@.len() == node.spec_child_count() && tree_complete(info),
            r matches Ok(info) ==> forall|j: int| 0 <= j < info.children@.len() ==> #[trigger] info.children@[j].offset
                == node.spec_child(j).offset && info.children@[j].total_length == node.spec_child(j).length,
            r is Ok <==> reportable(node.file().bytes(), node.spec_offset(), node.spec_length(), depth as nat),
            r matches Err(e) ==> e is Format,
        decreases depth,
    {
        let raw_meta = node.meta();
        let algo_id = raw_meta.compression_method();
        let algo_name = if algo_id == 0 {
            String::from_str("None")
        } else if algo_id == 1 {
            String::from_str("LZ4")
        } else {
            let mut s = String::from_str("Unknown(");
            let n = decimal(algo_id as u64);
            s.append(n.as_str());
            s.append(")");
            s
        };
        let kind = Self::analyze_payload(node);
        let (hint, distrib) = Self::describe(kind);
        let mut children_info: Vec<ChunkInfo> = Vec::new();
        let count = node.child_count();
        if count > 0 && depth == 0 {
            return Err(ParcodeError::Format("Chunk tree too deep: it refers back to itself".to_string()));
        }
        if count > 0 {
            let children = match node.children() {
                Ok(c) => c,
                Err(e) => {
                    proof {
                        let j = choose|j: int| 0 <= j < node.spec_child_count() && !(#[trigger] spec_chunk_layout(
                            node.file().bytes(),
                            node.spec_child(j).offset,
                            node.spec_child(j).length,
                        ) is Some);
                        assert(node.spec_child(j) == crate::reader::spec_child_ref(
                            node.file().bytes(),
                            node.spec_payload_end() as int,
                            j,
                        ));
                        let l = spec_chunk_layout(node.file().bytes(), node.spec_offset(), node.spec_length()).unwrap();
                        assert(l.payload_end == node.spec_payload_end());
                        if reportable(node.file().bytes(), node.spec_offset(), node.spec_length(), depth as nat) {
                            assert(reportable(
                                node.file().bytes(),
                                crate::reader::spec_child_ref(node.file().bytes(), l.payload_end, j).offset,
                                crate::reader::spec_child_ref(node.file().bytes(), l.payload_end, j).length,
                                (depth - 1) as nat,
                            ));
                        }
                    }
                    return Err(e);
                },
            };
            let mut i: usize = 0;
            while i < children.len()
                invariant
                    i <= children@.len(),
                    children_info@.len() == i,
                    forall|j: int| 0 <= j < i ==> #[trigger] children_info@[j].offset == node.spec_child(j).offset
                        && children_info@[j].total_length == node.spec_child(j).length
                        && tree_complete(children_info@[j]),
                    depth > 0,
                    forall|j: int|
                        #![trigger node.spec_child(j)]
                        0 <= j < i ==> reportable(
                            node.file().bytes(),
                            node.spec_child(j).offset,
                            node.spec_child(j).length,
                            (depth - 1) as nat,
                        ),
                    children@.len() == node.spec_child_count(),
                    forall|j: int| 0 <= j < children@.len() ==> #[trigger] children@[j].is_chunk_of(
                        &node.file(),
                        node.spec_child(j).offset,
                        node.spec_child(j).length,
                    ),
                    node.spec_child_count() > 0,
                    reportable(node.file().bytes(), node.spec_offset(), node.spec_length(), depth as nat) ==> forall|j: int|
                        #![trigger node.spec_child(j)]
                        0 <= j < node.spec_child_count() ==> reportable(
                            node.file().bytes(),
                            node.spec_child(j).offset,
                            node.spec_child(j).length,
                            (depth - 1) as nat,
                        ),
                decreases children@.len() - i,
            {
                let child = &children[i];
                proof {
                    let c = node.spec_child(i as int);
                    assert(children@[i as int].is_chunk_of(&node.file(), c.offset, c.length));
                }
                let info = Self::inspect_within(child, depth - 1)?;
                children_info.push(info);
                i = i + 1;
            }
        }
        proof {
            let l = spec_chunk_layout(node.file().bytes(), node.spec_offset(), node.spec_length()).unwrap();
            if count > 0 {
                assert forall|j: int|
                    #![trigger crate::reader::spec_child_ref(node.file().bytes(), l.payload_end, j)]
                    0 <= j < l.child_count implies reportable(
                        node.file().bytes(),
                        crate::reader::spec_child_ref(node.file().bytes(), l.payload_end, j).offset,
                        crate::reader::spec_child_ref(node.file().bytes(), l.payload_end, j).length,
                        (depth - 1) as nat,
                    ) by {
                    assert(node.spec_child(j) == crate::reader::spec_child_ref(node.file().bytes(), l.payload_end, j));
                }
            }
            assert(reportable(node.file().bytes(), node.spec_offset(), node.spec_length(), depth as nat));
        }
        assert forall|j: int| 0 <= j < children_info@.len() implies tree_complete(#[trigger] children_info@[j]) by {
            assert(children_info@[j].offset == node.spec_child(j).offset);
        }
        let info = ChunkInfo {
            offset: node.offset(),
            total_length: node.length(),
            payload_size: node.payload_len(),
            child_count: count,
            compression_algo: algo_name,
            is_chunkable: raw_meta.is_chunkable(),
            node_type_hint: hint,
            distribution_info: distrib,
            children: children_info,
        };
        Ok(info)
    }

    /// Tells what the payload of a chunk looks like: a chunk without children
    /// is a leaf; otherwise the payload is read and recognized as a vector
    /// container (an item count then a table of runs that decodes), a map
    /// container (4 bytes announcing as many shards as there are children), or
    /// a generic container; a payload that cannot be read is reported corrupted.
    pub fn analyze_payload(node: &ChunkNode<'_>) -> (r: PayloadKind)
        ensures
            node.spec_child_count() == 0 ==> r == PayloadKind::LeafBlob,
            node.spec_child_count() > 0 ==> forall|x: Seq<u8>| #[trigger] node.holds(x) ==> r == spec_payload_kind(
                x,
                node.spec_child_count(),
            ),
    {
        if node.child_count() == 0 {
            return PayloadKind::LeafBlob;
        }
        let payload = match node.read_raw() {
            Ok(p) => p,
            Err(_) => {
                return PayloadKind::Corrupted;
            },
        };
        if payload.len() >= 8 {
            let slice = &payload.as_slice()[8..payload.len()];
            assert(slice@ =~= payload@.skip(8));
            match bincode_decode_runs(slice) {
                Some((runs, _)) => {
                    let total_items = u64_from_le_bytes(&payload.as_slice()[0..8]);
                    let mut shards: u32 = 0;
                    let mut i: usize = 0;
                    while i < runs.len()
                        invariant
                            i <= runs@.len(),
                            shards == repeat_sum(runs@.take(i as int)) % 0x1_0000_0000,
                        decreases runs@.len() - i,
                    {
                        let ghost before = runs@.take(i as int);
                        assert(runs@.take(i + 1).drop_last() =~= before);
                        shards = shards.wrapping_add(runs[i].1);
                        proof {
                            let a = repeat_sum(before);
                            let b = runs@[i as int].1 as nat;
                            assert(shards == (a % 0x1_0000_0000 + b) % 0x1_0000_0000);
                            assert((a % 0x1_0000_0000 + b) % 0x1_0000_0000 == (a + b) % 0x1_0000_0000) by (nonlinear_arith);
                        }
                        i = i + 1;
                    }
                    assert(runs@.take(i as int) =~= runs@);
                    return PayloadKind::VecContainer { total_items, shards };
                },
                None => {},
            }
        }
        if payload.len() == 4 {
            let num_shards = u32_from_le_bytes(payload.as_slice());
            if num_shards == node.child_count() {
                return PayloadKind::MapContainer { buckets: num_shards };
            }
        }
        PayloadKind::GenericContainer
    }

    /// The hint and distribution texts of a kind of payload.
    fn describe(kind: PayloadKind) -> (r: (String, Option<String>))
        ensures
            r.0@ == hint_text(kind),
            opt_text(r.1) == distribution_text(kind),
    {
        match kind {
            PayloadKind::LeafBlob => (String::from_str("Leaf/Blob"), None),
            PayloadKind::Corrupted => (String::from_str("Corrupted"), None),
            PayloadKind::VecContainer { total_items, .. } => {
                let mut d = String::from_str("Vec<");
                let t = decimal(total_items);
                d.append(t.as_str());
                d.append("> items");
                (String::from_str("Vec Container"), Some(d))
            },
            PayloadKind::MapContainer { buckets } => {
                let mut d = String::from_str("Hashtable with ");
                let b = decimal(buckets as u64);
                d.append(b.as_str());
                d.append(" buckets");
                (String::from_str("Map Container"), Some(d))
            },
            PayloadKind::GenericContainer => (String::from_str("Generic Container"), None),
        }
    }
}

} // verus!
