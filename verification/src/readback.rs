//! What the writer produces, the reader reads back.
//!
//! These lemmas connect the byte layouts built on the write side (chunks,
//! children tables, the global header) with the parsing done on the read
//! side.

use crate::compression::{Compressor, CompressorRegistry};
use crate::executor::{
    all_some, chunk_bytes, chunk_tail, child_count_field, effective_compression, refs_bytes, selected_algo,
    spec_chunk, spec_execute_graph, spec_run, spec_step, unwrap_all, initial_state, WriteState,
};
use crate::graph::{nodes_wf, Node, SerializationJob};
use crate::format::{
    lemma_child_ref_roundtrip, lemma_meta_byte_fields, magic_seq, meta_byte_value, ChildRef, GlobalHeader,
    FORMAT_VERSION, MAGIC_BYTES,
};
use crate::inspector::walkable;
use crate::reader::{spec_child_ref, spec_chunk_layout, spec_header, ChunkLayout};
use vstd::bytes::*;
use vstd::prelude::*;

verus! {

broadcast use vstd::seq_lib::group_seq_properties;

/// A children table holds 16 bytes per reference, each reference at its index.
pub proof fn lemma_refs_bytes(cs: Seq<ChildRef>)
    ensures
        refs_bytes(cs).len() == 16 * cs.len(),
        forall|i: int| 0 <= i < cs.len() ==> #[trigger] refs_bytes(cs).subrange(16 * i, 16 * i + 16)
            == cs[i].spec_to_bytes(),
    decreases cs.len(),
{
    if cs.len() > 0 {
        let init = cs.drop_last();
        lemma_refs_bytes(init);
        lemma_child_ref_roundtrip(cs.last());
        assert forall|i: int| 0 <= i < cs.len() implies #[trigger] refs_bytes(cs).subrange(16 * i, 16 * i + 16)
            == cs[i].spec_to_bytes() by {
            if i < cs.len() - 1 {
                assert(refs_bytes(cs).subrange(16 * i, 16 * i + 16) =~= refs_bytes(init).subrange(16 * i, 16 * i + 16));
            } else {
                assert(refs_bytes(cs).subrange(16 * i, 16 * i + 16) =~= cs.last().spec_to_bytes());
            }
        }
    }
}

/// A chunk written as `chunk_bytes(encoded, cs, id)` at offset `o` of a file
/// reads back as written: its layout gives the meta byte built from `id`, the
/// number of children and the end of the encoded payload, and its children
/// table gives back each reference.
pub proof fn lemma_chunk_readback(file: Seq<u8>, o: int, encoded: Seq<u8>, cs: Seq<ChildRef>, id: u8)
    requires
        0 <= o,
        o + chunk_bytes(encoded, cs, id).len() <= file.len(),
        o + chunk_bytes(encoded, cs, id).len() <= u64::MAX,
        file.subrange(o, o + chunk_bytes(encoded, cs, id).len()) == chunk_bytes(encoded, cs, id),
        cs.len() <= u32::MAX,
    ensures
        spec_chunk_layout(file, o as u64, chunk_bytes(encoded, cs, id).len() as u64) == Some(
            ChunkLayout {
                meta: meta_byte_value(cs.len() > 0, id),
                child_count: cs.len() as u32,
                payload_end: o + encoded.len(),
            },
        ),
        (meta_byte_value(cs.len() > 0, id) & 0x0eu8) >> 1u8 == id & 7u8,
        forall|i: int| 0 <= i < cs.len() ==> #[trigger] spec_child_ref(file, o + encoded.len(), i) == cs[i],
{
    lemma_auto_spec_u32_to_from_le_bytes();
    lemma_meta_byte_fields(cs.len() > 0, id);
    lemma_refs_bytes(cs);
    let chunk = chunk_bytes(encoded, cs, id);
    let len = chunk.len() as int;
    let end = o + len;
    let meta = meta_byte_value(cs.len() > 0, id);
    let tail = chunk_tail(cs);
    assert(chunk == encoded + tail + seq![meta]);
    assert(file[end - 1] == chunk[len - 1]);
    assert(chunk[len - 1] == meta);
    if cs.len() == 0 {
        assert(tail.len() == 0);
    } else {
        let count = child_count_field(cs.len());
        assert(count == cs.len());
        assert(tail == refs_bytes(cs) + spec_u32_to_le_bytes(count));
        assert(file.subrange(end - 5, end - 1) =~= spec_u32_to_le_bytes(count)) by {
            assert(file.subrange(end - 5, end - 1) =~= chunk.subrange(len - 5, len - 1));
            assert(chunk.subrange(len - 5, len - 1) =~= spec_u32_to_le_bytes(count));
        }
        assert forall|i: int| 0 <= i < cs.len() implies #[trigger] spec_child_ref(file, o + encoded.len(), i)
            == cs[i] by {
            let a = o + encoded.len() + 16 * i;
            assert(file.subrange(a, a + 16) =~= refs_bytes(cs).subrange(16 * i, 16 * i + 16)) by {
                assert(file.subrange(a, a + 16) =~= chunk.subrange(encoded.len() + 16 * i, encoded.len() + 16 * i + 16));
            }
            lemma_child_ref_roundtrip(cs[i]);
        }
    }
}

/// A file made of some bytes followed by the header of the current version
/// pointing at a root chunk reads back that header.
pub proof fn lemma_header_readback(out: Seq<u8>, h: GlobalHeader)
    requires
        h.magic@ == magic_seq(),
        h.version == FORMAT_VERSION,
    ensures
        spec_header(out + h.spec_to_bytes()) matches Some(g) && g.root_offset == h.root_offset
            && g.root_length == h.root_length && g.checksum == h.checksum && g.version == FORMAT_VERSION,
{
    lemma_auto_spec_u16_to_from_le_bytes();
    lemma_auto_spec_u32_to_from_le_bytes();
    lemma_auto_spec_u64_to_from_le_bytes();
    let file = out + h.spec_to_bytes();
    let t = file.subrange(file.len() - 26, file.len() as int);
    assert(t =~= h.spec_to_bytes());
    assert(t.subrange(0, 4) =~= magic_seq());
    assert(t.subrange(4, 6) =~= spec_u16_to_le_bytes(h.version));
    assert(t.subrange(6, 14) =~= spec_u64_to_le_bytes(h.root_offset));
    assert(t.subrange(14, 22) =~= spec_u64_to_le_bytes(h.root_length));
    assert(t.subrange(22, 26) =~= spec_u32_to_le_bytes(h.checksum));
}

/// Node `c` is a child of node `i`.
pub open spec fn is_child_of<J>(nodes: Seq<Node<J>>, c: int, i: int) -> bool {
    nodes[c].parent matches Some(p) && p.value() == i
}

/// The bytes at `r` in `out` are the chunk that node `i` produces from the
/// references of its children, each child's reference in the child's slot.
pub open spec fn tree_chunk_of_node<'a, J: SerializationJob<'a>, C: Compressor>(
    nodes: Seq<Node<J>>,
    reg: CompressorRegistry<C>,
    use_compression: bool,
    out: Seq<u8>,
    refs: Seq<Option<ChildRef>>,
    i: int,
    r: ChildRef,
) -> bool {
    &&& r.offset + r.length <= out.len()
    &&& exists|cs: Seq<ChildRef>|
        #[trigger] spec_chunk(nodes[i].job, cs, reg, use_compression) == Some(
            out.subrange(r.offset as int, r.offset + r.length),
        ) && cs.len() == nodes[i].completed_children@.len() && forall|c: int|
            0 <= c < nodes.len() && #[trigger] is_child_of(nodes, c, i) ==> refs[c] == Some(
                cs[nodes[c].parent_slot.unwrap() as int],
            )
}

/// What holds of the state after processing nodes `nodes.len() - 1` down to
/// `k` of a well-formed graph.
pub open spec fn tree_run_inv<'a, J: SerializationJob<'a>, C: Compressor>(
    nodes: Seq<Node<J>>,
    reg: CompressorRegistry<C>,
    use_compression: bool,
    k: int,
    out0: Seq<u8>,
    s: WriteState,
) -> bool {
    &&& out0.len() <= s.out.len()
    &&& s.out.subrange(0, out0.len() as int) == out0
    &&& s.slots.len() == nodes.len()
    &&& s.refs.len() == nodes.len()
    &&& forall|i: int| k <= i < nodes.len() ==> (#[trigger] s.slots[i]).len() == 0
    &&& forall|i: int| 0 <= i < k ==> (#[trigger] s.slots[i]).len() == nodes[i].completed_children@.len()
    &&& forall|i: int| k <= i < nodes.len() ==> (#[trigger] s.refs[i] matches Some(r) && tree_chunk_of_node(
        nodes,
        reg,
        use_compression,
        s.out,
        s.refs,
        i,
        r,
    ))
    &&& forall|i: int, c: int| k <= i < nodes.len() && 0 <= c < nodes.len() && #[trigger] is_child_of(nodes, c, i) ==> c > i
    &&& forall|c: int|
        k <= c < nodes.len() && (#[trigger] nodes[c].parent) is Some && nodes[c].parent.unwrap().value() < k
            ==> s.slots[nodes[c].parent.unwrap().value() as int][nodes[c].parent_slot.unwrap() as int] == s.refs[c]
    &&& forall|p: int, j: int|
        0 <= p < k && 0 <= j < s.slots[p].len() && (#[trigger] s.slots[p][j]) is Some ==> exists|c: int|
            k <= c < nodes.len() && #[trigger] is_child_of(nodes, c, p) && nodes[c].parent_slot == Some(j as usize)
    &&& (s.root matches Some(r) ==> exists|i: int|
        k <= i < nodes.len() && nodes[i].parent is None && #[trigger] s.refs[i] == Some(r))
}

/// The facts every step lemma starts from: the invariant before the step,
/// and a step that succeeds within the size of a `u64`.
pub open spec fn step_pre<'a, J: SerializationJob<'a>, C: Compressor>(
    nodes: Seq<Node<J>>,
    reg: CompressorRegistry<C>,
    use_compression: bool,
    k: int,
    out0: Seq<u8>,
    prev: WriteState,
) -> bool {
    &&& nodes_wf(nodes)
    &&& 0 <= k < nodes.len()
    &&& tree_run_inv(nodes, reg, use_compression, k + 1, out0, prev)
    &&& spec_step(nodes, reg, use_compression, k, prev) is Some
    &&& spec_step(nodes, reg, use_compression, k, prev).unwrap().out.len() <= u64::MAX
}

/// The shape of a successful step: where the chunk goes, and which slots and
/// references change.
proof fn lemma_step_shape<'a, J: SerializationJob<'a>, C: Compressor>(
    nodes: Seq<Node<J>>,
    reg: CompressorRegistry<C>,
    use_compression: bool,
    k: int,
    out0: Seq<u8>,
    prev: WriteState,
)
    requires
        step_pre(nodes, reg, use_compression, k, out0, prev),
    ensures
        ({
            let s = spec_step(nodes, reg, use_compression, k, prev).unwrap();
            let cs = unwrap_all(prev.slots[k]);
            let chunk = spec_chunk(nodes[k].job, cs, reg, use_compression).unwrap();
            let r = ChildRef { offset: prev.out.len() as u64, length: chunk.len() as u64 };
            let slots1 = prev.slots.update(k, Seq::empty());
            &&& all_some(prev.slots[k])
            &&& spec_chunk(nodes[k].job, cs, reg, use_compression) is Some
            &&& s.out == prev.out + chunk
            &&& s.refs == prev.refs.update(k, Some(r))
            &&& r.offset == prev.out.len() && r.length == chunk.len()
            &&& (nodes[k].parent is None ==> s.slots == slots1 && s.root == Some(r))
            &&& (nodes[k].parent is Some ==> {
                let pi = nodes[k].parent.unwrap().value() as int;
                let slot = nodes[k].parent_slot.unwrap() as int;
                &&& 0 <= pi < k
                &&& 0 <= slot < prev.slots[pi].len()
                &&& s.slots == slots1.update(pi, slots1[pi].update(slot, Some(r)))
                &&& s.root == prev.root
            })
        }),
{
    let s = spec_step(nodes, reg, use_compression, k, prev).unwrap();
    let n = nodes.len() as int;
    if nodes[k].parent is Some {
        let pi = nodes[k].parent.unwrap().value() as int;
        assert(0 <= pi < n);
        if pi >= k {
            assert(prev.slots[pi].len() == 0);
        }
    }
}

/// The children of the node processed by a step were all processed before it.
proof fn lemma_step_children<'a, J: SerializationJob<'a>, C: Compressor>(
    nodes: Seq<Node<J>>,
    reg: CompressorRegistry<C>,
    use_compression: bool,
    k: int,
    out0: Seq<u8>,
    prev: WriteState,
)
    requires
        step_pre(nodes, reg, use_compression, k, out0, prev),
    ensures
        forall|c: int| 0 <= c < nodes.len() && #[trigger] is_child_of(nodes, c, k) ==> c > k,
{
    lemma_step_shape(nodes, reg, use_compression, k, out0, prev);
    let n = nodes.len() as int;
    let raw = prev.slots[k];
    assert forall|c: int| 0 <= c < n && #[trigger] is_child_of(nodes, c, k) implies c > k by {
        if c < k {
            let j = nodes[c].parent_slot.unwrap() as int;
            assert(0 <= j < raw.len());
            assert(raw[j] is Some);
            assert(prev.slots[k][j] is Some);
            let c2 = choose|c2: int|
                k + 1 <= c2 < n && #[trigger] is_child_of(nodes, c2, k) && nodes[c2].parent_slot == Some(j as usize);
            assert(c2 != c);
            assert(nodes[c].parent_slot != nodes[c2].parent_slot);
        } else if c == k {
            assert(nodes[k].parent.unwrap().value() == k);
        }
    }
}

/// After a step, every processed node's reference holds its chunk, built
/// from its children's references.
proof fn lemma_step_chunks<'a, J: SerializationJob<'a>, C: Compressor>(
    nodes: Seq<Node<J>>,
    reg: CompressorRegistry<C>,
    use_compression: bool,
    k: int,
    out0: Seq<u8>,
    prev: WriteState,
)
    requires
        step_pre(nodes, reg, use_compression, k, out0, prev),
    ensures
        ({
            let s = spec_step(nodes, reg, use_compression, k, prev).unwrap();
            forall|i: int| k <= i < nodes.len() ==> (#[trigger] s.refs[i] matches Some(r) && tree_chunk_of_node(
                nodes,
                reg,
                use_compression,
                s.out,
                s.refs,
                i,
                r,
            ))
        }),
{
    lemma_step_shape(nodes, reg, use_compression, k, out0, prev);
    lemma_step_children(nodes, reg, use_compression, k, out0, prev);
    let n = nodes.len() as int;
    let s = spec_step(nodes, reg, use_compression, k, prev).unwrap();
    let cs = unwrap_all(prev.slots[k]);
    let chunk = spec_chunk(nodes[k].job, cs, reg, use_compression).unwrap();
    let r = ChildRef { offset: prev.out.len() as u64, length: chunk.len() as u64 };
    assert(s.out.subrange(r.offset as int, r.offset + r.length) =~= chunk);
    assert forall|c: int| 0 <= c < n && #[trigger] is_child_of(nodes, c, k) implies s.refs[c] == Some(
        cs[nodes[c].parent_slot.unwrap() as int],
    ) by {
        let j = nodes[c].parent_slot.unwrap() as int;
        assert(nodes[c].parent.unwrap().value() < k + 1);
        assert(prev.slots[k][j] == prev.refs[c]);
        assert(prev.refs[c] is Some);
        assert(s.refs[c] == prev.refs[c]);
    }
    assert(tree_chunk_of_node(nodes, reg, use_compression, s.out, s.refs, k, r));
    assert forall|i: int| k <= i < n implies (#[trigger] s.refs[i] matches Some(q) && tree_chunk_of_node(
        nodes,
        reg,
        use_compression,
        s.out,
        s.refs,
        i,
        q,
    )) by {
        if i > k {
            let q = prev.refs[i].unwrap();
            assert(s.refs[i] == prev.refs[i]);
            assert(tree_chunk_of_node(nodes, reg, use_compression, prev.out, prev.refs, i, q));
            let w = choose|w: Seq<ChildRef>|
                #[trigger] spec_chunk(nodes[i].job, w, reg, use_compression) == Some(
                    prev.out.subrange(q.offset as int, q.offset + q.length),
                ) && w.len() == nodes[i].completed_children@.len() && forall|c: int|
                    0 <= c < nodes.len() && #[trigger] is_child_of(nodes, c, i) ==> prev.refs[c] == Some(
                        w[nodes[c].parent_slot.unwrap() as int],
                    );
            assert(s.out.subrange(q.offset as int, q.offset + q.length) =~= prev.out.subrange(
                q.offset as int,
                q.offset + q.length,
            ));
            assert forall|c: int| 0 <= c < nodes.len() && #[trigger] is_child_of(nodes, c, i) implies s.refs[c]
                == Some(w[nodes[c].parent_slot.unwrap() as int]) by {
                assert(c > i);
                assert(s.refs[c] == prev.refs[c]);
            }
        }
    }
}

/// After a step, the slots of the nodes still to process hold exactly the
/// references of their processed children.
proof fn lemma_step_slots<'a, J: SerializationJob<'a>, C: Compressor>(
    nodes: Seq<Node<J>>,
    reg: CompressorRegistry<C>,
    use_compression: bool,
    k: int,
    out0: Seq<u8>,
    prev: WriteState,
)
    requires
        step_pre(nodes, reg, use_compression, k, out0, prev),
    ensures
        ({
            let s = spec_step(nodes, reg, use_compression, k, prev).unwrap();
            &&& forall|i: int| k <= i < nodes.len() ==> (#[trigger] s.slots[i]).len() == 0
            &&& forall|i: int| 0 <= i < k ==> (#[trigger] s.slots[i]).len() == nodes[i].completed_children@.len()
            &&& forall|c: int|
                k <= c < nodes.len() && (#[trigger] nodes[c].parent) is Some && nodes[c].parent.unwrap().value() < k
                    ==> s.slots[nodes[c].parent.unwrap().value() as int][nodes[c].parent_slot.unwrap() as int] == s.refs[c]
            &&& forall|p: int, j: int|
                0 <= p < k && 0 <= j < s.slots[p].len() && (#[trigger] s.slots[p][j]) is Some ==> exists|c: int|
                    k <= c < nodes.len() && #[trigger] is_child_of(nodes, c, p) && nodes[c].parent_slot == Some(j as usize)
        }),
{
    lemma_step_shape(nodes, reg, use_compression, k, out0, prev);
    let n = nodes.len() as int;
    let s = spec_step(nodes, reg, use_compression, k, prev).unwrap();
    let slots1 = prev.slots.update(k, Seq::empty());
    assert forall|i: int| k <= i < n implies (#[trigger] s.slots[i]).len() == 0 by {
        if i > k {
            assert(prev.slots[i].len() == 0);
        }
    }
    assert forall|i: int| 0 <= i < k implies (#[trigger] s.slots[i]).len() == nodes[i].completed_children@.len() by {
        assert(prev.slots[i].len() == nodes[i].completed_children@.len());
    }
    assert forall|c: int|
        k <= c < n && (#[trigger] nodes[c].parent) is Some && nodes[c].parent.unwrap().value() < k implies s.slots[nodes[c].parent.unwrap().value() as int][nodes[c].parent_slot.unwrap() as int]
        == s.refs[c] by {
        let pi = nodes[c].parent.unwrap().value() as int;
        let sc = nodes[c].parent_slot.unwrap() as int;
        if c != k {
            assert(prev.slots[pi][sc] == prev.refs[c]);
            assert(s.refs[c] == prev.refs[c]);
            if nodes[k].parent is Some && nodes[k].parent.unwrap().value() == pi {
                assert(nodes[k].parent_slot != nodes[c].parent_slot);
            }
        }
    }
    assert forall|p: int, j: int|
        0 <= p < k && 0 <= j < s.slots[p].len() && (#[trigger] s.slots[p][j]) is Some implies exists|c: int|
            k <= c < n && #[trigger] is_child_of(nodes, c, p) && nodes[c].parent_slot == Some(j as usize) by {
        if nodes[k].parent is Some && nodes[k].parent.unwrap().value() == p && nodes[k].parent_slot == Some(j as usize) {
            assert(is_child_of(nodes, k, p));
        } else {
            assert(s.slots[p][j] == prev.slots[p][j]);
            let c2 = choose|c2: int|
                k + 1 <= c2 < n && #[trigger] is_child_of(nodes, c2, p) && nodes[c2].parent_slot == Some(j as usize);
            assert(is_child_of(nodes, c2, p));
        }
    }
}

/// The invariant holds after every step of a successful run of a well-formed graph.
proof fn lemma_tree_run<'a, J: SerializationJob<'a>, C: Compressor>(
    nodes: Seq<Node<J>>,
    reg: CompressorRegistry<C>,
    use_compression: bool,
    k: int,
    out0: Seq<u8>,
)
    requires
        nodes_wf(nodes),
        0 <= k <= nodes.len(),
        spec_run(nodes, reg, use_compression, k, initial_state(nodes, out0)) is Some,
        spec_run(nodes, reg, use_compression, k, initial_state(nodes, out0)).unwrap().out.len() <= u64::MAX,
    ensures
        tree_run_inv(
            nodes,
            reg,
            use_compression,
            k,
            out0,
            spec_run(nodes, reg, use_compression, k, initial_state(nodes, out0)).unwrap(),
        ),
    decreases nodes.len() - k,
{
    let init = initial_state(nodes, out0);
    let n = nodes.len() as int;
    if k == n {
        assert(init.out.subrange(0, out0.len() as int) =~= out0);
        assert forall|p: int, j: int| 0 <= p < k && 0 <= j < init.slots[p].len() implies !((#[trigger] init.slots[p][j]) is Some) by {
            assert(init.slots[p] == nodes[p].completed_children@);
        }
    } else {
        let prev = spec_run(nodes, reg, use_compression, k + 1, init).unwrap();
        let s = spec_run(nodes, reg, use_compression, k, init).unwrap();
        assert(spec_run(nodes, reg, use_compression, k, init) == spec_step(nodes, reg, use_compression, k, prev));
        lemma_tree_run(nodes, reg, use_compression, k + 1, out0);
        assert(step_pre(nodes, reg, use_compression, k, out0, prev));
        lemma_step_shape(nodes, reg, use_compression, k, out0, prev);
        lemma_step_children(nodes, reg, use_compression, k, out0, prev);
        lemma_step_chunks(nodes, reg, use_compression, k, out0, prev);
        lemma_step_slots(nodes, reg, use_compression, k, out0, prev);
        assert(s.out.subrange(0, out0.len() as int) =~= prev.out.subrange(0, out0.len() as int));
        assert forall|i: int, c: int| k <= i < n && 0 <= c < n && #[trigger] is_child_of(nodes, c, i) implies c > i by {
            if i > k {
                assert(is_child_of(nodes, c, i));
            }
        }
        if s.root is Some {
            if s.root != prev.root {
                assert(s.refs[k] == s.root);
            } else {
                let i = choose|i: int| k + 1 <= i < n && nodes[i].parent is None && #[trigger] prev.refs[i] == Some(
                    s.root.unwrap(),
                );
                assert(s.refs[i] == prev.refs[i]);
            }
        }
    }
}

/// Slot `j` of node `i` belongs to one of its children.
pub open spec fn slot_filled<J>(nodes: Seq<Node<J>>, i: int, j: int) -> bool {
    exists|c: int| 0 <= c < nodes.len() && #[trigger] is_child_of(nodes, c, i) && nodes[c].parent_slot == Some(j as usize)
}

/// The shape of what the nodes from `k` on wrote: each of their slots was
/// filled by a child, each child's chunk lies before its parent's, and no
/// chunk is empty.
pub open spec fn tree_shape_inv<J>(nodes: Seq<Node<J>>, k: int, s: WriteState) -> bool {
    &&& forall|i: int, j: int|
        k <= i < nodes.len() && 0 <= j < nodes[i].completed_children@.len() ==> #[trigger] slot_filled(nodes, i, j)
    &&& forall|i: int, c: int| k <= i < nodes.len() && 0 <= c < nodes.len() && #[trigger] is_child_of(nodes, c, i)
        ==> s.refs[c] is Some && s.refs[i] is Some && s.refs[c].unwrap().offset + s.refs[c].unwrap().length
        <= s.refs[i].unwrap().offset
    &&& forall|i: int| k <= i < nodes.len() ==> (#[trigger] s.refs[i]) is Some && s.refs[i].unwrap().length > 0
}

/// The shape invariant holds after every step of a successful run of a well-formed graph.
proof fn lemma_tree_shape<'a, J: SerializationJob<'a>, C: Compressor>(
    nodes: Seq<Node<J>>,
    reg: CompressorRegistry<C>,
    use_compression: bool,
    k: int,
    out0: Seq<u8>,
)
    requires
        nodes_wf(nodes),
        0 <= k <= nodes.len(),
        spec_run(nodes, reg, use_compression, k, initial_state(nodes, out0)) is Some,
        spec_run(nodes, reg, use_compression, k, initial_state(nodes, out0)).unwrap().out.len() <= u64::MAX,
    ensures
        tree_shape_inv(nodes, k, spec_run(nodes, reg, use_compression, k, initial_state(nodes, out0)).unwrap()),
    decreases nodes.len() - k,
{
    let init = initial_state(nodes, out0);
    let n = nodes.len() as int;
    if k < n {
        let prev = spec_run(nodes, reg, use_compression, k + 1, init).unwrap();
        let s = spec_run(nodes, reg, use_compression, k, init).unwrap();
        assert(spec_run(nodes, reg, use_compression, k, init) == spec_step(nodes, reg, use_compression, k, prev));
        lemma_tree_run(nodes, reg, use_compression, k + 1, out0);
        lemma_tree_shape(nodes, reg, use_compression, k + 1, out0);
        assert(step_pre(nodes, reg, use_compression, k, out0, prev));
        lemma_step_shape(nodes, reg, use_compression, k, out0, prev);
        lemma_step_children(nodes, reg, use_compression, k, out0, prev);
        let cs = unwrap_all(prev.slots[k]);
        let chunk = spec_chunk(nodes[k].job, cs, reg, use_compression).unwrap();
        let r = ChildRef { offset: prev.out.len() as u64, length: chunk.len() as u64 };
        assert(chunk.len() > 0);
        assert forall|i: int, j: int|
            k <= i < n && 0 <= j < nodes[i].completed_children@.len() implies #[trigger] slot_filled(nodes, i, j) by {
            if i == k {
                assert(prev.slots[k].len() == nodes[k].completed_children@.len());
                assert(prev.slots[k][j] is Some);
                let c = choose|c: int|
                    k + 1 <= c < n && #[trigger] is_child_of(nodes, c, k) && nodes[c].parent_slot == Some(j as usize);
                assert(is_child_of(nodes, c, i));
            }
        }
        assert forall|i: int, c: int| k <= i < n && 0 <= c < n && #[trigger] is_child_of(nodes, c, i) implies s.refs[c] is Some
            && s.refs[i] is Some && s.refs[c].unwrap().offset + s.refs[c].unwrap().length <= s.refs[i].unwrap().offset by {
            assert(c > i);
            if i == k {
                assert(prev.refs[c] matches Some(q) && tree_chunk_of_node(nodes, reg, use_compression, prev.out, prev.refs, c, q));
                assert(s.refs[c] == prev.refs[c]);
            } else {
                assert(s.refs[c] == prev.refs[c]);
                assert(s.refs[i] == prev.refs[i]);
            }
        }
        assert forall|i: int| k <= i < n implies (#[trigger] s.refs[i]) is Some && s.refs[i].unwrap().length > 0 by {
            if i > k {
                assert(s.refs[i] == prev.refs[i]);
            }
        }
    }
}

/// The file that a successful write of a well-formed graph produces (the
/// chunks, then the header pointing at the root) reads back: its header
/// points at the root's reference, which is that of a node without parent,
/// and every node's reference holds the chunk its job produced from the
/// references of its children, each child's reference in the child's slot.
pub proof fn lemma_written_file_readback<'a, J: SerializationJob<'a>, C: Compressor>(
    nodes: Seq<Node<J>>,
    reg: CompressorRegistry<C>,
    use_compression: bool,
    out0: Seq<u8>,
)
    requires
        nodes_wf(nodes),
        spec_execute_graph(nodes, reg, use_compression, out0) is Some,
        spec_execute_graph(nodes, reg, use_compression, out0).unwrap().out.len() + 26 <= u64::MAX,
    ensures
        ({
            let s = spec_execute_graph(nodes, reg, use_compression, out0).unwrap();
            let root = s.root.unwrap();
            let h = GlobalHeader {
                magic: MAGIC_BYTES,
                version: FORMAT_VERSION,
                root_offset: root.offset,
                root_length: root.length,
                checksum: 0,
            };
            let file = s.out + h.spec_to_bytes();
            &&& spec_header(file) matches Some(g) && g.root_offset == root.offset && g.root_length == root.length
            &&& exists|i: int| 0 <= i < nodes.len() && nodes[i].parent is None && #[trigger] s.refs[i] == Some(root)
            &&& forall|i: int| 0 <= i < nodes.len() ==> (#[trigger] s.refs[i] matches Some(r) && tree_chunk_of_node(
                nodes,
                reg,
                use_compression,
                file,
                s.refs,
                i,
                r,
            ))
        }),
{
    let s = spec_execute_graph(nodes, reg, use_compression, out0).unwrap();
    let root = s.root.unwrap();
    let h = GlobalHeader {
        magic: MAGIC_BYTES,
        version: FORMAT_VERSION,
        root_offset: root.offset,
        root_length: root.length,
        checksum: 0,
    };
    let file = s.out + h.spec_to_bytes();
    assert(MAGIC_BYTES@ =~= magic_seq());
    lemma_header_readback(s.out, h);
    lemma_tree_run(nodes, reg, use_compression, 0, out0);
    assert forall|i: int| 0 <= i < nodes.len() implies (#[trigger] s.refs[i] matches Some(r) && tree_chunk_of_node(
        nodes,
        reg,
        use_compression,
        file,
        s.refs,
        i,
        r,
    )) by {
        let q = s.refs[i].unwrap();
        assert(tree_chunk_of_node(nodes, reg, use_compression, s.out, s.refs, i, q));
        let w = choose|w: Seq<ChildRef>|
            #[trigger] spec_chunk(nodes[i].job, w, reg, use_compression) == Some(
                s.out.subrange(q.offset as int, q.offset + q.length),
            ) && w.len() == nodes[i].completed_children@.len() && forall|c: int|
                0 <= c < nodes.len() && #[trigger] is_child_of(nodes, c, i) ==> s.refs[c] == Some(
                    w[nodes[c].parent_slot.unwrap() as int],
                );
        assert(file.subrange(q.offset as int, q.offset + q.length) =~= s.out.subrange(q.offset as int, q.offset + q.length));
    }
}

/// A graph whose write succeeds is a tree in which every slot belongs to a
/// child: with the well-formedness of task graphs (each node counts as many
/// dependencies as it has slots, and no two children share a slot), each
/// node's dependency count is its number of slots and of children.
pub proof fn lemma_written_graph_slots<'a, J: SerializationJob<'a>, C: Compressor>(
    nodes: Seq<Node<J>>,
    reg: CompressorRegistry<C>,
    use_compression: bool,
    out0: Seq<u8>,
)
    requires
        nodes_wf(nodes),
        spec_execute_graph(nodes, reg, use_compression, out0) is Some,
        spec_execute_graph(nodes, reg, use_compression, out0).unwrap().out.len() <= u64::MAX,
    ensures
        forall|i: int, j: int|
            0 <= i < nodes.len() && 0 <= j < nodes[i].completed_children@.len() ==> #[trigger] slot_filled(nodes, i, j),
        forall|i: int| 0 <= i < nodes.len() ==> #[trigger] nodes[i].atomic_deps == nodes[i].completed_children@.len(),
{
    lemma_tree_shape(nodes, reg, use_compression, 0, out0);
}

/// The chunk of node `i`, and below it the chunks of all its descendants,
/// can be walked: each children table entry points at a non-empty chunk that
/// ends before its parent's and can be walked in turn.
proof fn lemma_node_walkable<'a, J: SerializationJob<'a>, C: Compressor>(
    nodes: Seq<Node<J>>,
    reg: CompressorRegistry<C>,
    use_compression: bool,
    file: Seq<u8>,
    refs: Seq<Option<ChildRef>>,
    i: int,
)
    requires
        0 <= i < nodes.len(),
        file.len() <= u64::MAX,
        forall|a: int| 0 <= a < nodes.len() ==> (#[trigger] refs[a] matches Some(r) && tree_chunk_of_node(
            nodes,
            reg,
            use_compression,
            file,
            refs,
            a,
            r,
        )),
        forall|a: int| 0 <= a < nodes.len() ==> refs[a] is Some && (#[trigger] refs[a]).unwrap().length > 0,
        forall|a: int| 0 <= a < nodes.len() ==> (#[trigger] nodes[a].completed_children@).len() <= u32::MAX,
        forall|a: int, j: int|
            0 <= a < nodes.len() && 0 <= j < nodes[a].completed_children@.len() ==> #[trigger] slot_filled(nodes, a, j),
        forall|a: int, c: int| 0 <= a < nodes.len() && 0 <= c < nodes.len() && #[trigger] is_child_of(nodes, c, a)
            ==> c > a && refs[c].unwrap().offset + refs[c].unwrap().length <= refs[a].unwrap().offset,
    ensures
        walkable(file, refs[i].unwrap().offset, refs[i].unwrap().length),
    decreases nodes.len() - i,
{
    let n = nodes.len() as int;
    let r = refs[i].unwrap();
    assert(tree_chunk_of_node(nodes, reg, use_compression, file, refs, i, r));
    let cs = choose|cs: Seq<ChildRef>|
        #[trigger] spec_chunk(nodes[i].job, cs, reg, use_compression) == Some(
            file.subrange(r.offset as int, r.offset + r.length),
        ) && cs.len() == nodes[i].completed_children@.len() && forall|c: int|
            0 <= c < nodes.len() && #[trigger] is_child_of(nodes, c, i) ==> refs[c] == Some(
                cs[nodes[c].parent_slot.unwrap() as int],
            );
    let payload = nodes[i].job.spec_execute(cs).unwrap();
    let id = selected_algo(reg, effective_compression(nodes[i].job.spec_config(), use_compression));
    let enc = reg.algo(id).spec_compress(payload).unwrap();
    let chunk = chunk_bytes(enc, cs, id);
    assert(file.subrange(r.offset as int, r.offset + r.length) == chunk);
    lemma_chunk_readback(file, r.offset as int, enc, cs, id);
    let te = r.offset + enc.len();
    assert forall|j: int| 0 <= j < cs.len() implies {
        &&& #[trigger] spec_child_ref(file, te, j).offset + spec_child_ref(file, te, j).length <= r.offset
        &&& spec_child_ref(file, te, j).length > 0
        &&& walkable(file, spec_child_ref(file, te, j).offset, spec_child_ref(file, te, j).length)
    } by {
        assert(slot_filled(nodes, i, j));
        let c = choose|c: int| 0 <= c < n && #[trigger] is_child_of(nodes, c, i) && nodes[c].parent_slot == Some(j as usize);
        assert(refs[c] == Some(cs[j]));
        assert(refs[c].unwrap().length > 0);
        lemma_node_walkable(nodes, reg, use_compression, file, refs, c);
    }
}

/// Every file that a successful write of a well-formed graph produces can be
/// walked from the root its header points at, when no node has more
/// children than a children table can count.
pub proof fn lemma_written_file_walkable<'a, J: SerializationJob<'a>, C: Compressor>(
    nodes: Seq<Node<J>>,
    reg: CompressorRegistry<C>,
    use_compression: bool,
    out0: Seq<u8>,
)
    requires
        nodes_wf(nodes),
        spec_execute_graph(nodes, reg, use_compression, out0) is Some,
        spec_execute_graph(nodes, reg, use_compression, out0).unwrap().out.len() + 26 <= u64::MAX,
        forall|i: int| 0 <= i < nodes.len() ==> (#[trigger] nodes[i].completed_children@).len() <= u32::MAX,
    ensures
        ({
            let s = spec_execute_graph(nodes, reg, use_compression, out0).unwrap();
            let root = s.root.unwrap();
            let h = GlobalHeader {
                magic: MAGIC_BYTES,
                version: FORMAT_VERSION,
                root_offset: root.offset,
                root_length: root.length,
                checksum: 0,
            };
            let file = s.out + h.spec_to_bytes();
            &&& spec_header(file) matches Some(g) && g.root_offset == root.offset && g.root_length == root.length
            &&& walkable(file, root.offset, root.length)
        }),
{
    let s = spec_execute_graph(nodes, reg, use_compression, out0).unwrap();
    let root = s.root.unwrap();
    let h = GlobalHeader {
        magic: MAGIC_BYTES,
        version: FORMAT_VERSION,
        root_offset: root.offset,
        root_length: root.length,
        checksum: 0,
    };
    let file = s.out + h.spec_to_bytes();
    let n = nodes.len() as int;
    lemma_written_file_readback(nodes, reg, use_compression, out0);
    lemma_tree_run(nodes, reg, use_compression, 0, out0);
    lemma_tree_shape(nodes, reg, use_compression, 0, out0);
    assert(h.spec_to_bytes().len() == 26) by {
        lemma_auto_spec_u16_to_from_le_bytes();
        lemma_auto_spec_u32_to_from_le_bytes();
        lemma_auto_spec_u64_to_from_le_bytes();
    }
    assert forall|a: int, c: int| 0 <= a < n && 0 <= c < n && #[trigger] is_child_of(nodes, c, a) implies c > a
        && s.refs[c].unwrap().offset + s.refs[c].unwrap().length <= s.refs[a].unwrap().offset by {
    }
    let i = choose|i: int| 0 <= i < n && nodes[i].parent is None && #[trigger] s.refs[i] == Some(root);
    lemma_node_walkable(nodes, reg, use_compression, file, s.refs, i);
}

/// A node's chunk, once found at `r`, reads back as the reader sees it: a
/// layout whose meta byte names the algorithm used, a payload that this
/// algorithm produced from what the node's job serialized, and a children
/// table that lists, in each child's slot, that child's reference.
pub proof fn lemma_node_chunk_layout<'a, J: SerializationJob<'a>, C: Compressor>(
    nodes: Seq<Node<J>>,
    reg: CompressorRegistry<C>,
    use_compression: bool,
    file: Seq<u8>,
    refs: Seq<Option<ChildRef>>,
    i: int,
    r: ChildRef,
)
    requires
        0 <= i < nodes.len(),
        tree_chunk_of_node(nodes, reg, use_compression, file, refs, i, r),
        nodes[i].completed_children@.len() <= u32::MAX,
        file.len() <= u64::MAX,
    ensures
        exists|cs: Seq<ChildRef>| {
            let id = selected_algo(reg, effective_compression(nodes[i].job.spec_config(), use_compression));
            let payload = nodes[i].job.spec_execute(cs).unwrap();
            &&& cs.len() == nodes[i].completed_children@.len()
            &&& #[trigger] nodes[i].job.spec_execute(cs) is Some
            &&& spec_chunk_layout(file, r.offset, r.length) matches Some(l)
                && l.child_count == cs.len()
                && l.meta == meta_byte_value(cs.len() > 0, id)
                && reg.algo(id).spec_compress(payload) == Some(file.subrange(r.offset as int, l.payload_end))
                && forall|j: int| 0 <= j < cs.len() ==> #[trigger] spec_child_ref(file, l.payload_end, j) == cs[j]
            &&& forall|c: int| 0 <= c < nodes.len() && #[trigger] is_child_of(nodes, c, i) ==> refs[c] == Some(
                cs[nodes[c].parent_slot.unwrap() as int],
            )
        },
{
    let cs = choose|cs: Seq<ChildRef>|
        #[trigger] spec_chunk(nodes[i].job, cs, reg, use_compression) == Some(
            file.subrange(r.offset as int, r.offset + r.length),
        ) && cs.len() == nodes[i].completed_children@.len() && forall|c: int|
            0 <= c < nodes.len() && #[trigger] is_child_of(nodes, c, i) ==> refs[c] == Some(
                cs[nodes[c].parent_slot.unwrap() as int],
            );
    let payload = nodes[i].job.spec_execute(cs).unwrap();
    let id = selected_algo(reg, effective_compression(nodes[i].job.spec_config(), use_compression));
    let enc = reg.algo(id).spec_compress(payload).unwrap();
    let chunk = chunk_bytes(enc, cs, id);
    assert(file.subrange(r.offset as int, r.offset + r.length) == chunk);
    lemma_chunk_readback(file, r.offset as int, enc, cs, id);
    assert(file.subrange(r.offset as int, r.offset + enc.len()) =~= enc) by {
        assert(file.subrange(r.offset as int, r.offset + enc.len()) =~= chunk.subrange(0, enc.len() as int));
    }
    assert(nodes[i].job.spec_execute(cs) is Some);
}

} // verus!
