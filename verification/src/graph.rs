//! The task graph: one node per future chunk, linked parent to child.
//!
//! Nodes live in an arena and are identified by their index ([`ChunkId`]).
//! Linking a child to a parent reserves a slot in the parent's list of
//! completed children; when the child's chunk is written, its reference is
//! stored in that slot.

use crate::error::{ParcodeError, Result};
use crate::format::ChildRef;
use vstd::prelude::*;

verus! {

/// The identifier of a node of the task graph: its index in the arena.
#[derive(Clone, Copy, PartialEq, Eq, Hash, PartialOrd, Ord, Debug, Structural)]
pub struct ChunkId(u32);

impl ChunkId {
    /// The numeric value.
    pub closed spec fn value(self) -> u32 {
        self.0
    }

    /// Creates a new identifier.
    pub(crate) fn new(id: u32) -> (r: Self)
        ensures
            r.value() == id,
    {
        ChunkId(id)
    }

    /// Returns the raw numeric value.
    pub fn as_u32(&self) -> (r: u32)
        ensures
            r == self.value(),
    {
        self.0
    }
}

/// Execution configuration of a node.
#[derive(Debug, Clone, Copy, PartialEq, Eq, Structural)]
pub struct JobConfig {
    /// Compression algorithm id: 0 means the default (no compression unless
    /// compression is enabled for the whole write), 1 is LZ4.
    pub compression_id: u8,
    /// Whether the node is a sharded map.
    pub is_map: bool,
}

impl Default for JobConfig {
    fn default() -> (r: Self)
        ensures
            r.compression_id == 0,
            !r.is_map,
    {
        JobConfig { compression_id: 0, is_map: false }
    }
}

/// A unit of work: a piece of data that knows how to serialize itself into
/// the payload of one chunk.
///
/// An implementation describes its result by a specification function: the
/// payload it produces from the references of its children, or `None` where
/// it fails.
pub trait SerializationJob<'a>: Send + Sync {
    /// The payload produced from the references of the children, `None` when
    /// serialization fails.
    spec fn spec_execute(&self, children_refs: Seq<ChildRef>) -> Option<Seq<u8>>;

    /// The error the job reports where serialization fails (`spec_execute`
    /// is `None`); of no use where it does not fail.
    spec fn spec_execute_error(&self, children_refs: Seq<ChildRef>) -> ParcodeError;

    /// The configuration of the job.
    spec fn spec_config(&self) -> JobConfig;

    /// The payload size that the job estimates for itself.
    spec fn spec_estimated_size(&self) -> usize;

    /// Serializes the payload of the chunk; `children_refs` are the references
    /// of the chunks of the node's children, in slot order.
    fn execute(&self, children_refs: &[ChildRef]) -> (r: Result<Vec<u8>>)
        ensures
            r is Ok <==> self.spec_execute(children_refs@) is Some,
            r matches Ok(v) ==> self.spec_execute(children_refs@) == Some(v@),
            r matches Err(e) ==> e == self.spec_execute_error(children_refs@),
    ;

    /// An estimate of the payload size, used for scheduling.
    fn estimated_size(&self) -> (r: usize)
        ensures
            r == self.spec_estimated_size(),
    ;

    /// Returns the configuration of the job (compression, sharding strategy).
    fn config(&self) -> (r: JobConfig)
        ensures
            r == self.spec_config(),
    ;
}

/// A boxed job behaves as the job inside the box.
impl<'a> SerializationJob<'a> for Box<dyn SerializationJob<'a> + 'a> {
    open spec fn spec_execute(&self, children_refs: Seq<ChildRef>) -> Option<Seq<u8>> {
        (**self).spec_execute(children_refs)
    }

    open spec fn spec_execute_error(&self, children_refs: Seq<ChildRef>) -> ParcodeError {
        (**self).spec_execute_error(children_refs)
    }

    open spec fn spec_config(&self) -> JobConfig {
        (**self).spec_config()
    }

    open spec fn spec_estimated_size(&self) -> usize {
        (**self).spec_estimated_size()
    }

    fn execute(&self, children_refs: &[ChildRef]) -> (r: Result<Vec<u8>>) {
        (**self).execute(children_refs)
    }

    fn estimated_size(&self) -> (r: usize) {
        (**self).estimated_size()
    }

    fn config(&self) -> (r: JobConfig) {
        (**self).config()
    }
}

/// A single node of the task graph.
pub struct Node<J> {
    /// The identifier of this node.
    pub id: ChunkId,
    /// The parent node, if any. The graph is a tree: a node has at most one parent.
    pub parent: Option<ChunkId>,
    /// The number of children linked to this node.
    pub atomic_deps: usize,
    /// The job that produces the payload of the node's chunk.
    pub job: J,
    /// The slot of this node in its parent's `completed_children`.
    pub parent_slot: Option<usize>,
    /// The references of the written children, one slot per linked child.
    pub completed_children: Vec<Option<ChildRef>>,
}

impl<J> Node<J> {
    /// Creates a node with no parent and no children.
    pub fn new(id: ChunkId, job: J) -> (r: Self)
        ensures
            r.id == id,
            r.parent is None,
            r.parent_slot is None,
            r.atomic_deps == 0,
            r.job == job,
            r.completed_children@.len() == 0,
    {
        Node { id, parent: None, parent_slot: None, atomic_deps: 0, job, completed_children: Vec::new() }
    }

    /// Stores the reference of a written child in its slot.
    pub fn register_child_result(&mut self, slot: usize, child_ref: ChildRef) -> (r: Result<()>)
        ensures
            r is Ok <==> slot < old(self).completed_children@.len(),
            r is Ok ==> final(self).completed_children@ == old(self).completed_children@.update(slot as int, Some(child_ref)),
            r is Err ==> final(self).completed_children@ == old(self).completed_children@,
            final(self).id == old(self).id,
            final(self).parent == old(self).parent,
            final(self).parent_slot == old(self).parent_slot,
            final(self).atomic_deps == old(self).atomic_deps,
            final(self).job == old(self).job,
            r matches Err(e) ==> e is Internal,
    {
        if slot >= self.completed_children.len() {
            return Err(ParcodeError::Internal("Slot out of bounds for node".to_string()));
        }
        self.completed_children.set(slot, Some(child_ref));
        Ok(())
    }
}

/// Two nodes agree on everything but their completed-children lists.
pub open spec fn same_node_except_children<J>(a: Node<J>, b: Node<J>) -> bool {
    &&& a.id == b.id
    &&& a.parent == b.parent
    &&& a.parent_slot == b.parent_slot
    &&& a.atomic_deps == b.atomic_deps
    &&& a.job == b.job
}

impl<J> Default for TaskGraph<J> {
    fn default() -> (r: Self)
        ensures
            r.wf(),
            r.spec_nodes().len() == 0,
    {
        TaskGraph::new()
    }
}

/// Nodes as a task graph keeps them: every node knows its own index and
/// counts as many dependencies as it has slots; every parent link points to an
/// existing node and to an existing slot of that node, and no two children
/// claim the same slot; no slot is filled yet.
pub open spec fn nodes_wf<J>(nodes: Seq<Node<J>>) -> bool {
    &&& nodes.len() <= u32::MAX
    &&& forall|i: int| 0 <= i < nodes.len() ==> #[trigger] nodes[i].id.value() == i
    &&& forall|i: int| 0 <= i < nodes.len() ==> #[trigger] nodes[i].atomic_deps == nodes[i].completed_children@.len()
    &&& forall|i: int| 0 <= i < nodes.len() ==> ((#[trigger] nodes[i]).parent is Some <==> nodes[i].parent_slot is Some)
    &&& forall|i: int| 0 <= i < nodes.len() && (#[trigger] nodes[i]).parent is Some ==> {
        let p = nodes[i].parent.unwrap().value() as int;
        &&& 0 <= p < nodes.len()
        &&& nodes[i].parent_slot.unwrap() < nodes[p].completed_children@.len()
    }
    &&& forall|a: int, b: int|
        0 <= a < nodes.len() && 0 <= b < nodes.len() && a != b && (#[trigger] nodes[a]).parent is Some
            && (#[trigger] nodes[b]).parent is Some && nodes[a].parent.unwrap().value()
            == nodes[b].parent.unwrap().value() ==> nodes[a].parent_slot != nodes[b].parent_slot
    &&& forall|i: int, j: int|
        0 <= i < nodes.len() && 0 <= j < nodes[i].completed_children@.len() ==> (
        #[trigger] nodes[i].completed_children@[j]) is None
}

/// The arena of nodes of the dependency graph.
pub struct TaskGraph<J> {
    nodes: Vec<Node<J>>,
}

impl<J> TaskGraph<J> {
    /// The nodes, indexed by identifier.
    pub closed spec fn spec_nodes(&self) -> Seq<Node<J>> {
        self.nodes@
    }

    /// The nodes are well formed (see `nodes_wf`).
    pub open spec fn wf(&self) -> bool {
        nodes_wf(self.spec_nodes())
    }

    /// Creates a new, empty graph.
    pub fn new() -> (r: Self)
        ensures
            r.wf(),
            r.spec_nodes().len() == 0,
    {
        TaskGraph { nodes: Vec::new() }
    }

    /// Adds a node holding `job`, with no parent and no children, and returns its identifier.
    pub fn add_node(&mut self, job: J) -> (r: ChunkId)
        requires
            old(self).wf(),
            old(self).spec_nodes().len() < u32::MAX,
        ensures
            final(self).wf(),
            r.value() == old(self).spec_nodes().len(),
            final(self).spec_nodes() == old(self).spec_nodes().push(Node {
                id: r,
                parent: None,
                atomic_deps: 0,
                job,
                parent_slot: None,
                completed_children: final(self).spec_nodes().last().completed_children,
            }),
            final(self).spec_nodes().last().completed_children@.len() == 0,
    {
        let id = ChunkId::new(self.nodes.len() as u32);
        let node = Node::new(id, job);
        self.nodes.push(node);
        id
    }

    /// Links `child_id` under `parent_id`: the parent's dependency count grows
    /// by one and a new empty slot is appended to its completed children; the
    /// child records the parent and the index of that slot.
    #[verifier::rlimit(40)]
    pub fn link_parent_child(&mut self, parent_id: ChunkId, child_id: ChunkId)
        requires
            old(self).wf(),
            parent_id.value() < old(self).spec_nodes().len(),
            child_id.value() < old(self).spec_nodes().len(),
        ensures
            final(self).wf(),
            final(self).spec_nodes().len() == old(self).spec_nodes().len(),
            ({
                let p = parent_id.value() as int;
                let c = child_id.value() as int;
                let old_p = old(self).spec_nodes()[p];
                let new_p = final(self).spec_nodes()[p];
                let new_c = final(self).spec_nodes()[c];
                &&& new_p.completed_children@ == old_p.completed_children@.push(None)
                &&& new_p.atomic_deps == old_p.atomic_deps.wrapping_add(1)
                &&& new_c.parent == Some(parent_id)
                &&& new_c.parent_slot == Some(old_p.completed_children@.len() as usize)
                &&& new_p.job == old_p.job && new_c.job == old(self).spec_nodes()[c].job
                &&& new_p.id == old_p.id && new_c.id == old(self).spec_nodes()[c].id
                &&& p != c ==> new_c.completed_children == old(self).spec_nodes()[c].completed_children
                    && new_c.atomic_deps == old(self).spec_nodes()[c].atomic_deps
                    && new_p.parent == old_p.parent && new_p.parent_slot == old_p.parent_slot
            }),
            forall|i: int|
                0 <= i < final(self).spec_nodes().len() && i != parent_id.value() && i != child_id.value()
                    ==> #[trigger] final(self).spec_nodes()[i] == old(self).spec_nodes()[i],
    {
        let p = parent_id.as_u32() as usize;
        let c = child_id.as_u32() as usize;
        let deps = self.nodes[p].atomic_deps.wrapping_add(1);
        self.nodes[p].atomic_deps = deps;
        let slot = self.nodes[p].completed_children.len();
        self.nodes[p].completed_children.push(None);
        self.nodes[c].parent = Some(parent_id);
        self.nodes[c].parent_slot = Some(slot);
        proof {
            let o = old(self).spec_nodes();
            let g = self.spec_nodes();
            let pi = p as int;
            let ci = c as int;
            assert(g.len() == o.len());
            assert forall|i: int| 0 <= i < g.len() && i != pi && i != ci implies #[trigger] g[i] == o[i] by {}
            assert(g[pi].completed_children@.len() == o[pi].completed_children@.len() + 1);
            assert(g[pi].completed_children@.len() <= usize::MAX) by {
                vstd::std_specs::vec::axiom_spec_len(&g[pi].completed_children);
            }
            assert forall|i: int| 0 <= i < g.len() implies #[trigger] g[i].atomic_deps == g[i].completed_children@.len() by {
                if i != pi && i != ci {
                    assert(g[i] == o[i]);
                }
            }
            assert forall|i: int| 0 <= i < g.len() implies #[trigger] g[i].id.value() == i by {
                if i != pi && i != ci {
                    assert(g[i] == o[i]);
                }
            }
            assert forall|i: int| 0 <= i < g.len() implies ((#[trigger] g[i]).parent is Some <==> g[i].parent_slot
                is Some) by {
                if i != pi && i != ci {
                    assert(g[i] == o[i]);
                }
            }
            assert forall|i: int| 0 <= i < g.len() && (#[trigger] g[i]).parent is Some implies ({
                let q = g[i].parent.unwrap().value() as int;
                &&& 0 <= q < g.len()
                &&& g[i].parent_slot.unwrap() < g[q].completed_children@.len()
            }) by {
                if i != ci {
                    if i != pi {
                        assert(g[i] == o[i]);
                    }
                    assert(o[i].parent is Some);
                    let q = o[i].parent.unwrap().value() as int;
                    if q != pi && q != ci {
                        assert(g[q] == o[q]);
                    }
                }
            }
            assert forall|a: int, b: int|
                0 <= a < g.len() && 0 <= b < g.len() && a != b && (#[trigger] g[a]).parent is Some && (
                #[trigger] g[b]).parent is Some && g[a].parent.unwrap().value() == g[b].parent.unwrap().value()
                    implies g[a].parent_slot != g[b].parent_slot by {
                if a != pi && a != ci {
                    assert(g[a] == o[a]);
                }
                if b != pi && b != ci {
                    assert(g[b] == o[b]);
                }
                if a == ci {
                    assert(o[b].parent.unwrap().value() == pi);
                    assert(o[b].parent_slot.unwrap() < o[pi].completed_children@.len());
                } else if b == ci {
                    assert(o[a].parent.unwrap().value() == pi);
                    assert(o[a].parent_slot.unwrap() < o[pi].completed_children@.len());
                } else {
                    assert(o[a].parent == g[a].parent && o[b].parent == g[b].parent);
                }
            }
            assert forall|i: int, j: int|
                0 <= i < g.len() && 0 <= j < g[i].completed_children@.len() implies (
                #[trigger] g[i].completed_children@[j]) is None by {
                if i == pi {
                    if j < o[pi].completed_children@.len() {
                        assert(g[pi].completed_children@[j] == o[pi].completed_children@[j]);
                    }
                } else if i != ci {
                    assert(g[i] == o[i]);
                }
            }
        }
    }

    /// Replaces the job of node `id`.
    pub fn replace_job(&mut self, id: ChunkId, new_job: J)
        requires
            old(self).wf(),
            id.value() < old(self).spec_nodes().len(),
        ensures
            final(self).wf(),
            final(self).spec_nodes().len() == old(self).spec_nodes().len(),
            final(self).spec_nodes()[id.value() as int].job == new_job,
            final(self).spec_nodes()[id.value() as int].id == old(self).spec_nodes()[id.value() as int].id,
            final(self).spec_nodes()[id.value() as int].parent == old(self).spec_nodes()[id.value() as int].parent,
            final(self).spec_nodes()[id.value() as int].parent_slot == old(self).spec_nodes()[id.value() as int].parent_slot,
            final(self).spec_nodes()[id.value() as int].atomic_deps == old(self).spec_nodes()[id.value() as int].atomic_deps,
            final(self).spec_nodes()[id.value() as int].completed_children == old(self).spec_nodes()[id.value() as int].completed_children,
            forall|i: int|
                0 <= i < final(self).spec_nodes().len() && i != id.value() ==> #[trigger] final(self).spec_nodes()[i]
                    == old(self).spec_nodes()[i],
    {
        let idx = id.as_u32() as usize;
        self.nodes[idx].job = new_job;
    }

    /// Moves the completed-children list out of node `idx`, leaving it empty.
    pub(crate) fn take_completed_children(&mut self, idx: usize) -> (r: Vec<Option<ChildRef>>)
        requires
            idx < old(self).spec_nodes().len(),
        ensures
            r@ == old(self).spec_nodes()[idx as int].completed_children@,
            final(self).spec_nodes().len() == old(self).spec_nodes().len(),
            final(self).spec_nodes()[idx as int].completed_children@.len() == 0,
            same_node_except_children(final(self).spec_nodes()[idx as int], old(self).spec_nodes()[idx as int]),
            forall|i: int|
                0 <= i < final(self).spec_nodes().len() && i != idx ==> #[trigger] final(self).spec_nodes()[i]
                    == old(self).spec_nodes()[i],
    {
        let mut taken: Vec<Option<ChildRef>> = Vec::new();
        std::mem::swap(&mut self.nodes[idx].completed_children, &mut taken);
        taken
    }

    /// Stores a written child's reference in slot `slot` of node `parent`.
    pub(crate) fn register_child_at(&mut self, parent: usize, slot: usize, child_ref: ChildRef) -> (r: Result<()>)
        requires
            parent < old(self).spec_nodes().len(),
        ensures
            r is Ok <==> slot < old(self).spec_nodes()[parent as int].completed_children@.len(),
            r is Ok ==> final(self).spec_nodes()[parent as int].completed_children@
                == old(self).spec_nodes()[parent as int].completed_children@.update(slot as int, Some(child_ref)),
            r is Err ==> final(self).spec_nodes()[parent as int].completed_children@
                == old(self).spec_nodes()[parent as int].completed_children@,
            r matches Err(e) ==> e is Internal,
            final(self).spec_nodes().len() == old(self).spec_nodes().len(),
            same_node_except_children(final(self).spec_nodes()[parent as int], old(self).spec_nodes()[parent as int]),
            forall|i: int|
                0 <= i < final(self).spec_nodes().len() && i != parent ==> #[trigger] final(self).spec_nodes()[i]
                    == old(self).spec_nodes()[i],
    {
        self.nodes[parent].register_child_result(slot, child_ref)
    }

    /// Returns true if the graph has no nodes.
    pub fn is_empty(&self) -> (r: bool)
        ensures
            r == (self.spec_nodes().len() == 0),
    {
        self.nodes.len() == 0
    }

    /// Returns the number of nodes.
    pub fn len(&self) -> (r: usize)
        ensures
            r == self.spec_nodes().len(),
    {
        self.nodes.len()
    }

    /// Returns all nodes, indexed by identifier.
    pub fn nodes(&self) -> (r: &[Node<J>])
        ensures
            r@ == self.spec_nodes(),
    {
        self.nodes.as_slice()
    }

    /// Returns the node with identifier `id`.
    pub fn get_node(&self, id: ChunkId) -> (r: &Node<J>)
        requires
            id.value() < self.spec_nodes().len(),
        ensures
            *r == self.spec_nodes()[id.value() as int],
    {
        &self.nodes[id.as_u32() as usize]
    }
}

} // verus!
