use parcode::format::ChildRef;
use parcode::graph::{ChunkId, JobConfig, Node, SerializationJob, TaskGraph};
use parcode::rt::ConfiguredJob;
use parcode::visitor_impls::{ShardRun, VecContainerJob};
use parcode::ParcodeError;

fn leaf(total: u64) -> VecContainerJob {
    VecContainerJob::new(Vec::new(), total)
}

#[test]
fn empty_graph() {
    let g: TaskGraph<VecContainerJob> = TaskGraph::new();
    assert!(g.is_empty());
    assert_eq!(g.len(), 0);
    assert_eq!(g.nodes().len(), 0);
}

#[test]
fn add_node_assigns_consecutive_ids() {
    let mut g = TaskGraph::new();
    let a = g.add_node(leaf(1));
    let b = g.add_node(leaf(2));
    assert_eq!(a.as_u32(), 0);
    assert_eq!(b.as_u32(), 1);
    assert_eq!(g.len(), 2);
    assert!(!g.is_empty());
    let n = g.get_node(b);
    assert_eq!(n.id, b);
    assert!(n.parent.is_none());
    assert!(n.parent_slot.is_none());
    assert_eq!(n.atomic_deps, 0);
    assert_eq!(n.job.total_items, 2);
    assert!(n.completed_children.is_empty());
}

#[test]
fn link_reserves_slots_in_order() {
    let mut g = TaskGraph::new();
    let p = g.add_node(leaf(0));
    let c1 = g.add_node(leaf(1));
    let c2 = g.add_node(leaf(2));
    g.link_parent_child(p, c1);
    g.link_parent_child(p, c2);
    let parent = g.get_node(p);
    assert_eq!(parent.atomic_deps, 2);
    assert_eq!(parent.completed_children.len(), 2);
    assert!(parent.completed_children.iter().all(|s| s.is_none()));
    assert_eq!(g.get_node(c1).parent, Some(p));
    assert_eq!(g.get_node(c1).parent_slot, Some(0));
    assert_eq!(g.get_node(c2).parent_slot, Some(1));
}

#[test]
fn replace_job_keeps_links() {
    let mut g = TaskGraph::new();
    let p = g.add_node(leaf(0));
    let c = g.add_node(leaf(1));
    g.link_parent_child(p, c);
    g.replace_job(c, leaf(7));
    assert_eq!(g.get_node(c).job.total_items, 7);
    assert_eq!(g.get_node(c).parent, Some(p));
    assert_eq!(g.get_node(c).parent_slot, Some(0));
}

#[test]
fn register_child_result_fills_a_slot() {
    let mut g = TaskGraph::new();
    let id: ChunkId = g.add_node(leaf(0));
    let mut node = Node::new(id, leaf(0));
    assert_eq!(node.id, id);
    assert!(matches!(
        node.register_child_result(0, ChildRef { offset: 1, length: 2 }),
        Err(ParcodeError::Internal(_))
    ));
    node.completed_children.push(None);
    node.register_child_result(0, ChildRef { offset: 1, length: 2 }).unwrap();
    let r = node.completed_children[0].unwrap();
    assert_eq!((r.offset, r.length), (1, 2));
}

#[test]
fn job_config_default() {
    let c = JobConfig::default();
    assert_eq!(c.compression_id, 0);
    assert!(!c.is_map);
}

#[test]
fn configured_job_reports_its_config() {
    let runs = vec![ShardRun { item_count: 3, repeat: 2 }];
    let inner = VecContainerJob::new(runs, 6);
    let plain = inner.execute(&[]).unwrap();
    let cfg = JobConfig { compression_id: 1, is_map: false };
    let job = ConfiguredJob::new(Box::new(inner), cfg);
    assert_eq!(job.config(), cfg);
    assert_eq!(job.execute(&[]).unwrap(), plain);
}
