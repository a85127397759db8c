use parcode::collection::{parse_vec_header, plan_shard_jobs, resolve_rle_index, ShardJob};
use parcode::graph::{SerializationJob, TaskGraph};
use parcode::visitor_impls::{
    add_vector_nodes, build_shard_runs, items_per_shard, ShardRun, VecContainerJob, MIN_SHARD_SIZE_BYTES,
    TARGET_SHARD_SIZE_BYTES,
};
use parcode::ParcodeError;

fn pairs(runs: &[ShardRun]) -> Vec<(u32, u32)> {
    runs.iter().map(|r| (r.item_count, r.repeat)).collect()
}

#[test]
fn empty_vector_uses_one_item_per_shard() {
    assert_eq!(items_per_shard(0, 0, 8, 4), 1);
}

#[test]
fn shard_size_fills_chunks_of_target_size() {
    // 8-byte items, one CPU: 1_000_000 items / 4 tasks = 250_000 per task,
    // the I/O bound gives 131072 / 8 = 16384 items per shard.
    assert_eq!(items_per_shard(1_000_000, 64, 8, 1), (TARGET_SHARD_SIZE_BYTES / 8) as usize);
}

#[test]
fn shard_size_feeds_all_cores() {
    // 8 CPUs want 32 tasks: 100_000 / 32 = 3125 items of 2 bytes = 6250 bytes >= 4 KB.
    assert_eq!(items_per_shard(100_000, 16, 8, 8), 3125);
}

#[test]
fn shard_size_respects_the_minimum() {
    // 1000 items / 32 tasks = 31 items of 8 bytes = 248 bytes < 4 KB: scale to 4096 / 8.
    assert_eq!(items_per_shard(1000, 64, 8, 8), (MIN_SHARD_SIZE_BYTES / 8) as usize);
}

#[test]
fn shard_size_falls_back_to_item_size() {
    // No sample: the in-memory size (16) is used; 1_000_000 / 4 = 250_000 > 131072 / 16.
    assert_eq!(items_per_shard(1_000_000, 0, 16, 1), 8192);
    // Zero-sized items count as one byte.
    assert_eq!(items_per_shard(1_000_000, 0, 0, 1), 131072);
}

#[test]
fn runs_of_an_exact_cut() {
    let runs = build_shard_runs(12, 4);
    assert_eq!(pairs(&runs), vec![(4, 3)]);
}

#[test]
fn runs_with_a_shorter_last_shard() {
    let runs = build_shard_runs(10, 4);
    assert_eq!(pairs(&runs), vec![(4, 2), (2, 1)]);
}

#[test]
fn runs_of_small_and_empty_vectors() {
    assert_eq!(pairs(&build_shard_runs(3, 4)), vec![(3, 1)]);
    assert!(build_shard_runs(0, 4).is_empty());
}

#[test]
fn container_payload_layout() {
    let job = VecContainerJob::new(build_shard_runs(10, 4), 10);
    let payload = job.execute(&[]).unwrap();
    // total (u64 LE), then 2 runs: varint length 2, (4, 2), (2, 1).
    assert_eq!(payload, vec![10, 0, 0, 0, 0, 0, 0, 0, 2, 4, 2, 2, 1]);
    assert_eq!(job.estimated_size(), 8 + 2 * 8);
}

#[test]
fn container_payload_uses_wide_varints() {
    let job = VecContainerJob::new(vec![ShardRun { item_count: 300, repeat: 70_000 }], 21_000_000);
    let payload = job.execute(&[]).unwrap();
    let mut expected = 21_000_000u64.to_le_bytes().to_vec();
    expected.extend_from_slice(&[1, 251, 0x2c, 0x01, 252, 0x70, 0x11, 0x01, 0x00]);
    assert_eq!(payload, expected);
}

#[test]
fn header_parses_back() {
    let job = VecContainerJob::new(build_shard_runs(10, 4), 10);
    let payload = job.execute(&[]).unwrap();
    let (total, runs) = parse_vec_header(&payload).unwrap();
    assert_eq!(total, 10);
    assert_eq!(runs, vec![(4, 2), (2, 1)]);
}

#[test]
fn header_errors() {
    assert!(matches!(parse_vec_header(&[1, 2, 3]), Err(ParcodeError::Format(_))));
    assert!(matches!(parse_vec_header(&[0, 0, 0, 0, 0, 0, 0, 0, 3, 1]), Err(ParcodeError::Serialization(_))));
}

#[test]
fn resolve_finds_shard_and_position() {
    let runs = pairs(&build_shard_runs(10, 4));
    assert_eq!(resolve_rle_index(0, &runs).unwrap(), (0, 0));
    assert_eq!(resolve_rle_index(5, &runs).unwrap(), (1, 1));
    assert_eq!(resolve_rle_index(9, &runs).unwrap(), (2, 1));
    assert!(matches!(resolve_rle_index(10, &runs), Err(ParcodeError::Format(_))));
}

#[test]
fn resolve_skips_empty_runs() {
    let runs = vec![(0, 3), (5, 1)];
    assert_eq!(resolve_rle_index(2, &runs).unwrap(), (3, 2));
}

#[test]
fn resolve_matches_division_for_built_tables() {
    for (n, k) in [(1usize, 1usize), (7, 3), (100, 7), (64, 8)] {
        let runs = pairs(&build_shard_runs(n, k));
        for i in 0..n {
            assert_eq!(resolve_rle_index(i, &runs).unwrap(), (i / k, i % k));
        }
    }
}

#[test]
fn plan_covers_all_items() {
    let runs = pairs(&build_shard_runs(10, 4));
    let jobs = plan_shard_jobs(10, &runs).unwrap();
    assert_eq!(
        jobs,
        vec![
            ShardJob { shard_index: 0, start: 0, count: 4 },
            ShardJob { shard_index: 1, start: 4, count: 4 },
            ShardJob { shard_index: 2, start: 8, count: 2 },
        ]
    );
}

#[test]
fn plan_rejects_mismatched_totals() {
    let runs = pairs(&build_shard_runs(10, 4));
    assert!(matches!(plan_shard_jobs(11, &runs), Err(ParcodeError::Format(_))));
    assert!(matches!(plan_shard_jobs(9, &runs), Err(ParcodeError::Format(_))));
    assert_eq!(plan_shard_jobs(0, &[]).unwrap(), vec![]);
}

#[test]
fn vector_nodes_are_linked_in_order() {
    let mut g = TaskGraph::new();
    let root = g.add_node(VecContainerJob::new(Vec::new(), 0));
    let shards = vec![VecContainerJob::new(Vec::new(), 1), VecContainerJob::new(Vec::new(), 2)];
    let (id, ids) = add_vector_nodes(&mut g, Some(root), VecContainerJob::new(Vec::new(), 3), shards);
    assert_eq!(id.as_u32(), 1);
    assert_eq!(ids.iter().map(|i| i.as_u32()).collect::<Vec<_>>(), vec![2, 3]);
    assert_eq!(g.get_node(id).parent, Some(root));
    assert_eq!(g.get_node(id).completed_children.len(), 2);
    assert_eq!(g.get_node(ids[0]).job.total_items, 1);
    assert_eq!(g.get_node(ids[1]).parent_slot, Some(1));
    assert_eq!(g.get_node(root).completed_children.len(), 1);
}

#[test]
fn shard_ranges_cover_the_vector() {
    assert_eq!(parcode::visitor_impls::shard_ranges(10, 4), vec![(0, 4), (4, 8), (8, 10)]);
    assert_eq!(parcode::visitor_impls::shard_ranges(8, 4), vec![(0, 4), (4, 8)]);
    assert!(parcode::visitor_impls::shard_ranges(0, 4).is_empty());
}

#[test]
fn shards_are_joined_in_order() {
    let jobs = vec![
        ShardJob { shard_index: 0, start: 0, count: 2 },
        ShardJob { shard_index: 1, start: 2, count: 1 },
    ];
    assert_eq!(parcode::collection::assemble_shards(&jobs, vec![vec![1u32, 2], vec![3]]).unwrap(), vec![1, 2, 3]);
    match parcode::collection::assemble_shards(&jobs, vec![vec![1u32, 2], vec![3, 4]]) {
        Err(ParcodeError::Format(m)) => assert_eq!(m, "Shard 1 items mismatch: expected 1, got 2"),
        _ => panic!("expected a format error"),
    }
}
