use parcode::visitor_impls::{ShardRun, VecContainerJob};
use parcode::graph::SerializationJob;

/// The run table in a container payload is what bincode writes for the same pairs.
#[test]
fn run_table_matches_bincode() {
    let runs = vec![(4u32, 2u32), (2, 1), (250, 251), (65_535, 65_536)];
    let job = VecContainerJob::new(
        runs.iter().map(|&(a, b)| ShardRun { item_count: a, repeat: b }).collect(),
        99,
    );
    let payload = job.execute(&[]).unwrap();
    let expected = bincode::serde::encode_to_vec(&runs, bincode::config::standard()).unwrap();
    assert_eq!(&payload[8..], &expected[..]);
    assert_eq!(&payload[0..8], &99u64.to_le_bytes());
}
