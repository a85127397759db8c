use parcode::api::Parcode;
use parcode::graph::{JobConfig, SerializationJob, TaskGraph};
use parcode::map::{next_candidate, num_shards, shard_entry_starts, shard_for, shard_header, MapEntry, MapShardJob};
use parcode::reader::ParcodeFile;
use parcode::rt::PayloadJob;
use parcode::ParcodeError;
use std::hash::{Hash, Hasher};

fn entry(hash: u64, bytes: &[u8]) -> MapEntry {
    MapEntry { hash, encoded: bytes.to_vec() }
}

#[test]
fn empty_shard_has_empty_payload() {
    let job = MapShardJob::new(Vec::new());
    assert!(job.execute(&[]).unwrap().is_empty());
    assert_eq!(shard_header(&[]).unwrap(), None);
    assert!(shard_entry_starts(&[1, 2, 3]).unwrap().is_empty());
}

#[test]
fn shard_layout_is_struct_of_arrays() {
    let job = MapShardJob::new(vec![entry(7, &[1, 2, 3]), entry(9, &[4, 5])]);
    let p = job.execute(&[]).unwrap();
    let mut expected = vec![2, 0, 0, 0, 0, 0, 0, 0];
    expected.extend_from_slice(&7u64.to_le_bytes());
    expected.extend_from_slice(&9u64.to_le_bytes());
    expected.extend_from_slice(&0u32.to_le_bytes());
    expected.extend_from_slice(&3u32.to_le_bytes());
    expected.extend_from_slice(&[1, 2, 3, 4, 5]);
    assert_eq!(p, expected);
    assert_eq!(job.estimated_size(), 24);
}

#[test]
fn shard_lookup_finds_entries() {
    let job = MapShardJob::new(vec![entry(7, &[1, 2, 3]), entry(9, &[4, 5]), entry(7, &[6])]);
    let p = job.execute(&[]).unwrap();
    let count = shard_header(&p).unwrap().unwrap();
    assert_eq!(count, 3);
    let data_start = 8 + 12 * count;
    let (i, start) = next_candidate(&p, count, 9, 0).unwrap().unwrap();
    assert_eq!(i, 1);
    assert_eq!(start, data_start + 3);
    assert_eq!(&p[start..start + 2], &[4, 5]);
    let (i0, s0) = next_candidate(&p, count, 7, 0).unwrap().unwrap();
    assert_eq!((i0, s0), (0, data_start));
    let (i2, s2) = next_candidate(&p, count, 7, 1).unwrap().unwrap();
    assert_eq!((i2, s2), (2, data_start + 5));
    assert_eq!(next_candidate(&p, count, 8, 0).unwrap(), None);
    assert_eq!(shard_entry_starts(&p).unwrap(), vec![data_start, data_start + 3, data_start + 5]);
}

#[test]
fn shard_errors() {
    // 5 entries announced, but no room for their hashes.
    let p = vec![5, 0, 0, 0, 0, 0, 0, 0, 1, 2];
    assert!(matches!(shard_header(&p), Err(ParcodeError::Format(_))));
    assert!(matches!(shard_entry_starts(&p), Err(ParcodeError::Format(_))));
    // One entry whose hash fits but whose offset does not.
    let mut q = vec![1, 0, 0, 0, 0, 0, 0, 0];
    q.extend_from_slice(&3u64.to_le_bytes());
    assert!(matches!(next_candidate(&q, 1, 3, 0), Err(ParcodeError::Format(_))));
    assert_eq!(next_candidate(&q, 1, 4, 0).unwrap(), None);
    // An offset that points past the payload.
    q.extend_from_slice(&100u32.to_le_bytes());
    assert!(matches!(next_candidate(&q, 1, 3, 0), Err(ParcodeError::Format(_))));
    assert!(matches!(shard_entry_starts(&q), Err(ParcodeError::Format(_))));
}

#[test]
fn container_header_and_shard_choice() {
    assert_eq!(num_shards(&[1, 2, 3]), None);
    assert_eq!(num_shards(&[4, 0, 0, 0, 9]), Some(4));
    assert_eq!(shard_for(10, 4), 2);
    assert_eq!(shard_for(3, 7), 3);
}

#[test]
fn keys_hash_with_xxhash64_seed_zero() {
    let e = MapEntry::for_key(&42u64, vec![1]);
    let mut h = twox_hash::XxHash64::with_seed(0);
    42u64.hash(&mut h);
    assert_eq!(e.hash, h.finish());
    assert_eq!(e.encoded, vec![1]);
    let again = MapEntry::for_key(&42u64, vec![]);
    assert_eq!(again.hash, e.hash);
    assert_ne!(MapEntry::for_key(&"key", vec![]).hash, e.hash);
}

fn raw(bytes: Vec<u8>) -> PayloadJob {
    PayloadJob::new(bytes, JobConfig::default())
}

type Job = Box<dyn SerializationJob<'static>>;

#[test]
fn map_file_lookup() {
    let key = "alpha";
    let shards = 3u32;
    let h = MapEntry::for_key(&key, vec![]).hash;
    let target = shard_for(h, shards);
    let mut g: TaskGraph<Job> = TaskGraph::new();
    let root = g.add_node(Box::new(raw(shards.to_le_bytes().to_vec())));
    for s in 0..shards as usize {
        let items = if s == target { vec![MapEntry::for_key(&key, vec![0xAB])] } else { Vec::new() };
        let id = g.add_node(Box::new(MapShardJob::new(items)));
        g.link_parent_child(root, id);
    }
    let file = ParcodeFile::from_bytes(Parcode::builder().serialize_graph(&mut g).unwrap()).unwrap();
    let node = file.root_node().unwrap();
    let (shard, hash) = node.map_shard_for(&key).unwrap().unwrap();
    assert_eq!(hash, h);
    let payload = shard.read_raw().unwrap();
    let count = shard_header(&payload).unwrap().unwrap();
    let (_, start) = next_candidate(&payload, count, hash, 0).unwrap().unwrap();
    assert_eq!(payload[start], 0xAB);
}

#[test]
fn map_with_empty_container_or_no_shard() {
    let mut g: TaskGraph<Job> = TaskGraph::new();
    g.add_node(Box::new(raw(vec![1, 2])));
    let file = ParcodeFile::from_bytes(Parcode::builder().serialize_graph(&mut g).unwrap()).unwrap();
    assert!(file.root_node().unwrap().map_shard_for(&1u32).unwrap().is_none());

    let mut g2: TaskGraph<Job> = TaskGraph::new();
    g2.add_node(Box::new(raw(vec![0, 0, 0, 0])));
    let file2 = ParcodeFile::from_bytes(Parcode::builder().serialize_graph(&mut g2).unwrap()).unwrap();
    assert!(matches!(file2.root_node().unwrap().map_shard_for(&1u32), Err(ParcodeError::Format(_))));
}

#[test]
fn entry_starts_are_read_one_at_a_time() {
    let job = MapShardJob::new(vec![entry(7, &[1, 2, 3]), entry(9, &[4, 5]), entry(7, &[6])]);
    let mut p = job.execute(&[]).unwrap();
    let data_start = 8 + 12 * 3;
    assert_eq!(parcode::map::entry_start(&p, 3, 0).unwrap(), data_start);
    assert_eq!(parcode::map::entry_start(&p, 3, 2).unwrap(), data_start + 5);
    // A bad offset for the last entry leaves the earlier ones readable.
    p[8 + 24 + 8..8 + 24 + 12].copy_from_slice(&1000u32.to_le_bytes());
    assert_eq!(parcode::map::entry_start(&p, 3, 1).unwrap(), data_start + 3);
    assert!(matches!(parcode::map::entry_start(&p, 3, 2), Err(ParcodeError::Format(_))));
}
