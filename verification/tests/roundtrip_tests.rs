use parcode::api::Parcode;
use parcode::collection::{read_shard_len, CollectionPlan, IterStep, ShardCursor, ShardJob};
use parcode::compression::CompressorRegistry;
use parcode::executor::{build_chunk, Completion, Schedule};
use parcode::graph::{JobConfig, SerializationJob, TaskGraph};
use parcode::reader::ParcodeFile;
use parcode::rt::{ConfiguredJob, PayloadJob};
use parcode::visitor_impls::{add_vector_nodes, build_shard_runs, VecContainerJob};
use parcode::ParcodeError;

fn raw(bytes: Vec<u8>) -> PayloadJob {
    PayloadJob::new(bytes, JobConfig::default())
}

type Job = Box<dyn SerializationJob<'static>>;

/// A vector of `n` items cut every `k`: a container and one shard per chunk,
/// whose payload is the shard's item count as one byte.
fn vec_graph(n: usize, k: usize) -> TaskGraph<Job> {
    let mut g: TaskGraph<Job> = TaskGraph::new();
    let runs = build_shard_runs(n, k);
    let mut shards: Vec<Job> = Vec::new();
    let mut start = 0;
    while start < n {
        let len = k.min(n - start);
        shards.push(Box::new(raw(vec![len as u8; len])));
        start += len;
    }
    let container: Job = Box::new(VecContainerJob::new(runs, n as u64));
    add_vector_nodes(&mut g, None, container, shards);
    g
}

#[test]
fn single_leaf_file() {
    let mut g: TaskGraph<Job> = TaskGraph::new();
    g.add_node(Box::new(raw(b"abc".to_vec())));
    let bytes = Parcode::builder().serialize_graph(&mut g).unwrap();
    // chunk = payload + meta byte 0, then the 26-byte header.
    assert_eq!(bytes.len(), 3 + 1 + 26);
    assert_eq!(&bytes[0..4], &[b'a', b'b', b'c', 0]);
    assert_eq!(&bytes[4..8], b"PAR4");
    let file = ParcodeFile::from_bytes(bytes).unwrap();
    assert_eq!(file.file_size(), 30);
    let h = file.header();
    assert_eq!((h.root_offset, h.root_length), (0, 4));
    let root = file.root_node().unwrap();
    assert_eq!(root.child_count(), 0);
    assert!(!root.meta().is_chunkable());
    assert_eq!(root.payload_len(), 3);
    assert_eq!(root.read_raw().unwrap(), b"abc".to_vec());
}

#[test]
fn vector_file_reads_back() {
    let mut g = vec_graph(10, 4);
    let bytes = Parcode::builder().serialize_graph(&mut g).unwrap();
    let file = ParcodeFile::from_bytes(bytes).unwrap();
    let root = file.root_node().unwrap();
    assert_eq!(root.child_count(), 3);
    assert!(root.meta().is_chunkable());
    assert_eq!(root.len(), 10);
    assert!(!root.is_empty());
    let children = root.children().unwrap();
    assert_eq!(children.len(), 3);
    assert_eq!(children[0].read_raw().unwrap(), vec![4u8; 4]);
    assert_eq!(children[2].read_raw().unwrap(), vec![2u8; 2]);
    let c1 = root.get_child_by_index(1).unwrap();
    assert_eq!(c1.offset(), children[1].offset());
    assert!(matches!(root.get_child_by_index(3), Err(ParcodeError::Format(_))));
}

#[test]
fn vector_items_are_located() {
    let mut g = vec_graph(10, 4);
    let bytes = Parcode::builder().serialize_graph(&mut g).unwrap();
    let file = ParcodeFile::from_bytes(bytes).unwrap();
    let root = file.root_node().unwrap();
    let (shard, local) = root.locate_shard_item(9).unwrap();
    assert_eq!(local, 1);
    assert_eq!(shard.read_raw().unwrap(), vec![2u8; 2]);
    let (shard0, local0) = root.locate_shard_item(3).unwrap();
    assert_eq!(local0, 3);
    assert_eq!(shard0.read_raw().unwrap(), vec![4u8; 4]);
    assert!(matches!(root.locate_shard_item(10), Err(ParcodeError::Format(_))));
}

#[test]
fn full_load_plan() {
    let mut g = vec_graph(10, 4);
    let bytes = Parcode::builder().serialize_graph(&mut g).unwrap();
    let file = ParcodeFile::from_bytes(bytes).unwrap();
    match file.root_node().unwrap().collection_plan().unwrap() {
        CollectionPlan::Shards { total_items, jobs } => {
            assert_eq!(total_items, 10);
            assert_eq!(jobs[2], ShardJob { shard_index: 2, start: 8, count: 2 });
        }
        _ => panic!("expected shards"),
    }
}

#[test]
fn small_payload_plans() {
    let mut g: TaskGraph<Job> = TaskGraph::new();
    g.add_node(Box::new(raw(vec![1, 2, 3])));
    let file = ParcodeFile::from_bytes(Parcode::builder().serialize_graph(&mut g).unwrap()).unwrap();
    match file.root_node().unwrap().collection_plan().unwrap() {
        CollectionPlan::Inline(p) => assert_eq!(p, vec![1, 2, 3]),
        _ => panic!("expected inline"),
    }
    let mut g2: TaskGraph<Job> = TaskGraph::new();
    g2.add_node(Box::new(raw(Vec::new())));
    let file2 = ParcodeFile::from_bytes(Parcode::builder().serialize_graph(&mut g2).unwrap()).unwrap();
    assert!(matches!(file2.root_node().unwrap().collection_plan().unwrap(), CollectionPlan::Empty));
    assert_eq!(file2.root_node().unwrap().len(), 0);
}

#[test]
fn compressed_file_reads_back() {
    let data: Vec<u8> = (0..4000u32).map(|i| (i % 13) as u8).collect();
    let mut g: TaskGraph<Job> = TaskGraph::new();
    g.add_node(Box::new(raw(data.clone())));
    let bytes = Parcode::builder().compression(true).serialize_graph(&mut g).unwrap();
    assert!(bytes.len() < data.len());
    let file = ParcodeFile::from_bytes(bytes).unwrap();
    let root = file.root_node().unwrap();
    assert_eq!(root.meta().compression_method(), 1);
    assert_eq!(root.read_raw().unwrap(), data);
}

#[test]
fn configured_job_chooses_its_algorithm() {
    let data: Vec<u8> = vec![7u8; 1000];
    let mut g: TaskGraph<Job> = TaskGraph::new();
    let cfg = JobConfig { compression_id: 1, is_map: false };
    g.add_node(Box::new(ConfiguredJob::new(Box::new(raw(data.clone())), cfg)));
    let file = ParcodeFile::from_bytes(Parcode::builder().serialize_graph(&mut g).unwrap()).unwrap();
    let root = file.root_node().unwrap();
    assert_eq!(root.meta().compression_method(), 1);
    assert_eq!(root.read_raw().unwrap(), data);
}

#[test]
fn unknown_algorithm_falls_back_to_none() {
    let mut g: TaskGraph<Job> = TaskGraph::new();
    let cfg = JobConfig { compression_id: 5, is_map: false };
    g.add_node(Box::new(ConfiguredJob::new(Box::new(raw(vec![1, 2])), cfg)));
    let file = ParcodeFile::from_bytes(Parcode::builder().serialize_graph(&mut g).unwrap()).unwrap();
    let root = file.root_node().unwrap();
    assert_eq!(root.meta().compression_method(), 0);
    assert_eq!(root.read_raw().unwrap(), vec![1, 2]);
}

#[test]
fn graph_without_root_fails() {
    let mut g: TaskGraph<Job> = TaskGraph::new();
    assert!(matches!(Parcode::builder().serialize_graph(&mut g), Err(ParcodeError::Internal(_))));
}

#[test]
fn child_linked_to_a_later_parent_fails() {
    let mut g: TaskGraph<Job> = TaskGraph::new();
    let child = g.add_node(Box::new(raw(vec![1])));
    let parent = g.add_node(Box::new(raw(vec![2])));
    g.link_parent_child(parent, child);
    assert!(matches!(Parcode::builder().serialize_graph(&mut g), Err(ParcodeError::Internal(_))));
}

#[test]
fn open_rejects_bad_files() {
    assert!(matches!(ParcodeFile::from_bytes(vec![0u8; 10]), Err(ParcodeError::Format(_))));
    let mut bad_magic = vec![0u8; 26];
    bad_magic[0..4].copy_from_slice(b"PAR3");
    assert!(matches!(ParcodeFile::from_bytes(bad_magic), Err(ParcodeError::Format(_))));
    let mut bad_version = vec![0u8; 26];
    bad_version[0..4].copy_from_slice(b"PAR4");
    bad_version[4] = 3;
    assert!(matches!(ParcodeFile::from_bytes(bad_version), Err(ParcodeError::Format(_))));
    assert!(matches!(Parcode::open_bytes(vec![1, 2, 3]), Err(ParcodeError::Format(_))));
}

#[test]
fn chunks_out_of_bounds_are_rejected() {
    let mut header_only = vec![0u8; 26];
    header_only[0..4].copy_from_slice(b"PAR4");
    header_only[4] = 4;
    header_only[6] = 100; // root offset 100, length 0
    let file = ParcodeFile::from_bytes(header_only).unwrap();
    assert!(matches!(file.root_node(), Err(ParcodeError::Format(_))));
    assert!(matches!(file.get_chunk(0, 27), Err(ParcodeError::Format(_))));
    let leaf = file.get_chunk(0, 1).unwrap();
    assert_eq!(leaf.child_count(), 0);
    assert_eq!(leaf.payload_len(), 0);
}

#[test]
fn inspector_reports_the_tree() {
    let mut g = vec_graph(10, 4);
    let bytes = Parcode::builder().serialize_graph(&mut g).unwrap();
    let size = bytes.len() as u64;
    let report = Parcode::inspect_bytes(bytes).unwrap();
    assert_eq!(report.file_size, size);
    assert_eq!(report.global_version, 4);
    assert_eq!(report.tree.offset, report.root_offset);
    assert_eq!(report.tree.node_type_hint, "Vec Container");
    assert_eq!(report.tree.distribution_info.as_deref(), Some("Vec<10> items"));
    assert_eq!(report.tree.compression_algo, "None");
    assert_eq!(report.tree.child_count, 3);
    assert_eq!(report.tree.children.len(), 3);
    assert_eq!(report.tree.children[0].node_type_hint, "Leaf/Blob");
    assert_eq!(report.tree.children[0].payload_size, 4);
    assert!(report.tree.children[0].distribution_info.is_none());
}

#[test]
fn inspector_recognizes_map_containers() {
    let mut g: TaskGraph<Job> = TaskGraph::new();
    let root = g.add_node(Box::new(raw(2u32.to_le_bytes().to_vec())));
    let a = g.add_node(Box::new(raw(Vec::new())));
    let b = g.add_node(Box::new(raw(Vec::new())));
    g.link_parent_child(root, a);
    g.link_parent_child(root, b);
    let report = Parcode::inspect_bytes(Parcode::builder().serialize_graph(&mut g).unwrap()).unwrap();
    assert_eq!(report.tree.node_type_hint, "Map Container");
    assert_eq!(report.tree.distribution_info.as_deref(), Some("Hashtable with 2 buckets"));
}

#[test]
fn inspector_reports_generic_containers() {
    let mut g: TaskGraph<Job> = TaskGraph::new();
    let root = g.add_node(Box::new(raw(vec![1, 2])));
    let a = g.add_node(Box::new(raw(Vec::new())));
    g.link_parent_child(root, a);
    let report = Parcode::inspect_bytes(Parcode::builder().compression(true).serialize_graph(&mut g).unwrap()).unwrap();
    assert_eq!(report.tree.node_type_hint, "Generic Container");
    assert_eq!(report.tree.compression_algo, "LZ4");
}

#[test]
fn failed_encoding_fails_the_write() {
    let mut g: TaskGraph<Job> = TaskGraph::new();
    g.add_node(Box::new(PayloadJob::failed("boom".to_string(), JobConfig::default())));
    match Parcode::builder().serialize_graph(&mut g) {
        Err(ParcodeError::Serialization(m)) => assert_eq!(m, "boom"),
        other => panic!("unexpected {:?}", other.map(|b| b.len())),
    }
}

/// Builds the graph of a `Vec<u64>` the way a writer shards it, encoding each
/// shard's items with bincode.
fn u64_vector_graph(data: &[u64], cpus: usize) -> TaskGraph<Job> {
    let sample = bincode::serde::encode_to_vec(&data[0..data.len().min(8)], bincode::config::standard()).unwrap();
    let k = parcode::visitor_impls::items_per_shard(data.len(), sample.len() as u64, 8, cpus);
    let runs = build_shard_runs(data.len(), k);
    let shards: Vec<Job> = data
        .chunks(k)
        .map(|c| -> Job { Box::new(raw(bincode::serde::encode_to_vec(c, bincode::config::standard()).unwrap())) })
        .collect();
    let mut g: TaskGraph<Job> = TaskGraph::new();
    add_vector_nodes(&mut g, None, Box::new(VecContainerJob::new(runs, data.len() as u64)), shards);
    g
}

fn decode_item(shard: &parcode::reader::ChunkNode<'_>, index: usize) -> u64 {
    let payload = shard.read_raw().unwrap();
    let items: Vec<u64> = bincode::serde::decode_from_slice(&payload, bincode::config::standard()).unwrap().0;
    items[index]
}

#[test]
fn random_access_over_fifty_thousand_items() {
    let data: Vec<u64> = (0..50_000u64).map(|i| i * 10).collect();
    let mut g = u64_vector_graph(&data, 4);
    let file = ParcodeFile::from_bytes(Parcode::builder().serialize_graph(&mut g).unwrap()).unwrap();
    let root = file.root_node().unwrap();
    assert!(root.child_count() > 1);
    assert_eq!(root.len(), 50_000);
    for (index, expected) in [(0usize, 0u64), (25_000, 250_000), (49_999, 499_990)] {
        let (shard, local) = root.locate_shard_item(index).unwrap();
        assert_eq!(decode_item(&shard, local), expected);
    }
    assert!(root.locate_shard_item(50_001).is_err());
}

#[test]
fn full_load_of_a_sharded_vector() {
    let data: Vec<u64> = (0..100_000u64).collect();
    let mut g = u64_vector_graph(&data, 8);
    let file = ParcodeFile::from_bytes(Parcode::builder().compression(true).serialize_graph(&mut g).unwrap()).unwrap();
    let root = file.root_node().unwrap();
    match root.collection_plan().unwrap() {
        CollectionPlan::Shards { total_items, jobs } => {
            assert_eq!(total_items, 100_000);
            assert!(jobs.len() > 1);
            let mut loaded = Vec::with_capacity(total_items);
            for job in &jobs {
                assert_eq!(job.start, loaded.len());
                let shard = root.get_child_by_index(job.shard_index).unwrap();
                let payload = shard.read_raw().unwrap();
                let items: Vec<u64> = bincode::serde::decode_from_slice(&payload, bincode::config::standard()).unwrap().0;
                assert_eq!(items.len(), job.count);
                loaded.extend(items);
            }
            assert_eq!(loaded, data);
        }
        _ => panic!("expected shards"),
    }
}

#[test]
fn streaming_cursor_walks_all_shards() {
    let data: Vec<u64> = (0..1000u64).collect();
    let mut g = u64_vector_graph(&data, 8);
    let file = ParcodeFile::from_bytes(Parcode::builder().serialize_graph(&mut g).unwrap()).unwrap();
    let root = file.root_node().unwrap();
    let mut cursor = root.iter_cursor().unwrap();
    let mut buffer: std::vec::IntoIter<u64> = Vec::new().into_iter();
    let mut seen = Vec::new();
    loop {
        match cursor.next_step(buffer.len() > 0) {
            IterStep::Done => break,
            IterStep::Buffered => seen.push(buffer.next().unwrap()),
            IterStep::LoadShard(i) => {
                let shard = root.get_child_by_index(i).unwrap();
                let payload = shard.read_raw().unwrap();
                let items: Vec<u64> = bincode::serde::decode_from_slice(&payload, bincode::config::standard()).unwrap().0;
                buffer = items.into_iter();
                cursor.shard_loaded();
            }
            IterStep::OutOfShards => panic!("ran out of shards"),
        }
    }
    assert_eq!(seen, data);
    assert_eq!(cursor.remaining(), 0);
}

#[test]
fn cursor_reports_missing_shards() {
    let mut c = ShardCursor::new(3, 1);
    assert_eq!(c.remaining(), 3);
    assert_eq!(c.next_step(false), IterStep::LoadShard(0));
    c.shard_loaded();
    assert_eq!(c.next_step(true), IterStep::Buffered);
    assert_eq!(c.remaining(), 2);
    assert_eq!(c.next_step(false), IterStep::OutOfShards);
    let mut empty = ShardCursor::new(0, 0);
    assert_eq!(empty.next_step(true), IterStep::Done);
}

#[test]
fn shard_length_prefix() {
    let bytes = bincode::serde::encode_to_vec(&vec![1u64; 300], bincode::config::standard()).unwrap();
    assert_eq!(read_shard_len(&bytes).unwrap(), (300, 3));
    assert_eq!(read_shard_len(&[7, 1]).unwrap(), (7, 1));
    assert!(matches!(read_shard_len(&[]), Err(ParcodeError::Serialization(_))));
    assert!(matches!(read_shard_len(&[254, 0]), Err(ParcodeError::Serialization(_))));
}

#[test]
fn report_text_draws_the_tree() {
    let mut g = vec_graph(10, 4);
    let report = Parcode::inspect_bytes(Parcode::builder().serialize_graph(&mut g).unwrap()).unwrap();
    let text = report.to_string();
    assert!(text.starts_with("=== PARCODE INSPECTOR REPORT ===\n"));
    assert!(text.contains(&format!("Root Offset:    {}\n[GRAPH LAYOUT]\n", report.root_offset)));
    assert!(text.contains("\u{2514}\u{2500}\u{2500} [Vec Container] Size: 13b | Algo: None | Children: 3 [Vec<10> items]\n"));
    assert!(text.contains("    \u{251c}\u{2500}\u{2500} [Leaf/Blob] Size: 4b | Algo: None | Children: 0\n"));
    assert!(text.ends_with("    \u{2514}\u{2500}\u{2500} [Leaf/Blob] Size: 2b | Algo: None | Children: 0\n"));
}

#[test]
fn strict_chunk_building_refuses_unknown_algorithms() {
    let reg = CompressorRegistry::new();
    let job = ConfiguredJob::new(Box::new(raw(vec![1, 2])), JobConfig { compression_id: 5, is_map: false });
    assert!(matches!(build_chunk(&job, &Vec::new(), &reg, false, false), Err(ParcodeError::Compression(_))));
    assert_eq!(build_chunk(&job, &Vec::new(), &reg, false, true).unwrap(), vec![1, 2, 0]);
}

#[test]
fn schedule_releases_parents_after_their_last_child() {
    let mut g: TaskGraph<Job> = TaskGraph::new();
    let root = g.add_node(Box::new(raw(vec![0])));
    let a = g.add_node(Box::new(raw(vec![1])));
    let b = g.add_node(Box::new(raw(vec![2])));
    g.link_parent_child(root, a);
    g.link_parent_child(root, b);
    let mut s = Schedule::new(&g);
    assert_eq!(s.ready_nodes(), vec![1, 2]);
    let mut early = Schedule::new(&g);
    assert!(matches!(early.take_children(0), Err(ParcodeError::Internal(_))));
    assert!(s.take_children(2).unwrap().is_empty());
    let rb = parcode::format::ChildRef { offset: 0, length: 2 };
    assert!(matches!(s.complete(2, rb).unwrap(), Completion::ParentWaiting));
    let ra = parcode::format::ChildRef { offset: 2, length: 2 };
    assert!(matches!(s.complete(1, ra).unwrap(), Completion::ParentReady(0)));
    let refs = s.take_children(0).unwrap();
    assert_eq!((refs[0].offset, refs[1].offset), (2, 0));
    let rr = parcode::format::ChildRef { offset: 4, length: 38 };
    match s.complete(0, rr).unwrap() {
        Completion::Root(r) => assert_eq!(r.offset, 4),
        other => panic!("unexpected {:?}", other),
    }
}

#[test]
fn written_files_can_always_be_inspected() {
    let data: Vec<u64> = (0..20_000u64).map(|i| i ^ 0x5a5a).collect();
    for compress in [false, true] {
        let mut g = u64_vector_graph(&data, 4);
        let bytes = Parcode::builder().compression(compress).serialize_graph(&mut g).unwrap();
        let report = Parcode::inspect_bytes(bytes).unwrap();
        assert!(report.tree.child_count > 1);
        assert_eq!(report.tree.children.len(), report.tree.child_count as usize);
    }
}

fn info(hint: &str, size: u64, algo: &str, distribution: Option<&str>, children: Vec<parcode::inspector::ChunkInfo>) -> parcode::inspector::ChunkInfo {
    parcode::inspector::ChunkInfo {
        offset: 0,
        total_length: size + 1,
        payload_size: size,
        child_count: children.len() as u32,
        compression_algo: algo.to_string(),
        is_chunkable: !children.is_empty(),
        node_type_hint: hint.to_string(),
        distribution_info: distribution.map(|d| d.to_string()),
        children,
    }
}

#[test]
fn report_text_is_exact() {
    let deep = info("Leaf/Blob", 0, "Unknown(7)", None, vec![]);
    let mid = info("Generic Container", 18_446_744_073_709_551_615, "LZ4", None, vec![deep]);
    let last = info("Leaf/Blob", 10, "None", None, vec![]);
    let tree = info("Map Container", 4, "None", Some("Hashtable with 2 buckets"), vec![mid, last]);
    let report = parcode::inspector::DebugReport { file_size: 100, root_offset: 1_000_000, global_version: 4, tree };
    let expected = "=== PARCODE INSPECTOR REPORT ===\n\
Root Offset:    1000000\n\
[GRAPH LAYOUT]\n\
\u{2514}\u{2500}\u{2500} [Map Container] Size: 4b | Algo: None | Children: 2 [Hashtable with 2 buckets]\n    \
\u{251c}\u{2500}\u{2500} [Generic Container] Size: 18446744073709551615b | Algo: LZ4 | Children: 1\n    \
\u{2502}   \u{2514}\u{2500}\u{2500} [Leaf/Blob] Size: 0b | Algo: Unknown(7) | Children: 0\n    \
\u{2514}\u{2500}\u{2500} [Leaf/Blob] Size: 10b | Algo: None | Children: 0\n";
    assert_eq!(report.to_string(), expected);
}

#[test]
fn wrapped_jobs_report_the_inner_estimate() {
    let configured = ConfiguredJob::new(Box::new(raw(vec![1, 2, 3])), JobConfig { compression_id: 1, is_map: false });
    assert_eq!(configured.estimated_size(), 3);
    let boxed: Job = Box::new(VecContainerJob::new(build_shard_runs(10, 4), 10));
    assert_eq!(boxed.estimated_size(), 8 + 2 * 8);
}

#[test]
fn children_placed_after_their_parent_are_reported() {
    let mut bytes = Vec::new();
    bytes.extend_from_slice(&21u64.to_le_bytes());
    bytes.extend_from_slice(&2u64.to_le_bytes());
    bytes.extend_from_slice(&1u32.to_le_bytes());
    bytes.push(0x01);
    bytes.extend_from_slice(&[7, 0x00]);
    bytes.extend_from_slice(&parcode::format::GlobalHeader::new(0, 21).to_bytes());
    let report = Parcode::inspect_bytes(bytes).unwrap();
    assert_eq!(report.tree.child_count, 1);
    assert_eq!(report.tree.children[0].offset, 21);
    assert_eq!(report.tree.children[0].payload_size, 1);
}
