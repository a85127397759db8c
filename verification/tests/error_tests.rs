use parcode::compression::CompressorRegistry;
use parcode::format::GlobalHeader;
use parcode::reader::ParcodeFile;
use parcode::{Compressor, NoCompression, ParcodeError};

fn format_message(r: Result<ParcodeFile, ParcodeError>) -> String {
    match r {
        Err(ParcodeError::Format(m)) => m,
        _ => panic!("expected a format error"),
    }
}

#[test]
fn short_files_are_rejected_with_their_reason() {
    assert_eq!(format_message(ParcodeFile::from_bytes(vec![0u8; 10])), "File smaller than header");
}

#[test]
fn bad_magic_is_named_in_the_error() {
    let m = format_message(ParcodeFile::from_bytes(vec![0u8; 100]));
    assert_eq!(m, "Invalid Magic Bytes");
    assert!(m.contains("Magic"));
}

#[test]
fn unsupported_version_is_named_in_the_error() {
    let mut bytes = vec![7u8; 3];
    let mut header = GlobalHeader::new(0, 3).to_bytes();
    header[4] = 3;
    header[5] = 0;
    bytes.extend_from_slice(&header);
    assert_eq!(format_message(ParcodeFile::from_bytes(bytes)), "Unsupported version: 3. Expected V4.");
}

#[test]
fn chunks_outside_the_file_name_their_bounds() {
    let mut bytes = vec![0u8; 4];
    bytes.extend_from_slice(&GlobalHeader::new(0, 4).to_bytes());
    let file = ParcodeFile::from_bytes(bytes).unwrap();
    match file.get_chunk(20, 100) {
        Err(ParcodeError::Format(m)) => assert_eq!(m, "Chunk out of bounds: 20 + 100"),
        _ => panic!("expected a format error"),
    }
}

#[test]
fn unregistered_algorithms_are_named_in_the_error() {
    let r = CompressorRegistry::new();
    match r.get(5) {
        Err(ParcodeError::Compression(s)) => assert_eq!(s, "Algorithm ID 5 is not registered or available"),
        _ => panic!("expected a compression error"),
    }
}

#[test]
fn identity_appends_to_any_buffer() {
    let mut out = vec![9u8, 8];
    NoCompression.compress_append(&[1, 2, 3], &mut out).unwrap();
    assert_eq!(out, vec![9, 8, 1, 2, 3]);
}

#[test]
fn a_header_after_any_prefix_opens() {
    for prefix in [vec![], vec![1u8, 2, 3], vec![0u8; 1000]] {
        let mut bytes = prefix.clone();
        bytes.extend_from_slice(&GlobalHeader::new(17, 42).to_bytes());
        let file = ParcodeFile::from_bytes(bytes.clone()).unwrap();
        assert_eq!(file.file_size(), bytes.len() as u64);
        let h = file.header();
        assert_eq!((h.magic, h.version, h.root_offset, h.root_length, h.checksum), (*b"PAR4", 4, 17, 42, 0));
    }
}
