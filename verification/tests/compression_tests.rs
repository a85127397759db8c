use parcode::compression::{CompressorRegistry, Lz4Compressor};
use parcode::{Compressor, NoCompression, ParcodeError};

#[test]
fn no_compression_is_identity() {
    let c = NoCompression;
    assert_eq!(c.id(), 0);
    let data = b"hello world".to_vec();
    assert_eq!(c.compress(&data).unwrap(), data);
    assert_eq!(c.decompress(&data).unwrap(), data);
    let mut out = vec![9u8];
    c.compress_append(&data, &mut out).unwrap();
    assert_eq!(out[0], 9);
    assert_eq!(&out[1..], &data[..]);
}

#[test]
fn lz4_roundtrip() {
    let c = Lz4Compressor;
    assert_eq!(c.id(), 1);
    let data: Vec<u8> = (0..5000u32).map(|i| (i % 7) as u8).collect();
    let packed = c.compress(&data).unwrap();
    assert!(packed.len() < data.len());
    assert_eq!(&packed[0..4], &(data.len() as u32).to_le_bytes());
    assert_eq!(c.decompress(&packed).unwrap(), data);
}

#[test]
fn lz4_compress_append_matches_compress() {
    let c = Lz4Compressor;
    let data: Vec<u8> = b"abcabcabcabcabcabcabcabc".to_vec();
    let mut out = vec![1u8, 2, 3];
    c.compress_append(&data, &mut out).unwrap();
    assert_eq!(&out[0..3], &[1, 2, 3]);
    assert_eq!(out[3..].to_vec(), c.compress(&data).unwrap());
    assert_eq!(c.decompress(&out[3..]).unwrap(), data);
}

#[test]
fn lz4_rejects_garbage() {
    let c = Lz4Compressor;
    let err = c.decompress(&[5, 0, 0, 0, 0xF0]).unwrap_err();
    assert!(matches!(err, ParcodeError::Compression(_)));
}

#[test]
fn default_registry_has_two_algorithms() {
    let reg = CompressorRegistry::new();
    assert_eq!(reg.get(0).unwrap().id(), 0);
    assert_eq!(reg.get(1).unwrap().id(), 1);
    for id in 2..=9u8 {
        assert!(matches!(reg.get(id), Err(ParcodeError::Compression(_))));
    }
}

#[test]
fn register_replaces_and_grows() {
    let mut reg: CompressorRegistry<NoCompression> = CompressorRegistry::empty();
    assert!(reg.get(0).is_err());
    reg.register(NoCompression);
    assert_eq!(reg.get(0).unwrap().id(), 0);
    assert!(reg.get(1).is_err());
}

#[test]
fn oversized_lz4_blocks_are_refused() {
    let mut bytes = vec![0u8, 0, 0, 1, 0xF0];
    bytes.resize(9_000_000, 0xFF);
    assert!(matches!(parcode::compression::Lz4Compressor.decompress(&bytes), Err(parcode::ParcodeError::Compression(_))));
}
