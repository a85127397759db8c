use parcode::format::{ChildRef, GlobalHeader, MetaByte, CHILD_REF_SIZE, GLOBAL_HEADER_SIZE, MAGIC_BYTES};
use parcode::ParcodeError;

#[test]
fn meta_byte_packs_flags() {
    let m = MetaByte::new(true, 1);
    assert_eq!(m.as_u8(), 0b0000_0011);
    assert!(m.is_chunkable());
    assert_eq!(m.compression_method(), 1);

    let leaf = MetaByte::new(false, 0);
    assert_eq!(leaf.as_u8(), 0);
    assert!(!leaf.is_chunkable());
    assert_eq!(leaf.compression_method(), 0);
}

#[test]
fn meta_byte_keeps_three_bits_of_the_id() {
    let m = MetaByte::new(false, 9);
    assert_eq!(m.compression_method(), 1);
    assert_eq!(m.as_u8(), 0b0000_0010);
    let top = MetaByte::new(true, 7);
    assert_eq!(top.as_u8(), 0b0000_1111);
    assert_eq!(top.compression_method(), 7);
}

#[test]
fn meta_byte_reads_raw_bytes() {
    let m = MetaByte::from_byte(0xF5);
    assert!(m.is_chunkable());
    assert_eq!(m.compression_method(), 2);
    assert_eq!(m.as_u8(), 0xF5);
}

#[test]
fn child_ref_roundtrip() {
    let r = ChildRef { offset: 0x0102_0304_0506_0708, length: 42 };
    let bytes = r.to_bytes();
    assert_eq!(bytes.len(), CHILD_REF_SIZE);
    assert_eq!(&bytes[0..8], &[8, 7, 6, 5, 4, 3, 2, 1]);
    assert_eq!(&bytes[8..16], &[42, 0, 0, 0, 0, 0, 0, 0]);
    let back = ChildRef::from_bytes(&bytes).unwrap();
    assert_eq!(back.offset, r.offset);
    assert_eq!(back.length, r.length);
}

#[test]
fn child_ref_reads_the_first_sixteen_bytes() {
    let mut bytes = ChildRef { offset: 5, length: 6 }.to_bytes().to_vec();
    bytes.push(0xAA);
    let r = ChildRef::from_bytes(&bytes).unwrap();
    assert_eq!((r.offset, r.length), (5, 6));
}

#[test]
fn child_ref_rejects_short_input() {
    let err = ChildRef::from_bytes(&[0u8; 15]).unwrap_err();
    assert!(matches!(err, ParcodeError::Format(_)));
}

#[test]
fn global_header_layout() {
    let h = GlobalHeader::new(100, 20);
    let bytes = h.to_bytes();
    assert_eq!(bytes.len(), GLOBAL_HEADER_SIZE);
    assert_eq!(&bytes[0..4], &MAGIC_BYTES);
    assert_eq!(&bytes[0..4], b"PAR4");
    assert_eq!(&bytes[4..6], &[4, 0]);
    assert_eq!(&bytes[6..14], &100u64.to_le_bytes());
    assert_eq!(&bytes[14..22], &20u64.to_le_bytes());
    assert_eq!(&bytes[22..26], &[0, 0, 0, 0]);
    assert_eq!(h.version, 4);
    assert_eq!(h.checksum, 0);
}
