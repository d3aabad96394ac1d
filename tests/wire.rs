use btdu_rs::wire::{decode_search_header, read_u16_le, read_u32_le, read_u64_le, RawReader};

#[test]
fn integers_are_little_endian() {
    let b = [0x01u8, 0x02, 0x03, 0x04, 0x05, 0x06, 0x07, 0x08, 0x09];
    assert_eq!(read_u16_le(&b, 0), 0x0201);
    assert_eq!(read_u32_le(&b, 1), 0x05040302);
    assert_eq!(read_u64_le(&b, 1), 0x0908070605040302);
    assert_eq!(read_u64_le(&[0xff; 8], 0), u64::MAX);
}

#[test]
fn reader_advances_and_reports_exhaustion() {
    let b = [7u8, 1, 0, 0, 0, 2, 0, 0, 0, 0, 0, 0, 0, 9];
    let mut r = RawReader::new(&b);
    assert_eq!(r.available(), 14);
    assert_eq!(r.next_u8(), Some(7));
    assert_eq!(r.next_u32(), Some(1));
    assert_eq!(r.next_u64(), Some(2));
    assert_eq!(r.available(), 1);
    assert_eq!(r.next_u32(), None);
    assert_eq!(r.position(), 13);
    assert!(!r.skip(2));
    assert!(r.skip(1));
    assert_eq!(r.next_u8(), None);
    assert_eq!(r.available(), 0);
    assert_eq!(r.data().len(), 14);
}

#[test]
fn search_header_layout() {
    let mut b = vec![0u8; 4];
    b.extend_from_slice(&11u64.to_le_bytes());
    b.extend_from_slice(&256u64.to_le_bytes());
    b.extend_from_slice(&4096u64.to_le_bytes());
    b.extend_from_slice(&228u32.to_le_bytes());
    b.extend_from_slice(&80u32.to_le_bytes());
    let h = decode_search_header(&b, 4);
    assert_eq!((h.transid, h.objectid, h.offset, h.typ, h.len), (11, 256, 4096, 228, 80));
}
