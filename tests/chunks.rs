use btdu_rs::chunks::{classify, ChunkError, ChunkKind, ChunkMap, CHUNK_ITEM_KEY};
use btdu_rs::search_key::SearchHeader;

fn chunk_payload(length: u64, flags: u64) -> Vec<u8> {
    let mut p = vec![0u8; 48];
    p[0..8].copy_from_slice(&length.to_le_bytes());
    p[40..48].copy_from_slice(&flags.to_le_bytes());
    p
}

fn header(typ: u32, offset: u64, len: u32) -> SearchHeader {
    SearchHeader { transid: 1, objectid: 256, offset, typ, len }
}

#[test]
fn chunks_are_laid_end_to_end() {
    let mut m = ChunkMap::new();
    assert_eq!(m.push(1000, 100, 1), Ok(()));
    assert_eq!(m.push(5000, 0, 1), Ok(()));
    assert_eq!(m.push(2000, 50, 4), Ok(()));
    assert_eq!(m.len(), 2);
    assert_eq!(m.total(), 150);
    assert_eq!(m.get(1).pos, 100);
    for p in 0..150u64 {
        let i = m.find(p);
        let c = m.get(i);
        assert!(c.pos <= p && p < c.pos + c.chunk_length);
        let holders = (0..m.len()).filter(|&j| {
            let c = m.get(j);
            c.pos <= p && p < c.pos + c.chunk_length
        }).count();
        assert_eq!(holders, 1);
    }
    assert_eq!(m.find(99), 0);
    assert_eq!(m.find(100), 1);
}

#[test]
fn chunk_push_overflow_is_refused() {
    let mut m = ChunkMap::new();
    assert_eq!(m.push(0, u64::MAX, 1), Ok(()));
    assert_eq!(m.push(0, 1, 1), Err(ChunkError::Overflow));
    let mut m = ChunkMap::new();
    assert_eq!(m.push(u64::MAX, 2, 1), Err(ChunkError::Overflow));
    assert_eq!(m.len(), 0);
}

#[test]
fn chunk_records_are_decoded() {
    let mut m = ChunkMap::new();
    let p = chunk_payload(4096, 4);
    assert_eq!(m.add_record(&header(CHUNK_ITEM_KEY, 1 << 20, 48), &p), Ok(()));
    assert_eq!(m.add_record(&header(204, 7, 48), &p), Ok(()));
    assert_eq!(m.add_record(&header(CHUNK_ITEM_KEY, 0, 10), &p[..10]), Err(ChunkError::Truncated));
    assert_eq!(m.len(), 1);
    let c = m.get(0);
    assert_eq!((c.pos, c.chunk_offset, c.chunk_length, c.chunk_type), (0, 1 << 20, 4096, 4));
}

#[test]
fn chunk_types_are_classified() {
    assert_eq!(classify(1), ChunkKind::Data);
    assert_eq!(classify(4), ChunkKind::Metadata);
    assert_eq!(classify(2), ChunkKind::System);
    assert_eq!(classify(1 | 0x10), ChunkKind::Data);
    assert_eq!(classify(5), ChunkKind::Other);
    assert_eq!(classify(0), ChunkKind::Other);
}
