use btdu_rs::search_key::{SearchKey, SearchHeader};
use btdu_rs::tree_search::{decode_batch, SearchError, TreeSearch};

fn put(buf: &mut Vec<u8>, h: &SearchHeader, payload: &[u8]) {
    buf.extend_from_slice(&h.transid.to_le_bytes());
    buf.extend_from_slice(&h.objectid.to_le_bytes());
    buf.extend_from_slice(&h.offset.to_le_bytes());
    buf.extend_from_slice(&h.typ.to_le_bytes());
    buf.extend_from_slice(&h.len.to_le_bytes());
    buf.extend_from_slice(payload);
}

fn batch(keys: &[(u64, u32, u64)]) -> Vec<u8> {
    let mut buf = Vec::new();
    for &(o, t, off) in keys {
        let payload = [o as u8, t as u8, off as u8];
        put(&mut buf, &SearchHeader { transid: 1, objectid: o, offset: off, typ: t, len: 3 }, &payload);
    }
    buf.resize(buf.len() + 64, 0xAA);
    buf
}

#[test]
fn pagination_delivers_each_record_once_in_order() {
    let batches = vec![
        vec![(1u64, 1u32, 0u64), (1, 1, 5), (2, 0, 0)],
        vec![(2, 0, 1), (3, 7, u64::MAX)],
        vec![(4, 0, 0)],
    ];
    let mut s = TreeSearch::new(3, SearchKey::all());
    let mut seen = Vec::new();
    let mut calls = 0;
    while !s.is_done() {
        let keys: &[(u64, u32, u64)] = if calls < batches.len() { &batches[calls] } else { &[] };
        let buf = batch(keys);
        calls += 1;
        let recs = s.on_batch(keys.len() as u32, &buf).unwrap();
        for r in &recs {
            assert_eq!(r.payload, vec![r.header.objectid as u8, r.header.typ as u8, r.header.offset as u8]);
            seen.push((r.header.objectid, r.header.typ, r.header.offset));
        }
        if calls == 1 {
            assert_eq!(s.min, SearchKey::new(2, 0, 1));
        }
        if calls == 2 {
            assert_eq!(s.min, SearchKey::new(3, 8, 0));
        }
        assert!(calls <= 4);
    }
    assert_eq!(calls, 4);
    let expected: Vec<(u64, u32, u64)> = batches.concat();
    assert_eq!(seen, expected);
    assert_eq!(s.max, SearchKey::max_key());
}

#[test]
fn search_ends_after_largest_key() {
    let mut s = TreeSearch::new(1, SearchKey::all());
    let buf = batch(&[(u64::MAX, 255, u64::MAX)]);
    let recs = s.on_batch(1, &buf).unwrap();
    assert_eq!(recs.len(), 1);
    assert!(s.is_done());
    assert_eq!(s.on_batch(1, &buf).unwrap().len(), 0);
}

#[test]
fn malformed_batch_is_an_error() {
    let mut s = TreeSearch::new(1, SearchKey::range_fixed_id(5));
    let mut buf = Vec::new();
    put(&mut buf, &SearchHeader { transid: 1, objectid: 5, offset: 0, typ: 1, len: 100 }, &[1, 2, 3]);
    assert_eq!(s.on_batch(1, &buf).err(), Some(SearchError::Malformed));
    assert!(s.is_done());
    assert!(decode_batch(&buf, 1).is_none());
    assert_eq!(decode_batch(&buf, 0).map(|v| v.len()), Some(0));
}
