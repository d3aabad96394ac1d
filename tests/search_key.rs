use btdu_rs::search_key::{SearchHeader, SearchKey};

#[test]
fn next_increments_offset() {
    let k = SearchKey::new(7, 3, 10);
    assert_eq!(k.next(), SearchKey::new(7, 3, 11));
}

#[test]
fn next_carries_into_type() {
    let k = SearchKey::new(7, 3, u64::MAX);
    assert_eq!(k.next(), SearchKey::new(7, 4, 0));
}

#[test]
fn next_carries_into_objectid() {
    let k = SearchKey::new(7, u8::MAX, u64::MAX);
    assert_eq!(k.next(), SearchKey::new(8, 0, 0));
}

#[test]
fn next_of_max_wraps_to_min() {
    let k = SearchKey::max_key();
    assert!(k.is_max());
    assert_eq!(k.next(), SearchKey::min_key());
    assert!(!SearchKey::new(1, 2, 3).is_max());
}

#[test]
fn successor_is_strictly_greater_and_adjacent() {
    let keys = [
        SearchKey::new(0, 0, 0),
        SearchKey::new(1, 0, u64::MAX),
        SearchKey::new(1, u8::MAX, u64::MAX),
        SearchKey::new(u64::MAX, u8::MAX, u64::MAX - 1),
    ];
    for k in keys {
        let n = k.next();
        let a = (k.objectid, k.typ, k.offset);
        let b = (n.objectid, n.typ, n.offset);
        assert!(a < b);
    }
}

#[test]
fn ranges_fix_their_components() {
    let r = SearchKey::range_fixed_id(256);
    assert_eq!(r.lo, SearchKey::new(256, 0, 0));
    assert_eq!(r.hi, SearchKey::new(256, u8::MAX, u64::MAX));
    let r = SearchKey::range_fixed_id_type(256, 144);
    assert_eq!(r.lo, SearchKey::new(256, 144, 0));
    assert_eq!(r.hi, SearchKey::new(256, 144, u64::MAX));
    let all = SearchKey::all();
    assert_eq!(all.lo, SearchKey::min_key());
    assert_eq!(all.hi, SearchKey::max_key());
}

#[test]
fn key_from_header_narrows_type() {
    let h = SearchHeader { transid: 9, objectid: 5, offset: 77, typ: 0x1_84, len: 0 };
    assert_eq!(SearchKey::from(&h), SearchKey::new(5, 0x84, 77));
}
