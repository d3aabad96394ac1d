use btdu_rs::extent_usage::{add_usage, parse_extent_record, DataRef, ExtentError, ExtentUsage};
use btdu_rs::sample_tree::SampleTree;
use btdu_rs::search_key::SearchHeader;

fn extent_item(flags: u64) -> Vec<u8> {
    let mut p = Vec::new();
    p.extend_from_slice(&1u64.to_le_bytes());
    p.extend_from_slice(&7u64.to_le_bytes());
    p.extend_from_slice(&flags.to_le_bytes());
    p
}

fn data_ref(p: &mut Vec<u8>, root: u64, objectid: u64) {
    p.push(178);
    p.extend_from_slice(&root.to_le_bytes());
    p.extend_from_slice(&objectid.to_le_bytes());
    p.extend_from_slice(&0u64.to_le_bytes());
    p.extend_from_slice(&1u32.to_le_bytes());
}

fn shared_data_ref(p: &mut Vec<u8>) {
    p.push(184);
    p.extend_from_slice(&12345u64.to_le_bytes());
    p.extend_from_slice(&1u32.to_le_bytes());
}

fn header(typ: u32, length: u64) -> SearchHeader {
    SearchHeader { transid: 1, objectid: 1 << 20, offset: length, typ, len: 0 }
}

#[test]
fn data_refs_are_attributed_the_extent_length() {
    let mut p = extent_item(1);
    data_ref(&mut p, 256, 257);
    shared_data_ref(&mut p);
    data_ref(&mut p, 258, 300);
    let (refs, end) = parse_extent_record(&header(168, 4096), &p);
    assert_eq!(end, None);
    assert_eq!(refs, vec![DataRef { root: 256, objectid: 257 }, DataRef { root: 258, objectid: 300 }]);
    let mut u = ExtentUsage::new();
    assert_eq!(u.account_record(&header(168, 4096), &p), None);
    assert_eq!(u.account_record(&header(168, 8192), &p), None);
    assert_eq!(u.len(), 2);
    assert_eq!(u.entry(0), (256, 257, 12288));
    assert_eq!(u.entry(1), (258, 300, 12288));
}

#[test]
fn tree_block_info_is_skipped() {
    let mut p = extent_item(1 | 2);
    p.extend_from_slice(&[0u8; 18]);
    data_ref(&mut p, 5, 9);
    let (refs, end) = parse_extent_record(&header(168, 10), &p);
    assert_eq!(end, None);
    assert_eq!(refs, vec![DataRef { root: 5, objectid: 9 }]);
}

#[test]
fn unknown_inline_ref_stops_the_record() {
    let mut p = extent_item(1);
    data_ref(&mut p, 256, 257);
    p.push(99);
    data_ref(&mut p, 258, 300);
    let mut u = ExtentUsage::new();
    assert_eq!(u.account_record(&header(168, 100), &p), Some(ExtentError::UnknownInlineRef(99)));
    assert_eq!(u.len(), 1);
    assert_eq!(u.entry(0), (256, 257, 100));
}

#[test]
fn truncated_records_are_reported() {
    let p = extent_item(1);
    assert_eq!(parse_extent_record(&header(168, 1), &p[..10]).1, Some(ExtentError::Truncated));
    let mut q = p.clone();
    q.push(178);
    q.extend_from_slice(&[0u8; 5]);
    assert_eq!(parse_extent_record(&header(168, 1), &q).1, Some(ExtentError::Truncated));
}

#[test]
fn metadata_items_are_walked_without_attribution() {
    let mut p = extent_item(2);
    p.push(176);
    p.extend_from_slice(&5u64.to_le_bytes());
    p.push(182);
    p.extend_from_slice(&6u64.to_le_bytes());
    let (refs, end) = parse_extent_record(&header(169, 0), &p);
    assert!(refs.is_empty());
    assert_eq!(end, None);
    p.push(1);
    assert_eq!(parse_extent_record(&header(169, 0), &p).1, Some(ExtentError::TrailingData));
    let mut q = extent_item(2);
    q.push(1);
    q.extend_from_slice(&5u64.to_le_bytes());
    assert_eq!(parse_extent_record(&header(169, 0), &q).1, Some(ExtentError::UnknownInlineRef(1)));
}

#[test]
fn other_records_and_non_data_extents_are_ignored() {
    let p = extent_item(2);
    assert_eq!(parse_extent_record(&header(168, 5), &p), (Vec::new(), None));
    assert_eq!(parse_extent_record(&header(192, 5), &p), (Vec::new(), None));
}

#[test]
fn usage_is_added_under_inode_path() {
    let mut t = SampleTree::new();
    assert!(add_usage(&mut t, b"/home/a", 300));
    assert!(add_usage(&mut t, b"home/b", 200));
    assert_eq!(t.total(), 500);
    assert_eq!(t.total_at(&vec!["home".to_string()]), 500);
    assert_eq!(t.total_at(&vec!["home".to_string(), "a".to_string()]), 300);
    assert!(!add_usage(&mut t, b"x", u64::MAX));
    assert_eq!(t.total(), 500);
}
