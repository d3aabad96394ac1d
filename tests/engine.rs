use btdu_rs::paths::{RootChase, RootStep};
use btdu_rs::chunks::ChunkMap;
use btdu_rs::engine::{decode_logical_ino, sample_plan, LogicalInoItem, SampleRun, SampleTarget};

fn path(parts: &[&str]) -> Vec<String> {
    parts.iter().map(|s| s.to_string()).collect()
}

fn data_run(offset: u64, length: u64, hint: u64) -> SampleRun {
    let mut m = ChunkMap::new();
    m.push(offset, length, 1).unwrap();
    SampleRun::new(m, hint)
}

fn draw_data(run: &mut SampleRun) -> u64 {
    match run.draw() {
        Some(SampleTarget::Data(la)) => la,
        other => panic!("unexpected target {:?}", other),
    }
}

#[test]
fn two_disjoint_files_share_the_samples() {
    let mut run = data_run(1000, 100, 1);
    assert_eq!(run.samples(), 100);
    assert!(run.add_root_backref(256, "sub".to_string(), 5));
    for _ in 0..run.samples() {
        let la = draw_data(&mut run);
        assert!((1000..1100).contains(&la));
        let item = LogicalInoItem { inum: if la < 1050 { 10 } else { 11 }, offset: 0, root: 256 };
        let name = if item.inum == 10 { b"a".to_vec() } else { b"b".to_vec() };
        assert!(run.record_inode(&item, &Some(name)));
    }
    assert_eq!(run.total_samples(), 100);
    let s = run.finish();
    let a = s.sample_tree.total_at(&path(&["DATA", "sub", "a"]));
    let b = s.sample_tree.total_at(&path(&["DATA", "sub", "b"]));
    assert_eq!(a + b, 100);
    assert!(a >= 25 && a <= 75, "a = {}", a);
    assert_eq!(s.bytes_per_sample, 1);
}

#[test]
fn reflinked_extent_is_credited_to_each_file() {
    let mut run = data_run(2000, 10, 1);
    assert!(run.add_root_backref(256, "sub256".to_string(), 5));
    assert!(run.add_root_backref(257, "sub257".to_string(), 5));
    for _ in 0..10 {
        let la = draw_data(&mut run);
        assert!((2000..2010).contains(&la));
        for root in [256u64, 257] {
            let item = LogicalInoItem { inum: 1, offset: 0, root };
            assert!(run.record_inode(&item, &Some(b"f".to_vec())));
        }
    }
    let s = run.finish();
    assert_eq!(s.total_samples, 10);
    assert_eq!(s.sample_tree.total(), 20);
    assert_eq!(s.sample_tree.total_at(&path(&["DATA", "sub256", "f"])), 10);
    assert_eq!(s.sample_tree.total_at(&path(&["DATA", "sub257", "f"])), 10);
}

#[test]
fn free_space_cache_samples_are_counted_but_not_attributed() {
    let mut run = data_run(0, 64, 8);
    assert_eq!(run.samples(), 8);
    for _ in 0..run.samples() {
        draw_data(&mut run);
        let item = LogicalInoItem { inum: 260, offset: 0, root: 1 };
        assert!(!run.record_inode(&item, &Some(b"".to_vec())));
    }
    let s = run.finish();
    assert_eq!(s.total_samples, 8);
    assert_eq!(s.sample_tree.total(), 0);
    assert_eq!(s.sample_tree.child_count(), 0);
}

#[test]
fn failed_reverse_mapping_goes_to_error_bucket() {
    let mut run = data_run(0, 50, 10);
    for _ in 0..run.samples() {
        draw_data(&mut run);
        assert!(run.record_logical_error());
    }
    let s = run.finish();
    assert_eq!(s.sample_tree.total_at(&path(&["DATA", "ERROR", "LOGICAL_TO_INO"])), 5);
    assert_eq!(s.sample_tree.total(), 5);
}

#[test]
fn failed_inode_lookup_goes_to_error_bucket() {
    let mut run = data_run(0, 50, 10);
    draw_data(&mut run);
    let item = LogicalInoItem { inum: 3, offset: 0, root: 256 };
    assert!(run.record_inode(&item, &None));
    let s = run.finish();
    assert_eq!(s.sample_tree.total_at(&path(&["DATA", "ERROR", "INO_LOOKUP"])), 1);
}

#[test]
fn unresolved_root_drops_the_sample() {
    let mut run = data_run(0, 50, 10);
    let item = LogicalInoItem { inum: 3, offset: 0, root: 999 };
    assert!(!run.record_inode(&item, &Some(b"x".to_vec())));
    assert!(run.root_path(999).is_none());
    assert_eq!(run.root_path(5), Some(Vec::new()));
}

#[test]
fn metadata_and_system_chunks_are_recorded_by_kind() {
    let mut m = ChunkMap::new();
    m.push(0, 10, 4).unwrap();
    m.push(100, 10, 2).unwrap();
    m.push(200, 10, 0x10).unwrap();
    let mut run = SampleRun::new(m, 1);
    assert_eq!(run.locate(3), SampleTarget::Metadata);
    assert_eq!(run.locate(13), SampleTarget::System);
    assert_eq!(run.locate(25), SampleTarget::Other);
    assert!(run.record_kind(SampleTarget::Metadata));
    assert!(run.record_kind(SampleTarget::System));
    assert!(!run.record_kind(SampleTarget::Other));
    assert!(!run.record_kind(SampleTarget::Data(5)));
    let s = run.finish();
    assert_eq!(s.sample_tree.total_at(&path(&["METADATA"])), 1);
    assert_eq!(s.sample_tree.total_at(&path(&["SYSTEM"])), 1);
    assert_eq!(s.sample_tree.total(), 2);
}

#[test]
fn data_address_is_offset_into_chunk() {
    let mut m = ChunkMap::new();
    m.push(5000, 10, 4).unwrap();
    m.push(1000, 100, 1).unwrap();
    let run = SampleRun::new(m, 1);
    assert_eq!(run.locate(10), SampleTarget::Data(1000));
    assert_eq!(run.locate(42), SampleTarget::Data(1032));
}

#[test]
fn empty_chunk_space_draws_nothing() {
    let mut run = SampleRun::new(ChunkMap::new(), 4096);
    assert_eq!(run.samples(), 0);
    assert_eq!(run.draw(), None);
    assert_eq!(run.total_samples(), 0);
}

#[test]
fn plan_divides_total_by_resolution() {
    assert_eq!(sample_plan(1000, 300), (3, 333));
    assert_eq!(sample_plan(100, 300), (0, 0));
    assert_eq!(sample_plan(1 << 30, 1 << 20), (1024, 1 << 20));
}

#[test]
fn logical_ino_items_are_decoded() {
    let words: [u64; 7] = [10, 0, 256, 11, 4096, 257, 99];
    let mut buf = Vec::new();
    for w in words {
        buf.extend_from_slice(&w.to_le_bytes());
    }
    let items = decode_logical_ino(&buf, 6);
    assert_eq!(items, vec![
        LogicalInoItem { inum: 10, offset: 0, root: 256 },
        LogicalInoItem { inum: 11, offset: 4096, root: 257 },
    ]);
    assert_eq!(decode_logical_ino(&buf, 7).len(), 2);
    assert_eq!(decode_logical_ino(&buf[..30], 6).len(), 1);
    assert_eq!(decode_logical_ino(&buf, 0).len(), 0);
}

#[test]
fn inode_lookups_are_remembered() {
    let mut run = data_run(0, 10, 1);
    assert_eq!(run.cached_lookup(256, 7), None);
    run.remember_lookup(256, 7, Some(b"dir/file".to_vec()));
    run.remember_lookup(256, 8, None);
    assert_eq!(run.cached_lookup(256, 7), Some(Some(b"dir/file".to_vec())));
    assert_eq!(run.cached_lookup(256, 8), Some(None));
    assert_eq!(run.cached_lookup(257, 7), None);
}

#[test]
fn draw_stops_after_the_planned_samples() {
    let mut run = data_run(0, 40, 10);
    assert_eq!(run.samples(), 4);
    let mut n = 0;
    while run.draw().is_some() {
        n += 1;
    }
    assert_eq!(n, 4);
    assert_eq!(run.total_samples(), 4);
}

#[test]
fn chase_root_records_parents_in_the_run() {
    let mut run = data_run(0, 10, 1);
    let mut chase = RootChase::new(256);
    assert!(matches!(run.chase_root(&chase), RootStep::NeedBackref(256)));
    chase.supply("sub".to_string(), 5);
    assert!(matches!(run.chase_root(&chase), RootStep::Known(_)));
    assert_eq!(run.root_path(256), Some(vec!["sub".to_string()]));
}
