use btdu_rs::sample::{AggregatingWindow, BtrfsSample};
use btdu_rs::sample_tree::SampleTree;

fn sample(total: u64, bytes_per_sample: u64, leaf: &str) -> BtrfsSample {
    let mut tree = SampleTree::new();
    tree.add_samples(&vec!["DATA".to_string(), leaf.to_string()], total);
    BtrfsSample { total_samples: total, bytes_per_sample, sample_tree: tree }
}

#[test]
fn window_evicts_oldest_beyond_capacity() {
    let mut w = AggregatingWindow::new(2);
    w.add(sample(10, 100, "a"));
    assert_eq!(w.cur().total_samples, 10);
    w.add(sample(20, 100, "b"));
    assert_eq!(w.cur().total_samples, 30);
    w.add(sample(30, 100, "c"));
    assert_eq!(w.cur().total_samples, 50);
    let t = &w.cur().sample_tree;
    assert_eq!(t.total(), 50);
    assert_eq!(t.total_at(&vec!["DATA".to_string(), "a".to_string()]), 0);
    assert_eq!(t.total_at(&vec!["DATA".to_string(), "b".to_string()]), 20);
    assert_eq!(t.total_at(&vec!["DATA".to_string(), "c".to_string()]), 30);
}

#[test]
fn window_resolution_divides_by_size_squared() {
    let mut w = AggregatingWindow::new(3);
    w.add(sample(1, 1000, "a"));
    assert_eq!(w.cur().bytes_per_sample, 1000);
    w.add(sample(1, 3000, "a"));
    assert_eq!(w.cur().bytes_per_sample, 1000);
    w.add(sample(1, 5000, "a"));
    assert_eq!(w.cur().bytes_per_sample, 1000);
    w.add(sample(1, 7000, "a"));
    assert_eq!(w.cur().bytes_per_sample, 15000 / 9);
}

#[test]
fn window_sums_exactly_the_last_k() {
    let k = 3;
    let mut w = AggregatingWindow::new(k);
    let totals = [5u64, 7, 11, 13, 17, 19];
    for (i, &t) in totals.iter().enumerate() {
        assert!(w.can_add(&sample(t, 1, "x")));
        w.add(sample(t, 1, "x"));
        let start = (i + 1).saturating_sub(k);
        let expected: u64 = totals[start..=i].iter().sum();
        assert_eq!(w.cur().total_samples, expected);
        assert_eq!(w.cur().sample_tree.total(), expected);
    }
}

#[test]
fn sample_add_and_sub() {
    let mut s = sample(4, 10, "a");
    s.add(&sample(6, 20, "b"));
    assert_eq!(s.total_samples, 10);
    assert_eq!(s.bytes_per_sample, 10);
    s.sub(&sample(6, 20, "b"));
    assert_eq!(s.total_samples, 4);
    assert_eq!(s.sample_tree.total_at(&vec!["DATA".to_string(), "a".to_string()]), 4);
    assert_eq!(s.sample_tree.total_at(&vec!["DATA".to_string(), "b".to_string()]), 0);
    let e = BtrfsSample::new();
    assert_eq!(e.total_samples, 0);
}
