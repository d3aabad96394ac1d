use btdu_rs::sample_tree::SampleTree;

fn path(parts: &[&str]) -> Vec<String> {
    parts.iter().map(|s| s.to_string()).collect()
}

fn at(t: &SampleTree, parts: &[&str]) -> u64 {
    t.total_at(&path(parts))
}

#[test]
fn add_sample_counts_every_prefix() {
    let mut t = SampleTree::new();
    t.add_sample(&path(&["DATA", "sub", "a"]));
    t.add_sample(&path(&["DATA", "sub", "b"]));
    t.add_sample(&path(&["DATA", "sub", "a"]));
    t.add_sample(&path(&["METADATA"]));
    assert_eq!(t.total(), 4);
    assert_eq!(at(&t, &["DATA"]), 3);
    assert_eq!(at(&t, &["DATA", "sub"]), 3);
    assert_eq!(at(&t, &["DATA", "sub", "a"]), 2);
    assert_eq!(at(&t, &["DATA", "sub", "b"]), 1);
    assert_eq!(at(&t, &["METADATA"]), 1);
    assert_eq!(at(&t, &["SYSTEM"]), 0);
    assert_eq!(t.child_count(), 2);
}

#[test]
fn add_samples_adds_weight() {
    let mut t = SampleTree::new();
    t.add_samples(&path(&["x", "y"]), 40);
    t.add_samples(&path(&["x"]), 2);
    assert_eq!(t.total(), 42);
    assert_eq!(at(&t, &["x"]), 42);
    assert_eq!(at(&t, &["x", "y"]), 40);
}

#[test]
fn empty_path_counts_only_root() {
    let mut t = SampleTree::new();
    t.add_sample(&path(&[]));
    assert_eq!(t.total(), 1);
    assert_eq!(t.child_count(), 0);
}

fn tree_a() -> SampleTree {
    let mut a = SampleTree::new();
    a.add_sample(&path(&["p", "q"]));
    a.add_sample(&path(&["p", "r"]));
    a.add_sample(&path(&["s"]));
    a
}

fn tree_b() -> SampleTree {
    let mut b = SampleTree::new();
    b.add_sample(&path(&["p", "q"]));
    b.add_samples(&path(&["t", "u"]), 3);
    b
}

#[test]
fn add_then_sub_gives_back_the_tree() {
    let a = tree_a();
    let b = tree_b();
    let mut ab = tree_a();
    ab.add(&b);
    assert_eq!(ab.total(), 7);
    assert_eq!(at(&ab, &["p", "q"]), 2);
    assert_eq!(at(&ab, &["t", "u"]), 3);
    ab.sub(&b);
    for p in [&["p"][..], &["p", "q"], &["p", "r"], &["s"], &["t"], &["t", "u"], &[]] {
        assert_eq!(at(&ab, p), at(&a, p));
    }
}

#[test]
fn add_is_commutative() {
    let mut ab = tree_a();
    ab.add(&tree_b());
    let mut ba = tree_b();
    ba.add(&tree_a());
    for p in [&["p"][..], &["p", "q"], &["p", "r"], &["s"], &["t"], &["t", "u"], &[]] {
        assert_eq!(at(&ab, p), at(&ba, p));
    }
}

#[test]
fn sub_to_zero_drops_children() {
    let mut t = tree_a();
    t.sub(&tree_a());
    assert_eq!(t.total(), 0);
    assert_eq!(t.child_count(), 0);
}

#[test]
fn sub_prunes_emptied_subtree_and_skips_missing() {
    let mut t = SampleTree::new();
    t.add_sample(&path(&["p", "q"]));
    t.add_sample(&path(&["s"]));
    let mut o = SampleTree::new();
    o.add_sample(&path(&["p", "q"]));
    o.add_samples(&path(&["z"]), 0);
    t.sub(&o);
    assert_eq!(t.total(), 1);
    assert_eq!(at(&t, &["p"]), 0);
    assert_eq!(at(&t, &["p", "q"]), 0);
    assert_eq!(at(&t, &["s"]), 1);
    assert_eq!(at(&t, &["z"]), 0);
}

#[test]
fn children_come_in_non_increasing_total_order() {
    let mut t = SampleTree::new();
    t.add_samples(&path(&["small"]), 1);
    t.add_samples(&path(&["big"]), 10);
    t.add_samples(&path(&["mid"]), 5);
    t.add_samples(&path(&["mid2"]), 5);
    let order = t.children_by_total();
    assert_eq!(order.len(), 4);
    let names: Vec<String> = order.iter().map(|&i| t.child_name(i).clone()).collect();
    assert_eq!(names, vec!["big", "mid", "mid2", "small"]);
    let totals: Vec<u64> = order.iter().map(|&i| t.child_node(i).total()).collect();
    assert!(totals.windows(2).all(|w| w[0] >= w[1]));
}

#[test]
fn sub_ignores_values_below_an_emptied_node() {
    let mut t = SampleTree::new();
    t.add_samples(&path(&["c"]), 3);
    t.add_samples(&path(&[]), 2);
    let mut o = SampleTree::new();
    o.add_samples(&path(&["c"]), 4);
    o.add_samples(&path(&[]), 1);
    t.sub(&o);
    assert_eq!(t.total(), 0);
    assert_eq!(t.child_count(), 0);
}

#[test]
fn new_tree_has_no_children_and_add_keeps_node_sets() {
    let t = SampleTree::new();
    assert_eq!(t.child_count(), 0);
    let mut a = tree_a();
    a.add(&SampleTree::new());
    assert_eq!(a.child_count(), 2);
    let mut ab = tree_a();
    ab.add(&tree_b());
    let mut names: Vec<String> = (0..ab.child_count()).map(|i| ab.child_name(i).clone()).collect();
    names.sort();
    assert_eq!(names, vec!["p", "s", "t"]);
}
