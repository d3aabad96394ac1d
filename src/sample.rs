//! One sampling pass's result, and a sliding window that sums the last few.
use vstd::prelude::*;
use crate::sample_tree::{SampleTree, lemma_monotone_bounded, lemma_sub_restores};

verus! {

/// The result of a sampling pass: how many samples were drawn, how many bytes
/// each stands for, and where they landed.
pub struct BtrfsSample {
    pub total_samples: u64,
    pub bytes_per_sample: u64,
    pub sample_tree: SampleTree,
}

impl BtrfsSample {
    pub open spec fn wf(self) -> bool {
        self.sample_tree.wf() && self.sample_tree.monotone()
    }

    pub fn new() -> (r: Self)
        ensures
            r.wf(),
            r.total_samples == 0,
            r.bytes_per_sample == 0,
            r.sample_tree.spec_total() == 0,
            r.sample_tree.spec_len() == 0,
            forall|q: Seq<Seq<char>>| #[trigger] r.sample_tree.at(q) == 0,
    {
        BtrfsSample { total_samples: 0, bytes_per_sample: 0, sample_tree: SampleTree::new() }
    }

    /// Adds the counts and the tree of `other`.
    pub fn add(&mut self, other: &Self)
        requires
            old(self).wf(),
            other.wf(),
            old(self).total_samples + other.total_samples <= u64::MAX,
            old(self).sample_tree.spec_total() + other.sample_tree.spec_total() <= u64::MAX,
        ensures
            final(self).wf(),
            final(self).total_samples == old(self).total_samples + other.total_samples,
            final(self).bytes_per_sample == old(self).bytes_per_sample,
            SampleTree::sum_of(old(self).sample_tree, other.sample_tree, final(self).sample_tree),
            SampleTree::union_of(old(self).sample_tree, other.sample_tree, final(self).sample_tree),
    {
        proof {
            assert forall|q: Seq<Seq<char>>| #[trigger] old(self).sample_tree.at(q) + other.sample_tree.at(q) <= u64::MAX by {
                lemma_monotone_bounded(old(self).sample_tree, q);
                lemma_monotone_bounded(other.sample_tree, q);
            }
        }
        self.total_samples = self.total_samples + other.total_samples;
        self.sample_tree.add(&other.sample_tree);
    }

    /// Subtracts the counts and the tree of `other`.
    pub fn sub(&mut self, other: &Self)
        requires
            old(self).sample_tree.wf(),
            other.sample_tree.wf(),
            other.total_samples <= old(self).total_samples,
            forall|q: Seq<Seq<char>>| #[trigger] old(self).sample_tree.reaches(q) && !SampleTree::pruned_above(old(self).sample_tree, other.sample_tree, q)
                ==> other.sample_tree.at(q) <= old(self).sample_tree.at(q),
        ensures
            final(self).sample_tree.wf(),
            forall|q: Seq<Seq<char>>| #[trigger] final(self).sample_tree.reaches(q) == (old(self).sample_tree.reaches(q) && !SampleTree::pruned_above(old(self).sample_tree, other.sample_tree, q)),
            final(self).total_samples == old(self).total_samples - other.total_samples,
            final(self).bytes_per_sample == old(self).bytes_per_sample,
            SampleTree::difference_of(old(self).sample_tree, other.sample_tree, final(self).sample_tree),
    {
        self.total_samples = self.total_samples - other.total_samples;
        self.sample_tree.sub(&other.sample_tree);
    }
}

/// The sum over `bs` of the weight at `q`.
pub open spec fn tree_sum(bs: Seq<BtrfsSample>, q: Seq<Seq<char>>) -> nat
    decreases bs.len(),
{
    if bs.len() == 0 {
        0
    } else {
        tree_sum(bs.drop_last(), q) + bs.last().sample_tree.at(q)
    }
}

pub open spec fn count_sum(bs: Seq<BtrfsSample>) -> nat
    decreases bs.len(),
{
    if bs.len() == 0 {
        0
    } else {
        count_sum(bs.drop_last()) + bs.last().total_samples as nat
    }
}

pub open spec fn resolution_sum(bs: Seq<BtrfsSample>) -> nat
    decreases bs.len(),
{
    if bs.len() == 0 {
        0
    } else {
        resolution_sum(bs.drop_last()) + bs.last().bytes_per_sample as nat
    }
}

/// The window after `s` joins `w`: the oldest leaves once there are more than `k`.
pub open spec fn window_after(w: Seq<BtrfsSample>, s: BtrfsSample, k: nat) -> Seq<BtrfsSample> {
    if w.len() + 1 > k {
        w.push(s).drop_first()
    } else {
        w.push(s)
    }
}

/// The last `min(k, h.len())` items of `h`.
pub open spec fn last_k(h: Seq<BtrfsSample>, k: nat) -> Seq<BtrfsSample> {
    if h.len() > k {
        h.skip(h.len() - k)
    } else {
        h
    }
}

/// The window keeps exactly the last samples: if it held the last
/// `min(k, h.len())` of the samples `h` added so far, then after `s` joins it
/// holds the last `min(k, h.len() + 1)` of `h` followed by `s`.
pub proof fn lemma_window_keeps_last(h: Seq<BtrfsSample>, s: BtrfsSample, k: nat)
    requires
        k > 0,
    ensures
        window_after(last_k(h, k), s, k) == last_k(h.push(s), k),
{
    let w = last_k(h, k);
    let hs = h.push(s);
    if h.len() >= k {
        assert(w.push(s).drop_first() =~= hs.skip(hs.len() - k));
    } else {
        assert(w.push(s) =~= hs);
    }
}

/// A window that holds the last `max_buckets` samples and their running sum.
pub struct AggregatingWindow {
    max_buckets: usize,
    bytes_per_sample_sum: u64,
    cur: BtrfsSample,
    buckets: Vec<BtrfsSample>,
}

proof fn lemma_sums_drop_first(bs: Seq<BtrfsSample>)
    requires
        bs.len() > 0,
    ensures
        forall|q: Seq<Seq<char>>| #[trigger] tree_sum(bs, q) == bs[0].sample_tree.at(q) + tree_sum(bs.drop_first(), q),
        count_sum(bs) == bs[0].total_samples + count_sum(bs.drop_first()),
        resolution_sum(bs) == bs[0].bytes_per_sample + resolution_sum(bs.drop_first()),
    decreases bs.len(),
{
    let d = bs.drop_first();
    if bs.len() > 1 {
        lemma_sums_drop_first(bs.drop_last());
        assert(bs.drop_last().drop_first() =~= d.drop_last());
        assert(d.last() == bs.last());
        assert(bs.drop_last()[0] == bs[0]);
        assert forall|q: Seq<Seq<char>>| #[trigger] tree_sum(bs, q) == bs[0].sample_tree.at(q) + tree_sum(d, q) by {
            assert(tree_sum(bs.drop_last(), q) == bs[0].sample_tree.at(q) + tree_sum(bs.drop_last().drop_first(), q));
            assert(tree_sum(d, q) == tree_sum(d.drop_last(), q) + d.last().sample_tree.at(q));
        }
        assert(count_sum(d) == count_sum(d.drop_last()) + d.last().total_samples);
        assert(resolution_sum(d) == resolution_sum(d.drop_last()) + d.last().bytes_per_sample);
    } else {
        assert(count_sum(d) == 0 && resolution_sum(d) == 0);
        assert(count_sum(bs.drop_last()) == 0 && resolution_sum(bs.drop_last()) == 0);
        assert(d.len() == 0);
        assert(bs.drop_last().len() == 0);
        assert(bs.last() == bs[0]);
        assert forall|q: Seq<Seq<char>>| #[trigger] tree_sum(bs, q) == bs[0].sample_tree.at(q) + tree_sum(d, q) by {
            assert(tree_sum(d, q) == 0);
            assert(tree_sum(bs.drop_last(), q) == 0);
        }
    }
}

proof fn lemma_tree_sum_monotone(bs: Seq<BtrfsSample>)
    requires
        forall|i: int| 0 <= i < bs.len() ==> (#[trigger] bs[i]).wf(),
    ensures
        forall|q: Seq<Seq<char>>, c: Seq<char>| #[trigger] tree_sum(bs, q.push(c)) <= tree_sum(bs, q),
    decreases bs.len(),
{
    if bs.len() > 0 {
        lemma_tree_sum_monotone(bs.drop_last());
        assert(bs.last() == bs[bs.len() - 1]);
        assert forall|q: Seq<Seq<char>>, c: Seq<char>| #[trigger] tree_sum(bs, q.push(c)) <= tree_sum(bs, q) by {
            assert(bs.last().sample_tree.at(q.push(c)) <= bs.last().sample_tree.at(q));
            assert(tree_sum(bs.drop_last(), q.push(c)) <= tree_sum(bs.drop_last(), q));
        }
    }
}

impl AggregatingWindow {
    /// The window holds at most `max_buckets` samples, each well formed, and
    /// `cur` is their sum: counts, trees node by node, and resolutions, the
    /// latter divided by the square of the window's size.
    pub closed spec fn wf(self) -> bool {
        &&& 0 < self.max_buckets <= u32::MAX
        &&& self.buckets@.len() <= self.max_buckets
        &&& forall|i: int| 0 <= i < self.buckets@.len() ==> (#[trigger] self.buckets@[i]).wf()
        &&& self.cur.wf()
        &&& self.cur.total_samples == count_sum(self.buckets@)
        &&& forall|q: Seq<Seq<char>>| #[trigger] self.cur.sample_tree.at(q) == tree_sum(self.buckets@, q)
        &&& self.bytes_per_sample_sum == resolution_sum(self.buckets@)
        &&& self.cur.bytes_per_sample == if self.buckets@.len() == 0 {
            0
        } else {
            (self.bytes_per_sample_sum as nat / (self.buckets@.len() * self.buckets@.len())) as u64
        }
    }

    pub closed spec fn window(self) -> Seq<BtrfsSample> {
        self.buckets@
    }

    pub closed spec fn capacity(self) -> nat {
        self.max_buckets as nat
    }

    pub closed spec fn current(self) -> BtrfsSample {
        self.cur
    }

    pub fn new(max_buckets: usize) -> (r: Self)
        requires
            0 < max_buckets <= u32::MAX,
        ensures
            r.wf(),
            r.capacity() == max_buckets,
            r.window() == Seq::<BtrfsSample>::empty(),
            r.current().total_samples == 0,
            r.current().bytes_per_sample == 0,
            r.current().sample_tree.spec_total() == 0,
            forall|q: Seq<Seq<char>>| #[trigger] r.current().sample_tree.at(q) == 0,
    {
        let cur = BtrfsSample::new();
        AggregatingWindow { max_buckets, bytes_per_sample_sum: 0, cur, buckets: Vec::new() }
    }

    /// The running sum of the window.
    pub fn cur(&self) -> (r: &BtrfsSample)
        ensures
            *r == self.current(),
    {
        &self.cur
    }

    /// Whether `sample` can join without a sum leaving 64 bits.
    pub fn can_add(&self, sample: &BtrfsSample) -> (r: bool)
        requires
            self.wf(),
        ensures
            r == (self.current().total_samples + sample.total_samples <= u64::MAX
                && self.current().sample_tree.spec_total() + sample.sample_tree.spec_total() <= u64::MAX
                && resolution_sum(self.window()) + sample.bytes_per_sample <= u64::MAX),
    {
        sample.total_samples <= u64::MAX - self.cur.total_samples
            && sample.sample_tree.total() <= u64::MAX - self.cur.sample_tree.total()
            && sample.bytes_per_sample <= u64::MAX - self.bytes_per_sample_sum
    }

    /// Adds `sample` at the back; once the window holds more than its capacity,
    /// the oldest sample leaves and its counts and tree are taken out of the sum.
    pub fn add(&mut self, sample: BtrfsSample)
        requires
            old(self).wf(),
            sample.wf(),
            old(self).current().total_samples + sample.total_samples <= u64::MAX,
            old(self).current().sample_tree.spec_total() + sample.sample_tree.spec_total() <= u64::MAX,
            resolution_sum(old(self).window()) + sample.bytes_per_sample <= u64::MAX,
        ensures
            final(self).wf(),
            final(self).capacity() == old(self).capacity(),
            final(self).window() == window_after(old(self).window(), sample, old(self).capacity()),
            final(self).current().total_samples == count_sum(final(self).window()),
            forall|q: Seq<Seq<char>>| #[trigger] final(self).current().sample_tree.at(q) == tree_sum(final(self).window(), q),
            final(self).current().bytes_per_sample == resolution_sum(final(self).window()) / (final(self).window().len() * final(self).window().len()),
    {
        let ghost w0 = self.buckets@;
        self.bytes_per_sample_sum = self.bytes_per_sample_sum + sample.bytes_per_sample;
        self.cur.add(&sample);
        self.buckets.push(sample);
        let ghost w1 = self.buckets@;
        proof {
            assert(w1.drop_last() =~= w0);
            assert forall|q: Seq<Seq<char>>| #[trigger] self.cur.sample_tree.at(q) == tree_sum(w1, q) by {}
            assert forall|i: int| 0 <= i < w1.len() implies (#[trigger] w1[i]).wf() by {
                if i < w0.len() {
                    assert(w1[i] == w0[i]);
                }
            }
        }
        if self.buckets.len() > self.max_buckets {
            let oldest = self.buckets.remove(0);
            proof {
                let w2 = self.buckets@;
                assert(w2 =~= w1.drop_first());
                lemma_sums_drop_first(w1);
                assert(w1[0] == oldest);
                assert forall|i: int| 0 <= i < w2.len() implies (#[trigger] w2[i]).wf() by {
                    assert(w2[i] == w1[i + 1]);
                }
                lemma_tree_sum_monotone(w2);
                assert forall|q: Seq<Seq<char>>| #[trigger] self.cur.sample_tree.reaches(q) implies oldest.sample_tree.at(q) <= self.cur.sample_tree.at(q) by {
                    assert(self.cur.sample_tree.at(q) == tree_sum(w1, q));
                }
            }
            self.bytes_per_sample_sum = self.bytes_per_sample_sum - oldest.bytes_per_sample;
            let ghost mid = self.cur.sample_tree;
            self.cur.sub(&oldest);
            proof {
                let w2 = self.buckets@;
                let a = |q: Seq<Seq<char>>| tree_sum(w2, q);
                assert forall|q: Seq<Seq<char>>| #[trigger] mid.at(q) == a(q) + oldest.sample_tree.at(q) by {
                    assert(tree_sum(w1, q) == oldest.sample_tree.at(q) + tree_sum(w2, q));
                }
                assert forall|q: Seq<Seq<char>>, c: Seq<char>| #[trigger] a(q.push(c)) <= a(q) by {
                    assert(tree_sum(w2, q.push(c)) <= tree_sum(w2, q));
                }
                lemma_sub_restores(mid, oldest.sample_tree, self.cur.sample_tree, a);
                assert forall|q: Seq<Seq<char>>| #[trigger] self.cur.sample_tree.at(q) == tree_sum(w2, q) by {
                    assert(self.cur.sample_tree.at(q) == a(q));
                }
                assert forall|q: Seq<Seq<char>>, c: Seq<char>| #[trigger] self.cur.sample_tree.at(q.push(c)) <= self.cur.sample_tree.at(q) by {
                    assert(self.cur.sample_tree.at(q.push(c)) == a(q.push(c)));
                    assert(self.cur.sample_tree.at(q) == a(q));
                }
            }
        }
        let n = self.buckets.len() as u64;
        proof {
            assert(1 <= n <= u32::MAX);
            assert(n * n <= u32::MAX * u32::MAX) by (nonlinear_arith)
                requires 1 <= n <= u32::MAX;
            assert(n * n >= 1) by (nonlinear_arith)
                requires 1 <= n;
        }
        self.cur.bytes_per_sample = self.bytes_per_sample_sum / (n * n);
    }
}

} // verus!
