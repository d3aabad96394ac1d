//! One sampling pass: drawing uniform positions over the chunk map, deciding
//! what each lands on, and recording it in a sample tree. The kernel lookups
//! that a data sample needs are made by the caller, which hands their results in.
use vstd::prelude::*;
use rand::distributions::{Distribution, Uniform};
use crate::chunks::{ChunkMap, ChunkInfo, ChunkKind, classify, kind_of, contains};
use crate::paths::{Roots, RootChase, RootStep, MAX_ROOT_DEPTH, chain_path, data_path, data_path_spec};
use crate::sample::BtrfsSample;
use crate::sample_tree::{SampleTree, path_view, lemma_monotone_bounded};
use crate::tree_search::copy_range;
use crate::wire::{le64, read_u64_le};

verus! {

pub const ROOT_TREE_OBJECTID: u64 = 1;
pub const EXTENT_TREE_OBJECTID: u64 = 2;
pub const CHUNK_TREE_OBJECTID: u64 = 3;
pub const LOGICAL_INO_ITEM_SIZE: usize = 24;

/// An inode that references a logical address: its number, the offset within
/// it, and the subvolume that holds it.
#[derive(Clone, Copy, Debug, PartialEq, Eq, Structural)]
pub struct LogicalInoItem {
    pub inum: u64,
    pub offset: u64,
    pub root: u64,
}

pub open spec fn logical_ino_item_at(s: Seq<u8>, p: int) -> LogicalInoItem {
    LogicalInoItem { inum: le64(s, p) as u64, offset: le64(s, p + 8) as u64, root: le64(s, p + 16) as u64 }
}

pub open spec fn logical_ino_count(len: nat, elem_cnt: u32) -> nat {
    let n = elem_cnt as nat / 3;
    if n <= len / 24 {
        n
    } else {
        len / 24
    }
}

/// The items of a reverse-mapping answer: `elem_cnt` 64-bit words, three per
/// item, as far as `buf` holds them.
pub fn decode_logical_ino(buf: &[u8], elem_cnt: u32) -> (r: Vec<LogicalInoItem>)
    ensures
        r@.len() == logical_ino_count(buf@.len(), elem_cnt),
        forall|i: int| 0 <= i < r@.len() ==> #[trigger] r@[i] == logical_ino_item_at(buf@, 24 * i),
{
    let n_words = (elem_cnt / 3) as usize;
    let n_fit = buf.len() / LOGICAL_INO_ITEM_SIZE;
    let n = if n_words <= n_fit { n_words } else { n_fit };
    let mut r: Vec<LogicalInoItem> = Vec::new();
    let mut i: usize = 0;
    while i < n
        invariant
            n <= buf@.len() / 24,
            i <= n,
            r@.len() == i,
            forall|j: int| 0 <= j < i ==> #[trigger] r@[j] == logical_ino_item_at(buf@, 24 * j),
        decreases n - i,
    {
        let len = buf.len();
        proof {
            assert(i * 24 + 24 <= len) by (nonlinear_arith)
                requires
                    i < n,
                    n <= len / 24,
            ;
        }
        let p = i * LOGICAL_INO_ITEM_SIZE;
        r.push(LogicalInoItem {
            inum: read_u64_le(buf, p),
            offset: read_u64_le(buf, p + 8),
            root: read_u64_le(buf, p + 16),
        });
        i += 1;
    }
    r
}

/// Relies on rand's `Uniform::new(0, n)` sampled with `thread_rng`: a value in
/// `[0, n)`; `Uniform::new` panics when `n` is 0.
#[verifier::external_body]
fn uniform_below(n: u64) -> (r: u64)
    requires
        n > 0,
    ensures
        r < n,
{
    Uniform::new(0, n).sample(&mut rand::thread_rng())
}

/// What a drawn position lands on: file data at a logical address, or a chunk
/// of another kind.
#[derive(Clone, Copy, Debug, PartialEq, Eq, Structural)]
pub enum SampleTarget {
    Data(u64),
    Metadata,
    System,
    Other,
}

pub open spec fn target_spec(c: ChunkInfo, p: int) -> SampleTarget {
    match kind_of(c.chunk_type) {
        ChunkKind::Data => SampleTarget::Data((c.chunk_offset + (p - c.pos)) as u64),
        ChunkKind::Metadata => SampleTarget::Metadata,
        ChunkKind::System => SampleTarget::System,
        ChunkKind::Other => SampleTarget::Other,
    }
}

/// The number of samples for a target resolution, and the bytes that each
/// then stands for.
pub fn sample_plan(total_chunk_length: u64, bytes_per_sample_hint: u64) -> (r: (u64, u64))
    requires
        bytes_per_sample_hint > 0,
    ensures
        r.0 == total_chunk_length / bytes_per_sample_hint,
        r.1 == if r.0 > 0 { total_chunk_length / r.0 } else { 0 },
{
    let n = total_chunk_length / bytes_per_sample_hint;
    let b = if n > 0 { total_chunk_length / n } else { 0 };
    (n, b)
}

pub open spec fn metadata_path() -> Seq<Seq<char>> {
    seq!["METADATA"@]
}

pub open spec fn system_path() -> Seq<Seq<char>> {
    seq!["SYSTEM"@]
}

pub open spec fn logical_error_path() -> Seq<Seq<char>> {
    seq!["DATA"@, "ERROR"@, "LOGICAL_TO_INO"@]
}

pub open spec fn lookup_error_path() -> Seq<Seq<char>> {
    seq!["DATA"@, "ERROR"@, "INO_LOOKUP"@]
}

fn named_path(a: &str, b: &str, c: &str, n: usize) -> (r: Vec<String>)
    requires
        1 <= n <= 3,
    ensures
        path_view(r@) == seq![a@, b@, c@].take(n as int),
{
    let mut r: Vec<String> = Vec::new();
    r.push(a.to_owned());
    if n > 1 {
        r.push(b.to_owned());
    }
    if n > 2 {
        r.push(c.to_owned());
    }
    proof {
        assert(path_view(r@) =~= seq![a@, b@, c@].take(n as int));
    }
    r
}

pub open spec fn cached_in(s: Seq<(u64, u64, Option<Vec<u8>>)>, root: u64, inum: u64) -> Option<Option<Seq<u8>>>
    decreases s.len(),
{
    if s.len() == 0 {
        None
    } else if s[0].0 == root && s[0].1 == inum {
        Some(match s[0].2 {
            Some(v) => Some(v@),
            None => None,
        })
    } else {
        cached_in(s.drop_first(), root, inum)
    }
}

proof fn lemma_cached_in_push(s: Seq<(u64, u64, Option<Vec<u8>>)>, e: (u64, u64, Option<Vec<u8>>), root: u64, inum: u64)
    ensures
        cached_in(s.push(e), root, inum) == if cached_in(s, root, inum).is_some() {
            cached_in(s, root, inum)
        } else if e.0 == root && e.1 == inum {
            Some(match e.2 {
                Some(v) => Some(v@),
                None => None,
            })
        } else {
            None
        },
    decreases s.len(),
{
    if s.len() > 0 {
        assert(s.push(e).drop_first() =~= s.drop_first().push(e));
        assert(s.push(e)[0] == s[0]);
        lemma_cached_in_push(s.drop_first(), e, root, inum);
    } else {
        assert(s.push(e).drop_first() =~= Seq::<(u64, u64, Option<Vec<u8>>)>::empty());
        assert(cached_in(s.push(e).drop_first(), root, inum).is_none());
        assert(s.push(e)[0] == e);
    }
}

/// The state of a sampling pass.
pub struct SampleRun {
    chunks: ChunkMap,
    samples: u64,
    bytes_per_sample: u64,
    total_samples: u64,
    tree: SampleTree,
    roots: Roots,
    inode_paths: Vec<(u64, u64, Option<Vec<u8>>)>,
}

impl SampleRun {
    pub closed spec fn spec_chunks(self) -> ChunkMap {
        self.chunks
    }

    pub closed spec fn spec_tree(self) -> SampleTree {
        self.tree
    }

    pub closed spec fn spec_total_samples(self) -> u64 {
        self.total_samples
    }

    pub closed spec fn spec_samples(self) -> u64 {
        self.samples
    }

    pub closed spec fn spec_bytes_per_sample(self) -> u64 {
        self.bytes_per_sample
    }

    pub closed spec fn spec_roots(self) -> Roots {
        self.roots
    }

    pub open spec fn wf(self) -> bool {
        self.spec_chunks().wf() && self.spec_tree().wf() && self.spec_tree().monotone()
            && self.spec_samples() <= self.spec_chunks().spec_total()
    }

    /// Starts a pass over `chunks`: `total / hint` samples, each standing for
    /// `total / samples` bytes.
    pub fn new(chunks: ChunkMap, bytes_per_sample_hint: u64) -> (r: Self)
        requires
            chunks.wf(),
            bytes_per_sample_hint > 0,
        ensures
            r.wf(),
            r.spec_chunks() == chunks,
            r.spec_samples() == chunks.spec_total() / bytes_per_sample_hint,
            r.spec_bytes_per_sample() == if r.spec_samples() > 0 { chunks.spec_total() / r.spec_samples() } else { 0 },
            r.spec_total_samples() == 0,
            forall|q: Seq<Seq<char>>| #[trigger] r.spec_tree().at(q) == 0,
    {
        let total = chunks.total();
        let (samples, bytes_per_sample) = sample_plan(total, bytes_per_sample_hint);
        proof {
            assert(total / bytes_per_sample_hint <= total) by (nonlinear_arith)
                requires
                    bytes_per_sample_hint > 0,
            ;
        }
        SampleRun {
            chunks,
            samples,
            bytes_per_sample,
            total_samples: 0,
            tree: SampleTree::new(),
            roots: Roots::new(),
            inode_paths: Vec::new(),
        }
    }

    /// The number of samples this pass draws.
    pub fn samples(&self) -> (r: u64)
        ensures
            r == self.spec_samples(),
    {
        self.samples
    }

    /// The number of samples drawn so far.
    pub fn total_samples(&self) -> (r: u64)
        ensures
            r == self.spec_total_samples(),
    {
        self.total_samples
    }

    /// What position `p` of the concatenated chunk space lands on.
    pub fn locate(&self, p: u64) -> (r: SampleTarget)
        requires
            self.wf(),
            p < self.spec_chunks().spec_total(),
        ensures
            exists|i: int|
                0 <= i < self.spec_chunks()@.len() && contains(#[trigger] self.spec_chunks()@[i], p as int)
                    && r == target_spec(self.spec_chunks()@[i], p as int),
    {
        let i = self.chunks.find(p);
        let c = self.chunks.get(i);
        proof {
            assert(c.chunk_offset + c.chunk_length <= u64::MAX);
        }
        match classify(c.chunk_type) {
            ChunkKind::Data => SampleTarget::Data(c.chunk_offset + (p - c.pos)),
            ChunkKind::Metadata => SampleTarget::Metadata,
            ChunkKind::System => SampleTarget::System,
            ChunkKind::Other => SampleTarget::Other,
        }
    }

    /// Draws a uniform position over the chunk space and counts the sample;
    /// `None` once the pass has drawn all its samples.
    pub fn draw(&mut self) -> (r: Option<SampleTarget>)
        requires
            old(self).wf(),
        ensures
            final(self).wf(),
            final(self).spec_chunks() == old(self).spec_chunks(),
            final(self).spec_tree() == old(self).spec_tree(),
            final(self).spec_roots() == old(self).spec_roots(),
            final(self).spec_samples() == old(self).spec_samples(),
            final(self).spec_bytes_per_sample() == old(self).spec_bytes_per_sample(),
            r.is_some() == (old(self).spec_total_samples() < old(self).spec_samples()),
            final(self).spec_total_samples() == old(self).spec_total_samples() + if r.is_some() { 1int } else { 0int },
            r.is_some() ==> exists|p: int, i: int|
                0 <= p < old(self).spec_chunks().spec_total() && 0 <= i < old(self).spec_chunks()@.len()
                    && #[trigger] contains(old(self).spec_chunks()@[i], p) && r.unwrap() == target_spec(old(self).spec_chunks()@[i], p),
    {
        let total = self.chunks.total();
        if self.total_samples >= self.samples {
            return None;
        }

        let p = uniform_below(total);
        self.total_samples = self.total_samples + 1;
        Some(self.locate(p))
    }

    fn record(&mut self, path: &Vec<String>) -> (r: bool)
        requires
            old(self).wf(),
        ensures
            final(self).wf(),
            final(self).spec_chunks() == old(self).spec_chunks(),
            final(self).spec_roots() == old(self).spec_roots(),
            final(self).spec_total_samples() == old(self).spec_total_samples(),
            final(self).spec_samples() == old(self).spec_samples(),
            final(self).spec_bytes_per_sample() == old(self).spec_bytes_per_sample(),
            r == (old(self).spec_tree().spec_total() < u64::MAX),
            r ==> SampleTree::samples_added(old(self).spec_tree(), final(self).spec_tree(), path_view(path@), 1),
            !r ==> final(self).spec_tree() == old(self).spec_tree(),
    {
        if self.tree.total() == u64::MAX {
            return false;
        }
        proof {
            assert forall|q: Seq<Seq<char>>| crate::sample_tree::is_prefix(q, path_view(path@)) implies #[trigger] self.tree.at(q) + 1 <= u64::MAX by {
                lemma_monotone_bounded(self.tree, q);
            }
        }
        self.tree.add_sample(path);
        true
    }

    /// Records a sample that landed on metadata or system chunks under
    /// `METADATA` or `SYSTEM`; other targets record nothing.
    pub fn record_kind(&mut self, target: SampleTarget) -> (r: bool)
        requires
            old(self).wf(),
        ensures
            final(self).wf(),
            final(self).spec_chunks() == old(self).spec_chunks(),
            final(self).spec_roots() == old(self).spec_roots(),
            final(self).spec_total_samples() == old(self).spec_total_samples(),
            r == ((target == SampleTarget::Metadata || target == SampleTarget::System) && old(self).spec_tree().spec_total() < u64::MAX),
            r && target == SampleTarget::Metadata ==> SampleTree::samples_added(old(self).spec_tree(), final(self).spec_tree(), metadata_path(), 1),
            r && target == SampleTarget::System ==> SampleTree::samples_added(old(self).spec_tree(), final(self).spec_tree(), system_path(), 1),
            !r ==> final(self).spec_tree() == old(self).spec_tree(),
    {
        match target {
            SampleTarget::Metadata => {
                let p = named_path("METADATA", "", "", 1);
                proof {
                    assert(path_view(p@) =~= metadata_path());
                }
                self.record(&p)
            },
            SampleTarget::System => {
                let p = named_path("SYSTEM", "", "", 1);
                proof {
                    assert(path_view(p@) =~= system_path());
                }
                self.record(&p)
            },
            _ => false,
        }
    }

    /// Records a sample whose reverse mapping failed, under
    /// `DATA/ERROR/LOGICAL_TO_INO`.
    pub fn record_logical_error(&mut self) -> (r: bool)
        requires
            old(self).wf(),
        ensures
            final(self).wf(),
            final(self).spec_chunks() == old(self).spec_chunks(),
            final(self).spec_roots() == old(self).spec_roots(),
            final(self).spec_total_samples() == old(self).spec_total_samples(),
            r == (old(self).spec_tree().spec_total() < u64::MAX),
            r ==> SampleTree::samples_added(old(self).spec_tree(), final(self).spec_tree(), logical_error_path(), 1),
            !r ==> final(self).spec_tree() == old(self).spec_tree(),
    {
        let p = named_path("DATA", "ERROR", "LOGICAL_TO_INO", 3);
        proof {
            assert(path_view(p@) =~= logical_error_path());
        }
        self.record(&p)
    }

    /// Records one inode that references a data sample, given what the path
    /// lookup of that inode gave (`None` when it failed). A failed lookup is
    /// recorded under `DATA/ERROR/INO_LOOKUP`. An inode of the root tree is
    /// free-space-cache bookkeeping and is dropped, as is one whose subvolume
    /// root is not known. Otherwise the sample is recorded under `DATA`, the
    /// subvolume's root path and the inode's path.
    pub fn record_inode(&mut self, item: &LogicalInoItem, lookup: &Option<Vec<u8>>) -> (r: bool)
        requires
            old(self).wf(),
        ensures
            final(self).wf(),
            final(self).spec_chunks() == old(self).spec_chunks(),
            final(self).spec_roots() == old(self).spec_roots(),
            final(self).spec_total_samples() == old(self).spec_total_samples(),
            !r ==> final(self).spec_tree() == old(self).spec_tree(),
            lookup.is_none() ==> r == (old(self).spec_tree().spec_total() < u64::MAX)
                && (r ==> SampleTree::samples_added(old(self).spec_tree(), final(self).spec_tree(), lookup_error_path(), 1)),
            lookup.is_some() && item.root == ROOT_TREE_OBJECTID ==> !r,
            lookup.is_some() && item.root != ROOT_TREE_OBJECTID ==> match old(self).spec_roots().path_of(item.root) {
                None => !r,
                Some(root_path) => r == (old(self).spec_tree().spec_total() < u64::MAX)
                    && (r ==> SampleTree::samples_added(old(self).spec_tree(), final(self).spec_tree(),
                        data_path_spec(root_path, lookup.unwrap()@), 1)),
            },
    {
        match lookup {
            None => {
                let p = named_path("DATA", "ERROR", "INO_LOOKUP", 3);
                proof {
                    assert(path_view(p@) =~= lookup_error_path());
                }
                self.record(&p)
            },
            Some(path) => {
                if item.root == ROOT_TREE_OBJECTID {
                    return false;
                }
                match self.roots.get_root(item.root) {
                    None => false,
                    Some(root_path) => {
                        let p = data_path(&root_path, path.as_slice());
                        self.record(&p)
                    },
                }
            },
        }
    }

    /// The path of the root of subvolume `id`, if it is known.
    pub fn root_path(&self, id: u64) -> (r: Option<Vec<String>>)
        ensures
            r.is_some() == self.spec_roots().path_of(id).is_some(),
            r.is_some() ==> path_view(r.unwrap()@) == self.spec_roots().path_of(id).unwrap(),
    {
        self.roots.get_root(id)
    }

    /// Records that subvolume `id` is named `name` inside subvolume `parent`;
    /// see `Roots::add_backref`.
    pub fn add_root_backref(&mut self, id: u64, name: String, parent: u64) -> (r: bool)
        requires
            old(self).wf(),
        ensures
            final(self).wf(),
            final(self).spec_chunks() == old(self).spec_chunks(),
            final(self).spec_tree() == old(self).spec_tree(),
            final(self).spec_total_samples() == old(self).spec_total_samples(),
            r == (old(self).spec_roots().path_of(id).is_none() && old(self).spec_roots().path_of(parent).is_some()),
            r ==> final(self).spec_roots().path_of(id) == Some(old(self).spec_roots().path_of(parent).unwrap().push(name@)),
            forall|other: u64| other != id ==> #[trigger] final(self).spec_roots().path_of(other) == old(self).spec_roots().path_of(other),
    {
        self.roots.add_backref(id, name, parent)
    }

    pub closed spec fn spec_cached(self, root: u64, inum: u64) -> Option<Option<Seq<u8>>> {
        cached_in(self.inode_paths@, root, inum)
    }

    /// The next step of resolving a subvolume's root path; see `RootChase::step`.
    pub fn chase_root(&mut self, chase: &RootChase) -> (r: RootStep)
        requires
            old(self).wf(),
            chase.wf(),
        ensures
            final(self).wf(),
            final(self).spec_chunks() == old(self).spec_chunks(),
            final(self).spec_tree() == old(self).spec_tree(),
            final(self).spec_total_samples() == old(self).spec_total_samples(),
            final(self).spec_samples() == old(self).spec_samples(),
            final(self).spec_bytes_per_sample() == old(self).spec_bytes_per_sample(),
            forall|id: u64| #[trigger] old(self).spec_roots().path_of(id).is_some() ==> final(self).spec_roots().path_of(id) == old(self).spec_roots().path_of(id),
            match r {
                RootStep::Known(p) => path_view(p@) == final(self).spec_roots().path_of(chase.spec_target()).unwrap()
                    && final(self).spec_roots().path_of(chase.spec_target()).is_some()
                    && old(self).spec_roots().path_of(chase.wanted()).is_some(),
                RootStep::NeedBackref(x) => x == chase.wanted() && old(self).spec_roots().path_of(x).is_none()
                    && chase.spec_pending().len() < MAX_ROOT_DEPTH && final(self).spec_roots() == old(self).spec_roots(),
                RootStep::TooDeep => old(self).spec_roots().path_of(chase.wanted()).is_none()
                    && chase.spec_pending().len() >= MAX_ROOT_DEPTH && final(self).spec_roots() == old(self).spec_roots(),
                RootStep::Unresolved => old(self).spec_roots().path_of(chase.wanted()).is_some() && !chase.fresh(old(self).spec_roots()),
            },
            old(self).spec_roots().path_of(chase.wanted()).is_some() && chase.fresh(old(self).spec_roots()) ==> r is Known
                && final(self).spec_roots().path_of(chase.spec_target()) == Some(chain_path(old(self).spec_roots().path_of(chase.wanted()).unwrap(), chase.spec_pending())),
    {
        chase.step(&mut self.roots)
    }

    /// The remembered outcome of the path lookup of inode `inum` in
    /// subvolume `root`: `None` when none was remembered.
    pub fn cached_lookup(&self, root: u64, inum: u64) -> (r: Option<Option<Vec<u8>>>)
        ensures
            r.is_some() == self.spec_cached(root, inum).is_some(),
            r.is_some() ==> r.unwrap().is_some() == self.spec_cached(root, inum).unwrap().is_some(),
            r.is_some() && r.unwrap().is_some() ==> r.unwrap().unwrap()@ == self.spec_cached(root, inum).unwrap().unwrap(),
    {
        let mut i: usize = 0;
        proof {
            assert(self.inode_paths@.skip(0) =~= self.inode_paths@);
        }
        while i < self.inode_paths.len()
            invariant
                i <= self.inode_paths@.len(),
                cached_in(self.inode_paths@, root, inum) == cached_in(self.inode_paths@.skip(i as int), root, inum),
            decreases self.inode_paths.len() - i,
        {
            proof {
                assert(self.inode_paths@.skip(i as int).drop_first() =~= self.inode_paths@.skip(i + 1));
            }
            if self.inode_paths[i].0 == root && self.inode_paths[i].1 == inum {
                return match &self.inode_paths[i].2 {
                    None => Some(None),
                    Some(v) => Some(Some(copy_range(v.as_slice(), 0, v.len()))),
                };
            }
            i += 1;
        }
        None
    }

    /// Remembers the outcome of the path lookup of inode `inum` in subvolume
    /// `root`, unless one is remembered already.
    pub fn remember_lookup(&mut self, root: u64, inum: u64, path: Option<Vec<u8>>)
        requires
            old(self).wf(),
        ensures
            final(self).wf(),
            final(self).spec_chunks() == old(self).spec_chunks(),
            final(self).spec_tree() == old(self).spec_tree(),
            final(self).spec_roots() == old(self).spec_roots(),
            final(self).spec_total_samples() == old(self).spec_total_samples(),
            final(self).spec_samples() == old(self).spec_samples(),
            final(self).spec_bytes_per_sample() == old(self).spec_bytes_per_sample(),
            final(self).spec_cached(root, inum) == if old(self).spec_cached(root, inum).is_some() {
                old(self).spec_cached(root, inum)
            } else {
                Some(match path {
                    Some(v) => Some(v@),
                    None => None,
                })
            },
            forall|r: u64, n: u64| !(r == root && n == inum) ==> #[trigger] final(self).spec_cached(r, n) == old(self).spec_cached(r, n),
    {
        let ghost s0 = self.inode_paths@;
        let ghost e = (root, inum, path);
        self.inode_paths.push((root, inum, path));
        proof {
            lemma_cached_in_push(s0, e, root, inum);
            assert forall|r: u64, n: u64| !(r == root && n == inum) implies #[trigger] cached_in(self.inode_paths@, r, n) == cached_in(s0, r, n) by {
                lemma_cached_in_push(s0, e, r, n);
            }
        }
    }

    /// Ends the pass with its count, resolution and tree.
    pub fn finish(self) -> (r: BtrfsSample)
        requires
            self.wf(),
        ensures
            r.wf(),
            r.total_samples == self.spec_total_samples(),
            r.bytes_per_sample == self.spec_bytes_per_sample(),
            r.sample_tree == self.spec_tree(),
    {
        BtrfsSample { total_samples: self.total_samples, bytes_per_sample: self.bytes_per_sample, sample_tree: self.tree }
    }
}

} // verus!
