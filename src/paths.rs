//! Path components: splitting the kernel's inode paths, naming them as text,
//! and resolving subvolume ids to the path of their root.
use vstd::prelude::*;
use crate::sample_tree::path_view;
use crate::search_key::SearchHeader;
use crate::tree_search::copy_range;
use crate::wire::{le16, read_u16_le};

verus! {

pub const ROOT_BACKREF_KEY: u32 = 144;
pub const ROOT_REF_SIZE: usize = 18;
pub const FS_TREE_OBJECTID: u64 = 5;

/// The text that a byte string reads as, invalid sequences replaced.
pub uninterp spec fn lossy_of(b: Seq<u8>) -> Seq<char>;

/// Relies on `String::from_utf8_lossy`: the text of the bytes, each invalid
/// sequence replaced by U+FFFD; it depends on the bytes alone.
#[verifier::external_body]
fn text_of(b: &[u8]) -> (r: String)
    ensures
        r@ == lossy_of(b@),
{
    String::from_utf8_lossy(b).into_owned()
}

/// The text of a byte string, invalid sequences replaced.
pub fn component_text(b: &[u8]) -> (r: String)
    ensures
        r@ == lossy_of(b@),
{
    text_of(b)
}

/// The non-empty runs of bytes between `/` separators, scanning `s` with the
/// run `cur` already begun.
pub open spec fn split_from(s: Seq<u8>, cur: Seq<u8>) -> Seq<Seq<u8>>
    decreases s.len(),
{
    if s.len() == 0 {
        if cur.len() > 0 {
            seq![cur]
        } else {
            seq![]
        }
    } else if s[0] == 47u8 {
        (if cur.len() > 0 {
            seq![cur]
        } else {
            seq![]
        }) + split_from(s.drop_first(), seq![])
    } else {
        split_from(s.drop_first(), cur.push(s[0]))
    }
}

/// The non-empty components of a `/`-separated path.
pub open spec fn split_spec(s: Seq<u8>) -> Seq<Seq<u8>> {
    split_from(s, seq![])
}

pub open spec fn bytes_view(v: Seq<Vec<u8>>) -> Seq<Seq<u8>> {
    Seq::new(v.len(), |i: int| v[i]@)
}

/// Splits a path on `/`, leaving out empty components.
pub fn split_non_empty(s: &[u8]) -> (r: Vec<Vec<u8>>)
    ensures
        bytes_view(r@) == split_spec(s@),
{
    let mut out: Vec<Vec<u8>> = Vec::new();
    let mut cur: Vec<u8> = Vec::new();
    let mut i: usize = 0;
    proof {
        assert(s@.skip(0) =~= s@);
        assert(cur@ =~= Seq::<u8>::empty());
        assert(bytes_view(out@) =~= Seq::<Seq<u8>>::empty());
        assert(bytes_view(out@) + split_from(s@, cur@) =~= split_from(s@, cur@));
    }
    while i < s.len()
        invariant
            i <= s@.len(),
            split_spec(s@) == bytes_view(out@) + split_from(s@.skip(i as int), cur@),
        decreases s.len() - i,
    {
        let ghost rest = s@.skip(i as int);
        let ghost out0 = bytes_view(out@);
        proof {
            assert(rest.drop_first() =~= s@.skip(i + 1));
            assert(rest[0] == s@[i as int]);
        }
        if s[i] == 47u8 {
            if cur.len() > 0 {
                let ghost c = cur@;
                out.push(cur);
                cur = Vec::new();
                proof {
                    assert(bytes_view(out@) =~= out0 + seq![c]);
                    assert(out0 + (seq![c] + split_from(s@.skip(i + 1), seq![])) =~= bytes_view(out@) + split_from(s@.skip(i + 1), cur@));
                }
            } else {
                proof {
                    assert(cur@ =~= Seq::<u8>::empty());
                    assert(Seq::<Seq<u8>>::empty() + split_from(s@.skip(i + 1), seq![]) =~= split_from(s@.skip(i + 1), seq![]));
                }
            }
        } else {
            cur.push(s[i]);
        }
        i += 1;
    }
    proof {
        assert(s@.skip(i as int).len() == 0);
    }
    if cur.len() > 0 {
        let ghost o = bytes_view(out@);
        let ghost c = cur@;
        out.push(cur);
        proof {
            assert(bytes_view(out@) =~= o + seq![c]);
        }
    } else {
        proof {
            assert(bytes_view(out@) + Seq::<Seq<u8>>::empty() =~= bytes_view(out@));
        }
    }
    out
}

pub open spec fn texts_of(parts: Seq<Seq<u8>>) -> Seq<Seq<char>> {
    Seq::new(parts.len(), |i: int| lossy_of(parts[i]))
}

/// The path under which a sample of file data is recorded: `DATA`, then the
/// components of the subvolume's root, then those of the inode's path.
pub open spec fn data_path_spec(root: Seq<Seq<char>>, inode_path: Seq<u8>) -> Seq<Seq<char>> {
    seq!["DATA"@] + root + texts_of(split_spec(inode_path))
}

pub fn data_path(root: &Vec<String>, inode_path: &[u8]) -> (r: Vec<String>)
    ensures
        path_view(r@) == data_path_spec(path_view(root@), inode_path@),
{
    let mut r: Vec<String> = Vec::new();
    r.push("DATA".to_owned());
    let mut i: usize = 0;
    while i < root.len()
        invariant
            i <= root@.len(),
            path_view(r@) == seq!["DATA"@] + path_view(root@).take(i as int),
        decreases root.len() - i,
    {
        let ghost r0 = r@;
        r.push(root[i].clone());
        proof {
            assert(path_view(r@) =~= path_view(r0).push(root@[i as int]@));
            assert(path_view(root@).take(i + 1) =~= path_view(root@).take(i as int).push(root@[i as int]@));
            assert(path_view(r@) =~= seq!["DATA"@] + path_view(root@).take(i + 1));
        }
        i += 1;
    }
    let parts = split_non_empty(inode_path);
    let mut j: usize = 0;
    while j < parts.len()
        invariant
            j <= parts@.len(),
            bytes_view(parts@) == split_spec(inode_path@),
            path_view(r@) == seq!["DATA"@] + path_view(root@) + texts_of(bytes_view(parts@)).take(j as int),
        decreases parts.len() - j,
    {
        let ghost r0 = r@;
        let t = component_text(parts[j].as_slice());
        let ghost tv = t@;
        r.push(t);
        proof {
            assert(path_view(r@) =~= path_view(r0).push(tv));
            assert(tv == texts_of(bytes_view(parts@))[j as int]);
            assert(texts_of(bytes_view(parts@)).take(j + 1) =~= texts_of(bytes_view(parts@)).take(j as int).push(tv));
            assert(path_view(r@) =~= seq!["DATA"@] + path_view(root@) + texts_of(bytes_view(parts@)).take(j + 1));
        }
        j += 1;
    }
    proof {
        assert(path_view(root@).take(root@.len() as int) =~= path_view(root@));
        assert(texts_of(bytes_view(parts@)).take(j as int) =~= texts_of(split_spec(inode_path@)));
    }
    r
}

/// The bytes of a NUL-terminated string: everything before the first 0 byte,
/// or the whole buffer when it holds none.
pub fn until_nul(buf: &[u8]) -> (r: Vec<u8>)
    ensures
        r@ == buf@.subrange(0, r@.len() as int),
        r@.len() == buf@.len() || buf@[r@.len() as int] == 0,
        forall|i: int| 0 <= i < r@.len() ==> #[trigger] buf@[i] != 0,
{
    let mut i: usize = 0;
    while i < buf.len() && buf[i] != 0
        invariant
            i <= buf@.len(),
            forall|j: int| 0 <= j < i ==> #[trigger] buf@[j] != 0,
        decreases buf.len() - i,
    {
        i += 1;
    }
    copy_range(buf, 0, i)
}

/// The name and parent of a subvolume, from a root-backref record: the name
/// follows an 18-byte header whose bytes 16..18 give its length, and the
/// parent's id is the key's offset.
pub fn root_backref(header: &SearchHeader, payload: &[u8]) -> (r: Option<(String, u64)>)
    ensures
        r.is_some() == (header.typ == ROOT_BACKREF_KEY && payload@.len() >= 18 && 18 + le16(payload@, 16) <= payload@.len()),
        r.is_some() ==> r.unwrap().0@ == lossy_of(payload@.subrange(18, 18 + le16(payload@, 16))) && r.unwrap().1 == header.offset,
{
    if header.typ != ROOT_BACKREF_KEY || payload.len() < ROOT_REF_SIZE {
        return None;
    }
    let n = read_u16_le(payload, 16) as usize;
    if n > payload.len() - ROOT_REF_SIZE {
        return None;
    }
    let name = copy_range(payload, ROOT_REF_SIZE, ROOT_REF_SIZE + n);
    Some((component_text(name.as_slice()), header.offset))
}

pub fn clone_path(v: &Vec<String>) -> (r: Vec<String>)
    ensures
        r@ == v@,
{
    let mut r: Vec<String> = Vec::new();
    let mut i: usize = 0;
    while i < v.len()
        invariant
            i <= v@.len(),
            r@ == v@.take(i as int),
        decreases v.len() - i,
    {
        r.push(v[i].clone());
        proof {
            assert(r@ =~= v@.take(i + 1));
        }
        i += 1;
    }
    proof {
        assert(v@.take(i as int) =~= v@);
    }
    r
}

/// The first entry for `id`, if any.
pub open spec fn entry_for(s: Seq<(u64, Vec<String>)>, id: u64) -> Option<Seq<Seq<char>>>
    decreases s.len(),
{
    if s.len() == 0 {
        None
    } else if s[0].0 == id {
        Some(path_view(s[0].1@))
    } else {
        entry_for(s.drop_first(), id)
    }
}

proof fn lemma_entry_for_push(s: Seq<(u64, Vec<String>)>, e: (u64, Vec<String>), id: u64)
    ensures
        entry_for(s.push(e), id) == if entry_for(s, id).is_some() {
            entry_for(s, id)
        } else if e.0 == id {
            Some(path_view(e.1@))
        } else {
            None
        },
    decreases s.len(),
{
    if s.len() > 0 {
        assert(s.push(e).drop_first() =~= s.drop_first().push(e));
        assert(s.push(e)[0] == s[0]);
        lemma_entry_for_push(s.drop_first(), e, id);
    } else {
        assert(s.push(e).drop_first() =~= Seq::<(u64, Vec<String>)>::empty());
        assert(entry_for(s.push(e).drop_first(), id).is_none());
        assert(s.push(e)[0] == e);
    }
}

/// The path of each subvolume's root, as found so far. The top subvolume
/// (id 5) has the empty path.
pub struct Roots {
    m: Vec<(u64, Vec<String>)>,
}

impl Roots {
    pub closed spec fn path_of(self, id: u64) -> Option<Seq<Seq<char>>> {
        entry_for(self.m@, id)
    }

    pub fn new() -> (r: Self)
        ensures
            r.path_of(FS_TREE_OBJECTID) == Some(Seq::<Seq<char>>::empty()),
            forall|id: u64| id != FS_TREE_OBJECTID ==> #[trigger] r.path_of(id).is_none(),
    {
        let mut m: Vec<(u64, Vec<String>)> = Vec::new();
        m.push((FS_TREE_OBJECTID, Vec::new()));
        let r = Roots { m };
        proof {
            assert(r.m@.len() == 1);
            assert(r.m@[0].0 == FS_TREE_OBJECTID);
            assert(path_view(r.m@[0].1@) =~= Seq::<Seq<char>>::empty());
            assert forall|id: u64| id != FS_TREE_OBJECTID implies #[trigger] r.path_of(id).is_none() by {
                assert(r.m@.drop_first() =~= Seq::<(u64, Vec<String>)>::empty());
                assert(entry_for(r.m@.drop_first(), id).is_none());
            }
        }
        r
    }

    fn index_of(&self, id: u64) -> (r: Option<usize>)
        ensures
            match r {
                Some(i) => i < self.m@.len() && self.path_of(id) == Some(path_view(self.m@[i as int].1@)),
                None => self.path_of(id).is_none(),
            },
    {
        let mut i: usize = 0;
        proof {
            assert(self.m@.skip(0) =~= self.m@);
        }
        while i < self.m.len()
            invariant
                i <= self.m@.len(),
                entry_for(self.m@, id) == entry_for(self.m@.skip(i as int), id),
            decreases self.m.len() - i,
        {
            proof {
                assert(self.m@.skip(i as int).drop_first() =~= self.m@.skip(i + 1));
            }
            if self.m[i].0 == id {
                return Some(i);
            }
            i += 1;
        }
        None
    }

    /// The path of the root of subvolume `id`, if it is known.
    pub fn get_root(&self, id: u64) -> (r: Option<Vec<String>>)
        ensures
            r.is_some() == self.path_of(id).is_some(),
            r.is_some() ==> path_view(r.unwrap()@) == self.path_of(id).unwrap(),
    {
        match self.index_of(id) {
            Some(i) => Some(clone_path(&self.m[i].1)),
            None => None,
        }
    }

    /// Records that subvolume `id` is named `name` inside subvolume `parent`.
    /// This succeeds when `id` is not known yet and `parent` is: the path of
    /// `id` is then that of `parent` followed by `name`.
    pub fn add_backref(&mut self, id: u64, name: String, parent: u64) -> (r: bool)
        ensures
            r == (old(self).path_of(id).is_none() && old(self).path_of(parent).is_some()),
            r ==> final(self).path_of(id) == Some(old(self).path_of(parent).unwrap().push(name@)),
            forall|other: u64| other != id ==> #[trigger] final(self).path_of(other) == old(self).path_of(other),
            !r ==> final(self).path_of(id) == old(self).path_of(id),
    {
        if self.index_of(id).is_some() {
            return false;
        }
        match self.index_of(parent) {
            None => false,
            Some(i) => {
                let mut p = clone_path(&self.m[i].1);
                let ghost pp = p@;
                let ghost name_view = name@;
                p.push(name);
                let ghost s0 = self.m@;
                let ghost e = (id, p);
                self.m.push((id, p));
                proof {
                    assert(self.m@ == s0.push(e));
                    assert(path_view(e.1@) =~= path_view(pp).push(name_view));
                    lemma_entry_for_push(s0, e, id);
                    assert forall|other: u64| other != id implies #[trigger] entry_for(self.m@, other) == entry_for(s0, other) by {
                        lemma_entry_for_push(s0, e, other);
                    }
                }
                true
            },
        }
    }
}


pub const MAX_ROOT_DEPTH: usize = 64;

/// What resolving a subvolume's root path needs next.
#[derive(Debug)]
pub enum RootStep {
    /// The path of the subvolume being resolved.
    Known(Vec<String>),
    /// The backref (name and parent) of this subvolume is needed.
    NeedBackref(u64),
    /// The chain of parents grew past `MAX_ROOT_DEPTH` without reaching a known root.
    TooDeep,
    /// The backrefs given do not lead to a path for the subvolume (they repeat a subvolume).
    Unresolved,
}

/// `base` followed by the names of `pending`, the last entry's name first.
pub open spec fn chain_path(base: Seq<Seq<char>>, pending: Seq<(u64, String, u64)>) -> Seq<Seq<char>>
    decreases pending.len(),
{
    if pending.len() == 0 {
        base
    } else {
        chain_path(base, pending.drop_first()).push(pending[0].1@)
    }
}

/// The resolution of one subvolume's root path, walking up through parents:
/// `pending` holds the backrefs found so far, each entry's parent being the
/// next entry's subvolume.
pub struct RootChase {
    target: u64,
    pending: Vec<(u64, String, u64)>,
}

impl RootChase {
    pub closed spec fn spec_target(self) -> u64 {
        self.target
    }

    pub closed spec fn spec_pending(self) -> Seq<(u64, String, u64)> {
        self.pending@
    }

    /// The subvolume whose path is needed next.
    pub open spec fn wanted(self) -> u64 {
        if self.spec_pending().len() == 0 {
            self.spec_target()
        } else {
            self.spec_pending().last().2
        }
    }

    pub open spec fn wf(self) -> bool {
        &&& self.spec_pending().len() > 0 ==> self.spec_pending()[0].0 == self.spec_target()
        &&& forall|i: int| 0 <= i < self.spec_pending().len() - 1 ==> #[trigger] self.spec_pending()[i].2 == self.spec_pending()[i + 1].0
    }

    /// Whether every subvolume in `pending` is unknown to `roots` and appears once.
    pub open spec fn fresh(self, roots: Roots) -> bool {
        &&& forall|i: int| 0 <= i < self.spec_pending().len() ==> (#[trigger] roots.path_of(self.spec_pending()[i].0)).is_none()
        &&& forall|i: int, j: int| 0 <= i < j < self.spec_pending().len() ==> #[trigger] self.spec_pending()[i].0 != #[trigger] self.spec_pending()[j].0
    }

    pub fn new(target: u64) -> (r: Self)
        ensures
            r.wf(),
            r.spec_target() == target,
            r.spec_pending().len() == 0,
    {
        RootChase { target, pending: Vec::new() }
    }

    /// Hands in the backref of the subvolume asked for: it is named `name`
    /// inside `parent`.
    pub fn supply(&mut self, name: String, parent: u64)
        requires
            old(self).wf(),
        ensures
            final(self).wf(),
            final(self).spec_target() == old(self).spec_target(),
            final(self).spec_pending() == old(self).spec_pending().push((old(self).wanted(), name, parent)),
    {
        let w = if self.pending.len() == 0 { self.target } else { self.pending[self.pending.len() - 1].2 };
        self.pending.push((w, name, parent));
    }

    /// Decides the next step. Once the subvolume asked for has a known path,
    /// the backrefs found are recorded in `roots`, innermost last, and the
    /// target's path is returned.
    pub fn step(&self, roots: &mut Roots) -> (r: RootStep)
        requires
            self.wf(),
        ensures
            forall|id: u64| #[trigger] old(roots).path_of(id).is_some() ==> final(roots).path_of(id) == old(roots).path_of(id),
            match r {
                RootStep::Known(p) => path_view(p@) == final(roots).path_of(self.spec_target()).unwrap()
                    && final(roots).path_of(self.spec_target()).is_some()
                    && old(roots).path_of(self.wanted()).is_some(),
                RootStep::NeedBackref(x) => x == self.wanted() && old(roots).path_of(x).is_none()
                    && self.spec_pending().len() < MAX_ROOT_DEPTH && *final(roots) == *old(roots),
                RootStep::TooDeep => old(roots).path_of(self.wanted()).is_none()
                    && self.spec_pending().len() >= MAX_ROOT_DEPTH && *final(roots) == *old(roots),
                RootStep::Unresolved => old(roots).path_of(self.wanted()).is_some() && !self.fresh(*old(roots)),
            },
            old(roots).path_of(self.wanted()).is_some() && self.fresh(*old(roots)) ==> r is Known
                && final(roots).path_of(self.spec_target()) == Some(chain_path(old(roots).path_of(self.wanted()).unwrap(), self.spec_pending())),
    {
        let n = self.pending.len();
        let w = if n == 0 { self.target } else { self.pending[n - 1].2 };
        if roots.get_root(w).is_none() {
            if n >= MAX_ROOT_DEPTH {
                return RootStep::TooDeep;
            }
            return RootStep::NeedBackref(w);
        }
        let ghost base = old(roots).path_of(w).unwrap();
        let ghost pend = self.pending@;
        let ghost fresh = self.fresh(*old(roots));
        let mut i: usize = n;
        while i > 0
            invariant
                i <= n == pend.len(),
                pend == self.pending@,
                self.wf(),
                w == self.wanted(),
                old(roots).path_of(w) == Some(base),
                fresh == self.fresh(*old(roots)),
                forall|id: u64| #[trigger] old(roots).path_of(id).is_some() ==> roots.path_of(id) == old(roots).path_of(id),
                fresh ==> roots.path_of(if i == n { w } else { pend[i as int].0 }) == Some(chain_path(base, pend.skip(i as int))),
                fresh ==> forall|j: int| 0 <= j < i ==> (#[trigger] roots.path_of(pend[j].0)).is_none(),
            decreases i,
        {
            let e = &self.pending[i - 1];
            let ghost r0 = *roots;
            proof {
                if fresh {
                    if i < n {
                        assert(pend[i - 1].2 == pend[i as int].0);
                    }
                    assert(pend.skip(i - 1).drop_first() =~= pend.skip(i as int));
                    assert(pend.skip(i - 1)[0] == pend[i - 1]);
                }
            }
            let added = roots.add_backref(e.0, e.1.clone(), e.2);
            proof {
                assert forall|id: u64| #[trigger] old(roots).path_of(id).is_some() implies roots.path_of(id) == old(roots).path_of(id) by {
                    if id == e.0 {
                        assert(r0.path_of(id).is_some());
                    }
                }
                if fresh {
                    assert(added);
                    assert forall|j: int| 0 <= j < i - 1 implies (#[trigger] roots.path_of(pend[j].0)).is_none() by {
                        assert(pend[j].0 != pend[i - 1].0);
                    }
                }
            }
            i -= 1;
        }
        proof {
            if fresh {
                assert(pend.skip(0) =~= pend);
                if n > 0 {
                    assert(pend[0].0 == self.target);
                }
            }
        }
        match roots.get_root(self.target) {
            Some(p) => RootStep::Known(p),
            None => RootStep::Unresolved,
        }
    }
}

} // verus!
