//! Exact accounting over the extent tree: each data extent's length goes to
//! the (subvolume, inode) pairs named by its inline data references.
use vstd::prelude::*;
use crate::search_key::SearchHeader;
use crate::sample_tree::{SampleTree, path_view, lemma_monotone_bounded, is_prefix};
use crate::paths::{split_non_empty, split_spec, texts_of, bytes_view, component_text};
use crate::wire::{le64, read_u64_le};

verus! {

pub const EXTENT_ITEM_KEY: u32 = 168;
pub const METADATA_ITEM_KEY: u32 = 169;
pub const TREE_BLOCK_REF_KEY: u8 = 176;
pub const EXTENT_DATA_REF_KEY: u8 = 178;
pub const SHARED_BLOCK_REF_KEY: u8 = 182;
pub const SHARED_DATA_REF_KEY: u8 = 184;
pub const EXTENT_FLAG_DATA: u64 = 1;
pub const EXTENT_FLAG_TREE_BLOCK: u64 = 2;

pub const EXTENT_ITEM_SIZE: usize = 24;
pub const TREE_BLOCK_INFO_SIZE: usize = 18;
pub const EXTENT_INLINE_REF_SIZE: usize = 9;

/// Why the parsing of an extent record stopped early.
#[derive(Clone, Copy, Debug, PartialEq, Eq, Structural)]
pub enum ExtentError {
    /// The record ends inside a structure.
    Truncated,
    /// An inline reference of a type this accounting does not know.
    UnknownInlineRef(u8),
    /// Bytes are left over after the last inline reference.
    TrailingData,
}

/// A subvolume and an inode that an extent is attributed to.
#[derive(Clone, Copy, Debug, PartialEq, Eq, Structural)]
pub struct DataRef {
    pub root: u64,
    pub objectid: u64,
}

/// The data references among the inline references from byte `pos` of `s`,
/// and why their walk stopped early, if it did. A data reference is a type
/// byte then root, objectid, offset (8 bytes each) and count (4 bytes); a
/// shared data reference is a type byte, a parent (8 bytes) and a count (4 bytes).
pub open spec fn data_refs_from(s: Seq<u8>, pos: int) -> (Seq<DataRef>, Option<ExtentError>)
    decreases s.len() - pos,
{
    if pos < 0 || pos >= s.len() {
        (seq![], None)
    } else if s[pos] == EXTENT_DATA_REF_KEY {
        if pos + 29 > s.len() {
            (seq![], Some(ExtentError::Truncated))
        } else {
            let rest = data_refs_from(s, pos + 29);
            (seq![DataRef { root: le64(s, pos + 1) as u64, objectid: le64(s, pos + 9) as u64 }] + rest.0, rest.1)
        }
    } else if s[pos] == SHARED_DATA_REF_KEY {
        if pos + 13 > s.len() {
            (seq![], Some(ExtentError::Truncated))
        } else {
            data_refs_from(s, pos + 13)
        }
    } else {
        (seq![], Some(ExtentError::UnknownInlineRef(s[pos])))
    }
}

/// How the walk of a metadata item's inline references (9 bytes each, tree
/// block or shared block references) from byte `pos` ends.
pub open spec fn metadata_refs_end(s: Seq<u8>, pos: int) -> Option<ExtentError>
    decreases s.len() - pos,
{
    if pos < 0 || pos + 9 > s.len() {
        if pos == s.len() {
            None
        } else {
            Some(ExtentError::TrailingData)
        }
    } else if s[pos] == TREE_BLOCK_REF_KEY || s[pos] == SHARED_BLOCK_REF_KEY {
        metadata_refs_end(s, pos + 9)
    } else {
        Some(ExtentError::UnknownInlineRef(s[pos]))
    }
}

/// What an extent-tree record contributes: the data references of an extent
/// item whose flags mark data (after the 24-byte item, and the 18-byte tree
/// block info when the flags mark a tree block and it fits), and how parsing ended.
pub open spec fn extent_record_spec(typ: u32, s: Seq<u8>) -> (Seq<DataRef>, Option<ExtentError>) {
    if typ == EXTENT_ITEM_KEY {
        if s.len() < 24 {
            (seq![], Some(ExtentError::Truncated))
        } else {
            let flags = le64(s, 16) as u64;
            let pos = if flags & EXTENT_FLAG_TREE_BLOCK != 0 && 42 <= s.len() { 42int } else { 24int };
            if flags & EXTENT_FLAG_DATA != 0 {
                data_refs_from(s, pos)
            } else {
                (seq![], None)
            }
        }
    } else if typ == METADATA_ITEM_KEY {
        if s.len() < 24 {
            (seq![], Some(ExtentError::Truncated))
        } else {
            (seq![], metadata_refs_end(s, 24))
        }
    } else {
        (seq![], None)
    }
}

fn walk_data_refs(s: &[u8], start: usize) -> (r: (Vec<DataRef>, Option<ExtentError>))
    requires
        start <= s@.len(),
    ensures
        (r.0@, r.1) == data_refs_from(s@, start as int),
{
    let mut out: Vec<DataRef> = Vec::new();
    let mut pos: usize = start;
    let len = s.len();
    while pos < len
        invariant
            len == s@.len(),
            start <= pos <= len,
            data_refs_from(s@, start as int) == (out@ + data_refs_from(s@, pos as int).0, data_refs_from(s@, pos as int).1),
        decreases len - pos,
    {
        let t = s[pos];
        if t == EXTENT_DATA_REF_KEY {
            if len - pos < 29 {
                return (out, Some(ExtentError::Truncated));
            }
            let d = DataRef { root: read_u64_le(s, pos + 1), objectid: read_u64_le(s, pos + 9) };
            let ghost o0 = out@;
            out.push(d);
            proof {
                let rest = data_refs_from(s@, pos + 29);
                assert(o0 + (seq![d] + rest.0) =~= out@ + rest.0);
            }
            pos = pos + 29;
        } else if t == SHARED_DATA_REF_KEY {
            if len - pos < 13 {
                return (out, Some(ExtentError::Truncated));
            }
            pos = pos + 13;
        } else {
            return (out, Some(ExtentError::UnknownInlineRef(t)));
        }
    }
    proof {
        assert(out@ + Seq::<DataRef>::empty() =~= out@);
    }
    (out, None)
}

fn walk_metadata_refs(s: &[u8], start: usize) -> (r: Option<ExtentError>)
    requires
        start <= s@.len(),
    ensures
        r == metadata_refs_end(s@, start as int),
{
    let mut pos: usize = start;
    let len = s.len();
    while len - pos >= 9
        invariant
            len == s@.len(),
            start <= pos <= len,
            metadata_refs_end(s@, start as int) == metadata_refs_end(s@, pos as int),
        decreases len - pos,
    {
        let t = s[pos];
        if t == TREE_BLOCK_REF_KEY || t == SHARED_BLOCK_REF_KEY {
            pos = pos + 9;
        } else {
            return Some(ExtentError::UnknownInlineRef(t));
        }
    }
    if pos == len {
        None
    } else {
        Some(ExtentError::TrailingData)
    }
}

/// Parses one record of the extent tree.
pub fn parse_extent_record(header: &SearchHeader, payload: &[u8]) -> (r: (Vec<DataRef>, Option<ExtentError>))
    ensures
        (r.0@, r.1) == extent_record_spec(header.typ, payload@),
{
    if header.typ == EXTENT_ITEM_KEY {
        if payload.len() < EXTENT_ITEM_SIZE {
            return (Vec::new(), Some(ExtentError::Truncated));
        }
        let flags = read_u64_le(payload, 16);
        let pos: usize = if flags & EXTENT_FLAG_TREE_BLOCK != 0 && payload.len() >= EXTENT_ITEM_SIZE + TREE_BLOCK_INFO_SIZE {
            EXTENT_ITEM_SIZE + TREE_BLOCK_INFO_SIZE
        } else {
            EXTENT_ITEM_SIZE
        };
        if flags & EXTENT_FLAG_DATA != 0 {
            walk_data_refs(payload, pos)
        } else {
            (Vec::new(), None)
        }
    } else if header.typ == METADATA_ITEM_KEY {
        if payload.len() < EXTENT_ITEM_SIZE {
            return (Vec::new(), Some(ExtentError::Truncated));
        }
        (Vec::new(), walk_metadata_refs(payload, EXTENT_ITEM_SIZE))
    } else {
        (Vec::new(), None)
    }
}

/// The bytes attributed to `(root, inum)` in `s`, over all its entries.
pub open spec fn usage_in(s: Seq<(u64, u64, u64)>, root: u64, inum: u64) -> nat
    decreases s.len(),
{
    if s.len() == 0 {
        0
    } else {
        usage_in(s.drop_last(), root, inum) + if s.last().0 == root && s.last().1 == inum {
            s.last().2 as nat
        } else {
            0
        }
    }
}

/// How many of `refs` name `(root, inum)`.
pub open spec fn ref_count(refs: Seq<DataRef>, root: u64, inum: u64) -> nat
    decreases refs.len(),
{
    if refs.len() == 0 {
        0
    } else {
        ref_count(refs.drop_last(), root, inum) + if refs.last().root == root && refs.last().objectid == inum {
            1nat
        } else {
            0
        }
    }
}

proof fn lemma_usage_update(s: Seq<(u64, u64, u64)>, i: int, b: u64, root: u64, inum: u64)
    requires
        0 <= i < s.len(),
        s[i].2 + b <= u64::MAX,
    ensures
        usage_in(s.update(i, (s[i].0, s[i].1, (s[i].2 + b) as u64)), root, inum) == usage_in(s, root, inum) + if s[i].0 == root && s[i].1 == inum {
            b as nat
        } else {
            0
        },
    decreases s.len(),
{
    let t = s.update(i, (s[i].0, s[i].1, (s[i].2 + b) as u64));
    if i < s.len() - 1 {
        assert(t.drop_last() =~= s.drop_last().update(i, (s[i].0, s[i].1, (s[i].2 + b) as u64)));
        lemma_usage_update(s.drop_last(), i, b, root, inum);
    } else {
        assert(t.drop_last() =~= s.drop_last());
    }
}

/// Bytes attributed to each (subvolume, inode) pair. A pair may have several
/// entries; its usage is their sum.
pub struct ExtentUsage {
    entries: Vec<(u64, u64, u64)>,
}

impl ExtentUsage {
    pub closed spec fn usage(self, root: u64, inum: u64) -> nat {
        usage_in(self.entries@, root, inum)
    }

    pub closed spec fn spec_entries(self) -> Seq<(u64, u64, u64)> {
        self.entries@
    }

    pub fn new() -> (r: Self)
        ensures
            forall|root: u64, inum: u64| #[trigger] r.usage(root, inum) == 0,
            r.spec_entries().len() == 0,
    {
        ExtentUsage { entries: Vec::new() }
    }

    /// Attributes `bytes` to `(root, inum)`.
    pub fn attribute(&mut self, root: u64, inum: u64, bytes: u64)
        ensures
            forall|r: u64, n: u64| #[trigger] final(self).usage(r, n) == old(self).usage(r, n) + if r == root && n == inum {
                bytes as nat
            } else {
                0
            },
    {
        let mut i: usize = 0;
        while i < self.entries.len()
            invariant
                i <= self.entries@.len(),
                self.entries@ == old(self).entries@,
            decreases self.entries.len() - i,
        {
            let e = self.entries[i];
            if e.0 == root && e.1 == inum && bytes <= u64::MAX - e.2 {
                let ghost s0 = self.entries@;
                self.entries.set(i, (e.0, e.1, e.2 + bytes));
                proof {
                    assert forall|r: u64, n: u64| #[trigger] usage_in(self.entries@, r, n) == usage_in(s0, r, n) + if r == root && n == inum {
                        bytes as nat
                    } else {
                        0
                    } by {
                        lemma_usage_update(s0, i as int, bytes, r, n);
                        assert(self.entries@ == s0.update(i as int, (s0[i as int].0, s0[i as int].1, (s0[i as int].2 + bytes) as u64)));
                    }
                }
                return;
            }
            i += 1;
        }
        let ghost s0 = self.entries@;
        self.entries.push((root, inum, bytes));
        proof {
            assert(self.entries@.drop_last() =~= s0);
        }
    }

    /// Accounts one record of the extent tree: its length, the key's offset,
    /// goes to each data reference found before parsing stopped.
    pub fn account_record(&mut self, header: &SearchHeader, payload: &[u8]) -> (r: Option<ExtentError>)
        ensures
            r == extent_record_spec(header.typ, payload@).1,
            forall|root: u64, inum: u64| #[trigger] final(self).usage(root, inum) == old(self).usage(root, inum)
                + header.offset * ref_count(extent_record_spec(header.typ, payload@).0, root, inum),
    {
        let (refs, end) = parse_extent_record(header, payload);
        let mut i: usize = 0;
        proof {
            assert(refs@.take(0) =~= Seq::<DataRef>::empty());
            assert forall|root: u64, inum: u64| #[trigger] self.usage(root, inum) == old(self).usage(root, inum)
                + header.offset * ref_count(refs@.take(0), root, inum) by {
                assert(ref_count(refs@.take(0), root, inum) == 0);
            }
        }
        while i < refs.len()
            invariant
                i <= refs@.len(),
                forall|root: u64, inum: u64| #[trigger] self.usage(root, inum) == old(self).usage(root, inum)
                    + header.offset * ref_count(refs@.take(i as int), root, inum),
            decreases refs.len() - i,
        {
            let d = refs[i];
            self.attribute(d.root, d.objectid, header.offset);
            proof {
                assert(refs@.take(i + 1).drop_last() =~= refs@.take(i as int));
                assert forall|root: u64, inum: u64| #[trigger] self.usage(root, inum) == old(self).usage(root, inum)
                    + header.offset * ref_count(refs@.take(i + 1), root, inum) by {
                    let c = ref_count(refs@.take(i as int), root, inum);
                    assert(header.offset * (c + 1) == header.offset * c + header.offset) by (nonlinear_arith);
                }
            }
            i += 1;
        }
        proof {
            assert(refs@.take(i as int) =~= refs@);
        }
        end
    }

    /// The number of entries.
    pub fn len(&self) -> (r: usize)
        ensures
            r == self.spec_entries().len(),
    {
        self.entries.len()
    }

    /// The `i`-th entry: subvolume, inode and bytes.
    pub fn entry(&self, i: usize) -> (r: (u64, u64, u64))
        requires
            i < self.spec_entries().len(),
        ensures
            r == self.spec_entries()[i as int],
    {
        self.entries[i]
    }
}

/// Adds `bytes` under the components of the inode path `path` when the tree's
/// total leaves room; reports whether it did.
pub fn add_usage(tree: &mut SampleTree, path: &[u8], bytes: u64) -> (r: bool)
    requires
        old(tree).wf(),
        old(tree).monotone(),
    ensures
        final(tree).wf(),
        final(tree).monotone(),
        r == (old(tree).spec_total() + bytes <= u64::MAX),
        r ==> SampleTree::samples_added(*old(tree), *final(tree), texts_of(split_spec(path@)), bytes as nat),
        !r ==> *final(tree) == *old(tree),
{
    if bytes > u64::MAX - tree.total() {
        return false;
    }
    let parts = split_non_empty(path);
    let mut p: Vec<String> = Vec::new();
    let mut j: usize = 0;
    while j < parts.len()
        invariant
            j <= parts@.len(),
            path_view(p@) == texts_of(bytes_view(parts@)).take(j as int),
        decreases parts.len() - j,
    {
        let ghost p0 = p@;
        let t = component_text(parts[j].as_slice());
        let ghost tv = t@;
        p.push(t);
        proof {
            assert(path_view(p@) =~= path_view(p0).push(tv));
            assert(texts_of(bytes_view(parts@)).take(j + 1) =~= texts_of(bytes_view(parts@)).take(j as int).push(tv));
        }
        j += 1;
    }
    proof {
        assert(texts_of(bytes_view(parts@)).take(j as int) =~= texts_of(split_spec(path@)));
        assert forall|q: Seq<Seq<char>>| is_prefix(q, path_view(p@)) implies #[trigger] tree.at(q) + bytes <= u64::MAX by {
            lemma_monotone_bounded(*tree, q);
        }
    }
    tree.add_samples(&p, bytes);
    true
}

} // verus!
