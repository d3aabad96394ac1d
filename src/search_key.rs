//! Keys of the filesystem's metadata trees and inclusive key ranges.
use vstd::prelude::*;

verus! {

/// A key in a metadata tree: ordered by `objectid`, then `typ`, then `offset`.
#[derive(Clone, Copy, Debug, PartialEq, Eq, Structural)]
pub struct SearchKey {
    pub objectid: u64,
    pub typ: u8,
    pub offset: u64,
}

/// An inclusive range `[lo, hi]` of keys.
#[derive(Clone, Copy, Debug, PartialEq, Eq, Structural)]
pub struct SearchRange {
    pub lo: SearchKey,
    pub hi: SearchKey,
}

/// The record header that precedes every payload returned by a tree search.
#[derive(Clone, Copy, Debug, PartialEq, Eq, Structural)]
pub struct SearchHeader {
    pub transid: u64,
    pub objectid: u64,
    pub offset: u64,
    pub typ: u32,
    pub len: u32,
}

/// Strict lexicographic order on keys.
pub open spec fn key_lt(a: SearchKey, b: SearchKey) -> bool {
    a.objectid < b.objectid || (a.objectid == b.objectid && (a.typ < b.typ || (a.typ == b.typ
        && a.offset < b.offset)))
}

pub open spec fn key_le(a: SearchKey, b: SearchKey) -> bool {
    key_lt(a, b) || a == b
}

pub open spec fn spec_key(objectid: u64, typ: u8, offset: u64) -> SearchKey {
    SearchKey { objectid, typ, offset }
}

pub open spec fn min_spec() -> SearchKey {
    spec_key(0, 0, 0)
}

pub open spec fn max_spec() -> SearchKey {
    spec_key(u64::MAX, u8::MAX, u64::MAX)
}

/// The successor of a key: `offset` is incremented, carrying into `typ` and
/// then into `objectid`; the largest key wraps to the smallest.
pub open spec fn next_spec(k: SearchKey) -> SearchKey {
    if k.offset < u64::MAX {
        spec_key(k.objectid, k.typ, (k.offset + 1) as u64)
    } else if k.typ < u8::MAX {
        spec_key(k.objectid, (k.typ + 1) as u8, 0)
    } else if k.objectid < u64::MAX {
        spec_key((k.objectid + 1) as u64, 0, 0)
    } else {
        min_spec()
    }
}

impl SearchRange {
    pub open spec fn contains(self, k: SearchKey) -> bool {
        key_le(self.lo, k) && key_le(k, self.hi)
    }
}

impl SearchKey {
    pub fn new(objectid: u64, typ: u8, offset: u64) -> (r: Self)
        ensures
            r == spec_key(objectid, typ, offset),
    {
        SearchKey { objectid, typ, offset }
    }

    /// The smallest key.
    pub fn min_key() -> (r: Self)
        ensures
            r == min_spec(),
    {
        SearchKey::new(0, 0, 0)
    }

    /// The largest key.
    pub fn max_key() -> (r: Self)
        ensures
            r == max_spec(),
    {
        SearchKey::new(u64::MAX, u8::MAX, u64::MAX)
    }

    /// The range of every key.
    pub fn all() -> (r: SearchRange)
        ensures
            r.lo == min_spec(),
            r.hi == max_spec(),
            forall|k: SearchKey| r.contains(k),
    {
        SearchRange { lo: SearchKey::min_key(), hi: SearchKey::max_key() }
    }

    /// Every key with the given `objectid`, of any type and offset.
    pub fn range_fixed_id(objectid: u64) -> (r: SearchRange)
        ensures
            r.lo == spec_key(objectid, 0, 0),
            r.hi == spec_key(objectid, u8::MAX, u64::MAX),
            forall|k: SearchKey| r.contains(k) <==> k.objectid == objectid,
    {
        SearchRange { lo: SearchKey::new(objectid, 0, 0), hi: SearchKey::new(objectid, u8::MAX, u64::MAX) }
    }

    /// Every key with the given `objectid` and `typ`, of any offset.
    pub fn range_fixed_id_type(objectid: u64, typ: u8) -> (r: SearchRange)
        ensures
            r.lo == spec_key(objectid, typ, 0),
            r.hi == spec_key(objectid, typ, u64::MAX),
            forall|k: SearchKey| r.contains(k) <==> (k.objectid == objectid && k.typ == typ),
    {
        SearchRange { lo: SearchKey::new(objectid, typ, 0), hi: SearchKey::new(objectid, typ, u64::MAX) }
    }

    /// The key that follows this one; the largest key wraps to the smallest.
    pub fn next(&self) -> (r: Self)
        ensures
            r == next_spec(*self),
    {
        if self.offset < u64::MAX {
            SearchKey { objectid: self.objectid, typ: self.typ, offset: self.offset + 1 }
        } else if self.typ < u8::MAX {
            SearchKey { objectid: self.objectid, typ: self.typ + 1, offset: 0 }
        } else if self.objectid < u64::MAX {
            SearchKey { objectid: self.objectid + 1, typ: 0, offset: 0 }
        } else {
            SearchKey::min_key()
        }
    }

    /// The key of a record header; the type is narrowed to its low byte.
    pub fn from(h: &SearchHeader) -> (r: Self)
        ensures
            r == spec_key(h.objectid, h.typ as u8, h.offset),
    {
        SearchKey { objectid: h.objectid, typ: h.typ as u8, offset: h.offset }
    }

    /// Whether this is the largest key, after which `next` wraps.
    pub fn is_max(&self) -> (r: bool)
        ensures
            r == (*self == max_spec()),
    {
        self.objectid == u64::MAX && self.typ == u8::MAX && self.offset == u64::MAX
    }
}

/// Every key but the largest is strictly smaller than its successor, and no
/// key lies strictly between the two.
pub proof fn lemma_next_is_successor(k: SearchKey)
    requires
        k != max_spec(),
    ensures
        key_lt(k, next_spec(k)),
        forall|j: SearchKey| !(#[trigger] key_lt(k, j) && key_lt(j, next_spec(k))),
{
}

} // verus!
