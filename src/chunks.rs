//! The map of allocated chunks laid end to end, and the classification of
//! chunks by block-group type.
use vstd::prelude::*;
use crate::search_key::SearchHeader;
use crate::wire::{le64, read_u64_le};

verus! {

pub const CHUNK_ITEM_KEY: u32 = 228;
pub const CHUNK_ITEM_HEADER_SIZE: usize = 48;
pub const CHUNK_TYPE_OFFSET: usize = 40;

pub const BLOCK_GROUP_DATA: u64 = 1;
pub const BLOCK_GROUP_SYSTEM: u64 = 2;
pub const BLOCK_GROUP_METADATA: u64 = 4;
pub const BLOCK_GROUP_TYPE_MASK: u64 = 7;

/// One chunk: where it starts in the concatenated space (`pos`), its logical
/// address (`chunk_offset`), its length and its type flags.
#[derive(Clone, Copy, Debug, PartialEq, Eq, Structural)]
pub struct ChunkInfo {
    pub pos: u64,
    pub chunk_offset: u64,
    pub chunk_length: u64,
    pub chunk_type: u64,
}

/// What a chunk holds, by its block-group type.
#[derive(Clone, Copy, Debug, PartialEq, Eq, Structural)]
pub enum ChunkKind {
    Data,
    Metadata,
    System,
    Other,
}

pub open spec fn kind_of(flags: u64) -> ChunkKind {
    let t = flags & BLOCK_GROUP_TYPE_MASK;
    if t == BLOCK_GROUP_DATA {
        ChunkKind::Data
    } else if t == BLOCK_GROUP_METADATA {
        ChunkKind::Metadata
    } else if t == BLOCK_GROUP_SYSTEM {
        ChunkKind::System
    } else {
        ChunkKind::Other
    }
}

/// Classifies a chunk by the block-group bits of its type flags.
pub fn classify(flags: u64) -> (r: ChunkKind)
    ensures
        r == kind_of(flags),
{
    let t = flags & BLOCK_GROUP_TYPE_MASK;
    if t == BLOCK_GROUP_DATA {
        ChunkKind::Data
    } else if t == BLOCK_GROUP_METADATA {
        ChunkKind::Metadata
    } else if t == BLOCK_GROUP_SYSTEM {
        ChunkKind::System
    } else {
        ChunkKind::Other
    }
}

/// The sum of the lengths of the first `i` chunks.
pub open spec fn prefix_len(s: Seq<ChunkInfo>, i: int) -> int
    decreases i,
{
    if i <= 0 {
        0
    } else {
        prefix_len(s, i - 1) + s[i - 1].chunk_length
    }
}

pub open spec fn contains(c: ChunkInfo, p: int) -> bool {
    c.pos <= p < c.pos + c.chunk_length
}

/// Whether some chunk of `s` holds position `p`.
pub open spec fn held(s: Seq<ChunkInfo>, p: int) -> bool {
    exists|i: int| 0 <= i < s.len() && #[trigger] contains(s[i], p)
}

/// Chunks in the order they were found, each placed right after the previous one.
pub struct ChunkMap {
    chunks: Vec<ChunkInfo>,
    total: u64,
}

/// Why a chunk record was refused.
#[derive(Clone, Copy, Debug, PartialEq, Eq, Structural)]
pub enum ChunkError {
    /// The payload is shorter than a chunk item.
    Truncated,
    /// The total length, or the chunk's end address, does not fit in 64 bits.
    Overflow,
}

impl ChunkMap {
    pub closed spec fn view(self) -> Seq<ChunkInfo> {
        self.chunks@
    }

    pub closed spec fn spec_total(self) -> u64 {
        self.total
    }

    /// Each chunk is non-empty, starts where the previous one ends (the first
    /// at 0), and ends at an address that fits; `total` is where the last ends.
    pub open spec fn wf(self) -> bool {
        &&& forall|i: int| 0 <= i < self@.len() ==> (#[trigger] self@[i]).pos == prefix_len(self@, i)
        &&& forall|i: int| 0 <= i < self@.len() ==> (#[trigger] self@[i]).chunk_length > 0
        &&& forall|i: int| 0 <= i < self@.len() ==> (#[trigger] self@[i]).chunk_offset + self@[i].chunk_length <= u64::MAX
        &&& self.spec_total() == prefix_len(self@, self@.len() as int)
    }

    pub fn new() -> (r: Self)
        ensures
            r.wf(),
            r@ == Seq::<ChunkInfo>::empty(),
            r.spec_total() == 0,
    {
        ChunkMap { chunks: Vec::new(), total: 0 }
    }

    /// The total length of all chunks.
    pub fn total(&self) -> (r: u64)
        ensures
            r == self.spec_total(),
    {
        self.total
    }

    pub fn len(&self) -> (r: usize)
        ensures
            r == self@.len(),
    {
        self.chunks.len()
    }

    pub fn get(&self, i: usize) -> (r: ChunkInfo)
        requires
            i < self@.len(),
        ensures
            r == self@[i as int],
    {
        self.chunks[i]
    }

    /// Appends a chunk after the last one. An empty chunk holds no address
    /// and is left out.
    pub fn push(&mut self, chunk_offset: u64, chunk_length: u64, chunk_type: u64) -> (r: Result<(), ChunkError>)
        requires
            old(self).wf(),
        ensures
            final(self).wf(),
            r.is_err() == (old(self).spec_total() + chunk_length > u64::MAX || chunk_offset + chunk_length > u64::MAX),
            r.is_err() ==> r == Err::<(), ChunkError>(ChunkError::Overflow) && *final(self) == *old(self),
            r.is_ok() && chunk_length == 0 ==> *final(self) == *old(self),
            r.is_ok() && chunk_length > 0 ==> final(self)@ == old(self)@.push(ChunkInfo {
                pos: old(self).spec_total(),
                chunk_offset,
                chunk_length,
                chunk_type,
            }) && final(self).spec_total() == old(self).spec_total() + chunk_length,
    {
        if chunk_length > u64::MAX - self.total || chunk_length > u64::MAX - chunk_offset {
            return Err(ChunkError::Overflow);
        }
        if chunk_length == 0 {
            return Ok(());
        }
        let ghost s0 = self.chunks@;
        self.chunks.push(ChunkInfo { pos: self.total, chunk_offset, chunk_length, chunk_type });
        self.total = self.total + chunk_length;
        proof {
            let s = self.chunks@;
            assert forall|i: int| 0 <= i <= s0.len() implies prefix_len(s, i) == prefix_len(s0, i) by {
                lemma_prefix_len_push(s0, s, i);
            }
            assert forall|i: int| 0 <= i < s.len() implies (#[trigger] s[i]).pos == prefix_len(s, i) by {
                if i < s0.len() {
                    assert(s[i] == s0[i]);
                }
            }
        }
        Ok(())
    }

    /// Records a search record from the chunk tree. Records of other types
    /// are ignored; a chunk item gives its length (bytes 0..8 of the payload)
    /// and type flags (bytes 40..48), and the logical address is the key's offset.
    pub fn add_record(&mut self, header: &SearchHeader, payload: &[u8]) -> (r: Result<(), ChunkError>)
        requires
            old(self).wf(),
        ensures
            final(self).wf(),
            header.typ != CHUNK_ITEM_KEY ==> r.is_ok() && *final(self) == *old(self),
            header.typ == CHUNK_ITEM_KEY && payload@.len() < 48 ==> r == Err::<(), ChunkError>(ChunkError::Truncated) && *final(self) == *old(self),
            header.typ == CHUNK_ITEM_KEY && payload@.len() >= 48 ==> {
                let len = le64(payload@, 0);
                let flags = le64(payload@, 40);
                &&& r.is_err() == (old(self).spec_total() + len > u64::MAX || header.offset + len > u64::MAX)
                &&& r.is_err() ==> r == Err::<(), ChunkError>(ChunkError::Overflow) && *final(self) == *old(self)
                &&& r.is_ok() && len == 0 ==> *final(self) == *old(self)
                &&& r.is_ok() && len > 0 ==> final(self)@ == old(self)@.push(ChunkInfo {
                    pos: old(self).spec_total(),
                    chunk_offset: header.offset,
                    chunk_length: len as u64,
                    chunk_type: flags as u64,
                })
                &&& r.is_ok() ==> final(self).spec_total() == old(self).spec_total() + len
            },
    {
        if header.typ != CHUNK_ITEM_KEY {
            return Ok(());
        }
        if payload.len() < CHUNK_ITEM_HEADER_SIZE {
            return Err(ChunkError::Truncated);
        }
        let length = read_u64_le(payload, 0);
        let flags = read_u64_le(payload, CHUNK_TYPE_OFFSET);
        self.push(header.offset, length, flags)
    }

    /// The index of the chunk that holds position `p` of the concatenated space.
    pub fn find(&self, p: u64) -> (r: usize)
        requires
            self.wf(),
            p < self.spec_total(),
        ensures
            r < self@.len(),
            contains(self@[r as int], p as int),
    {
        proof {
            lemma_prefix_len_monotone(self@);
        }
        let mut i: usize = 0;
        while i < self.chunks.len()
            invariant
                self.wf(),
                p < self.spec_total(),
                i <= self@.len(),
                prefix_len(self@, i as int) <= p,
                forall|a: int, b: int| 0 <= a <= b <= self@.len() ==> prefix_len(self@, a) <= prefix_len(self@, b),
            decreases self.chunks.len() - i,
        {
            let c = self.chunks[i];
            if p - c.pos < c.chunk_length {
                return i;
            }
            i += 1;
        }
        i
    }
}

proof fn lemma_prefix_len_push(s0: Seq<ChunkInfo>, s: Seq<ChunkInfo>, i: int)
    requires
        s.len() == s0.len() + 1,
        forall|j: int| 0 <= j < s0.len() ==> s[j] == s0[j],
        0 <= i <= s0.len(),
    ensures
        prefix_len(s, i) == prefix_len(s0, i),
    decreases i,
{
    if i > 0 {
        lemma_prefix_len_push(s0, s, i - 1);
    }
}

proof fn lemma_prefix_len_monotone(s: Seq<ChunkInfo>)
    ensures
        forall|a: int, b: int| 0 <= a <= b <= s.len() ==> prefix_len(s, a) <= prefix_len(s, b),
{
    assert forall|a: int, b: int| 0 <= a <= b <= s.len() implies prefix_len(s, a) <= prefix_len(s, b) by {
        lemma_prefix_len_le(s, a, b);
    }
}

proof fn lemma_prefix_len_le(s: Seq<ChunkInfo>, a: int, b: int)
    requires
        0 <= a <= b <= s.len(),
    ensures
        prefix_len(s, a) <= prefix_len(s, b),
    decreases b - a,
{
    if a < b {
        lemma_prefix_len_le(s, a, b - 1);
    }
}

/// The chunks tile the concatenated space: their lengths add up to the total,
/// and every position below the total lies in exactly one chunk.
pub proof fn lemma_chunk_map_bijection(m: ChunkMap)
    requires
        m.wf(),
    ensures
        m.spec_total() == prefix_len(m@, m@.len() as int),
        forall|p: int| 0 <= p < m.spec_total() ==> #[trigger] held(m@, p),
        forall|p: int, i: int, j: int|
            0 <= i < m@.len() && 0 <= j < m@.len() && #[trigger] contains(m@[i], p) && #[trigger] contains(m@[j], p) ==> i == j,
{
    lemma_prefix_len_monotone(m@);
    assert forall|p: int| 0 <= p < m.spec_total() implies #[trigger] held(m@, p) by {
        lemma_position_covered(m, p, m@.len() as int);
    }
    assert forall|p: int, i: int, j: int|
        0 <= i < m@.len() && 0 <= j < m@.len() && #[trigger] contains(m@[i], p) && #[trigger] contains(m@[j], p) implies i == j by {
        if i < j {
            assert(prefix_len(m@, i + 1) <= prefix_len(m@, j));
        } else if j < i {
            assert(prefix_len(m@, j + 1) <= prefix_len(m@, i));
        }
    }
}

proof fn lemma_position_covered(m: ChunkMap, p: int, n: int)
    requires
        m.wf(),
        0 <= p < prefix_len(m@, n),
        0 <= n <= m@.len(),
    ensures
        exists|i: int| 0 <= i < n && #[trigger] contains(m@[i], p),
    decreases n,
{
    if n > 0 {
        if p >= prefix_len(m@, n - 1) {
            assert(contains(m@[n - 1], p));
        } else {
            lemma_position_covered(m, p, n - 1);
        }
    }
}

} // verus!
