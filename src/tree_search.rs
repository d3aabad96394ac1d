//! The paginated metadata-tree search: decoding each batch the kernel returns
//! and deciding where the next batch starts.
use vstd::prelude::*;
use crate::search_key::{SearchKey, SearchRange, SearchHeader, spec_key, next_spec, max_spec};
use crate::wire::{decode_search_header, search_header_at, SEARCH_HEADER_SIZE};

verus! {

/// One record of a search: its header and its payload.
pub struct SearchRecord {
    pub header: SearchHeader,
    pub payload: Vec<u8>,
}

pub open spec fn records_view(v: Seq<SearchRecord>) -> Seq<(SearchHeader, Seq<u8>)> {
    Seq::new(v.len(), |i: int| (v[i].header, v[i].payload@))
}

/// The `n` records packed from byte `pos` of `s`, each a header followed by
/// `len` bytes of payload; `None` when they do not fit.
pub open spec fn batch_spec(s: Seq<u8>, pos: int, n: nat) -> Option<Seq<(SearchHeader, Seq<u8>)>>
    decreases n,
{
    if n == 0 {
        Some(seq![])
    } else if pos + 32 > s.len() {
        None
    } else {
        let h = search_header_at(s, pos);
        let end = pos + 32 + h.len;
        if end > s.len() {
            None
        } else {
            match batch_spec(s, end, (n - 1) as nat) {
                Some(rest) => Some(seq![(h, s.subrange(pos + 32, end))] + rest),
                None => None,
            }
        }
    }
}

/// The bytes `[a, b)` of `data`, copied.
pub fn copy_range(data: &[u8], a: usize, b: usize) -> (r: Vec<u8>)
    requires
        a <= b <= data@.len(),
    ensures
        r@ == data@.subrange(a as int, b as int),
{
    let mut r: Vec<u8> = Vec::new();
    let mut i: usize = a;
    while i < b
        invariant
            a <= i <= b <= data@.len(),
            r@ == data@.subrange(a as int, i as int),
        decreases b - i,
    {
        r.push(data[i]);
        proof {
            assert(r@ =~= data@.subrange(a as int, i + 1));
        }
        i += 1;
    }
    r
}

/// Decodes the `nr_items` records at the start of `buf`, or `None` when they
/// overrun it.
pub fn decode_batch(buf: &[u8], nr_items: u32) -> (r: Option<Vec<SearchRecord>>)
    ensures
        match r {
            Some(v) => batch_spec(buf@, 0, nr_items as nat) == Some(records_view(v@)),
            None => batch_spec(buf@, 0, nr_items as nat).is_none(),
        },
{
    let mut out: Vec<SearchRecord> = Vec::new();
    let mut pos: usize = 0;
    let mut i: u32 = 0;
    while i < nr_items
        invariant
            i <= nr_items,
            pos <= buf@.len(),
            batch_spec(buf@, 0, nr_items as nat) == match batch_spec(buf@, pos as int, (nr_items - i) as nat) {
                Some(rest) => Some(records_view(out@) + rest),
                None => None,
            },
        decreases nr_items - i,
    {
        if buf.len() - pos < SEARCH_HEADER_SIZE {
            return None;
        }
        let h = decode_search_header(buf, pos);
        if (h.len as usize) > buf.len() - pos - SEARCH_HEADER_SIZE {
            return None;
        }
        let end = pos + SEARCH_HEADER_SIZE + h.len as usize;
        let payload = copy_range(buf, pos + SEARCH_HEADER_SIZE, end);
        let ghost out0 = out@;
        out.push(SearchRecord { header: h, payload });
        proof {
            assert(records_view(out@) =~= records_view(out0) + seq![(h, buf@.subrange(pos + 32, end as int))]);
            let rest = batch_spec(buf@, end as int, (nr_items - i - 1) as nat);
            if let Some(rr) = rest {
                assert(records_view(out0) + (seq![(h, buf@.subrange(pos + 32, end as int))] + rr) =~= records_view(out@) + rr);
            }
        }
        pos = end;
        i += 1;
    }
    proof {
        assert(records_view(out@) + seq![] =~= records_view(out@));
    }
    Some(out)
}

/// Why a search stopped early.
#[derive(Clone, Copy, Debug, PartialEq, Eq, Structural)]
pub enum SearchError {
    /// A batch claimed more records than its buffer holds.
    Malformed,
}

/// The state of a search between kernel calls: the key range still to be
/// returned, and whether the search has ended.
pub struct TreeSearch {
    pub tree_id: u64,
    pub min: SearchKey,
    pub max: SearchKey,
    pub done: bool,
}

impl TreeSearch {
    pub fn new(tree_id: u64, range: SearchRange) -> (r: Self)
        ensures
            r.tree_id == tree_id,
            r.min == range.lo,
            r.max == range.hi,
            !r.done,
    {
        TreeSearch { tree_id, min: range.lo, max: range.hi, done: false }
    }

    /// Whether no further kernel call is needed.
    pub fn is_done(&self) -> (r: bool)
        ensures
            r == self.done,
    {
        self.done
    }

    /// Takes the answer to one kernel call (`nr_items` records packed in `buf`)
    /// and returns its records. The search ends on an empty answer, on a
    /// malformed one, and after a record with the largest key, past which the
    /// next key would wrap; otherwise it resumes at the key after the last one.
    pub fn on_batch(&mut self, nr_items: u32, buf: &[u8]) -> (r: Result<Vec<SearchRecord>, SearchError>)
        ensures
            final(self).tree_id == old(self).tree_id,
            final(self).max == old(self).max,
            old(self).done ==> r.is_ok() && r.unwrap()@.len() == 0,
            old(self).done ==> *final(self) == *old(self),
            !old(self).done && nr_items == 0 ==> r.is_ok() && r.unwrap()@.len() == 0 && final(self).done && final(self).min == old(self).min,
            !old(self).done && nr_items > 0 ==> match batch_spec(buf@, 0, nr_items as nat) {
                None => r == Err::<Vec<SearchRecord>, SearchError>(SearchError::Malformed) && final(self).done && final(self).min == old(self).min,
                Some(recs) => {
                    let h = recs.last().0;
                    let last = spec_key(h.objectid, h.typ as u8, h.offset);
                    &&& r.is_ok()
                    &&& records_view(r.unwrap()@) == recs
                    &&& final(self).done == (last == max_spec())
                    &&& final(self).min == if last == max_spec() { old(self).min } else { next_spec(last) }
                },
            },
    {
        if self.done {
            return Ok(Vec::new());
        }
        if nr_items == 0 {
            self.done = true;
            return Ok(Vec::new());
        }
        match decode_batch(buf, nr_items) {
            None => {
                self.done = true;
                Err(SearchError::Malformed)
            },
            Some(recs) => {
                proof {
                    lemma_batch_len(buf@, 0, nr_items as nat);
                }
                let last = SearchKey::from(&recs[recs.len() - 1].header);
                if last.is_max() {
                    self.done = true;
                } else {
                    self.min = last.next();
                }
                Ok(recs)
            },
        }
    }
}

proof fn lemma_batch_len(s: Seq<u8>, pos: int, n: nat)
    ensures
        batch_spec(s, pos, n).is_some() ==> batch_spec(s, pos, n).unwrap().len() == n,
    decreases n,
{
    if n > 0 && pos + 32 <= s.len() {
        let h = search_header_at(s, pos);
        lemma_batch_len(s, pos + 32 + h.len, (n - 1) as nat);
    }
}

} // verus!
