//! Little-endian decoding of the packed records that the kernel writes.
use vstd::prelude::*;
use crate::search_key::SearchHeader;

verus! {

pub open spec fn le16(s: Seq<u8>, p: int) -> int {
    s[p] + 256 * s[p + 1]
}

pub open spec fn le32(s: Seq<u8>, p: int) -> int {
    s[p] + 256 * s[p + 1] + 65536 * s[p + 2] + 16777216 * s[p + 3]
}

pub open spec fn le64(s: Seq<u8>, p: int) -> int {
    s[p] + 256 * s[p + 1] + 65536 * s[p + 2] + 16777216 * s[p + 3] + 4294967296 * s[p + 4]
        + 1099511627776 * s[p + 5] + 281474976710656 * s[p + 6] + 72057594037927936 * s[p + 7]
}

pub fn read_u16_le(data: &[u8], p: usize) -> (r: u16)
    requires
        p + 2 <= data@.len(),
    ensures
        r == le16(data@, p as int),
{
    data[p] as u16 + 256 * (data[p + 1] as u16)
}

pub fn read_u32_le(data: &[u8], p: usize) -> (r: u32)
    requires
        p + 4 <= data@.len(),
    ensures
        r == le32(data@, p as int),
{
    data[p] as u32 + 256 * (data[p + 1] as u32) + 65536 * (data[p + 2] as u32) + 16777216 * (
    data[p + 3] as u32)
}

pub fn read_u64_le(data: &[u8], p: usize) -> (r: u64)
    requires
        p + 8 <= data@.len(),
    ensures
        r == le64(data@, p as int),
{
    data[p] as u64 + 256 * (data[p + 1] as u64) + 65536 * (data[p + 2] as u64) + 16777216 * (
    data[p + 3] as u64) + 4294967296 * (data[p + 4] as u64) + 1099511627776 * (data[p
        + 5] as u64) + 281474976710656 * (data[p + 6] as u64) + 72057594037927936 * (data[p
        + 7] as u64)
}

/// A cursor over a byte region that hands out values one after another.
pub struct RawReader<'a> {
    data: &'a [u8],
    pos: usize,
}

impl<'a> RawReader<'a> {
    pub closed spec fn spec_data(self) -> Seq<u8> {
        self.data@
    }

    pub closed spec fn spec_pos(self) -> int {
        self.pos as int
    }

    pub open spec fn wf(self) -> bool {
        0 <= self.spec_pos() <= self.spec_data().len()
    }

    pub fn new(data: &'a [u8]) -> (r: Self)
        ensures
            r.wf(),
            r.spec_data() == data@,
            r.spec_pos() == 0,
    {
        RawReader { data, pos: 0 }
    }

    /// The number of bytes not yet read.
    pub fn available(&self) -> (r: usize)
        requires
            self.wf(),
        ensures
            r == self.spec_data().len() - self.spec_pos(),
    {
        self.data.len() - self.pos
    }

    /// The position of the next byte to read.
    pub fn position(&self) -> (r: usize)
        ensures
            r == self.spec_pos(),
    {
        self.pos
    }

    /// The whole region.
    pub fn data(&self) -> (r: &'a [u8])
        ensures
            r@ == self.spec_data(),
    {
        self.data
    }

    /// Moves past `n` bytes, or reports that fewer remain and stays put.
    pub fn skip(&mut self, n: usize) -> (r: bool)
        requires
            old(self).wf(),
        ensures
            final(self).wf(),
            final(self).spec_data() == old(self).spec_data(),
            r == (old(self).spec_pos() + n <= old(self).spec_data().len()),
            final(self).spec_pos() == if r { old(self).spec_pos() + n } else { old(self).spec_pos() },
    {
        if n <= self.data.len() - self.pos {
            self.pos = self.pos + n;
            true
        } else {
            false
        }
    }

    pub fn next_u8(&mut self) -> (r: Option<u8>)
        requires
            old(self).wf(),
        ensures
            final(self).wf(),
            final(self).spec_data() == old(self).spec_data(),
            r.is_some() == (old(self).spec_pos() + 1 <= old(self).spec_data().len()),
            r.is_some() ==> r.unwrap() == old(self).spec_data()[old(self).spec_pos()],
            final(self).spec_pos() == old(self).spec_pos() + if r.is_some() { 1int } else { 0int },
    {
        if self.pos < self.data.len() {
            let v = self.data[self.pos];
            self.pos = self.pos + 1;
            Some(v)
        } else {
            None
        }
    }

    pub fn next_u32(&mut self) -> (r: Option<u32>)
        requires
            old(self).wf(),
        ensures
            final(self).wf(),
            final(self).spec_data() == old(self).spec_data(),
            r.is_some() == (old(self).spec_pos() + 4 <= old(self).spec_data().len()),
            r.is_some() ==> r.unwrap() == le32(old(self).spec_data(), old(self).spec_pos()),
            final(self).spec_pos() == old(self).spec_pos() + if r.is_some() { 4int } else { 0int },
    {
        if 4 <= self.data.len() - self.pos {
            let v = read_u32_le(self.data, self.pos);
            self.pos = self.pos + 4;
            Some(v)
        } else {
            None
        }
    }

    pub fn next_u64(&mut self) -> (r: Option<u64>)
        requires
            old(self).wf(),
        ensures
            final(self).wf(),
            final(self).spec_data() == old(self).spec_data(),
            r.is_some() == (old(self).spec_pos() + 8 <= old(self).spec_data().len()),
            r.is_some() ==> r.unwrap() == le64(old(self).spec_data(), old(self).spec_pos()),
            final(self).spec_pos() == old(self).spec_pos() + if r.is_some() { 8int } else { 0int },
    {
        if 8 <= self.data.len() - self.pos {
            let v = read_u64_le(self.data, self.pos);
            self.pos = self.pos + 8;
            Some(v)
        } else {
            None
        }
    }
}

pub const SEARCH_HEADER_SIZE: usize = 32;

/// The record header at byte `p`: transid, objectid, offset (each 8 bytes),
/// then type and payload length (each 4 bytes).
pub open spec fn search_header_at(s: Seq<u8>, p: int) -> SearchHeader {
    SearchHeader {
        transid: le64(s, p) as u64,
        objectid: le64(s, p + 8) as u64,
        offset: le64(s, p + 16) as u64,
        typ: le32(s, p + 24) as u32,
        len: le32(s, p + 28) as u32,
    }
}

pub fn decode_search_header(data: &[u8], p: usize) -> (r: SearchHeader)
    requires
        p + 32 <= data@.len(),
    ensures
        r == search_header_at(data@, p as int),
{
    let _n = data.len();
    SearchHeader {
        transid: read_u64_le(data, p),
        objectid: read_u64_le(data, p + 8),
        offset: read_u64_le(data, p + 16),
        typ: read_u32_le(data, p + 24),
        len: read_u32_le(data, p + 28),
    }
}

} // verus!
