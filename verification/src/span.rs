//! Byte spans: a parsed node's bytes together with their absolute positions
//! in the source buffer.

use vstd::prelude::*;
use crate::ranges::{range_set, rs_range, rs_set};

verus! {

/// A contiguous run of bytes of a source buffer, remembered together with its
/// absolute position `[start, end)` in that buffer.
#[derive(Debug)]
pub struct Span {
    /// The bytes of the run.
    pub data: Vec<u8>,
    /// The absolute position of the first byte.
    pub start: usize,
    /// One past the absolute position of the last byte.
    pub end: usize,
}

impl Span {
    /// The span is internally consistent: it holds exactly the bytes of its range.
    pub open spec fn wf(self) -> bool {
        self.start <= self.end && self.data@.len() == self.end - self.start
    }

    /// The positions covered by the span, as a set.
    pub open spec fn set(self) -> Set<int> {
        range_set(self.start as int, self.end as int)
    }

    /// The span lies within `buf` and holds the bytes standing there.
    pub open spec fn consistent_with(self, buf: Seq<u8>) -> bool {
        &&& self.wf()
        &&& self.end <= buf.len()
        &&& self.data@ == buf.subrange(self.start as int, self.end as int)
    }

    /// Builds the span covering `buf[start..end]`.
    pub fn extract(buf: &[u8], start: usize, end: usize) -> (r: Span)
        requires
            start <= end <= buf@.len(),
        ensures
            r.consistent_with(buf@),
            r.start == start,
            r.end == end,
    {
        let mut data: Vec<u8> = Vec::new();
        let mut i: usize = start;
        while i < end
            invariant
                start <= i <= end <= buf@.len(),
                data@ == buf@.subrange(start as int, i as int),
            decreases end - i,
        {
            data.push(buf[i]);
            proof {
                assert(data@ =~= buf@.subrange(start as int, i + 1 as int));
            }
            i = i + 1;
        }
        Span { data, start, end }
    }

    /// The number of bytes covered.
    pub fn len(&self) -> (r: usize)
        ensures
            r == self.data@.len(),
    {
        self.data.len()
    }

    /// Whether the span covers no byte.
    pub fn is_empty(&self) -> (r: bool)
        ensures
            r == (self.data@.len() == 0),
    {
        self.data.len() == 0
    }

    /// The bytes of the span.
    pub fn as_bytes(&self) -> (r: &[u8])
        ensures
            r@ == self.data@,
    {
        self.data.as_slice()
    }

    /// Shifts the range by `n` positions to the right.
    pub fn offset(&mut self, n: usize)
        requires
            old(self).start <= old(self).end,
            old(self).end + n <= usize::MAX,
        ensures
            final(self).data == old(self).data,
            final(self).start == old(self).start + n,
            final(self).end == old(self).end + n,
    {
        self.start = self.start + n;
        self.end = self.end + n;
    }

    /// The positions of the span as a range set.
    pub fn to_range_set(&self) -> (r: rangeset::set::RangeSet<usize>)
        ensures
            rs_set(r) == self.set(),
    {
        rs_range(self.start, self.end)
    }
}

/// Byte-for-byte equality of two slices.
pub fn bytes_eq(a: &[u8], b: &[u8]) -> (r: bool)
    ensures
        r == (a@ == b@),
{
    if a.len() != b.len() {
        return false;
    }
    let mut i: usize = 0;
    while i < a.len()
        invariant
            i <= a@.len(),
            a@.len() == b@.len(),
            forall|j: int| 0 <= j < i ==> a@[j] == b@[j],
        decreases a@.len() - i,
    {
        if a[i] != b[i] {
            return false;
        }
        i = i + 1;
    }
    proof {
        assert(a@ =~= b@);
    }
    true
}

} // verus!
