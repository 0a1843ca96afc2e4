//! A sparse memory image: disjoint, non-adjacent, non-empty byte segments.
//!
//! The store owns a collection of segments, each a `(start address, bytes)`
//! pair covering the half-open address range `[start, start + bytes.len())`.
//! Three invariants are maintained:
//!
//! * no two segments overlap;
//! * no two segments are adjacent (touching segments are always merged);
//! * no segment is empty.
//!
//! [`SparseMem::insert`] adds a new byte range, extending a left neighbour
//! and absorbing a right neighbour where the new range touches them, and
//! rejects (leaving the store unchanged) any range that overlaps existing
//! data. [`SparseMem::get`] reads back a range that lies entirely inside a
//! single segment.

use vstd::prelude::*;

verus! {

/// The exclusive end address of a segment, as a mathematical integer.
pub open spec fn seg_end(s: (u64, Seq<u8>)) -> int {
    s.0 + s.1.len()
}

/// Two segments neither intersect nor touch: a strict gap lies between them.
pub open spec fn seg_separated(a: (u64, Seq<u8>), b: (u64, Seq<u8>)) -> bool {
    seg_end(a) < b.0 || seg_end(b) < a.0
}

/// Well-formedness of a segment collection: every segment is non-empty, its
/// end address is representable, and distinct segments are separated by at
/// least one unpopulated byte.
pub open spec fn wf_segs(segs: Seq<(u64, Seq<u8>)>) -> bool {
    &&& forall|i: int| 0 <= i < segs.len() ==> (#[trigger] segs[i]).1.len() > 0
    &&& forall|i: int| 0 <= i < segs.len() ==> seg_end(#[trigger] segs[i]) <= u64::MAX
    &&& forall|i: int, j: int|
        0 <= i < segs.len() && 0 <= j < segs.len() && i != j ==> seg_separated(
            #[trigger] segs[i],
            #[trigger] segs[j],
        )
}

/// The half-open range `[addr, end)` intersects the segment's range.
pub open spec fn seg_overlaps(s: (u64, Seq<u8>), addr: u64, end: int) -> bool {
    addr < seg_end(s) && s.0 < end
}

/// Some segment of the collection intersects `[addr, end)`.
pub open spec fn overlaps_some(segs: Seq<(u64, Seq<u8>)>, addr: u64, end: int) -> bool {
    exists|i: int| 0 <= i < segs.len() && seg_overlaps(#[trigger] segs[i], addr, end)
}

/// An insert of `data` at `addr` succeeds exactly when the data is
/// non-empty, the end address is representable, and no existing segment is
/// intersected.
pub open spec fn can_insert(segs: Seq<(u64, Seq<u8>)>, addr: u64, data: Seq<u8>) -> bool {
    &&& data.len() > 0
    &&& addr + data.len() <= u64::MAX
    &&& !overlaps_some(segs, addr, addr + data.len())
}

/// A left neighbour exists: a segment ending exactly at `addr`.
pub open spec fn has_left(segs: Seq<(u64, Seq<u8>)>, addr: u64) -> bool {
    exists|i: int| 0 <= i < segs.len() && seg_end(#[trigger] segs[i]) == addr
}

/// The index of the left neighbour (unique in a well-formed collection).
pub open spec fn left_index(segs: Seq<(u64, Seq<u8>)>, addr: u64) -> int {
    choose|i: int| 0 <= i < segs.len() && seg_end(#[trigger] segs[i]) == addr
}

/// A right neighbour exists: a segment starting exactly at `end`.
pub open spec fn has_right(segs: Seq<(u64, Seq<u8>)>, end: int) -> bool {
    exists|i: int| 0 <= i < segs.len() && (#[trigger] segs[i]).0 == end
}

/// The index of the right neighbour (unique in a well-formed collection).
pub open spec fn right_index(segs: Seq<(u64, Seq<u8>)>, end: int) -> int {
    choose|i: int| 0 <= i < segs.len() && (#[trigger] segs[i]).0 == end
}

/// The segment collection after a successful insert of `data` at `addr`:
/// the bytes are appended to a left neighbour if one exists, a right
/// neighbour is absorbed into the extended (or fresh) segment, and with no
/// neighbour at all the bytes form a fresh segment at the end of the
/// collection.
pub open spec fn inserted(segs: Seq<(u64, Seq<u8>)>, addr: u64, data: Seq<u8>) -> Seq<
    (u64, Seq<u8>),
> {
    let end = addr + data.len();
    if has_left(segs, addr) {
        let l = left_index(segs, addr);
        if has_right(segs, end) {
            let r = right_index(segs, end);
            segs.update(l, (segs[l].0, segs[l].1 + data + segs[r].1)).remove(r)
        } else {
            segs.update(l, (segs[l].0, segs[l].1 + data))
        }
    } else if has_right(segs, end) {
        let r = right_index(segs, end);
        segs.remove(r).push((addr, data + segs[r].1))
    } else {
        segs.push((addr, data))
    }
}

/// Address `p` lies inside some segment of the collection.
pub open spec fn covers(segs: Seq<(u64, Seq<u8>)>, p: int) -> bool {
    exists|i: int| 0 <= i < segs.len() && (#[trigger] segs[i]).0 <= p < seg_end(segs[i])
}

/// The index of the segment covering `p` (unique in a well-formed
/// collection).
pub open spec fn covering_index(segs: Seq<(u64, Seq<u8>)>, p: int) -> int {
    choose|i: int| 0 <= i < segs.len() && (#[trigger] segs[i]).0 <= p < seg_end(segs[i])
}

/// The byte stored at address `p`, where `covers(segs, p)`.
pub open spec fn byte_at(segs: Seq<(u64, Seq<u8>)>, p: int) -> u8 {
    let i = covering_index(segs, p);
    segs[i].1[p - segs[i].0]
}

/// The mathematical view of an executable segment collection.
pub open spec fn segs_view(rs: Seq<(u64, Vec<u8>)>) -> Seq<(u64, Seq<u8>)> {
    rs.map_values(|r: (u64, Vec<u8>)| (r.0, r.1@))
}

/// A segment fully contains the half-open range `[start, end)`.
pub open spec fn seg_contains_range(s: (u64, Seq<u8>), start: u64, end: u64) -> bool {
    s.0 <= start && end <= seg_end(s)
}

/// Why an insert was rejected. Every rejection leaves the store unchanged.
///
/// The store's internal invariant is maintained by proof, so no defensive
/// invariant-violation case can arise at run time.
#[derive(Debug, PartialEq, Eq)]
pub enum InsertError {
    /// The inserted range intersects the existing segment at this index
    /// (the first such segment in the store's internal order).
    Overlap { with_segment_index: usize },
    /// `addr + data.len()` does not fit in the 64-bit address space.
    AddressOverflow,
    /// The inserted byte range was empty. An empty insert is rejected
    /// rather than treated as a no-op, so that a caller feeding the store
    /// from an untrusted transport notices a degenerate chunk.
    EmptyInsert,
}

/// Track a single memory space that has gaps in its currently populated
/// regions, such as a device memory image read back region by region.
#[derive(Debug)]
pub struct SparseMem {
    ranges: Vec<(u64, Vec<u8>)>,
}

impl View for SparseMem {
    type V = Seq<(u64, Seq<u8>)>;

    closed spec fn view(&self) -> Seq<(u64, Seq<u8>)> {
        segs_view(self.ranges@)
    }
}

impl SparseMem {
    /// The store's invariant: segments are non-empty, representable, and
    /// pairwise separated (neither overlapping nor adjacent).
    pub open spec fn wf(&self) -> bool {
        wf_segs(self@)
    }

    /// A read-only view of all current segments, in the store's internal
    /// (insertion-historical) order.
    pub fn ranges(&self) -> (r: &Vec<(u64, Vec<u8>)>)
        ensures
            segs_view(r@) == self@,
    {
        &self.ranges
    }

    /// The bytes covering exactly `[range.start, range.end)`, if a single
    /// existing segment fully contains that half-open interval. A request
    /// spanning a gap or a boundary between two segments yields `None` (an
    /// absence, not an error), as does a reversed range.
    pub fn get(&self, range: core::ops::Range<u64>) -> (r: Option<&[u8]>)
        requires
            self.wf(),
        ensures
            (r is Some) <==> (range.start <= range.end && exists|i: int|
                0 <= i < self@.len() && seg_contains_range(
                    #[trigger] self@[i],
                    range.start,
                    range.end,
                )),
            r matches Some(b) ==> {
                &&& b@.len() == range.end - range.start
                &&& forall|k: int|
                    0 <= k < b@.len() ==> b@[k] == byte_at(self@, range.start + k)
            },
    {
        if range.start > range.end {
            return None;
        }
        let n = self.ranges.len();
        let mut i: usize = 0;
        while i < n
            invariant
                self.wf(),
                i <= n,
                n == self.ranges@.len(),
                range.start <= range.end,
                forall|m: int|
                    0 <= m < i ==> !seg_contains_range(
                        #[trigger] self@[m],
                        range.start,
                        range.end,
                    ),
            decreases n - i,
        {
            let seg_start = self.ranges[i].0;
            let seg_len = self.ranges[i].1.len();
            proof {
                assert(self@[i as int] == (self.ranges@[i as int].0, self.ranges@[i as int].1@));
                assert(seg_end(self@[i as int]) <= u64::MAX);
            }
            let seg_end_addr = seg_start + (seg_len as u64);
            if contains_range(&(seg_start..seg_end_addr), &range) {
                let off_start = (range.start - seg_start) as usize;
                let off_end = (range.end - seg_start) as usize;
                proof {
                    assert(off_start == range.start - seg_start);
                    assert(off_end == range.end - seg_start);
                }
                let bytes = vstd::slice::slice_subrange(
                    self.ranges[i].1.as_slice(),
                    off_start,
                    off_end,
                );
                proof {
                    assert(seg_contains_range(self@[i as int], range.start, range.end));
                    assert forall|k: int| 0 <= k < bytes@.len() implies bytes@[k] == byte_at(
                        self@,
                        range.start + k,
                    ) by {
                        lemma_byte_at_witness(self@, range.start + k, i as int);
                        assert(bytes@[k] == self@[i as int].1[off_start + k]);
                    }
                }
                return Some(bytes);
            }
            i = i + 1;
        }
        None
    }

    /// Insert `data` at address `addr`.
    ///
    /// On success the bytes are coalesced with any touching neighbours: a
    /// segment ending at `addr` is extended in place, and a segment
    /// starting at `addr + data.len()` is absorbed into the extended (or
    /// fresh) segment. The insert fails — leaving the store unchanged — if
    /// `data` is empty, if the end address is not representable, or if the
    /// range intersects a segment already present (reported with the index
    /// of the first such segment).
    pub fn insert(&mut self, addr: u64, data: &[u8]) -> (r: Result<(), InsertError>)
        requires
            old(self).wf(),
        ensures
            final(self).wf(),
            (r is Ok) <==> can_insert(old(self)@, addr, data@),
            r is Ok ==> final(self)@ == inserted(old(self)@, addr, data@),
            r is Err ==> final(self)@ == old(self)@,
            data@.len() == 0 ==> r == Err::<(), InsertError>(InsertError::EmptyInsert),
            data@.len() > 0 && addr + data@.len() > u64::MAX ==> r == Err::<(), InsertError>(
                InsertError::AddressOverflow,
            ),
            r matches Err(InsertError::Overlap { with_segment_index }) ==> {
                &&& with_segment_index < old(self)@.len()
                &&& seg_overlaps(old(self)@[with_segment_index as int], addr, addr + data@.len())
                &&& forall|m: int|
                    0 <= m < with_segment_index ==> !seg_overlaps(
                        #[trigger] old(self)@[m],
                        addr,
                        addr + data@.len(),
                    )
            },
            (data@.len() > 0 && addr + data@.len() <= u64::MAX && overlaps_some(
                old(self)@,
                addr,
                addr + data@.len(),
            )) ==> r matches Err(InsertError::Overlap { with_segment_index: _ }),
    {
        if data.len() == 0 {
            return Err(InsertError::EmptyInsert);
        }
        if (data.len() as u64) > u64::MAX - addr {
            return Err(InsertError::AddressOverflow);
        }
        let end = addr + (data.len() as u64);
        let ghost end_i: int = addr + data@.len();
        let n = self.ranges.len();
        let mut left: Option<usize> = None;
        let mut right: Option<usize> = None;
        let mut i: usize = 0;
        while i < n
            invariant
                self.wf(),
                self@ == old(self)@,
                i <= n,
                n == self.ranges@.len(),
                data@.len() > 0,
                end == addr + data@.len(),
                end_i == addr + data@.len(),
                forall|m: int| 0 <= m < i ==> !seg_overlaps(#[trigger] self@[m], addr, end_i),
                left matches Some(l) ==> l < i && seg_end(self@[l as int]) == addr,
                left is None ==> forall|m: int|
                    0 <= m < i ==> seg_end(#[trigger] self@[m]) != addr,
                right matches Some(t) ==> t < i && self@[t as int].0 == end_i,
                right is None ==> forall|m: int| 0 <= m < i ==> (#[trigger] self@[m]).0 != end_i,
            decreases n - i,
        {
            let seg_start = self.ranges[i].0;
            let seg_len = self.ranges[i].1.len();
            proof {
                assert(self@[i as int] == (self.ranges@[i as int].0, self.ranges@[i as int].1@));
                assert(seg_end(self@[i as int]) <= u64::MAX);
            }
            let seg_end_addr = seg_start + (seg_len as u64);
            if addr < seg_end_addr && seg_start < end {
                proof {
                    assert(seg_overlaps(self@[i as int], addr, end_i));
                }
                return Err(InsertError::Overlap { with_segment_index: i });
            }
            if seg_end_addr == addr {
                left = Some(i);
            }
            if seg_start == end {
                right = Some(i);
            }
            i = i + 1;
        }
        proof {
            assert(!overlaps_some(old(self)@, addr, end_i));
            assert(can_insert(old(self)@, addr, data@));
            lemma_insert_wf(old(self)@, addr, data@);
        }
        match (left, right) {
            (None, None) => {
                let bytes = vstd::slice::slice_to_vec(data);
                self.ranges.push((addr, bytes));
                proof {
                    assert(!has_left(old(self)@, addr));
                    assert(!has_right(old(self)@, end_i));
                    assert(self@ =~= inserted(old(self)@, addr, data@));
                }
            },
            (Some(l), None) => {
                let mut seg = self.ranges.remove(l);
                let mut mid = vstd::slice::slice_to_vec(data);
                seg.1.append(&mut mid);
                self.ranges.insert(l, seg);
                proof {
                    assert(!has_right(old(self)@, end_i));
                    lemma_left_index_is(old(self)@, addr, l as int);
                    assert(self@ =~= inserted(old(self)@, addr, data@));
                }
            },
            (None, Some(t)) => {
                let follower = self.ranges.remove(t);
                let mut bytes = vstd::slice::slice_to_vec(data);
                let (_f_start, mut fb) = follower;
                bytes.append(&mut fb);
                self.ranges.push((addr, bytes));
                proof {
                    assert(!has_left(old(self)@, addr));
                    lemma_right_index_is(old(self)@, end_i, t as int);
                    assert(self@ =~= inserted(old(self)@, addr, data@));
                }
            },
            (Some(l), Some(t)) => {
                proof {
                    // the left neighbour ends at addr; the right one starts
                    // past it, so the two are distinct segments
                    assert(seg_end(old(self)@[l as int]) == addr);
                    assert(old(self)@[t as int].0 == end_i);
                    assert(l != t);
                }
                let follower = self.ranges.remove(t);
                let l2 = if t < l {
                    l - 1
                } else {
                    l
                };
                let mut seg = self.ranges.remove(l2);
                let mut mid = vstd::slice::slice_to_vec(data);
                seg.1.append(&mut mid);
                let (_f_start, mut fb) = follower;
                seg.1.append(&mut fb);
                self.ranges.insert(l2, seg);
                proof {
                    lemma_left_index_is(old(self)@, addr, l as int);
                    lemma_right_index_is(old(self)@, end_i, t as int);
                    assert(self@ =~= inserted(old(self)@, addr, data@));
                }
            },
        }
        Ok(())
    }

    /// Decide whether the store's invariant holds: every segment non-empty
    /// with a representable end, and every pair of distinct segments
    /// separated. Always true for a store built through this interface; the
    /// check is exact, so tests may call it on any store they hold.
    pub fn ensure_well_formed(&self) -> (r: bool)
        ensures
            r == self.wf(),
    {
        let n = self.ranges.len();
        let mut i: usize = 0;
        while i < n
            invariant
                i <= n,
                n == self.ranges@.len(),
                forall|m: int| 0 <= m < i ==> (#[trigger] self@[m]).1.len() > 0,
                forall|m: int| 0 <= m < i ==> seg_end(#[trigger] self@[m]) <= u64::MAX,
                forall|m: int, k: int|
                    0 <= m < i && 0 <= k < i && m != k ==> seg_separated(
                        #[trigger] self@[m],
                        #[trigger] self@[k],
                    ),
            decreases n - i,
        {
            let i_start = self.ranges[i].0;
            let i_len = self.ranges[i].1.len();
            proof {
                assert(self@[i as int] == (self.ranges@[i as int].0, self.ranges@[i as int].1@));
            }
            if i_len == 0 {
                assert(!self.wf());
                return false;
            }
            if (i_len as u64) > u64::MAX - i_start {
                assert(seg_end(self@[i as int]) > u64::MAX);
                assert(!self.wf());
                return false;
            }
            let i_end = i_start + (i_len as u64);
            let mut j: usize = 0;
            while j < i
                invariant
                    j <= i < n,
                    n == self.ranges@.len(),
                    i_start == self@[i as int].0,
                    i_end == seg_end(self@[i as int]),
                    forall|k: int|
                        0 <= k < j ==> seg_separated(self@[i as int], #[trigger] self@[k]),
                    forall|m: int| 0 <= m < i ==> seg_end(#[trigger] self@[m]) <= u64::MAX,
                decreases i - j,
            {
                let j_start = self.ranges[j].0;
                let j_len = self.ranges[j].1.len();
                proof {
                    assert(self@[j as int] == (self.ranges@[j as int].0, self.ranges@[j as int].1@));
                }
                let j_end = j_start + (j_len as u64);
                if !(i_end < j_start || j_end < i_start) {
                    assert(!seg_separated(self@[i as int], self@[j as int]));
                    assert(!self.wf());
                    return false;
                }
                j = j + 1;
            }
            i = i + 1;
        }
        proof {
            assert forall|m: int, k: int|
                0 <= m < n && 0 <= k < n && m != k implies seg_separated(
                #[trigger] self@[m],
                #[trigger] self@[k],
            ) by {
                if m < k {
                    assert(seg_separated(self@[k], self@[m]));
                } else {
                    assert(seg_separated(self@[m], self@[k]));
                }
            }
        }
        true
    }
}

impl Default for SparseMem {
    /// An empty store.
    fn default() -> (s: SparseMem)
        ensures
            s.wf(),
            s@ == Seq::<(u64, Seq<u8>)>::empty(),
    {
        let s = SparseMem { ranges: Vec::new() };
        proof {
            assert(s@ =~= Seq::<(u64, Seq<u8>)>::empty());
        }
        s
    }
}

/// In a well-formed collection at most one segment ends at a given address:
/// two non-empty, non-intersecting segments cannot share an end.
pub proof fn lemma_left_unique(segs: Seq<(u64, Seq<u8>)>, addr: u64, i: int, j: int)
    requires
        wf_segs(segs),
        0 <= i < segs.len(),
        0 <= j < segs.len(),
        seg_end(segs[i]) == addr,
        seg_end(segs[j]) == addr,
    ensures
        i == j,
{
    if i != j {
        assert(seg_separated(segs[i], segs[j]));
        assert(segs[i].1.len() > 0);
        assert(segs[j].1.len() > 0);
    }
}

/// In a well-formed collection at most one segment starts at a given
/// address.
pub proof fn lemma_right_unique(segs: Seq<(u64, Seq<u8>)>, start: int, i: int, j: int)
    requires
        wf_segs(segs),
        0 <= i < segs.len(),
        0 <= j < segs.len(),
        segs[i].0 == start,
        segs[j].0 == start,
    ensures
        i == j,
{
    if i != j {
        assert(seg_separated(segs[i], segs[j]));
        assert(segs[i].1.len() > 0);
        assert(segs[j].1.len() > 0);
    }
}

/// In a well-formed collection at most one segment covers a given address.
pub proof fn lemma_covering_unique(segs: Seq<(u64, Seq<u8>)>, p: int, i: int, j: int)
    requires
        wf_segs(segs),
        0 <= i < segs.len(),
        0 <= j < segs.len(),
        segs[i].0 <= p < seg_end(segs[i]),
        segs[j].0 <= p < seg_end(segs[j]),
    ensures
        i == j,
{
    if i != j {
        assert(seg_separated(segs[i], segs[j]));
    }
}

/// Exhibiting a segment that covers `p` resolves `byte_at` to that
/// segment's bytes.
pub proof fn lemma_byte_at_witness(segs: Seq<(u64, Seq<u8>)>, p: int, i: int)
    requires
        wf_segs(segs),
        0 <= i < segs.len(),
        segs[i].0 <= p < seg_end(segs[i]),
    ensures
        covers(segs, p),
        byte_at(segs, p) == segs[i].1[p - segs[i].0],
{
    assert(covers(segs, p));
    lemma_covering_unique(segs, p, i, covering_index(segs, p));
}

/// Exhibiting the segment ending at `addr` resolves `left_index`.
pub proof fn lemma_left_index_is(segs: Seq<(u64, Seq<u8>)>, addr: u64, i: int)
    requires
        wf_segs(segs),
        0 <= i < segs.len(),
        seg_end(segs[i]) == addr,
    ensures
        has_left(segs, addr),
        left_index(segs, addr) == i,
{
    assert(has_left(segs, addr));
    lemma_left_unique(segs, addr, i, left_index(segs, addr));
}

/// Exhibiting the segment starting at `end` resolves `right_index`.
pub proof fn lemma_right_index_is(segs: Seq<(u64, Seq<u8>)>, end: int, i: int)
    requires
        wf_segs(segs),
        0 <= i < segs.len(),
        segs[i].0 == end,
    ensures
        has_right(segs, end),
        right_index(segs, end) == i,
{
    assert(has_right(segs, end));
    lemma_right_unique(segs, end, i, right_index(segs, end));
}

/// A successful insert preserves the store invariant: the resulting
/// segments are again non-empty, representable, and pairwise separated.
pub proof fn lemma_insert_wf(segs: Seq<(u64, Seq<u8>)>, addr: u64, data: Seq<u8>)
    requires
        wf_segs(segs),
        can_insert(segs, addr, data),
    ensures
        wf_segs(inserted(segs, addr, data)),
{
    let end = addr + data.len();
    let n = segs.len() as int;
    let res = inserted(segs, addr, data);
    // a segment that is neither the left nor the right neighbour lies
    // strictly apart from the inserted range
    assert forall|k: int|
        0 <= k < n && seg_end(#[trigger] segs[k]) != addr && segs[k].0 != end implies seg_end(
        segs[k],
    ) < addr || end < segs[k].0 by {
        assert(!seg_overlaps(segs[k], addr, end));
        assert(segs[k].1.len() > 0);
    }
    if has_left(segs, addr) {
        let l = left_index(segs, addr);
        assert(0 <= l < n && seg_end(segs[l]) == addr);
        if has_right(segs, end) {
            let r = right_index(segs, end);
            assert(0 <= r < n && segs[r].0 == end);
            assert(l != r);  // else segs[l].0 == end > addr == seg_end(segs[l])
            let merged = (segs[l].0, segs[l].1 + data + segs[r].1);
            assert(seg_end(merged) == seg_end(segs[r]));
            let upd = segs.update(l, merged);
            assert(res == upd.remove(r));
            // the merged segment is strictly apart from every other segment
            assert forall|k: int|
                0 <= k < n && k != l && k != r implies seg_end(#[trigger] segs[k]) < segs[l].0
                || seg_end(segs[r]) < segs[k].0 by {
                if seg_end(segs[k]) == addr {
                    lemma_left_unique(segs, addr, k, l);
                }
                if segs[k].0 == end {
                    lemma_right_unique(segs, end, k, r);
                }
                assert(seg_separated(segs[k], segs[l]));
                assert(seg_separated(segs[k], segs[r]));
                assert(segs[k].1.len() > 0);
            }
            assert forall|i: int, j: int|
                0 <= i < res.len() && 0 <= j < res.len() && i != j implies seg_separated(
                #[trigger] res[i],
                #[trigger] res[j],
            ) by {
                let i0 = if i < r { i } else { i + 1 };
                let j0 = if j < r { j } else { j + 1 };
                assert(res[i] == upd[i0] && res[j] == upd[j0]);
                assert(upd[i0] == if i0 == l { merged } else { segs[i0] });
                assert(upd[j0] == if j0 == l { merged } else { segs[j0] });
            }
            assert forall|i: int| 0 <= i < res.len() implies (#[trigger] res[i]).1.len() > 0
                && seg_end(res[i]) <= u64::MAX by {
                let i0 = if i < r { i } else { i + 1 };
                assert(res[i] == upd[i0]);
                assert(upd[i0] == if i0 == l { merged } else { segs[i0] });
                assert(segs[i0].1.len() > 0 && seg_end(segs[i0]) <= u64::MAX);
            }
        } else {
            let merged = (segs[l].0, segs[l].1 + data);
            assert(seg_end(merged) == end);
            assert(res == segs.update(l, merged));
            assert forall|k: int|
                0 <= k < n && k != l implies seg_end(#[trigger] segs[k]) < segs[l].0 || end
                < segs[k].0 by {
                if seg_end(segs[k]) == addr {
                    lemma_left_unique(segs, addr, k, l);
                }
                assert(segs[k].0 != end);  // no right neighbour exists
                assert(seg_separated(segs[k], segs[l]));
                assert(segs[k].1.len() > 0);
            }
            assert forall|i: int, j: int|
                0 <= i < res.len() && 0 <= j < res.len() && i != j implies seg_separated(
                #[trigger] res[i],
                #[trigger] res[j],
            ) by {
                assert(res[i] == if i == l { merged } else { segs[i] });
                assert(res[j] == if j == l { merged } else { segs[j] });
            }
            assert forall|i: int| 0 <= i < res.len() implies (#[trigger] res[i]).1.len() > 0
                && seg_end(res[i]) <= u64::MAX by {
                assert(res[i] == if i == l { merged } else { segs[i] });
            }
        }
    } else if has_right(segs, end) {
        let r = right_index(segs, end);
        assert(0 <= r < n && segs[r].0 == end);
        let merged = (addr, data + segs[r].1);
        assert(seg_end(merged) == seg_end(segs[r]));
        let rem = segs.remove(r);
        assert(res == rem.push(merged));
        assert forall|k: int|
            0 <= k < n && k != r implies seg_end(#[trigger] segs[k]) < addr || seg_end(segs[r])
            < segs[k].0 by {
            assert(seg_end(segs[k]) != addr);  // no left neighbour exists
            if segs[k].0 == end {
                lemma_right_unique(segs, end, k, r);
            }
            assert(seg_separated(segs[k], segs[r]));
            assert(segs[k].1.len() > 0);
        }
        assert forall|i: int, j: int|
            0 <= i < res.len() && 0 <= j < res.len() && i != j implies seg_separated(
            #[trigger] res[i],
            #[trigger] res[j],
        ) by {
            let i0 = if i < r { i } else { i + 1 };
            let j0 = if j < r { j } else { j + 1 };
            if i < res.len() - 1 {
                assert(res[i] == segs[i0]);
            } else {
                assert(res[i] == merged);
            }
            if j < res.len() - 1 {
                assert(res[j] == segs[j0]);
            } else {
                assert(res[j] == merged);
            }
        }
        assert forall|i: int| 0 <= i < res.len() implies (#[trigger] res[i]).1.len() > 0
            && seg_end(res[i]) <= u64::MAX by {
            let i0 = if i < r { i } else { i + 1 };
            if i < res.len() - 1 {
                assert(res[i] == segs[i0]);
                assert(segs[i0].1.len() > 0 && seg_end(segs[i0]) <= u64::MAX);
            } else {
                assert(res[i] == merged);
            }
        }
    } else {
        let fresh = (addr, data);
        assert(res == segs.push(fresh));
        assert forall|k: int|
            0 <= k < n implies seg_end(#[trigger] segs[k]) < addr || end < segs[k].0 by {
            assert(seg_end(segs[k]) != addr && segs[k].0 != end);
        }
        assert forall|i: int, j: int|
            0 <= i < res.len() && 0 <= j < res.len() && i != j implies seg_separated(
            #[trigger] res[i],
            #[trigger] res[j],
        ) by {
            if i < n {
                assert(res[i] == segs[i]);
            } else {
                assert(res[i] == fresh);
            }
            if j < n {
                assert(res[j] == segs[j]);
            } else {
                assert(res[j] == fresh);
            }
        }
        assert forall|i: int| 0 <= i < res.len() implies (#[trigger] res[i]).1.len() > 0
            && seg_end(res[i]) <= u64::MAX by {
            if i < n {
                assert(res[i] == segs[i]);
            } else {
                assert(res[i] == fresh);
            }
        }
    }
}

/// What a well-formed store holds, stated byte by byte: distinct segments
/// never intersect, never touch, and are never empty.
pub proof fn lemma_wf_separated(segs: Seq<(u64, Seq<u8>)>, i: int, j: int)
    requires
        wf_segs(segs),
        0 <= i < segs.len(),
        0 <= j < segs.len(),
        i != j,
    ensures
        !(segs[i].0 < seg_end(segs[j]) && segs[j].0 < seg_end(segs[i])),
        seg_end(segs[i]) != segs[j].0,
        seg_end(segs[j]) != segs[i].0,
        segs[i].1.len() > 0,
{
    assert(seg_separated(segs[i], segs[j]));
}

/// Content of a successful insert, address by address: every address of
/// the inserted range now holds the corresponding inserted byte, every
/// previously covered address keeps the byte it had, and no further
/// address became covered.
pub proof fn lemma_insert_content(segs: Seq<(u64, Seq<u8>)>, addr: u64, data: Seq<u8>)
    requires
        wf_segs(segs),
        can_insert(segs, addr, data),
    ensures
        forall|p: int|
            addr <= p < addr + data.len() ==> covers(inserted(segs, addr, data), p) && byte_at(
                inserted(segs, addr, data),
                p,
            ) == data[p - addr],
        forall|p: int|
            covers(segs, p) ==> covers(inserted(segs, addr, data), p) && byte_at(
                inserted(segs, addr, data),
                p,
            ) == byte_at(segs, p),
        forall|p: int|
            covers(inserted(segs, addr, data), p) ==> covers(segs, p) || (addr <= p < addr
                + data.len()),
{
    let end = addr + data.len();
    let res = inserted(segs, addr, data);
    let n = segs.len() as int;
    lemma_insert_wf(segs, addr, data);
    if has_left(segs, addr) {
        let l = left_index(segs, addr);
        assert(0 <= l < n && seg_end(segs[l]) == addr);
        if has_right(segs, end) {
            let r = right_index(segs, end);
            assert(0 <= r < n && segs[r].0 == end);
            assert(l != r);
            let merged = (segs[l].0, segs[l].1 + data + segs[r].1);
            let upd = segs.update(l, merged);
            assert(res == upd.remove(r));
            let lr = if l < r {
                l
            } else {
                l - 1
            };
            assert(res[lr] == merged);
            assert forall|p: int| addr <= p < end implies covers(res, p) && byte_at(res, p)
                == data[p - addr] by {
                lemma_byte_at_witness(res, p, lr);
                assert(merged.1[p - merged.0] == data[p - addr]);
            }
            assert forall|p: int| covers(segs, p) implies covers(res, p) && byte_at(res, p)
                == byte_at(segs, p) by {
                let k = covering_index(segs, p);
                assert(0 <= k < n && segs[k].0 <= p < seg_end(segs[k]));
                if k == l {
                    lemma_byte_at_witness(res, p, lr);
                    assert(merged.1[p - merged.0] == segs[l].1[p - segs[l].0]);
                } else if k == r {
                    lemma_byte_at_witness(res, p, lr);
                    assert(merged.1[p - merged.0] == segs[r].1[p - segs[r].0]);
                } else {
                    let kr = if k < r {
                        k
                    } else {
                        k - 1
                    };
                    assert(res[kr] == segs[k]);
                    lemma_byte_at_witness(res, p, kr);
                }
            }
            assert forall|p: int| covers(res, p) implies covers(segs, p) || (addr <= p
                < end) by {
                let j = covering_index(res, p);
                assert(0 <= j < res.len() && res[j].0 <= p < seg_end(res[j]));
                let j0 = if j < r {
                    j
                } else {
                    j + 1
                };
                assert(res[j] == upd[j0]);
                if j0 == l {
                    if p < addr {
                        assert(segs[l].0 <= p < seg_end(segs[l]));
                        assert(covers(segs, p));
                    } else if p >= end {
                        assert(segs[r].0 <= p < seg_end(segs[r]));
                        assert(covers(segs, p));
                    }
                } else {
                    assert(res[j] == segs[j0]);
                    assert(covers(segs, p));
                }
            }
        } else {
            let merged = (segs[l].0, segs[l].1 + data);
            assert(res == segs.update(l, merged));
            assert(res[l] == merged);
            assert forall|p: int| addr <= p < end implies covers(res, p) && byte_at(res, p)
                == data[p - addr] by {
                lemma_byte_at_witness(res, p, l);
                assert(merged.1[p - merged.0] == data[p - addr]);
            }
            assert forall|p: int| covers(segs, p) implies covers(res, p) && byte_at(res, p)
                == byte_at(segs, p) by {
                let k = covering_index(segs, p);
                assert(0 <= k < n && segs[k].0 <= p < seg_end(segs[k]));
                if k == l {
                    lemma_byte_at_witness(res, p, l);
                    assert(merged.1[p - merged.0] == segs[l].1[p - segs[l].0]);
                } else {
                    assert(res[k] == segs[k]);
                    lemma_byte_at_witness(res, p, k);
                }
            }
            assert forall|p: int| covers(res, p) implies covers(segs, p) || (addr <= p
                < end) by {
                let j = covering_index(res, p);
                assert(0 <= j < res.len() && res[j].0 <= p < seg_end(res[j]));
                if j == l {
                    if p < addr {
                        assert(segs[l].0 <= p < seg_end(segs[l]));
                        assert(covers(segs, p));
                    }
                } else {
                    assert(res[j] == segs[j]);
                    assert(covers(segs, p));
                }
            }
        }
    } else if has_right(segs, end) {
        let r = right_index(segs, end);
        assert(0 <= r < n && segs[r].0 == end);
        let merged = (addr, data + segs[r].1);
        let rem = segs.remove(r);
        assert(res == rem.push(merged));
        assert(res[n - 1] == merged);
        assert forall|p: int| addr <= p < end implies covers(res, p) && byte_at(res, p) == data[p
            - addr] by {
            lemma_byte_at_witness(res, p, n - 1);
            assert(merged.1[p - merged.0] == data[p - addr]);
        }
        assert forall|p: int| covers(segs, p) implies covers(res, p) && byte_at(res, p) == byte_at(
            segs,
            p,
        ) by {
            let k = covering_index(segs, p);
            assert(0 <= k < n && segs[k].0 <= p < seg_end(segs[k]));
            if k == r {
                lemma_byte_at_witness(res, p, n - 1);
                assert(merged.1[p - merged.0] == segs[r].1[p - segs[r].0]);
            } else {
                let kr = if k < r {
                    k
                } else {
                    k - 1
                };
                assert(res[kr] == segs[k]);
                lemma_byte_at_witness(res, p, kr);
            }
        }
        assert forall|p: int| covers(res, p) implies covers(segs, p) || (addr <= p < end) by {
            let j = covering_index(res, p);
            assert(0 <= j < res.len() && res[j].0 <= p < seg_end(res[j]));
            if j == n - 1 {
                if p >= end {
                    assert(segs[r].0 <= p < seg_end(segs[r]));
                    assert(covers(segs, p));
                }
            } else {
                let j0 = if j < r {
                    j
                } else {
                    j + 1
                };
                assert(res[j] == segs[j0]);
                assert(covers(segs, p));
            }
        }
    } else {
        let fresh = (addr, data);
        assert(res == segs.push(fresh));
        assert(res[n] == fresh);
        assert forall|p: int| addr <= p < end implies covers(res, p) && byte_at(res, p) == data[p
            - addr] by {
            lemma_byte_at_witness(res, p, n);
        }
        assert forall|p: int| covers(segs, p) implies covers(res, p) && byte_at(res, p) == byte_at(
            segs,
            p,
        ) by {
            let k = covering_index(segs, p);
            assert(0 <= k < n && segs[k].0 <= p < seg_end(segs[k]));
            assert(res[k] == segs[k]);
            lemma_byte_at_witness(res, p, k);
        }
        assert forall|p: int| covers(res, p) implies covers(segs, p) || (addr <= p < end) by {
            let j = covering_index(res, p);
            assert(0 <= j < res.len() && res[j].0 <= p < seg_end(res[j]));
            if j < n {
                assert(res[j] == segs[j]);
                assert(covers(segs, p));
            }
        }
    }
}

/// A covered address is retrievable: some segment fully contains the
/// one-byte range at `p`, so a `get` of that range succeeds and returns
/// `byte_at`.
pub proof fn lemma_covered_is_gettable(segs: Seq<(u64, Seq<u8>)>, p: u64)
    requires
        wf_segs(segs),
        covers(segs, p as int),
    ensures
        p < u64::MAX,
        exists|i: int|
            0 <= i < segs.len() && seg_contains_range(#[trigger] segs[i], p, (p + 1) as u64),
{
    let i = covering_index(segs, p as int);
    assert(0 <= i < segs.len() && segs[i].0 <= p < seg_end(segs[i]));
    assert(seg_end(segs[i]) <= u64::MAX);
    assert(seg_contains_range(segs[i], p, (p + 1) as u64));
}

/// The segment collection after performing the inserts of `ops` from left
/// to right, or `None` as soon as one of them would be rejected.
pub open spec fn insert_all(segs: Seq<(u64, Seq<u8>)>, ops: Seq<(u64, Seq<u8>)>) -> Option<
    Seq<(u64, Seq<u8>)>,
>
    decreases ops.len(),
{
    if ops.len() == 0 {
        Some(segs)
    } else if can_insert(segs, ops[0].0, ops[0].1) {
        insert_all(inserted(segs, ops[0].0, ops[0].1), ops.subrange(1, ops.len() as int))
    } else {
        None
    }
}

/// After any sequence of successful inserts into a well-formed store the
/// invariant still holds: all segments are non-empty and pairwise neither
/// intersect nor touch.
pub proof fn lemma_insert_all_wf(
    segs: Seq<(u64, Seq<u8>)>,
    ops: Seq<(u64, Seq<u8>)>,
    out: Seq<(u64, Seq<u8>)>,
)
    requires
        wf_segs(segs),
        insert_all(segs, ops) == Some(out),
    ensures
        wf_segs(out),
    decreases ops.len(),
{
    if ops.len() > 0 {
        assert(can_insert(segs, ops[0].0, ops[0].1));
        lemma_insert_wf(segs, ops[0].0, ops[0].1);
        lemma_insert_all_wf(
            inserted(segs, ops[0].0, ops[0].1),
            ops.subrange(1, ops.len() as int),
            out,
        );
    }
}

/// A sequence of successful inserts never disturbs a byte that was
/// already stored: every covered address stays covered and keeps its
/// byte.
pub proof fn lemma_insert_all_content(
    segs: Seq<(u64, Seq<u8>)>,
    ops: Seq<(u64, Seq<u8>)>,
    out: Seq<(u64, Seq<u8>)>,
)
    requires
        wf_segs(segs),
        insert_all(segs, ops) == Some(out),
    ensures
        forall|p: int|
            covers(segs, p) ==> covers(out, p) && byte_at(out, p) == byte_at(segs, p),
    decreases ops.len(),
{
    if ops.len() > 0 {
        assert(can_insert(segs, ops[0].0, ops[0].1));
        let next = inserted(segs, ops[0].0, ops[0].1);
        lemma_insert_content(segs, ops[0].0, ops[0].1);
        lemma_insert_wf(segs, ops[0].0, ops[0].1);
        lemma_insert_all_content(next, ops.subrange(1, ops.len() as int), out);
    }
}

/// Inserting into an empty store creates a single fresh segment.
proof fn lemma_insert_into_empty(addr: u64, data: Seq<u8>)
    requires
        data.len() > 0,
        addr + data.len() <= u64::MAX,
    ensures
        can_insert(Seq::<(u64, Seq<u8>)>::empty(), addr, data),
        inserted(Seq::<(u64, Seq<u8>)>::empty(), addr, data) =~= seq![(addr, data)],
{
    let segs = Seq::<(u64, Seq<u8>)>::empty();
    assert(!has_left(segs, addr));
    assert(!has_right(segs, addr + data.len()));
}

/// Inserting directly after a store's single segment extends it in place.
proof fn lemma_insert_after(s: (u64, Seq<u8>), addr: u64, data: Seq<u8>)
    requires
        s.1.len() > 0,
        data.len() > 0,
        seg_end(s) == addr,
        addr + data.len() <= u64::MAX,
    ensures
        can_insert(seq![s], addr, data),
        inserted(seq![s], addr, data) =~= seq![(s.0, s.1 + data)],
{
    let segs = seq![s];
    let end = addr + data.len();
    assert(!seg_overlaps(segs[0], addr, end));
    assert(has_left(segs, addr));
    assert(left_index(segs, addr) == 0);
    assert(!has_right(segs, end));
    assert(inserted(segs, addr, data) == segs.update(0, (s.0, s.1 + data)));
}

/// Inserting directly before a store's single segment absorbs it into a
/// fresh segment holding both byte runs.
proof fn lemma_insert_before(s: (u64, Seq<u8>), addr: u64, data: Seq<u8>)
    requires
        s.1.len() > 0,
        data.len() > 0,
        addr + data.len() == s.0,
        seg_end(s) <= u64::MAX,
    ensures
        can_insert(seq![s], addr, data),
        inserted(seq![s], addr, data) =~= seq![(addr, data + s.1)],
{
    let segs = seq![s];
    let end = addr + data.len();
    assert(!seg_overlaps(segs[0], addr, end));
    assert(!has_left(segs, addr));
    assert(has_right(segs, end));
    assert(right_index(segs, end) == 0);
    assert(inserted(segs, addr, data) == segs.remove(0).push((addr, data + s.1)));
}

/// Inserting a range separated from a store's single segment adds a fresh
/// segment at the end.
proof fn lemma_insert_separate(s: (u64, Seq<u8>), addr: u64, data: Seq<u8>)
    requires
        s.1.len() > 0,
        data.len() > 0,
        addr + data.len() <= u64::MAX,
        seg_end(s) < addr || addr + data.len() < s.0,
    ensures
        can_insert(seq![s], addr, data),
        inserted(seq![s], addr, data) =~= seq![s, (addr, data)],
{
    let segs = seq![s];
    let end = addr + data.len();
    assert(!seg_overlaps(segs[0], addr, end));
    assert(!has_left(segs, addr));
    assert(!has_right(segs, end));
}

/// Inserting the bytes that exactly fill the gap between a store's two
/// segments merges all three ranges into one segment.
proof fn lemma_insert_bridge(segs: Seq<(u64, Seq<u8>)>, addr: u64, data: Seq<u8>, l: int, r: int)
    requires
        segs.len() == 2,
        0 <= l < 2,
        0 <= r < 2,
        l != r,
        segs[l].1.len() > 0,
        segs[r].1.len() > 0,
        data.len() > 0,
        seg_end(segs[l]) == addr,
        addr + data.len() == segs[r].0,
        seg_end(segs[r]) <= u64::MAX,
    ensures
        can_insert(segs, addr, data),
        inserted(segs, addr, data) =~= seq![(segs[l].0, segs[l].1 + data + segs[r].1)],
{
    let end = addr + data.len();
    assert(!seg_overlaps(segs[l], addr, end));
    assert(!seg_overlaps(segs[r], addr, end));
    assert(!overlaps_some(segs, addr, end)) by {
        assert forall|i: int| 0 <= i < 2 implies !seg_overlaps(#[trigger] segs[i], addr, end) by {
            if i == l {
            } else {
                assert(i == r);
            }
        }
    }
    assert(has_left(segs, addr));
    assert(seg_end(segs[r]) != addr);
    assert(left_index(segs, addr) == l);
    assert(has_right(segs, end));
    assert(segs[l].0 != end);
    assert(right_index(segs, end) == r);
    assert(inserted(segs, addr, data) == segs.update(
        l,
        (segs[l].0, segs[l].1 + data + segs[r].1),
    ).remove(r));
}

/// Coalescing is independent of arrival order: three byte runs that tile a
/// contiguous block, none of them empty, may be inserted into an empty
/// store in any order; every order succeeds and yields the single merged
/// segment.
pub proof fn lemma_coalescing_order_independent(
    base: u64,
    a: Seq<u8>,
    b: Seq<u8>,
    c: Seq<u8>,
    ops: Seq<(u64, Seq<u8>)>,
    ia: int,
    ib: int,
    ic: int,
)
    requires
        a.len() > 0,
        b.len() > 0,
        c.len() > 0,
        base + a.len() + b.len() + c.len() <= u64::MAX,
        ops.len() == 3,
        0 <= ia < 3,
        0 <= ib < 3,
        0 <= ic < 3,
        ia != ib,
        ia != ic,
        ib != ic,
        ops[ia] == (base, a),
        ops[ib] == (((base + a.len()) as u64), b),
        ops[ic] == (((base + a.len() + b.len()) as u64), c),
    ensures
        insert_all(Seq::<(u64, Seq<u8>)>::empty(), ops) == Some(seq![(base, a + b + c)]),
{
    let empty = Seq::<(u64, Seq<u8>)>::empty();
    let pb: u64 = (base + a.len()) as u64;
    let pc: u64 = (base + a.len() + b.len()) as u64;
    let opa = (base, a);
    let opb = (pb, b);
    let opc = (pc, c);
    let ops1 = ops.subrange(1, 3);
    let ops2 = ops1.subrange(1, 2);
    let ops3 = ops2.subrange(1, 1);
    assert(ops1[0] == ops[1] && ops1[1] == ops[2] && ops1.len() == 2);
    assert(ops2[0] == ops[2] && ops2.len() == 1);
    assert(ops3.len() == 0);
    let goal = seq![(base, a + b + c)];
    if ia == 0 && ib == 1 && ic == 2 {
        lemma_insert_into_empty(base, a);
        let s1 = inserted(empty, base, a);
        assert(s1 == seq![opa]);
        lemma_insert_after(opa, pb, b);
        let s2 = inserted(s1, pb, b);
        assert(s2 == seq![(base, a + b)]);
        lemma_insert_after((base, a + b), pc, c);
        let s3 = inserted(s2, pc, c);
        assert(s3 == seq![(base, a + b + c)]);
        assert(insert_all(empty, ops) == insert_all(s1, ops1));
        assert(insert_all(s1, ops1) == insert_all(s2, ops2));
        assert(insert_all(s2, ops2) == insert_all(s3, ops3));
        assert(insert_all(s3, ops3) == Some(s3));
    } else if ia == 0 && ib == 2 && ic == 1 {
        lemma_insert_into_empty(base, a);
        let s1 = inserted(empty, base, a);
        assert(s1 == seq![opa]);
        lemma_insert_separate(opa, pc, c);
        let s2 = inserted(s1, pc, c);
        assert(s2 == seq![opa, opc]);
        lemma_insert_bridge(s2, pb, b, 0, 1);
        let s3 = inserted(s2, pb, b);
        assert(s3 == seq![(base, a + b + c)]);
        assert(insert_all(empty, ops) == insert_all(s1, ops1));
        assert(insert_all(s1, ops1) == insert_all(s2, ops2));
        assert(insert_all(s2, ops2) == insert_all(s3, ops3));
        assert(insert_all(s3, ops3) == Some(s3));
    } else if ia == 1 && ib == 0 && ic == 2 {
        lemma_insert_into_empty(pb, b);
        let s1 = inserted(empty, pb, b);
        assert(s1 == seq![opb]);
        lemma_insert_before(opb, base, a);
        let s2 = inserted(s1, base, a);
        assert(s2 == seq![(base, a + b)]);
        lemma_insert_after((base, a + b), pc, c);
        let s3 = inserted(s2, pc, c);
        assert(s3 == seq![(base, a + b + c)]);
        assert(insert_all(empty, ops) == insert_all(s1, ops1));
        assert(insert_all(s1, ops1) == insert_all(s2, ops2));
        assert(insert_all(s2, ops2) == insert_all(s3, ops3));
        assert(insert_all(s3, ops3) == Some(s3));
    } else if ia == 2 && ib == 0 && ic == 1 {
        lemma_insert_into_empty(pb, b);
        let s1 = inserted(empty, pb, b);
        assert(s1 == seq![opb]);
        lemma_insert_after(opb, pc, c);
        let s2 = inserted(s1, pc, c);
        assert(s2 == seq![(pb, b + c)]);
        lemma_insert_before((pb, b + c), base, a);
        let s3 = inserted(s2, base, a);
        assert(a + (b + c) =~= a + b + c);
        assert(s3 == seq![(base, a + b + c)]);
        assert(insert_all(empty, ops) == insert_all(s1, ops1));
        assert(insert_all(s1, ops1) == insert_all(s2, ops2));
        assert(insert_all(s2, ops2) == insert_all(s3, ops3));
        assert(insert_all(s3, ops3) == Some(s3));
    } else if ia == 1 && ib == 2 && ic == 0 {
        lemma_insert_into_empty(pc, c);
        let s1 = inserted(empty, pc, c);
        assert(s1 == seq![opc]);
        lemma_insert_separate(opc, base, a);
        let s2 = inserted(s1, base, a);
        assert(s2 == seq![opc, opa]);
        lemma_insert_bridge(s2, pb, b, 1, 0);
        let s3 = inserted(s2, pb, b);
        assert(s3 == seq![(base, a + b + c)]);
        assert(insert_all(empty, ops) == insert_all(s1, ops1));
        assert(insert_all(s1, ops1) == insert_all(s2, ops2));
        assert(insert_all(s2, ops2) == insert_all(s3, ops3));
        assert(insert_all(s3, ops3) == Some(s3));
    } else {
        assert(ia == 2 && ib == 1 && ic == 0);
        lemma_insert_into_empty(pc, c);
        let s1 = inserted(empty, pc, c);
        assert(s1 == seq![opc]);
        lemma_insert_before(opc, pb, b);
        let s2 = inserted(s1, pb, b);
        assert(s2 == seq![(pb, b + c)]);
        lemma_insert_before((pb, b + c), base, a);
        let s3 = inserted(s2, base, a);
        assert(a + (b + c) =~= a + b + c);
        assert(s3 == seq![(base, a + b + c)]);
        assert(insert_all(empty, ops) == insert_all(s1, ops1));
        assert(insert_all(s1, ops1) == insert_all(s2, ops2));
        assert(insert_all(s2, ops2) == insert_all(s3, ops3));
        assert(insert_all(s3, ops3) == Some(s3));
    }
}

/// Does range `a` fully contain range `b`?
pub fn contains_range(a: &core::ops::Range<u64>, b: &core::ops::Range<u64>) -> (r: bool)
    ensures
        r == (a.start <= b.start && b.end <= a.end),
{
    if a.start > b.start {
        return false;
    }
    a.end >= b.end
}

} // verus!
