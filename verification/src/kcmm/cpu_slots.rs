use core::ops::Range;
use vstd::prelude::*;

verus! {

/// Number of bytes in a range.
pub open spec fn range_len(r: Range<usize>) -> int {
    r.end - r.start
}

/// No range ends before it starts.
pub open spec fn ranges_ordered(ranges: Seq<Range<usize>>) -> bool {
    forall|i: int| 0 <= i < ranges.len() ==> (#[trigger] ranges[i]).start <= ranges[i].end
}

/// Ranges are non-empty, sorted, and separated from one another by at least
/// one byte: adjacent ranges have been merged.
pub open spec fn ranges_separated(ranges: Seq<Range<usize>>) -> bool {
    &&& forall|i: int| 0 <= i < ranges.len() ==> (#[trigger] ranges[i]).start < ranges[i].end
    &&& forall|i: int, j: int|
        0 <= i < j < ranges.len() ==> (#[trigger] ranges[i]).end < (#[trigger] ranges[j]).start
}

/// Whether byte `b` lies in one of the ranges.
pub open spec fn covered(ranges: Seq<Range<usize>>, b: int) -> bool {
    exists|i: int| 0 <= i < ranges.len() && (#[trigger] ranges[i]).start <= b < ranges[i].end
}

/// Whether range `i` can serve a request of `size` bytes.
pub open spec fn fits(ranges: Seq<Range<usize>>, size: usize, i: int) -> bool {
    0 <= i < ranges.len() && size <= range_len(ranges[i])
}

/// Range `i` is the first among the smallest that can serve the request.
pub open spec fn is_best_fit(ranges: Seq<Range<usize>>, size: usize, i: int) -> bool {
    &&& fits(ranges, size, i)
    &&& forall|j: int| #[trigger]
        fits(ranges, size, j) ==> range_len(ranges[i]) <= range_len(ranges[j]) && (j < i
            ==> range_len(ranges[i]) < range_len(ranges[j]))
}

/// Whether a request of `size` bytes can be served at all.
pub open spec fn can_allocate(ranges: Seq<Range<usize>>, size: usize) -> bool {
    size > 0 && exists|i: int| fits(ranges, size, i)
}

/// The range that serves a request of `size` bytes.
pub open spec fn best_fit(ranges: Seq<Range<usize>>, size: usize) -> int {
    choose|i: int| is_best_fit(ranges, size, i)
}

/// The free ranges after the first `size` bytes of range `i` were taken.
pub open spec fn carved(ranges: Seq<Range<usize>>, size: usize, i: int) -> Seq<Range<usize>> {
    if range_len(ranges[i]) == size {
        ranges.remove(i)
    } else {
        ranges.update(i, Range { start: (ranges[i].start + size) as usize, end: ranges[i].end })
    }
}

/// The offset and the free ranges that an allocation of `size` bytes yields.
pub open spec fn allocated(ranges: Seq<Range<usize>>, size: usize) -> (
    Option<usize>,
    Seq<Range<usize>>,
) {
    if can_allocate(ranges, size) {
        let i = best_fit(ranges, size);
        (Some(ranges[i].start), carved(ranges, size, i))
    } else {
        (None, ranges)
    }
}

/// The first position at or behind `from` whose range starts above `offset`.
pub open spec fn first_above(ranges: Seq<Range<usize>>, offset: usize, from: int) -> int
    decreases ranges.len() - from,
{
    if from < 0 || from >= ranges.len() {
        ranges.len() as int
    } else if ranges[from].start > offset {
        from
    } else {
        first_above(ranges, offset, from + 1)
    }
}

/// The free ranges after bytes `offset..offset + size` were given back: the
/// new range joins the one that ends at its start and the one that starts at
/// its end, where there are such neighbours.
pub open spec fn freed(ranges: Seq<Range<usize>>, offset: usize, size: usize) -> Seq<
    Range<usize>,
> {
    let end = (offset + size) as usize;
    let p = first_above(ranges, offset, 0);
    let joins_prev = p > 0 && ranges[p - 1].end == offset;
    let joins_next = p < ranges.len() && ranges[p].start == end;
    if size == 0 {
        ranges
    } else if joins_prev && joins_next {
        ranges.update(p - 1, Range { start: ranges[p - 1].start, end: ranges[p].end }).remove(p)
    } else if joins_prev {
        ranges.update(p - 1, Range { start: ranges[p - 1].start, end })
    } else if joins_next {
        ranges.update(p, Range { start: offset, end: ranges[p].end })
    } else {
        ranges.insert(p, Range { start: offset, end })
    }
}

/// Hands out byte ranges of the CPU swap buffer.
///
/// Uses best fit over a list of free ranges that is kept sorted by offset and
/// merged when ranges are given back.
#[derive(Debug)]
pub struct CpuSlotAllocator {
    pub total_size: usize,
    /// Free byte ranges, sorted by offset and merged on free.
    pub free_ranges: Vec<Range<usize>>,
}

impl CpuSlotAllocator {
    /// The free ranges are separated and lie within the buffer.
    pub open spec fn wf(&self) -> bool {
        &&& ranges_separated(self.free_ranges@)
        &&& forall|i: int|
            0 <= i < self.free_ranges@.len() ==> (#[trigger] self.free_ranges@[i]).end
                <= self.total_size
    }

    /// An allocator whose whole buffer of `total_size` bytes is free.
    pub fn new(total_size: usize) -> (r: Self)
        ensures
            r.wf(),
            r.total_size == total_size,
            r.free_ranges@ == if total_size > 0 {
                seq![Range { start: 0usize, end: total_size }]
            } else {
                Seq::<Range<usize>>::empty()
            },
            forall|b: int| covered(r.free_ranges@, b) <==> 0 <= b < total_size,
    {
        let mut free_ranges: Vec<Range<usize>> = Vec::new();
        if total_size > 0 {
            free_ranges.push(Range { start: 0, end: total_size });
            assert(free_ranges@[0].start == 0);
        }
        CpuSlotAllocator { total_size, free_ranges }
    }

    /// Take `size` contiguous bytes from the front of the smallest range that
    /// holds them. Returns their offset, or `None` for a request of no bytes
    /// and when no range is large enough.
    pub fn allocate(&mut self, size: usize) -> (r: Option<usize>)
        requires
            ranges_ordered(old(self).free_ranges@),
        ensures
            final(self).total_size == old(self).total_size,
            (r, final(self).free_ranges@) == allocated(old(self).free_ranges@, size),
            ranges_ordered(final(self).free_ranges@),
    {
        if size == 0 || self.free_ranges.len() == 0 {
            return None;
        }
        let ghost ranges = self.free_ranges@;
        let mut best_idx: Option<usize> = None;
        let mut best_len: usize = 0;
        let mut i: usize = 0;
        while i < self.free_ranges.len()
            invariant
                i <= self.free_ranges@.len(),
                self.free_ranges@ == ranges,
                self.total_size == old(self).total_size,
                ranges_ordered(ranges),
                best_idx is None ==> forall|j: int|
                    0 <= j < i ==> !#[trigger] fits(ranges, size, j),
                best_idx matches Some(b) ==> b < i && fits(ranges, size, b as int)
                    && best_len == range_len(ranges[b as int]) && forall|j: int|
                    0 <= j < i && #[trigger] fits(ranges, size, j) ==> best_len <= range_len(
                        ranges[j],
                    ) && (j < b ==> best_len < range_len(ranges[j])),
            decreases self.free_ranges@.len() - i,
        {
            let len: usize = self.free_ranges[i].end - self.free_ranges[i].start;
            if len >= size && (best_idx.is_none() || len < best_len) {
                best_len = len;
                best_idx = Some(i);
            }
            i = i + 1;
        }
        match best_idx {
            None => None,
            Some(idx) => {
                proof {
                    assert(is_best_fit(ranges, size, idx as int));
                    lemma_best_fit_unique(ranges, size, idx as int);
                }
                let offset: usize = self.free_ranges[idx].start;
                let end: usize = self.free_ranges[idx].end;
                if end - offset == size {
                    self.free_ranges.remove(idx);
                } else {
                    self.free_ranges.set(idx, Range { start: offset + size, end });
                }
                Some(offset)
            },
        }
    }

    /// Give back `size` bytes at `offset`, merging them with the free ranges
    /// next to them.
    pub fn free(&mut self, offset: usize, size: usize)
        requires
            ranges_ordered(old(self).free_ranges@),
            offset + size <= usize::MAX,
        ensures
            final(self).total_size == old(self).total_size,
            final(self).free_ranges@ == freed(old(self).free_ranges@, offset, size),
            ranges_ordered(final(self).free_ranges@),
    {
        if size == 0 {
            return;
        }
        let ghost ranges = self.free_ranges@;
        let end: usize = offset + size;
        let mut p: usize = 0;
        while p < self.free_ranges.len() && self.free_ranges[p].start <= offset
            invariant
                p <= self.free_ranges@.len(),
                self.free_ranges@ == ranges,
                self.total_size == old(self).total_size,
                first_above(ranges, offset, 0) == first_above(ranges, offset, p as int),
            decreases self.free_ranges@.len() - p,
        {
            p = p + 1;
        }
        assert(first_above(ranges, offset, 0) == p);
        let joins_prev: bool = p > 0 && self.free_ranges[p - 1].end == offset;
        let joins_next: bool = p < self.free_ranges.len() && self.free_ranges[p].start == end;
        if joins_prev && joins_next {
            let start: usize = self.free_ranges[p - 1].start;
            let next_end: usize = self.free_ranges[p].end;
            self.free_ranges.set(p - 1, Range { start, end: next_end });
            self.free_ranges.remove(p);
        } else if joins_prev {
            let start: usize = self.free_ranges[p - 1].start;
            self.free_ranges.set(p - 1, Range { start, end });
        } else if joins_next {
            let next_end: usize = self.free_ranges[p].end;
            self.free_ranges.set(p, Range { start: offset, end: next_end });
        } else {
            self.free_ranges.insert(p, Range { start: offset, end });
        }
    }
}

/// Taking bytes keeps every range ordered, and the bytes can be addressed.
pub proof fn lemma_allocated_ordered(ranges: Seq<Range<usize>>, size: usize)
    requires
        ranges_ordered(ranges),
    ensures
        ranges_ordered(allocated(ranges, size).1),
        allocated(ranges, size).0 matches Some(o) ==> o + size <= usize::MAX,
{
    if can_allocate(ranges, size) {
        lemma_best_fit_exists(ranges, size);
    }
}

/// Giving bytes back keeps every range ordered.
pub proof fn lemma_freed_ordered(ranges: Seq<Range<usize>>, offset: usize, size: usize)
    requires
        ranges_ordered(ranges),
        offset + size <= usize::MAX,
    ensures
        ranges_ordered(freed(ranges, offset, size)),
{
    let p = first_above(ranges, offset, 0);
    lemma_first_above(ranges, offset, 0);
    if p > 0 {
        assert(ranges[p - 1].start <= ranges[p - 1].end);
    }
    if p < ranges.len() {
        assert(ranges[p].start <= ranges[p].end);
    }
}

/// At most one range is the best fit.
proof fn lemma_best_fit_unique(ranges: Seq<Range<usize>>, size: usize, i: int)
    requires
        is_best_fit(ranges, size, i),
    ensures
        best_fit(ranges, size) == i,
{
    let k = best_fit(ranges, size);
    assert(is_best_fit(ranges, size, k));
    assert(fits(ranges, size, k) && fits(ranges, size, i));
}

/// Among the first `n` ranges, where one can serve the request, one is the
/// first among the smallest.
proof fn lemma_best_among(ranges: Seq<Range<usize>>, size: usize, n: int) -> (k: int)
    requires
        0 <= n <= ranges.len(),
        exists|i: int| i < n && fits(ranges, size, i),
    ensures
        0 <= k < n,
        fits(ranges, size, k),
        forall|j: int| #[trigger]
            fits(ranges, size, j) && j < n ==> range_len(ranges[k]) <= range_len(ranges[j]) && (j
                < k ==> range_len(ranges[k]) < range_len(ranges[j])),
    decreases n,
{
    if exists|i: int| i < n - 1 && fits(ranges, size, i) {
        let k = lemma_best_among(ranges, size, n - 1);
        if fits(ranges, size, n - 1) && range_len(ranges[n - 1]) < range_len(ranges[k]) {
            n - 1
        } else {
            k
        }
    } else {
        n - 1
    }
}

/// A request that can be served has a best fit.
pub proof fn lemma_best_fit_exists(ranges: Seq<Range<usize>>, size: usize)
    requires
        can_allocate(ranges, size),
    ensures
        is_best_fit(ranges, size, best_fit(ranges, size)),
{
    let w = choose|i: int| fits(ranges, size, i);
    assert(w < ranges.len() && fits(ranges, size, w));
    let k = lemma_best_among(ranges, size, ranges.len() as int);
    assert(is_best_fit(ranges, size, k));
}

/// An allocation takes bytes that were free, and no byte that it was not
/// asked for: afterwards exactly the other free bytes are still free, and
/// the list is still sorted and merged.
pub proof fn law_allocate_takes_free_bytes(ranges: Seq<Range<usize>>, size: usize)
    requires
        ranges_separated(ranges),
        can_allocate(ranges, size),
    ensures
        ({
            let (offset, after) = allocated(ranges, size);
            &&& offset matches Some(o) && {
                &&& o + size <= usize::MAX
                &&& forall|b: int| o <= b < o + size ==> covered(ranges, b)
                &&& forall|b: int|
                    covered(after, b) <==> covered(ranges, b) && !(o <= b < o + size)
                &&& ranges_separated(after)
            }
        }),
{
    let i = best_fit(ranges, size);
    lemma_best_fit_exists(ranges, size);
    let o = ranges[i].start;
    let after = carved(ranges, size, i);
    assert forall|b: int| o <= b < o + size implies covered(ranges, b) by {
        assert(ranges[i].start <= b < ranges[i].end);
    }
    if range_len(ranges[i]) == size {
        assert forall|b: int|
            covered(after, b) <==> covered(ranges, b) && !(o <= b < o + size) by {
            if covered(after, b) {
                let j = choose|j: int|
                    0 <= j < after.len() && (#[trigger] after[j]).start <= b < after[j].end;
                if j < i {
                    assert(ranges[j].start <= b < ranges[j].end);
                } else {
                    assert(ranges[j + 1].start <= b < ranges[j + 1].end);
                }
            }
            if covered(ranges, b) && !(o <= b < o + size) {
                let j = choose|j: int|
                    0 <= j < ranges.len() && (#[trigger] ranges[j]).start <= b < ranges[j].end;
                if j < i {
                    assert(after[j].start <= b < after[j].end);
                } else {
                    assert(after[j - 1].start <= b < after[j - 1].end);
                }
            }
        }
    } else {
        assert forall|b: int|
            covered(after, b) <==> covered(ranges, b) && !(o <= b < o + size) by {
            if covered(after, b) {
                let j = choose|j: int|
                    0 <= j < after.len() && (#[trigger] after[j]).start <= b < after[j].end;
                assert(ranges[j].start <= b < ranges[j].end);
            }
            if covered(ranges, b) && !(o <= b < o + size) {
                let j = choose|j: int|
                    0 <= j < ranges.len() && (#[trigger] ranges[j]).start <= b < ranges[j].end;
                assert(after[j].start <= b < after[j].end);
            }
        }
    }
}

/// In a sorted list the position found is where `offset` belongs.
proof fn lemma_first_above(ranges: Seq<Range<usize>>, offset: usize, from: int)
    requires
        0 <= from <= ranges.len(),
    ensures
        from <= first_above(ranges, offset, from) <= ranges.len(),
        forall|j: int|
            from <= j < first_above(ranges, offset, from) ==> (#[trigger] ranges[j]).start
                <= offset,
        first_above(ranges, offset, from) < ranges.len() ==> ranges[first_above(
            ranges,
            offset,
            from,
        )].start > offset,
    decreases ranges.len() - from,
{
    if from < ranges.len() && ranges[from].start <= offset {
        lemma_first_above(ranges, offset, from + 1);
    }
}

/// Bytes that are not free fit between the free ranges on either side.
proof fn lemma_gap(ranges: Seq<Range<usize>>, offset: usize, size: usize)
    requires
        ranges_separated(ranges),
        0 < size,
        offset + size <= usize::MAX,
        forall|b: int| offset <= b < offset + size ==> !covered(ranges, b),
    ensures
        ({
            let p = first_above(ranges, offset, 0);
            &&& 0 <= p <= ranges.len()
            &&& p > 0 ==> ranges[p - 1].end <= offset
            &&& p < ranges.len() ==> offset + size <= ranges[p].start
        }),
{
    let p = first_above(ranges, offset, 0);
    lemma_first_above(ranges, offset, 0);
    if p > 0 && ranges[p - 1].end > offset {
        assert(ranges[p - 1].start <= offset < ranges[p - 1].end);
        assert(covered(ranges, offset as int));
    }
    if p < ranges.len() && offset + size > ranges[p].start {
        assert(ranges[p].start <= ranges[p].start < ranges[p].end);
        assert(covered(ranges, ranges[p].start as int));
    }
}

/// The list stays sorted and merged when bytes that were not free are given
/// back.
proof fn lemma_freed_separated(ranges: Seq<Range<usize>>, offset: usize, size: usize)
    requires
        ranges_separated(ranges),
        0 < size,
        offset + size <= usize::MAX,
        forall|b: int| offset <= b < offset + size ==> !covered(ranges, b),
    ensures
        ranges_separated(freed(ranges, offset, size)),
{
    let end = (offset + size) as usize;
    let p = first_above(ranges, offset, 0);
    lemma_gap(ranges, offset, size);
    let after = freed(ranges, offset, size);
    let joins_prev = p > 0 && ranges[p - 1].end == offset;
    let joins_next = p < ranges.len() && ranges[p].start == end;
    if joins_prev && joins_next {
        assert(forall|j: int| 0 <= j < p - 1 ==> after[j] == ranges[j]);
        assert(forall|j: int| p <= j < after.len() ==> after[j] == ranges[j + 1]);
    } else if !joins_prev && !joins_next {
        assert(forall|j: int| 0 <= j < p ==> after[j] == ranges[j]);
        assert(forall|j: int| p < j < after.len() ==> after[j] == ranges[j - 1]);
    }
}

/// A byte that is free after the return was free before or was given back.
proof fn lemma_freed_sound(ranges: Seq<Range<usize>>, offset: usize, size: usize, p: int, b: int)
    requires
        0 < size,
        offset + size <= usize::MAX,
        p == first_above(ranges, offset, 0),
        0 <= p <= ranges.len(),
        covered(freed(ranges, offset, size), b),
        !(offset <= b < offset + size),
    ensures
        covered(ranges, b),
{
    let end = (offset + size) as usize;
    let after = freed(ranges, offset, size);
    let joins_prev = p > 0 && ranges[p - 1].end == offset;
    let joins_next = p < ranges.len() && ranges[p].start == end;
    let j = choose|j: int|
        0 <= j < after.len() && (#[trigger] after[j]).start <= b < after[j].end;
    if joins_prev && joins_next {
        if j >= p || j == p - 1 && b >= end {
            assert(ranges[j + 1].start <= b < ranges[j + 1].end);
        } else {
            assert(ranges[j].start <= b < ranges[j].end);
        }
    } else if joins_prev || joins_next || j < p {
        assert(ranges[j].start <= b < ranges[j].end);
    } else {
        assert(ranges[j - 1].start <= b < ranges[j - 1].end);
    }
}

/// A byte that was free before or was given back is free after the return.
proof fn lemma_freed_complete(
    ranges: Seq<Range<usize>>,
    offset: usize,
    size: usize,
    p: int,
    b: int,
)
    requires
        0 < size,
        offset + size <= usize::MAX,
        p == first_above(ranges, offset, 0),
        0 <= p <= ranges.len(),
        ranges_separated(ranges),
        covered(ranges, b) || offset <= b < offset + size,
    ensures
        covered(freed(ranges, offset, size), b),
{
    let end = (offset + size) as usize;
    let after = freed(ranges, offset, size);
    let joins_prev = p > 0 && ranges[p - 1].end == offset;
    let joins_next = p < ranges.len() && ranges[p].start == end;
    if offset <= b < end {
        if joins_prev {
            assert(after[p - 1].start <= b < after[p - 1].end);
        } else {
            assert(after[p].start <= b < after[p].end);
        }
    } else {
        let j = choose|j: int|
            0 <= j < ranges.len() && (#[trigger] ranges[j]).start <= b < ranges[j].end;
        if joins_prev && joins_next {
            if j >= p {
                assert(after[j - 1].start <= b < after[j - 1].end);
            } else {
                assert(after[j].start <= b < after[j].end);
            }
        } else if joins_prev || joins_next || j < p {
            assert(after[j].start <= b < after[j].end);
        } else {
            assert(after[j + 1].start <= b < after[j + 1].end);
        }
    }
}

/// Giving back bytes that were not free makes exactly those bytes free, and
/// keeps the list sorted and merged.
pub proof fn law_free_returns_bytes(ranges: Seq<Range<usize>>, offset: usize, size: usize)
    requires
        ranges_separated(ranges),
        offset + size <= usize::MAX,
        forall|b: int| offset <= b < offset + size ==> !covered(ranges, b),
    ensures
        ranges_separated(freed(ranges, offset, size)),
        forall|b: int| #[trigger]
            covered(freed(ranges, offset, size), b) <==> (covered(ranges, b) || offset <= b < offset
                + size),
{
    if size > 0 {
        lemma_gap(ranges, offset, size);
        lemma_freed_separated(ranges, offset, size);
        assert forall|b: int| #[trigger]
            covered(freed(ranges, offset, size), b) <==> (covered(ranges, b) || offset <= b < offset
                + size) by {
            let p = first_above(ranges, offset, 0);
            if covered(ranges, b) || offset <= b < offset + size {
                lemma_freed_complete(ranges, offset, size, p, b);
            } else if covered(freed(ranges, offset, size), b) {
                lemma_freed_sound(ranges, offset, size, p, b);
            }
        }
    } else {
        assert(freed(ranges, offset, size) == ranges);
    }
}

/// Giving back what was just allocated restores the list as it was.
pub proof fn law_free_undoes_allocate(ranges: Seq<Range<usize>>, size: usize)
    requires
        ranges_separated(ranges),
        can_allocate(ranges, size),
    ensures
        ({
            let (offset, after) = allocated(ranges, size);
            offset matches Some(o) && freed(after, o, size) == ranges
        }),
{
    let i = best_fit(ranges, size);
    lemma_best_fit_exists(ranges, size);
    let o = ranges[i].start;
    let after = carved(ranges, size, i);
    let p = first_above(after, o, 0);
    lemma_first_above(after, o, 0);
    assert(p == i) by {
        if p < i {
            assert(after[p] == ranges[p]);
            assert(ranges[p].start < ranges[p].end < ranges[i].start);
        }
        if p > i {
            assert(after[i].start <= o);
            if range_len(ranges[i]) == size {
                assert(after[i] == ranges[i + 1]);
                assert(ranges[i].end < ranges[i + 1].start);
            }
        }
    }
    if i > 0 {
        assert(after[i - 1] == ranges[i - 1]);
        assert(ranges[i - 1].end < ranges[i].start);
    }
    assert(freed(after, o, size) =~= ranges);
}

/// Two allocations in a row do not overlap.
pub proof fn law_allocations_disjoint(ranges: Seq<Range<usize>>, a: usize, b: usize)
    requires
        ranges_separated(ranges),
        can_allocate(ranges, a),
        can_allocate(allocated(ranges, a).1, b),
    ensures
        ({
            let (first, after) = allocated(ranges, a);
            let (second, _) = allocated(after, b);
            first matches Some(x) && second matches Some(y) && (x + a <= y || y + b <= x)
        }),
{
    let (first, after) = allocated(ranges, a);
    let (second, _) = allocated(after, b);
    law_allocate_takes_free_bytes(ranges, a);
    law_allocate_takes_free_bytes(after, b);
    let x = first->0 as int;
    let y = second->0 as int;
    if x < y + b && y < x + a {
        let m = if x < y {
            y
        } else {
            x
        };
        assert(covered(after, m));
    }
}

} // verus!
