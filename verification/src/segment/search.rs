use vstd::prelude::*;

use crate::range::{FileRange, Range};
use crate::segment::keys::{
    count_before, gap_at, key_at, lemma_count_before_unique, parts_before, range_free, sorted, Gap,
};
use crate::segment::nav::at;
use crate::segment::ops::SetOperations;
use crate::segment::set::SegmentSet;

verus! {

pub const CHUNK_SHIFT: i32 = 30;

pub const CHUNK_SIZE: i64 = 0x4000_0000;

pub const CHUNK_MASK: i64 = 0x3fff_ffff;

/// The last address at which a page may start.
pub const MAX_PAGE: u64 = 0xffff_ffff_ffff_f000;

/// The number of keys between the segments at `j - 1` and `j`.
pub open spec fn gap_width(ks: Seq<Range>, j: int) -> int {
    gap_at(ks, j).hi() - gap_at(ks, j).lo()
}

/// `x` with the bits below the alignment `a` cleared.
pub open spec fn mask_down(x: u64, a: u64) -> u64 {
    x & !((a - 1) as u64)
}

/// Clears the bits of `x` below the alignment `a`.
pub fn align_down(x: u64, a: u64) -> (y: u64)
    requires
        a >= 1,
    ensures
        y == mask_down(x, a),
        y <= x,
{
    let m = a - 1;
    assert(x & !m <= x) by (bit_vector);
    x & !m
}

/// Clearing bits takes off no more than the mask.
pub proof fn lemma_mask_down(x: u64, a: u64)
    requires
        a >= 1,
    ensures
        mask_down(x, a) <= x,
        x - mask_down(x, a) <= a - 1,
{
    let m = (a - 1) as u64;
    assert(x & !m <= x) by (bit_vector);
    assert(x - (x & !m) <= m) by (bit_vector);
}

/// The end of the part of gap `j` that lies below `size`.
pub open spec fn usable_end(ks: Seq<Range>, size: int, j: int) -> int {
    if gap_at(ks, j).hi() <= size {
        gap_at(ks, j).hi() as int
    } else {
        size
    }
}

/// Gap `j` has room below `size` for `length` keys that start at a multiple of
/// the alignment.
pub open spec fn has_room(ks: Seq<Range>, size: int, length: u64, a: u64, j: int) -> bool {
    &&& 0 <= j <= ks.len()
    &&& length <= usable_end(ks, size, j)
    &&& gap_at(ks, j).lo() <= mask_down((usable_end(ks, size, j) - length) as u64, a)
}

/// Gap `j` is the highest one with room.
pub open spec fn highest_room(ks: Seq<Range>, size: int, length: u64, a: u64, j: int) -> bool {
    &&& has_room(ks, size, length, a, j)
    &&& forall|i: int| j < i ==> !#[trigger] has_room(ks, size, length, a, i)
}

/// The size that a file of size `size` grows to next.
pub open spec fn next_size(size: int) -> int {
    if size == 0 {
        CHUNK_SIZE as int
    } else {
        2 * size
    }
}

/// Where `length` keys go that have to lie past `min`, in a file that doubles
/// its size until they fit at its end.
pub open spec fn grown_start(size: i64, length: u64, a: u64, min: int) -> Option<u64>
    decreases i64::MAX - size,
    when size >= 0
{
    let n = next_size(size as int);
    if n > i64::MAX {
        None
    } else if n < length {
        grown_start(n as i64, length, a, min)
    } else if mask_down((n - length) as u64, a) >= min {
        Some(mask_down((n - length) as u64, a))
    } else {
        grown_start(n as i64, length, a, min)
    }
}

/// The end of the last segment.
pub open spec fn top(ks: Seq<Range>) -> u64 {
    if ks.len() == 0 {
        0
    } else {
        ks.last().end
    }
}

/// Where `length` keys are put, from the top down.
pub open spec fn top_down_start(ks: Seq<Range>, size: i64, length: u64, a: u64, s: Option<u64>) -> bool {
    if exists|j: int| has_room(ks, size as int, length, a, j) {
        exists|j: int|
            highest_room(ks, size as int, length, a, j) && s == Some(
                mask_down((#[trigger] usable_end(ks, size as int, j) - length) as u64, a),
            )
    } else {
        let min = mask_down((top(ks) + a - 1) as u64, a);
        s == if min + length > u64::MAX {
            None
        } else {
            grown_start(size, length, a, min as int)
        }
    }
}

pub proof fn lemma_gap_span_count(ks: Seq<Range>, j: int)
    requires
        sorted(ks),
        0 <= j <= ks.len(),
    ensures
        count_before(ks, gap_at(ks, j).span()) == j,
        gap_at(ks, j).lo() <= gap_at(ks, j).hi(),
{
    let r = gap_at(ks, j).span();
    if 0 < j && j < ks.len() {
        assert(ks[j - 1].end <= ks[j].start);
    }
    assert forall|i: int| 0 <= i < j implies (#[trigger] ks[i]).before(r) by {
        if i < j - 1 {
            assert(ks[i].end <= ks[j - 1].start);
        }
        assert(ks[j - 1].start < ks[j - 1].end);
    }
    assert forall|i: int| j <= i < ks.len() implies !(#[trigger] ks[i]).before(r) by {
        if j < i {
            assert(ks[j].end <= ks[i].start);
        }
        assert(ks[j].start < ks[j].end);
    }
    assert(parts_before(ks, r, j));
    lemma_count_before_unique(ks, r, j);
}

/// The segment past gap `j` is the one at index `j`.
pub proof fn lemma_count_at_gap_end(ks: Seq<Range>, j: int)
    requires
        sorted(ks),
        0 <= j < ks.len(),
    ensures
        count_before(ks, at(ks[j].start)) == j,
{
    let r = at(ks[j].start);
    assert forall|i: int| 0 <= i < j implies (#[trigger] ks[i]).before(r) by {
        assert(ks[i].end <= ks[j].start);
        assert(ks[i].start < ks[i].end);
    }
    assert forall|i: int| j <= i < ks.len() implies !(#[trigger] ks[i]).before(r) by {
        if j < i {
            assert(ks[j].end <= ks[i].start);
        }
        assert(ks[j].start < ks[j].end);
        assert(ks[i].start < ks[i].end);
    }
    assert(parts_before(ks, r, j));
    lemma_count_before_unique(ks, r, j);
}

proof fn lemma_gap_ends_ascend(ks: Seq<Range>, i: int, j: int)
    requires
        sorted(ks),
        0 <= i <= j <= ks.len(),
    ensures
        gap_at(ks, i).hi() <= gap_at(ks, j).hi(),
{
    if i < j && j < ks.len() {
        assert(ks[i].end <= ks[j].start);
        assert(ks[i].start < ks[i].end);
    }
}

/// A range inside a gap meets no segment.
pub proof fn lemma_in_gap_is_free(ks: Seq<Range>, j: int, r: Range)
    requires
        sorted(ks),
        0 <= j <= ks.len(),
        gap_at(ks, j).lo() <= r.start,
        r.end <= gap_at(ks, j).hi(),
    ensures
        range_free(ks, r),
{
    assert forall|i: int| 0 <= i < ks.len() implies !(#[trigger] ks[i]).meets(r) by {
        if i < j {
            if i < j - 1 {
                assert(ks[i].end <= ks[j - 1].start);
                assert(ks[j - 1].start < ks[j - 1].end);
            }
        } else {
            if j < i {
                assert(ks[j].end <= ks[i].start);
                assert(ks[j].start < ks[j].end);
            }
        }
    }
}

/// Whatever the search from the top down finds meets no segment.
pub proof fn top_down_start_is_free(ks: Seq<Range>, size: i64, length: u64, a: u64, s: u64)
    requires
        sorted(ks),
        size >= 0,
        a >= 1,
        top(ks) + a - 1 <= u64::MAX,
        top_down_start(ks, size, length, a, Some(s)),
    ensures
        s + length <= u64::MAX,
        range_free(ks, Range { start: s, end: (s + length) as u64 }),
{
    if exists|j: int| has_room(ks, size as int, length, a, j) {
        let j = choose|j: int|
            highest_room(ks, size as int, length, a, j) && Some(s) == Some(
                mask_down((#[trigger] usable_end(ks, size as int, j) - length) as u64, a),
            );
        lemma_mask_down((usable_end(ks, size as int, j) - length) as u64, a);
        lemma_in_gap_is_free(ks, j, Range { start: s, end: (s + length) as u64 });
    } else {
        let x = (top(ks) + a - 1) as u64;
        let min = mask_down(x, a);
        lemma_mask_down(x, a);
        lemma_grown_start(size, length, a, min as int);
        lemma_in_gap_is_free(
            ks,
            ks.len() as int,
            Range { start: s, end: (s + length) as u64 },
        );
    }
}

/// Whatever the search from the top down finds has the bits below the
/// alignment cleared.
pub proof fn top_down_start_is_masked(ks: Seq<Range>, size: i64, length: u64, a: u64, s: u64)
    requires
        size >= 0,
        top_down_start(ks, size, length, a, Some(s)),
    ensures
        exists|x: u64| s == mask_down(x, a),
{
    if !(exists|j: int| has_room(ks, size as int, length, a, j)) {
        let min = mask_down((top(ks) + a - 1) as u64, a);
        lemma_grown_start_is_masked(size, length, a, min as int);
    }
}

proof fn lemma_grown_start_is_masked(size: i64, length: u64, a: u64, min: int)
    requires
        size >= 0,
    ensures
        match grown_start(size, length, a, min) {
            Some(s) => exists|x: u64| s == mask_down(x, a),
            None => true,
        },
    decreases i64::MAX - size,
{
    let n = next_size(size as int);
    if n <= i64::MAX {
        lemma_grown_start_is_masked(n as i64, length, a, min);
    }
}

proof fn lemma_grown_start(size: i64, length: u64, a: u64, min: int)
    requires
        size >= 0,
        a >= 1,
    ensures
        match grown_start(size, length, a, min) {
            Some(s) => min <= s && s + length <= i64::MAX,
            None => true,
        },
    decreases i64::MAX - size,
{
    let n = next_size(size as int);
    if n <= i64::MAX {
        if n >= length {
            lemma_mask_down((n - length) as u64, a);
        }
        lemma_grown_start(n as i64, length, a, min);
    }
}

/// A gap that is too narrow has no room.
proof fn lemma_narrow_has_no_room(ks: Seq<Range>, size: u64, length: u64, alignment: u64)
    requires
        alignment >= 1,
    ensures
        forall|i: int|
            0 <= i <= ks.len() && #[trigger] gap_width(ks, i) < length ==> !has_room(
                ks,
                size as int,
                length,
                alignment,
                i,
            ),
{
    assert forall|i: int| 0 <= i <= ks.len() && #[trigger] gap_width(ks, i)
        < length implies !has_room(ks, size as int, length, alignment, i) by {
        if length <= usable_end(ks, size as int, i) {
            lemma_mask_down((usable_end(ks, size as int, i) - length) as u64, alignment);
        }
    }
}

impl<O: SetOperations> SegmentSet<O> {
    /// The first gap past the segment that follows `gap` that holds at least
    /// `min_size` keys.
    pub fn next_large_enough_gap(&self, gap: &Gap, min_size: u64) -> (g: Option<Gap>)
        requires
            self.wf(),
        ensures
            match gap.range.end {
                None => g is None,
                Some(e) => {
                    let ks = self.ranges();
                    let c = count_before(ks, at(e)) as int;
                    match g {
                        Some(g) => exists|j: int|
                            {
                                &&& c < j <= ks.len()
                                &&& min_size <= gap_width(ks, j)
                                &&& forall|i: int|
                                    c < i < j ==> #[trigger] gap_width(ks, i) < min_size
                                &&& g == #[trigger] gap_at(ks, j)
                            },
                        None => forall|i: int|
                            c < i <= ks.len() ==> #[trigger] gap_width(ks, i) < min_size,
                    }
                },
            },
    {
        let e = match gap.range.end {
            Some(e) => e,
            None => return None,
        };
        let ghost ks = self.ranges();
        let c = self.rank_before(Range { start: e, end: e });
        let n = self.keys.len();
        if c >= n {
            return None;
        }
        let mut j: usize = c + 1;
        while j < n
            invariant
                c < j <= n,
                n == self.keys@.len(),
                ks == self.keys@,
                sorted(ks),
                c == count_before(ks, at(e)),
                gap.range.end == Some(e),
                forall|i: int| c < i < j ==> #[trigger] gap_width(ks, i) < min_size,
            decreases n - j,
        {
            assert(ks[j - 1].end <= ks[j as int].start);
            if self.keys[j].start - self.keys[j - 1].end >= min_size {
                let g = self.gap_from(j);
                assert(min_size <= gap_width(ks, j as int));
                return Some(g);
            }
            assert(gap_width(ks, j as int) < min_size);
            j = j + 1;
        }
        if u64::MAX - self.keys[n - 1].end >= min_size {
            let g = self.gap_from(n);
            assert(min_size <= gap_width(ks, n as int));
            Some(g)
        } else {
            assert(gap_width(ks, n as int) < min_size);
            None
        }
    }

    /// The first gap before the segment that comes before `gap`, going down,
    /// that holds at least `min_size` keys. It is told with the key of the
    /// segment that lies one before its lower neighbour.
    pub fn prev_large_enough_gap(&self, gap: &Gap, min_size: u64) -> (g: Option<Gap>)
        requires
            self.wf(),
        ensures
            ({
                let ks = self.ranges();
                let c = count_before(ks, gap.span()) as int;
                match g {
                    Some(g) => exists|j: int|
                        {
                            &&& 0 <= j < c
                            &&& min_size <= gap_width(ks, j)
                            &&& forall|i: int| j < i < c ==> #[trigger] gap_width(ks, i) < min_size
                            &&& g.range == (#[trigger] gap_at(ks, j)).range
                            &&& g.prev_key == key_at(ks, j - 2)
                        },
                    None => forall|i: int| 0 <= i < c ==> #[trigger] gap_width(ks, i) < min_size,
                }
            }),
    {
        let ghost ks = self.ranges();
        let c = self.rank_before(gap.range());
        if c == 0 {
            return None;
        }
        let mut j: usize = c - 1;
        while j > 0
            invariant
                0 <= j < c,
                c <= self.keys@.len(),
                ks == self.keys@,
                sorted(ks),
                c == count_before(ks, gap.span()),
                forall|i: int| j < i < c ==> #[trigger] gap_width(ks, i) < min_size,
            decreases j,
        {
            assert(ks[j - 1].end <= ks[j as int].start);
            if self.keys[j].start - self.keys[j - 1].end >= min_size {
                let g = self.gap_from(j);
                let prev_key = self.key_below(j - 1);
                assert(min_size <= gap_width(ks, j as int));
                return Some(Gap { range: g.range, prev_key });
            }
            assert(gap_width(ks, j as int) < min_size);
            j = j - 1;
        }
        if self.keys[0].start >= min_size {
            let g = self.gap_from(0);
            assert(min_size <= gap_width(ks, 0));
            Some(g)
        } else {
            assert(gap_width(ks, 0) < min_size);
            None
        }
    }

    /// Finds room for `length` keys from the top down: at the end of the
    /// highest gap below `file_size` that has room, or else past all segments
    /// once the file has grown far enough.
    #[verifier::rlimit(40)]
    #[verifier::spinoff_prover]
    pub fn find_available_range(&self, file_size: i64, length: u64, alignment: u64) -> (fr: Option<
        FileRange,
    >)
        requires
            self.wf(),
            file_size >= 0,
            alignment >= 1,
            top(self.ranges()) < u64::MAX,
            (exists|j: int| has_room(self.ranges(), file_size as int, length, alignment, j)) || top(
                self.ranges(),
            ) + alignment - 1 <= u64::MAX,
        ensures
            match fr {
                Some(r) => r.end == r.start + length && top_down_start(
                    self.ranges(),
                    file_size,
                    length,
                    alignment,
                    Some(r.start),
                ),
                None => top_down_start(self.ranges(), file_size, length, alignment, None),
            },
    {
        let ghost ks = self.ranges();
        let size = file_size as u64;
        let n = self.keys.len();
        let last_gap = match self.last_gap() {
            Some(g) => g,
            None => Gap::minimum(),
        };
        let mut gap = last_gap;
        let ghost mut j: int = n as int;
        proof {
            assert forall|i: int| n < i implies !#[trigger] has_room(
                ks,
                size as int,
                length,
                alignment,
                i,
            ) by {}
        }
        loop
            invariant
                self.wf(),
                ks == self.ranges(),
                0 <= j <= ks.len(),
                gap.lo() == gap_at(ks, j).lo(),
                gap.hi() == gap_at(ks, j).hi(),
                file_size >= 0,
                size == file_size,
                alignment >= 1,
                forall|i: int| j < i ==> !#[trigger] has_room(ks, size as int, length, alignment, i),
            ensures
                forall|i: int| !#[trigger] has_room(ks, size as int, length, alignment, i),
            decreases j,
        {
            let end = if gap.end() <= size {
                gap.end()
            } else {
                size
            };
            assert(end == usable_end(ks, size as int, j));
            if end < length {
                assert forall|i: int| !#[trigger] has_room(ks, size as int, length, alignment, i) by {
                    if 0 <= i <= j {
                        lemma_gap_ends_ascend(ks, i, j);
                    }
                }
                break ;
            }
            let start = align_down(end - length, alignment);
            if start >= gap.start() {
                proof {
                    assert(has_room(ks, size as int, length, alignment, j));
                    assert(highest_room(ks, size as int, length, alignment, j));
                }
                return Some(Range { start, end: start + length });
            }
            assert(!has_room(ks, size as int, length, alignment, j));
            proof {
                lemma_gap_span_count(ks, j);
                assert(gap.span() == gap_at(ks, j).span());
                lemma_narrow_has_no_room(ks, size, length, alignment);
            }
            match self.prev_large_enough_gap(&gap, length) {
                Some(g) => {
                    proof {
                        let k = choose|k: int|
                            {
                                &&& 0 <= k < j
                                &&& length <= gap_width(ks, k)
                                &&& forall|i: int| k < i < j ==> #[trigger] gap_width(ks, i)
                                    < length
                                &&& g.range == (#[trigger] gap_at(ks, k)).range
                                &&& g.prev_key == key_at(ks, k - 2)
                            };
                        assert forall|i: int| k < i implies !#[trigger] has_room(
                            ks,
                            size as int,
                            length,
                            alignment,
                            i,
                        ) by {
                            if i < j {
                                assert(gap_width(ks, i) < length);
                            }
                        }
                        j = k;
                    }
                    gap = g;
                },
                None => {
                    assert forall|i: int| !#[trigger] has_room(ks, size as int, length, alignment, i) by {
                        if 0 <= i < j {
                            assert(gap_width(ks, i) < length);
                        }
                    }
                    break ;
                },
            }
        }

        let min = align_down(last_gap.start() + (alignment - 1), alignment);
        if min.checked_add(length).is_none() {
            return None;
        }
        let mut cur = file_size;
        loop
            invariant
                0 <= cur,
                file_size >= 0,
                alignment >= 1,
                grown_start(cur, length, alignment, min as int) == grown_start(
                    file_size,
                    length,
                    alignment,
                    min as int,
                ),
                top_down_start(
                    ks,
                    file_size,
                    length,
                    alignment,
                    grown_start(file_size, length, alignment, min as int),
                ),
                ks == self.ranges(),
            decreases i64::MAX - cur,
        {
            if cur == 0 {
                cur = CHUNK_SIZE;
            } else {
                if cur > i64::MAX / 2 {
                    return None;
                }
                cur = 2 * cur;
            }
            let cur_u = cur as u64;
            if cur_u >= length {
                let start = align_down(cur_u - length, alignment);
                if start >= min {
                    return Some(Range { start, end: start + length });
                }
            }
        }
    }
}

} // verus!
