use vstd::prelude::*;

use crate::range::Range;
use crate::segment::keys::{
    gap_at, held_at, lemma_count_before_unique, lemma_count_through_unique,
    parts_before, parts_through, sorted, SegOrGap,
};
use crate::segment::nav::{
    at, gap_after, gap_before, item_after, item_before, seg_after, seg_after_gap, seg_before,
    seg_before_gap, total_common,
};

verus! {

/// The places of a segment and of the gap before it among the others.
proof fn lemma_places(ks: Seq<Range>, i: int)
    requires
        sorted(ks),
        0 <= i <= ks.len(),
    ensures
        i < ks.len() ==> crate::segment::keys::count_before(ks, ks[i]) == i,
        i < ks.len() ==> crate::segment::keys::count_through(ks, ks[i]) == i + 1,
        i < ks.len() ==> crate::segment::keys::count_before(ks, at(ks[i].start)) == i,
        i > 0 ==> crate::segment::keys::count_before(ks, at(ks[i - 1].end)) == i,
        crate::segment::keys::count_before(ks, gap_at(ks, i).span()) == i,
{
    assert forall|j: int| 0 <= j < i implies (#[trigger] ks[j]).start < ks[j].end && (i
        < ks.len() ==> ks[j].end <= ks[i].start) && (j < i - 1 ==> ks[j].end <= ks[i - 1].start) by {}
    assert forall|j: int| i <= j < ks.len() implies (#[trigger] ks[j]).start < ks[j].end && (i > 0
        ==> ks[i - 1].end <= ks[j].start) && (j > i ==> ks[i].end <= ks[j].start) by {}
    if i < ks.len() {
        assert(parts_before(ks, ks[i], i));
        lemma_count_before_unique(ks, ks[i], i);
        assert(parts_through(ks, ks[i], i + 1));
        lemma_count_through_unique(ks, ks[i], i + 1);
        assert(parts_before(ks, at(ks[i].start), i));
        lemma_count_before_unique(ks, at(ks[i].start), i);
    }
    if i > 0 {
        assert(parts_before(ks, at(ks[i - 1].end), i));
        lemma_count_before_unique(ks, at(ks[i - 1].end), i);
    }
    let g = gap_at(ks, i).span();
    assert(parts_before(ks, g, i));
    lemma_count_before_unique(ks, g, i);
}

/// From one segment one comes to the next and from there back, with none between the two,
/// and each knows its neighbours.
pub proof fn segments_are_neighbours(ks: Seq<Range>, i: int)
    requires
        sorted(ks),
        0 <= i < ks.len(),
    ensures
        i + 1 < ks.len() ==> (seg_after(ks, ks[i]) matches Some(s) && s.range == ks[i + 1]
            && s.prev_key == Some(ks[i]) && (s.next_key is Some == (i + 2 < ks.len())) && (
        s.next_key matches Some(n) ==> n == ks[i + 2])),
        i + 1 == ks.len() ==> seg_after(ks, ks[i]) is None,
        i > 0 ==> (seg_before(ks, ks[i]) matches Some(s) && s.range == ks[i - 1] && s.next_key
            == Some(ks[i]) && (s.prev_key is Some == (i > 1)) && (s.prev_key matches Some(n) ==> n
            == ks[i - 2])),
        i == 0 ==> seg_before(ks, ks[i]) is None,
{
    lemma_places(ks, i);
}

/// The gap next to a segment reaches from the segment to its neighbour, or to the end of
/// the keys. There is one but at the ends of the keys.
pub proof fn gap_reaches_the_neighbour(ks: Seq<Range>, i: int)
    requires
        sorted(ks),
        0 <= i < ks.len(),
    ensures
        gap_after(ks, ks[i]) is None == (ks[i].end == u64::MAX),
        gap_after(ks, ks[i]) matches Some(g) ==> g.prev_key == Some(ks[i]) && g.lo() == ks[i].end
            && g.hi() == (if i + 1 < ks.len() {
            ks[i + 1].start
        } else {
            u64::MAX
        }),
        gap_before(ks, ks[i]) is None == (ks[i].start == 0),
        gap_before(ks, ks[i]) matches Some(g) ==> g.hi() == ks[i].start && g.lo() == (if i > 0 {
            ks[i - 1].end
        } else {
            0
        }),
{
    lemma_places(ks, i);
}

/// On either side of a gap one comes to the segment there.
pub proof fn gap_lies_between_its_segments(ks: Seq<Range>, i: int)
    requires
        sorted(ks),
        0 <= i <= ks.len(),
    ensures
        i < ks.len() ==> (seg_after_gap(ks, gap_at(ks, i)) matches Some(s) && s.range == ks[i]),
        i == ks.len() ==> seg_after_gap(ks, gap_at(ks, i)) is None,
        i > 0 ==> (seg_before_gap(ks, gap_at(ks, i)) matches Some(s) && s.range == ks[i - 1]),
        i == 0 ==> seg_before_gap(ks, gap_at(ks, i)) is None,
{
    lemma_places(ks, i);
}

/// What comes next to a segment is not empty and starts or ends where the segment does, and
/// it is a gap unless a segment is right there.
pub proof fn next_item_is_adjacent(ks: Seq<Range>, i: int)
    requires
        sorted(ks),
        0 <= i < ks.len(),
    ensures
        match item_after(ks, ks[i]) {
            Some(SegOrGap::Gap(g)) => g.lo() == ks[i].end && g.lo() < g.hi() && (i + 1 < ks.len()
                ==> g.hi() == ks[i + 1].start),
            Some(SegOrGap::Segment(s)) => i + 1 < ks.len() && s.range == ks[i + 1] && ks[i + 1].start
                == ks[i].end,
            None => ks[i].end == u64::MAX,
        },
        match item_before(ks, ks[i]) {
            Some(SegOrGap::Gap(g)) => g.hi() == ks[i].start && g.lo() < g.hi() && (i > 0 ==> g.lo()
                == ks[i - 1].end),
            Some(SegOrGap::Segment(s)) => i > 0 && s.range == ks[i - 1] && ks[i - 1].end
                == ks[i].start,
            None => ks[i].start == 0,
        },
{
    lemma_places(ks, i);
    if i + 1 < ks.len() {
        assert(ks[i].end <= ks[i + 1].start);
        assert(ks[i + 1].start < ks[i + 1].end);
    }
    if i > 0 {
        assert(ks[i - 1].end <= ks[i].start);
        assert(ks[i - 1].start < ks[i - 1].end);
    }
}

/// The keys that segments hold are counted one by one: a key counts if a segment holds it,
/// and two adjacent ranges count as one.
pub proof fn held_keys_are_counted(ks: Seq<Range>, a: u64, b: u64, c: u64)
    requires
        sorted(ks),
        a <= b <= c,
    ensures
        total_common(ks, Range { start: a, end: b }) + total_common(
            ks,
            Range { start: b, end: c },
        ) == total_common(ks, Range { start: a, end: c }),
        a < u64::MAX ==> total_common(ks, Range { start: a, end: (a + 1) as u64 }) == (if exists|
            i: int,
        |
            held_at(ks, a as int, i) {
            1int
        } else {
            0
        }),
        total_common(ks, Range { start: a, end: a }) == 0,
    decreases ks.len(),
{
    if ks.len() > 0 {
        let ds = ks.drop_last();
        let n = ks.len() - 1;
        assert forall|i: int, j: int| 0 <= i < j < ds.len() implies (#[trigger] ds[i]).end <= (
        #[trigger] ds[j]).start by {
            assert(ks[i].end <= ks[j].start);
        }
        assert forall|i: int| 0 <= i < ds.len() implies (#[trigger] ds[i]).start < ds[i].end by {
            assert(ks[i].start < ks[i].end);
        }
        held_keys_are_counted(ds, a, b, c);
        if exists|i: int| held_at(ds, a as int, i) {
            let i = choose|i: int| held_at(ds, a as int, i);
            assert(ks[i] == ds[i]);
            assert(held_at(ks, a as int, i));
            assert(ks[i].end <= ks[n].start);
        } else if ks[n].has(a as int) {
            assert(held_at(ks, a as int, n));
        } else if exists|i: int| held_at(ks, a as int, i) {
            let i = choose|i: int| held_at(ks, a as int, i);
            assert(held_at(ds, a as int, i));
        }
    }
}

} // verus!
