use vstd::prelude::*;

use crate::range::Range;
use crate::segment::keys::{count_before, held_at, lemma_count_before, range_free, sorted};
use crate::segment::nav::at;
use crate::segment::ops::SetOperations;

verus! {

/// The segments of a set: their ranges in ascending order, and beside them
/// their values.
#[verifier::ext_equal]
pub struct Segments<T> {
    pub ks: Seq<Range>,
    pub vs: Seq<T>,
}

impl<T> Segments<T> {
    /// A further segment at index `i`.
    pub open spec fn with(self, i: int, r: Range, v: T) -> Self {
        Segments { ks: self.ks.insert(i, r), vs: self.vs.insert(i, v) }
    }

    /// The segment at index `i` replaced.
    pub open spec fn set(self, i: int, r: Range, v: T) -> Self {
        Segments { ks: self.ks.update(i, r), vs: self.vs.update(i, v) }
    }

    /// The value of the segment at index `i` replaced.
    pub open spec fn set_value(self, i: int, v: T) -> Self {
        Segments { ks: self.ks, vs: self.vs.update(i, v) }
    }

    /// Without the segment at index `i`.
    pub open spec fn without(self, i: int) -> Self {
        Segments { ks: self.ks.remove(i), vs: self.vs.remove(i) }
    }
}

/// The ranges are sorted, and each segment has a value that fits it.
pub open spec fn wf_segments<O: SetOperations>(m: Segments<<O::V as View>::V>) -> bool {
    &&& sorted(m.ks)
    &&& m.ks.len() == m.vs.len()
    &&& forall|i: int| 0 <= i < m.ks.len() ==> O::fits(#[trigger] m.ks[i], m.vs[i])
}

/// What becomes of the value of the segment at index `i` and that of a segment
/// on `r` next to it upwards.
pub open spec fn joined_below<O: SetOperations>(
    m: Segments<<O::V as View>::V>,
    i: int,
    r: Range,
    v: <O::V as View>::V,
) -> Option<<O::V as View>::V> {
    if 0 <= i < m.ks.len() && m.ks[i].end == r.start {
        O::merged(m.ks[i], m.vs[i], r, v)
    } else {
        None
    }
}

/// What becomes of the value of the segment at index `i` and that of a segment
/// on `r` next to it downwards.
pub open spec fn joined_above<O: SetOperations>(
    m: Segments<<O::V as View>::V>,
    i: int,
    r: Range,
    v: <O::V as View>::V,
) -> Option<<O::V as View>::V> {
    if 0 <= i < m.ks.len() && r.end == m.ks[i].start {
        O::merged(r, v, m.ks[i], m.vs[i])
    } else {
        None
    }
}

/// The index at which a segment on `r` stands.
pub open spec fn place(ks: Seq<Range>, r: Range) -> int {
    count_before(ks, at(r.start)) as int
}

/// The segments after one on `r` was put among them. It is joined to the
/// neighbour below where the two merge, and what comes of that, or else the
/// segment itself, is joined to the neighbour above.
pub open spec fn inserted<O: SetOperations>(
    m: Segments<<O::V as View>::V>,
    r: Range,
    v: <O::V as View>::V,
) -> Segments<<O::V as View>::V> {
    let i = place(m.ks, r);
    match joined_below::<O>(m, i - 1, r, v) {
        Some(v1) => {
            let r1 = Range { start: m.ks[i - 1].start, end: r.end };
            match joined_above::<O>(m, i, r1, v1) {
                Some(v2) => m.without(i).set(
                    i - 1,
                    Range { start: r1.start, end: m.ks[i].end },
                    v2,
                ),
                None => m.set(i - 1, r1, v1),
            }
        },
        None => match joined_above::<O>(m, i, r, v) {
            Some(v2) => m.set(i, Range { start: r.start, end: m.ks[i].end }, v2),
            None => m.with(i, r, v),
        },
    }
}

/// The index of the segment that holds `r` once it was put in.
pub open spec fn inserted_at<O: SetOperations>(
    m: Segments<<O::V as View>::V>,
    r: Range,
    v: <O::V as View>::V,
) -> int {
    let i = place(m.ks, r);
    if joined_below::<O>(m, i - 1, r, v) is Some {
        i - 1
    } else {
        i
    }
}

/// Whether the segments at `i` and `i + 1` merge, and into what value.
pub open spec fn join_value<O: SetOperations>(
    m: Segments<<O::V as View>::V>,
    i: int,
) -> Option<<O::V as View>::V> {
    if 0 <= i && i + 1 < m.ks.len() && m.ks[i].end == m.ks[i + 1].start {
        O::merged(m.ks[i], m.vs[i], m.ks[i + 1], m.vs[i + 1])
    } else {
        None
    }
}

/// The segments at `i` and `i + 1` joined where they merge.
pub open spec fn joined<O: SetOperations>(
    m: Segments<<O::V as View>::V>,
    i: int,
) -> Segments<<O::V as View>::V> {
    match join_value::<O>(m, i) {
        Some(v) => m.without(i + 1).set(
            i,
            Range { start: m.ks[i].start, end: m.ks[i + 1].end },
            v,
        ),
        None => m,
    }
}

/// The segment at index `i` joined to the one before it where the two merge, and
/// what comes of that, or else the segment itself, to the one after it.
pub open spec fn joined_about<O: SetOperations>(
    m: Segments<<O::V as View>::V>,
    i: int,
) -> Segments<<O::V as View>::V> {
    let j = if join_value::<O>(m, i - 1) is Some {
        i - 1
    } else {
        i
    };
    joined::<O>(joined::<O>(m, i - 1), j)
}

/// From index `i` upwards each segment that starts below `end` joined to the
/// one before it where the two merge.
pub open spec fn joined_run<O: SetOperations>(
    m: Segments<<O::V as View>::V>,
    i: int,
    end: u64,
) -> Segments<<O::V as View>::V>
    decreases m.ks.len() - i,
{
    if 0 <= i && i + 1 < m.ks.len() && m.ks[i + 1].start < end {
        if join_value::<O>(m, i) is Some {
            joined_run::<O>(joined::<O>(m, i), i, end)
        } else {
            joined_run::<O>(m, i + 1, end)
        }
    } else {
        m
    }
}

/// The segment at index `i` cut at `k`.
pub open spec fn cut<O: SetOperations>(
    m: Segments<<O::V as View>::V>,
    i: int,
    k: u64,
) -> Segments<<O::V as View>::V> {
    let r = m.ks[i];
    m.set(i, Range { start: r.start, end: k }, O::lower(r, m.vs[i], k)).with(
        i + 1,
        Range { start: k, end: r.end },
        O::upper(r, m.vs[i], k),
    )
}

/// The segment at index `i` cut at the start of `r` where that lies inside it.
pub open spec fn cut_start<O: SetOperations>(
    m: Segments<<O::V as View>::V>,
    i: int,
    r: Range,
) -> Segments<<O::V as View>::V> {
    if m.ks[i].cuttable(r.start as int) {
        cut::<O>(m, i, r.start)
    } else {
        m
    }
}

/// Where the part that starts within `r` stands after the cut.
pub open spec fn cut_start_at<T>(m: Segments<T>, i: int, r: Range) -> int {
    if m.ks[i].cuttable(r.start as int) {
        i + 1
    } else {
        i
    }
}

/// The segment at index `i` cut at both bounds of `r` where they lie inside it.
pub open spec fn isolated<O: SetOperations>(
    m: Segments<<O::V as View>::V>,
    i: int,
    r: Range,
) -> Segments<<O::V as View>::V> {
    let m1 = cut_start::<O>(m, i, r);
    let j = cut_start_at(m, i, r);
    if m1.ks[j].cuttable(r.end as int) {
        cut::<O>(m1, j, r.end)
    } else {
        m1
    }
}

/// The index of the segment that holds key `k`, or the number of segments.
pub open spec fn holder(ks: Seq<Range>, k: int) -> int {
    if exists|i: int| held_at(ks, k, i) {
        choose|i: int| held_at(ks, k, i)
    } else {
        ks.len() as int
    }
}

/// The segment that holds `r.start` joined to the one before it, and the one
/// that then holds the last key of `r` joined to the one after it.
pub open spec fn joined_outside<O: SetOperations>(
    m: Segments<<O::V as View>::V>,
    r: Range,
) -> Segments<<O::V as View>::V> {
    let i = holder(m.ks, r.start as int);
    let m1 = if i < m.ks.len() {
        joined::<O>(m, i - 1)
    } else {
        m
    };
    let j = holder(m1.ks, r.end - 1);
    if j < m1.ks.len() {
        joined::<O>(m1, j)
    } else {
        m1
    }
}

pub proof fn lemma_holder(ks: Seq<Range>, k: int, i: int)
    requires
        sorted(ks),
        held_at(ks, k, i),
    ensures
        holder(ks, k) == i,
{
    let h = holder(ks, k);
    assert(held_at(ks, k, h));
    crate::segment::keys::holder_is_unique(ks, k, i, h);
}

pub proof fn lemma_sorted_insert(ks: Seq<Range>, i: int, r: Range)
    requires
        sorted(ks),
        0 <= i <= ks.len(),
        r.start < r.end,
        0 < i ==> ks[i - 1].end <= r.start,
        i < ks.len() ==> r.end <= ks[i].start,
    ensures
        sorted(ks.insert(i, r)),
{
    let ns = ks.insert(i, r);
    assert forall|a: int, b: int| 0 <= a < b < ns.len() implies (#[trigger] ns[a]).end <= (
    #[trigger] ns[b]).start by {
        let a0 = if a < i { a } else { a - 1 };
        let b0 = if b < i { b } else { b - 1 };
        if a != i && b != i {
            assert(ns[a] == ks[a0] && ns[b] == ks[b0]);
        } else if a == i {
            assert(ns[b] == ks[b0]);
            if b0 > i {
                assert(ks[i].end <= ks[b0].start);
                assert(ks[i].start < ks[i].end);
            }
        } else {
            assert(ns[a] == ks[a0]);
            if a0 < i - 1 {
                assert(ks[a0].end <= ks[i - 1].start);
                assert(ks[i - 1].start < ks[i - 1].end);
            }
        }
    }
    assert forall|a: int| 0 <= a < ns.len() implies (#[trigger] ns[a]).start < ns[a].end by {
        if a != i {
            let a0 = if a < i { a } else { a - 1 };
            assert(ns[a] == ks[a0]);
        }
    }
}

pub proof fn lemma_sorted_remove(ks: Seq<Range>, i: int)
    requires
        sorted(ks),
        0 <= i < ks.len(),
    ensures
        sorted(ks.remove(i)),
{
    let ns = ks.remove(i);
    assert forall|a: int, b: int| 0 <= a < b < ns.len() implies (#[trigger] ns[a]).end <= (
    #[trigger] ns[b]).start by {
        let a0 = if a < i { a } else { a + 1 };
        let b0 = if b < i { b } else { b + 1 };
        assert(ns[a] == ks[a0] && ns[b] == ks[b0]);
    }
    assert forall|a: int| 0 <= a < ns.len() implies (#[trigger] ns[a]).start < ns[a].end by {
        let a0 = if a < i { a } else { a + 1 };
        assert(ns[a] == ks[a0]);
    }
}

pub proof fn lemma_sorted_update(ks: Seq<Range>, i: int, r: Range)
    requires
        sorted(ks),
        0 <= i < ks.len(),
        r.start < r.end,
        0 < i ==> ks[i - 1].end <= r.start,
        i + 1 < ks.len() ==> r.end <= ks[i + 1].start,
    ensures
        sorted(ks.update(i, r)),
{
    lemma_sorted_remove(ks, i);
    let rs = ks.remove(i);
    if 0 < i {
        assert(rs[i - 1] == ks[i - 1]);
    }
    if i < rs.len() {
        assert(rs[i] == ks[i + 1]);
    }
    lemma_sorted_insert(rs, i, r);
    assert(rs.insert(i, r) =~= ks.update(i, r));
}

/// Where a range that meets no segment stands.
pub proof fn lemma_place(ks: Seq<Range>, r: Range)
    requires
        sorted(ks),
        r.well_formed(),
        range_free(ks, r),
    ensures
        0 <= place(ks, r) <= ks.len(),
        0 < place(ks, r) ==> ks[place(ks, r) - 1].end <= r.start && ks[place(ks, r) - 1].start
            < r.start,
        place(ks, r) < ks.len() ==> r.end <= ks[place(ks, r)].start,
{
    let i = place(ks, r);
    lemma_count_before(ks, at(r.start));
    if 0 < i {
        assert(ks[i - 1].before(at(r.start)));
        assert(!ks[i - 1].meets(r));
    }
    if i < ks.len() {
        assert(!ks[i].before(at(r.start)));
        assert(!ks[i].meets(r));
    }
}

pub proof fn lemma_wf_with<O: SetOperations>(
    m: Segments<<O::V as View>::V>,
    i: int,
    r: Range,
    v: <O::V as View>::V,
)
    requires
        wf_segments::<O>(m),
        0 <= i <= m.ks.len(),
        r.start < r.end,
        0 < i ==> m.ks[i - 1].end <= r.start,
        i < m.ks.len() ==> r.end <= m.ks[i].start,
        O::fits(r, v),
    ensures
        wf_segments::<O>(m.with(i, r, v)),
{
    lemma_sorted_insert(m.ks, i, r);
    let n = m.with(i, r, v);
    assert forall|a: int| 0 <= a < n.ks.len() implies O::fits(#[trigger] n.ks[a], n.vs[a]) by {
        if a != i {
            let a0 = if a < i { a } else { a - 1 };
            assert(n.ks[a] == m.ks[a0] && n.vs[a] == m.vs[a0]);
        }
    }
}

pub proof fn lemma_wf_without<O: SetOperations>(m: Segments<<O::V as View>::V>, i: int)
    requires
        wf_segments::<O>(m),
        0 <= i < m.ks.len(),
    ensures
        wf_segments::<O>(m.without(i)),
{
    lemma_sorted_remove(m.ks, i);
    let n = m.without(i);
    assert forall|a: int| 0 <= a < n.ks.len() implies O::fits(#[trigger] n.ks[a], n.vs[a]) by {
        let a0 = if a < i { a } else { a + 1 };
        assert(n.ks[a] == m.ks[a0] && n.vs[a] == m.vs[a0]);
    }
}

pub proof fn lemma_wf_set<O: SetOperations>(
    m: Segments<<O::V as View>::V>,
    i: int,
    r: Range,
    v: <O::V as View>::V,
)
    requires
        wf_segments::<O>(m),
        0 <= i < m.ks.len(),
        r.start < r.end,
        0 < i ==> m.ks[i - 1].end <= r.start,
        i + 1 < m.ks.len() ==> r.end <= m.ks[i + 1].start,
        O::fits(r, v),
    ensures
        wf_segments::<O>(m.set(i, r, v)),
{
    lemma_sorted_update(m.ks, i, r);
    let n = m.set(i, r, v);
    assert forall|a: int| 0 <= a < n.ks.len() implies O::fits(#[trigger] n.ks[a], n.vs[a]) by {
        if a != i {
            assert(n.ks[a] == m.ks[a] && n.vs[a] == m.vs[a]);
        }
    }
}

/// Joining keeps the segments well formed.
pub proof fn lemma_wf_joined<O: SetOperations>(
    m: Segments<<O::V as View>::V>,
    i: int,
    v: <O::V as View>::V,
)
    requires
        wf_segments::<O>(m),
        join_value::<O>(m, i) == Some(v),
        O::fits(Range { start: m.ks[i].start, end: m.ks[i + 1].end }, v),
    ensures
        wf_segments::<O>(joined::<O>(m, i)),
{
    lemma_wf_without::<O>(m, i + 1);
    let n = m.without(i + 1);
    if 0 < i {
        assert(n.ks[i - 1] == m.ks[i - 1]);
    }
    if i + 1 < n.ks.len() {
        assert(n.ks[i + 1] == m.ks[i + 2]);
    }
    assert(n.ks[i] == m.ks[i]);
    lemma_wf_set::<O>(n, i, Range { start: m.ks[i].start, end: m.ks[i + 1].end }, v);
}

/// A cut keeps the segments well formed.
pub proof fn lemma_wf_cut<O: SetOperations>(m: Segments<<O::V as View>::V>, i: int, k: u64)
    requires
        wf_segments::<O>(m),
        0 <= i < m.ks.len(),
        m.ks[i].cuttable(k as int),
        O::fits(Range { start: m.ks[i].start, end: k }, O::lower(m.ks[i], m.vs[i], k)),
        O::fits(Range { start: k, end: m.ks[i].end }, O::upper(m.ks[i], m.vs[i], k)),
    ensures
        wf_segments::<O>(cut::<O>(m, i, k)),
{
    let r = m.ks[i];
    let r1 = Range { start: r.start, end: k };
    let r2 = Range { start: k, end: r.end };
    lemma_wf_set::<O>(m, i, r1, O::lower(r, m.vs[i], k));
    let n = m.set(i, r1, O::lower(r, m.vs[i], k));
    assert(n.ks[i] == r1);
    if i + 1 < n.ks.len() {
        assert(n.ks[i + 1] == m.ks[i + 1]);
    }
    lemma_wf_with::<O>(n, i + 1, r2, O::upper(r, m.vs[i], k));
}

} // verus!
