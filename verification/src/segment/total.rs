use vstd::prelude::*;

use crate::range::Range;
use crate::segment::bounds::{bounded, lemma_bounded_cut};
use crate::segment::keys::{range_free, sorted};
use crate::segment::model::{
    cut, cut_start_at, holder, inserted, isolated, join_value, joined, joined_above, joined_below,
    joined_outside, joined_run, lemma_place, place, wf_segments, Segments,
};
use crate::segment::nav::{lemma_total_length_bound, total_common, total_length};
use crate::segment::ops::SetOperations;
use crate::segment::point::{cutting_keeps, point, PointOperations};
use crate::segment::set::SegmentSet;
use crate::segment::span::{carved, cut_at_key};

verus! {

/// The total length of the segments whose value has the property `f`.
pub open spec fn total<T>(m: Segments<T>, f: spec_fn(T) -> bool) -> int
    decreases m.ks.len(),
{
    if m.ks.len() == 0 {
        0
    } else {
        let n = Segments { ks: m.ks.drop_last(), vs: m.vs.drop_last() };
        total(n, f) + share(m.ks.last(), m.vs.last(), f)
    }
}

/// What a segment adds to the total.
pub open spec fn share<T>(r: Range, v: T, f: spec_fn(T) -> bool) -> int {
    if f(v) {
        r.length()
    } else {
        0
    }
}

/// The property is shared by both parts of a segment that is cut, and by two
/// segments that are joined.
pub open spec fn lasting<O: SetOperations>(f: spec_fn(<O::V as View>::V) -> bool) -> bool {
    &&& forall|r: Range, v: <O::V as View>::V, s: u64|
        #![trigger O::lower(r, v, s)]
        f(O::lower(r, v, s)) == f(v)
    &&& forall|r: Range, v: <O::V as View>::V, s: u64|
        #![trigger O::upper(r, v, s)]
        f(O::upper(r, v, s)) == f(v)
    &&& forall|r1: Range, v1: <O::V as View>::V, r2: Range, v2: <O::V as View>::V|
        #![trigger O::merged(r1, v1, r2, v2)]
        O::merged(r1, v1, r2, v2) is Some ==> f(O::merged(r1, v1, r2, v2).unwrap()) == f(v1) && f(
            v1,
        ) == f(v2)
}

pub proof fn lemma_total_with<T>(m: Segments<T>, i: int, r: Range, v: T, f: spec_fn(T) -> bool)
    requires
        m.ks.len() == m.vs.len(),
        0 <= i <= m.ks.len(),
    ensures
        total(m.with(i, r, v), f) == total(m, f) + share(r, v, f),
    decreases m.ks.len(),
{
    let n = m.with(i, r, v);
    if i == m.ks.len() {
        assert(n.ks.drop_last() =~= m.ks && n.vs.drop_last() =~= m.vs);
    } else {
        let d = Segments { ks: m.ks.drop_last(), vs: m.vs.drop_last() };
        lemma_total_with(d, i, r, v, f);
        assert(n.ks.drop_last() =~= d.with(i, r, v).ks && n.vs.drop_last() =~= d.with(i, r, v).vs);
        assert(n.ks.last() == m.ks.last() && n.vs.last() == m.vs.last());
    }
}

pub proof fn lemma_total_without<T>(m: Segments<T>, i: int, f: spec_fn(T) -> bool)
    requires
        m.ks.len() == m.vs.len(),
        0 <= i < m.ks.len(),
    ensures
        total(m.without(i), f) == total(m, f) - share(m.ks[i], m.vs[i], f),
{
    lemma_total_with(m.without(i), i, m.ks[i], m.vs[i], f);
    assert(m.without(i).with(i, m.ks[i], m.vs[i]) =~= m);
}

pub proof fn lemma_total_set<T>(m: Segments<T>, i: int, r: Range, v: T, f: spec_fn(T) -> bool)
    requires
        m.ks.len() == m.vs.len(),
        0 <= i < m.ks.len(),
    ensures
        total(m.set(i, r, v), f) == total(m, f) - share(m.ks[i], m.vs[i], f) + share(r, v, f),
{
    lemma_total_without(m, i, f);
    lemma_total_with(m.without(i), i, r, v, f);
    assert(m.without(i).with(i, r, v) =~= m.set(i, r, v));
}

pub proof fn lemma_total_set_value<T>(m: Segments<T>, i: int, v: T, f: spec_fn(T) -> bool)
    requires
        m.ks.len() == m.vs.len(),
        0 <= i < m.ks.len(),
    ensures
        total(m.set_value(i, v), f) == total(m, f) - share(m.ks[i], m.vs[i], f) + share(
            m.ks[i],
            v,
            f,
        ),
{
    lemma_total_set(m, i, m.ks[i], v, f);
    assert(m.set(i, m.ks[i], v) =~= m.set_value(i, v));
}

pub proof fn lemma_total_cut<O: SetOperations>(
    m: Segments<<O::V as View>::V>,
    i: int,
    k: u64,
    f: spec_fn(<O::V as View>::V) -> bool,
)
    requires
        m.ks.len() == m.vs.len(),
        0 <= i < m.ks.len(),
        m.ks[i].cuttable(k as int),
        lasting::<O>(f),
    ensures
        total(cut::<O>(m, i, k), f) == total(m, f),
{
    let r = m.ks[i];
    let v = m.vs[i];
    let r1 = Range { start: r.start, end: k };
    lemma_total_set(m, i, r1, O::lower(r, v, k), f);
    lemma_total_with(
        m.set(i, r1, O::lower(r, v, k)),
        i + 1,
        Range { start: k, end: r.end },
        O::upper(r, v, k),
        f,
    );
}

/// Cutting at the bounds of a range keeps the total.
pub proof fn lemma_total_carved<O: SetOperations>(
    m: Segments<<O::V as View>::V>,
    r: Range,
    f: spec_fn(<O::V as View>::V) -> bool,
)
    requires
        m.ks.len() == m.vs.len(),
        lasting::<O>(f),
    ensures
        total(carved::<O>(m, r), f) == total(m, f),
{
    let i = holder(m.ks, r.start as int);
    if 0 <= i < m.ks.len() && m.ks[i].cuttable(r.start as int) {
        lemma_total_cut::<O>(m, i, r.start, f);
    }
    let n = cut_at_key::<O>(m, r.start);
    let j = holder(n.ks, r.end as int);
    if 0 <= j < n.ks.len() && n.ks[j].cuttable(r.end as int) {
        lemma_total_cut::<O>(n, j, r.end, f);
    }
}

/// Joining two segments keeps the total.
pub proof fn lemma_total_joined<O: SetOperations>(
    m: Segments<<O::V as View>::V>,
    i: int,
    f: spec_fn(<O::V as View>::V) -> bool,
)
    requires
        m.ks.len() == m.vs.len(),
        lasting::<O>(f),
    ensures
        total(joined::<O>(m, i), f) == total(m, f),
        joined::<O>(m, i).ks.len() == joined::<O>(m, i).vs.len(),
{
    if let Some(v) = join_value::<O>(m, i) {
        lemma_total_without(m, i + 1, f);
        let n = m.without(i + 1);
        assert(n.ks[i] == m.ks[i] && n.vs[i] == m.vs[i]);
        lemma_total_set(n, i, Range { start: m.ks[i].start, end: m.ks[i + 1].end }, v, f);
    }
}

/// Joining a run of segments keeps the total.
pub proof fn lemma_total_joined_run<O: SetOperations>(
    m: Segments<<O::V as View>::V>,
    i: int,
    end: u64,
    f: spec_fn(<O::V as View>::V) -> bool,
)
    requires
        m.ks.len() == m.vs.len(),
        lasting::<O>(f),
    ensures
        total(joined_run::<O>(m, i, end), f) == total(m, f),
    decreases m.ks.len() - i,
{
    if 0 <= i && i + 1 < m.ks.len() && m.ks[i + 1].start < end {
        if join_value::<O>(m, i) is Some {
            lemma_total_joined::<O>(m, i, f);
            lemma_total_joined_run::<O>(joined::<O>(m, i), i, end, f);
        } else {
            lemma_total_joined_run::<O>(m, i + 1, end, f);
        }
    }
}

/// Joining at the rim of a range keeps the total.
pub proof fn lemma_total_joined_outside<O: SetOperations>(
    m: Segments<<O::V as View>::V>,
    r: Range,
    f: spec_fn(<O::V as View>::V) -> bool,
)
    requires
        m.ks.len() == m.vs.len(),
        lasting::<O>(f),
    ensures
        total(joined_outside::<O>(m, r), f) == total(m, f),
{
    let i = holder(m.ks, r.start as int);
    let m1 = if i < m.ks.len() {
        joined::<O>(m, i - 1)
    } else {
        m
    };
    lemma_total_joined::<O>(m, i - 1, f);
    lemma_total_joined::<O>(m1, holder(m1.ks, r.end - 1), f);
}

/// A segment that is put in adds its share, whether or not it is joined.
pub proof fn lemma_total_inserted<O: SetOperations>(
    m: Segments<<O::V as View>::V>,
    r: Range,
    v: <O::V as View>::V,
    f: spec_fn(<O::V as View>::V) -> bool,
)
    requires
        wf_segments::<O>(m),
        lasting::<O>(f),
        r.start < r.end,
        range_free(m.ks, r),
    ensures
        total(inserted::<O>(m, r, v), f) == total(m, f) + share(r, v, f),
{
    let i = place(m.ks, r);
    lemma_place(m.ks, r);
    match joined_below::<O>(m, i - 1, r, v) {
        Some(v1) => {
            let r1 = Range { start: m.ks[i - 1].start, end: r.end };
            match joined_above::<O>(m, i, r1, v1) {
                Some(v2) => {
                    lemma_total_without(m, i, f);
                    let n = m.without(i);
                    assert(n.ks[i - 1] == m.ks[i - 1] && n.vs[i - 1] == m.vs[i - 1]);
                    lemma_total_set(
                        n,
                        i - 1,
                        Range { start: r1.start, end: m.ks[i].end },
                        v2,
                        f,
                    );
                },
                None => {
                    lemma_total_set(m, i - 1, r1, v1, f);
                },
            }
        },
        None => match joined_above::<O>(m, i, r, v) {
            Some(v2) => {
                lemma_total_set(m, i, Range { start: r.start, end: m.ks[i].end }, v2, f);
            },
            None => {
                lemma_total_with(m, i, r, v, f);
            },
        },
    }
}

/// The total is bounded by the keys that there are.
pub proof fn lemma_total_bound<T>(m: Segments<T>, f: spec_fn(T) -> bool)
    requires
        m.ks.len() == m.vs.len(),
        sorted(m.ks),
    ensures
        0 <= total(m, f) <= u64::MAX,
        total(m, f) <= total_length(m.ks),
{
    lemma_total_below(m, f);
    lemma_total_length_bound(m.ks);
}

proof fn lemma_total_below<T>(m: Segments<T>, f: spec_fn(T) -> bool)
    requires
        m.ks.len() == m.vs.len(),
        sorted(m.ks),
    ensures
        0 <= total(m, f) <= total_length(m.ks),
    decreases m.ks.len(),
{
    if m.ks.len() > 0 {
        let n = Segments { ks: m.ks.drop_last(), vs: m.vs.drop_last() };
        assert forall|i: int, j: int| 0 <= i < j < n.ks.len() implies (#[trigger] n.ks[i]).end <= (
        #[trigger] n.ks[j]).start by {
            assert(n.ks[i] == m.ks[i] && n.ks[j] == m.ks[j]);
        }
        assert forall|i: int| 0 <= i < n.ks.len() implies (#[trigger] n.ks[i]).start
            < n.ks[i].end by {
            assert(n.ks[i] == m.ks[i]);
        }
        lemma_total_below(n, f);
        assert(m.ks[m.ks.len() - 1].start < m.ks[m.ks.len() - 1].end);
    }
}

/// The total length of what the segments whose value has the property `f` have
/// in common with `r`.
pub open spec fn total_in<T>(m: Segments<T>, r: Range, f: spec_fn(T) -> bool) -> int
    decreases m.ks.len(),
{
    if m.ks.len() == 0 {
        0
    } else {
        let n = Segments { ks: m.ks.drop_last(), vs: m.vs.drop_last() };
        total_in(n, r, f) + share(m.ks.last().common(r), m.vs.last(), f)
    }
}

/// The first `i` segments.
pub open spec fn first<T>(m: Segments<T>, i: int) -> Segments<T> {
    Segments { ks: m.ks.take(i), vs: m.vs.take(i) }
}

pub proof fn lemma_total_in_first<T>(m: Segments<T>, r: Range, f: spec_fn(T) -> bool, i: int)
    requires
        m.ks.len() == m.vs.len(),
        0 <= i < m.ks.len(),
    ensures
        total_in(first(m, i + 1), r, f) == total_in(first(m, i), r, f) + share(
            m.ks[i].common(r),
            m.vs[i],
            f,
        ),
{
    let n = first(m, i + 1);
    assert(n.ks.drop_last() =~= m.ks.take(i));
    assert(n.vs.drop_last() =~= m.vs.take(i));
}

/// What the segments have outside a range, together with the range, does not
/// exceed the keys that there are.
pub proof fn lemma_total_outside<T>(m: Segments<T>, r: Range, f: spec_fn(T) -> bool)
    requires
        m.ks.len() == m.vs.len(),
        sorted(m.ks),
        r.well_formed(),
    ensures
        0 <= total_in(m, r, f) <= total(m, f),
        total(m, f) - total_in(m, r, f) + r.length() <= u64::MAX,
{
    lemma_total_outside_below(m, r, f);
    if m.ks.len() > 0 {
        assert(m.ks[m.ks.len() - 1] == m.ks.last());
    }
}

/// How many keys of `r` lie below `k`.
spec fn below_in(r: Range, k: int) -> int {
    if k <= r.start {
        0
    } else if k <= r.end {
        k - r.start
    } else {
        r.length()
    }
}

proof fn lemma_total_outside_below<T>(m: Segments<T>, r: Range, f: spec_fn(T) -> bool)
    requires
        m.ks.len() == m.vs.len(),
        sorted(m.ks),
        r.well_formed(),
    ensures
        0 <= total_in(m, r, f) <= total(m, f),
        m.ks.len() > 0 ==> total(m, f) - total_in(m, r, f) <= m.ks.last().end - below_in(
            r,
            m.ks.last().end as int,
        ),
        m.ks.len() == 0 ==> total(m, f) == 0 && total_in(m, r, f) == 0,
    decreases m.ks.len(),
{
    if m.ks.len() > 0 {
        let n = Segments { ks: m.ks.drop_last(), vs: m.vs.drop_last() };
        assert forall|i: int, j: int| 0 <= i < j < n.ks.len() implies (#[trigger] n.ks[i]).end <= (
        #[trigger] n.ks[j]).start by {
            assert(n.ks[i] == m.ks[i] && n.ks[j] == m.ks[j]);
        }
        assert forall|i: int| 0 <= i < n.ks.len() implies (#[trigger] n.ks[i]).start
            < n.ks[i].end by {
            assert(n.ks[i] == m.ks[i]);
        }
        lemma_total_outside_below(n, r, f);
        let l = m.ks.len() - 1;
        assert(m.ks[l].start < m.ks[l].end);
        if l > 0 {
            assert(n.ks.last() == m.ks[l - 1]);
            assert(m.ks[l - 1].end <= m.ks[l].start);
        }
    }
}

/// With every segment counted, the total is that of the ranges.
pub proof fn lemma_total_is_length<T>(m: Segments<T>, r: Range, f: spec_fn(T) -> bool)
    requires
        m.ks.len() == m.vs.len(),
        forall|v: T| #[trigger] f(v),
    ensures
        total(m, f) == total_length(m.ks),
        total_in(m, r, f) == total_common(m.ks, r),
    decreases m.ks.len(),
{
    if m.ks.len() > 0 {
        lemma_total_is_length(
            Segments { ks: m.ks.drop_last(), vs: m.vs.drop_last() },
            r,
            f,
        );
    }
}

impl<O: PointOperations> SegmentSet<O> {
    /// Cuts the segment at index `i` at the bounds of `ar` that lie inside it,
    /// and tells the index of the part within `ar`.
    pub(crate) fn isolate_index(&mut self, i: usize, ar: Range) -> (j: usize)
        requires
            old(self).wf(),
            i < old(self).ranges().len(),
            old(self).ranges()[i as int].meets(ar),
            ar.start < ar.end,
        ensures
            final(self).wf(),
            final(self).model() == isolated::<O>(old(self).model(), i as int, ar),
            j == cut_start_at(old(self).model(), i as int, ar),
            i <= j <= i + 1,
            j < final(self).ranges().len(),
            ar.covers(final(self).ranges()[j as int]),
            final(self).ranges()[j as int] == old(self).ranges()[i as int].common(ar),
            j == i + 1 ==> final(self).ranges()[i as int].end == ar.start,
            forall|h: int|
                0 <= h < i ==> #[trigger] final(self).ranges()[h] == old(self).ranges()[h]
                    && final(self).values()[h] == old(self).values()[h],
            forall|k: int| #[trigger]
                point::<O>(final(self).model(), k) == point::<O>(old(self).model(), k),
            forall|f: spec_fn(<O::V as View>::V) -> bool|
                lasting::<O>(f) ==> #[trigger] total(final(self).model(), f) == total(
                    old(self).model(),
                    f,
                ),
            forall|p: spec_fn(u64) -> bool|
                bounded(old(self).ranges(), p) && p(ar.start) && p(ar.end)
                    ==> #[trigger] bounded(final(self).ranges(), p),
    {
        let ghost m = self.model();
        let mut j = i;
        if self.range_of(i).can_split_at(ar.start) {
            self.cut_at(i, ar.start);
            let n = self.count_segments();
            j = i + 1;
            proof {
                lemma_cut_keeps_all::<O>(m, i as int, ar.start);
            }
        }
        let ghost m1 = self.model();
        if self.range_of(j).can_split_at(ar.end) {
            self.cut_at(j, ar.end);
            proof {
                lemma_cut_keeps_all::<O>(m1, j as int, ar.end);
            }
        }
        proof {
            let m2 = self.model();
            assert forall|k: int| #[trigger] point::<O>(m2, k) == point::<O>(m, k) by {
                assert(point::<O>(m1, k) == point::<O>(m, k));
            }
            assert forall|f: spec_fn(<O::V as View>::V) -> bool| lasting::<O>(f) implies
                #[trigger] total(m2, f) == total(m, f) by {
                assert(total(m1, f) == total(m, f));
            }
            assert forall|p: spec_fn(u64) -> bool|
                bounded(m.ks, p) && p(ar.start) && p(ar.end) implies #[trigger] bounded(
                m2.ks,
                p,
            ) by {
                assert(bounded(m1.ks, p));
            }
        }
        j
    }
}

proof fn lemma_cut_keeps_all<O: PointOperations>(
    m: Segments<<O::V as View>::V>,
    i: int,
    k: u64,
)
    requires
        wf_segments::<O>(m),
        0 <= i < m.ks.len(),
        m.ks[i].cuttable(k as int),
    ensures
        forall|x: int| #[trigger] point::<O>(cut::<O>(m, i, k), x) == point::<O>(m, x),
        forall|f: spec_fn(<O::V as View>::V) -> bool|
            lasting::<O>(f) ==> #[trigger] total(cut::<O>(m, i, k), f) == total(m, f),
        forall|p: spec_fn(u64) -> bool|
            bounded(m.ks, p) && p(k) ==> #[trigger] bounded(cut::<O>(m, i, k).ks, p),
{
    assert forall|x: int| #[trigger] point::<O>(cut::<O>(m, i, k), x) == point::<O>(m, x) by {
        cutting_keeps::<O>(m, i, k, x);
    }
    assert forall|f: spec_fn(<O::V as View>::V) -> bool| lasting::<O>(f) implies #[trigger] total(
        cut::<O>(m, i, k),
        f,
    ) == total(m, f) by {
        lemma_total_cut::<O>(m, i, k, f);
    }
    assert forall|p: spec_fn(u64) -> bool| bounded(m.ks, p) && p(k) implies #[trigger] bounded(
        cut::<O>(m, i, k).ks,
        p,
    ) by {
        lemma_bounded_cut::<O>(m, i, k, p);
    }
}

} // verus!
