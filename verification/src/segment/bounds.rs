use vstd::prelude::*;

use crate::range::Range;
use crate::segment::keys::{range_free, sorted};
use crate::segment::model::{
    cut, holder, inserted, join_value, joined, joined_above, joined_below, joined_outside,
    joined_run, lemma_place, place, Segments,
};
use crate::segment::ops::SetOperations;
use crate::segment::span::{carved, cut_at_key};

verus! {

/// The bounds of all segments have the property `p`.
pub open spec fn bounded(ks: Seq<Range>, p: spec_fn(u64) -> bool) -> bool {
    forall|i: int| 0 <= i < ks.len() ==> p((#[trigger] ks[i]).start) && p(ks[i].end)
}

pub proof fn lemma_bounded_with<T>(
    m: Segments<T>,
    i: int,
    r: Range,
    v: T,
    p: spec_fn(u64) -> bool,
)
    requires
        bounded(m.ks, p),
        0 <= i <= m.ks.len(),
        p(r.start),
        p(r.end),
    ensures
        bounded(m.with(i, r, v).ks, p),
{
    let n = m.with(i, r, v);
    assert forall|j: int| 0 <= j < n.ks.len() implies p((#[trigger] n.ks[j]).start) && p(
        n.ks[j].end,
    ) by {
        if j < i {
            assert(n.ks[j] == m.ks[j]);
        } else if j > i {
            assert(n.ks[j] == m.ks[j - 1]);
        }
    }
}

pub proof fn lemma_bounded_without<T>(m: Segments<T>, i: int, p: spec_fn(u64) -> bool)
    requires
        bounded(m.ks, p),
        0 <= i < m.ks.len(),
    ensures
        bounded(m.without(i).ks, p),
{
    let n = m.without(i);
    assert forall|j: int| 0 <= j < n.ks.len() implies p((#[trigger] n.ks[j]).start) && p(
        n.ks[j].end,
    ) by {
        let j2 = if j < i { j } else { j + 1 };
        assert(n.ks[j] == m.ks[j2]);
    }
}

pub proof fn lemma_bounded_set<T>(
    m: Segments<T>,
    i: int,
    r: Range,
    v: T,
    p: spec_fn(u64) -> bool,
)
    requires
        bounded(m.ks, p),
        0 <= i < m.ks.len(),
        p(r.start),
        p(r.end),
    ensures
        bounded(m.set(i, r, v).ks, p),
{
    let n = m.set(i, r, v);
    assert forall|j: int| 0 <= j < n.ks.len() implies p((#[trigger] n.ks[j]).start) && p(
        n.ks[j].end,
    ) by {
        if j != i {
            assert(n.ks[j] == m.ks[j]);
        }
    }
}

pub proof fn lemma_bounded_cut<O: SetOperations>(
    m: Segments<<O::V as View>::V>,
    i: int,
    k: u64,
    p: spec_fn(u64) -> bool,
)
    requires
        bounded(m.ks, p),
        m.ks.len() == m.vs.len(),
        0 <= i < m.ks.len(),
        p(k),
    ensures
        bounded(cut::<O>(m, i, k).ks, p),
{
    let r = m.ks[i];
    let r1 = Range { start: r.start, end: k };
    let n = m.set(i, r1, O::lower(r, m.vs[i], k));
    lemma_bounded_set(m, i, r1, O::lower(r, m.vs[i], k), p);
    lemma_bounded_with(
        n,
        i + 1,
        Range { start: k, end: r.end },
        O::upper(r, m.vs[i], k),
        p,
    );
}

pub proof fn lemma_bounded_cut_at_key<O: SetOperations>(
    m: Segments<<O::V as View>::V>,
    k: u64,
    p: spec_fn(u64) -> bool,
)
    requires
        bounded(m.ks, p),
        m.ks.len() == m.vs.len(),
        p(k),
    ensures
        bounded(cut_at_key::<O>(m, k).ks, p),
        cut_at_key::<O>(m, k).ks.len() == cut_at_key::<O>(m, k).vs.len(),
{
    let i = holder(m.ks, k as int);
    if 0 <= i < m.ks.len() && m.ks[i].cuttable(k as int) {
        lemma_bounded_cut::<O>(m, i, k, p);
    }
}

pub proof fn lemma_bounded_carved<O: SetOperations>(
    m: Segments<<O::V as View>::V>,
    r: Range,
    p: spec_fn(u64) -> bool,
)
    requires
        bounded(m.ks, p),
        m.ks.len() == m.vs.len(),
        p(r.start),
        p(r.end),
    ensures
        bounded(carved::<O>(m, r).ks, p),
{
    lemma_bounded_cut_at_key::<O>(m, r.start, p);
    lemma_bounded_cut_at_key::<O>(cut_at_key::<O>(m, r.start), r.end, p);
}

pub proof fn lemma_bounded_joined<O: SetOperations>(
    m: Segments<<O::V as View>::V>,
    i: int,
    p: spec_fn(u64) -> bool,
)
    requires
        bounded(m.ks, p),
        m.ks.len() == m.vs.len(),
    ensures
        bounded(joined::<O>(m, i).ks, p),
        joined::<O>(m, i).ks.len() == joined::<O>(m, i).vs.len(),
{
    if let Some(v) = join_value::<O>(m, i) {
        lemma_bounded_without(m, i + 1, p);
        assert(p(m.ks[i].start) && p(m.ks[i + 1].end));
        lemma_bounded_set(
            m.without(i + 1),
            i,
            Range { start: m.ks[i].start, end: m.ks[i + 1].end },
            v,
            p,
        );
    }
}

pub proof fn lemma_bounded_joined_run<O: SetOperations>(
    m: Segments<<O::V as View>::V>,
    i: int,
    end: u64,
    p: spec_fn(u64) -> bool,
)
    requires
        bounded(m.ks, p),
        m.ks.len() == m.vs.len(),
    ensures
        bounded(joined_run::<O>(m, i, end).ks, p),
        joined_run::<O>(m, i, end).ks.len() == joined_run::<O>(m, i, end).vs.len(),
    decreases m.ks.len() - i,
{
    if 0 <= i && i + 1 < m.ks.len() && m.ks[i + 1].start < end {
        if join_value::<O>(m, i) is Some {
            lemma_bounded_joined::<O>(m, i, p);
            lemma_bounded_joined_run::<O>(joined::<O>(m, i), i, end, p);
        } else {
            lemma_bounded_joined_run::<O>(m, i + 1, end, p);
        }
    }
}

pub proof fn lemma_bounded_joined_outside<O: SetOperations>(
    m: Segments<<O::V as View>::V>,
    r: Range,
    p: spec_fn(u64) -> bool,
)
    requires
        bounded(m.ks, p),
        m.ks.len() == m.vs.len(),
    ensures
        bounded(joined_outside::<O>(m, r).ks, p),
{
    let i = holder(m.ks, r.start as int);
    lemma_bounded_joined::<O>(m, i - 1, p);
    let m1 = if i < m.ks.len() {
        joined::<O>(m, i - 1)
    } else {
        m
    };
    lemma_bounded_joined::<O>(m1, holder(m1.ks, r.end - 1), p);
}

pub proof fn lemma_bounded_inserted<O: SetOperations>(
    m: Segments<<O::V as View>::V>,
    r: Range,
    v: <O::V as View>::V,
    p: spec_fn(u64) -> bool,
)
    requires
        bounded(m.ks, p),
        sorted(m.ks),
        m.ks.len() == m.vs.len(),
        r.start < r.end,
        range_free(m.ks, r),
        p(r.start),
        p(r.end),
    ensures
        bounded(inserted::<O>(m, r, v).ks, p),
{
    let i = place(m.ks, r);
    lemma_place(m.ks, r);
    match joined_below::<O>(m, i - 1, r, v) {
        Some(v1) => {
            let r1 = Range { start: m.ks[i - 1].start, end: r.end };
            assert(p(m.ks[i - 1].start));
            match joined_above::<O>(m, i, r1, v1) {
                Some(v2) => {
                    assert(p(m.ks[i].end));
                    lemma_bounded_without(m, i, p);
                    lemma_bounded_set(
                        m.without(i),
                        i - 1,
                        Range { start: r1.start, end: m.ks[i].end },
                        v2,
                        p,
                    );
                },
                None => {
                    lemma_bounded_set(m, i - 1, r1, v1, p);
                },
            }
        },
        None => match joined_above::<O>(m, i, r, v) {
            Some(v2) => {
                assert(p(m.ks[i].end));
                lemma_bounded_set(m, i, Range { start: r.start, end: m.ks[i].end }, v2, p);
            },
            None => {
                lemma_bounded_with(m, i, r, v, p);
            },
        },
    }
}

} // verus!
