use vstd::prelude::*;

use crate::range::Range;
use crate::segment::keys::{held_at, holder_is_unique, range_free, sorted};
use crate::segment::model::{
    cut, cut_start, cut_start_at, holder, inserted, isolated, join_value, joined, joined_above,
    joined_below, joined_outside, joined_run, lemma_holder, lemma_place, lemma_wf_cut,
    lemma_wf_joined, lemma_wf_set, lemma_wf_with, lemma_wf_without, place, wf_segments, Segments,
};
use crate::segment::ops::SetOperations;

verus! {

/// Operations under which a segment's value says something of each key that
/// the segment holds, and under which neither joining nor cutting changes what
/// is said of a key.
pub trait PointOperations: SetOperations {
    type P;

    /// What value `v` on range `r` says of key `k`.
    spec fn at(r: Range, v: <Self::V as View>::V, k: int) -> Self::P;

    proof fn merge_keeps(
        r1: Range,
        v1: <Self::V as View>::V,
        r2: Range,
        v2: <Self::V as View>::V,
        v: <Self::V as View>::V,
        k: int,
    )
        requires
            r1.well_formed(),
            r2.well_formed(),
            r1.end == r2.start,
            Self::fits(r1, v1),
            Self::fits(r2, v2),
            Self::merged(r1, v1, r2, v2) == Some(v),
            r1.start <= k < r2.end,
        ensures
            Self::at(Range { start: r1.start, end: r2.end }, v, k) == (if k < r1.end {
                Self::at(r1, v1, k)
            } else {
                Self::at(r2, v2, k)
            }),
            Self::fits(Range { start: r1.start, end: r2.end }, v),
    ;

    proof fn split_keeps(r: Range, v: <Self::V as View>::V, split: u64, k: int)
        requires
            r.cuttable(split as int),
            Self::fits(r, v),
            r.has(k),
        ensures
            Self::at(r, v, k) == (if k < split {
                Self::at(Range { start: r.start, end: split }, Self::lower(r, v, split), k)
            } else {
                Self::at(Range { start: split, end: r.end }, Self::upper(r, v, split), k)
            }),
            Self::fits(Range { start: r.start, end: split }, Self::lower(r, v, split)),
            Self::fits(Range { start: split, end: r.end }, Self::upper(r, v, split)),
    ;
}

/// What the segments say of key `k`.
pub open spec fn point<O: PointOperations>(m: Segments<<O::V as View>::V>, k: int) -> Option<O::P> {
    let i = holder(m.ks, k);
    if i < m.ks.len() {
        Some(O::at(m.ks[i], m.vs[i], k))
    } else {
        None
    }
}

pub proof fn lemma_point_held<O: PointOperations>(
    m: Segments<<O::V as View>::V>,
    k: int,
    i: int,
)
    requires
        sorted(m.ks),
        held_at(m.ks, k, i),
    ensures
        point::<O>(m, k) == Some(O::at(m.ks[i], m.vs[i], k)),
{
    lemma_holder(m.ks, k, i);
}

pub proof fn lemma_point_free<O: PointOperations>(m: Segments<<O::V as View>::V>, k: int)
    requires
        forall|i: int| !#[trigger] held_at(m.ks, k, i),
    ensures
        point::<O>(m, k) is None,
{
}

/// A further segment speaks for its keys and changes nothing else.
pub proof fn with_speaks<O: PointOperations>(
    m: Segments<<O::V as View>::V>,
    i: int,
    r: Range,
    v: <O::V as View>::V,
    k: int,
)
    requires
        sorted(m.ks),
        m.ks.len() == m.vs.len(),
        0 <= i <= m.ks.len(),
        sorted(m.with(i, r, v).ks),
    ensures
        point::<O>(m.with(i, r, v), k) == (if r.has(k) {
            Some(O::at(r, v, k))
        } else {
            point::<O>(m, k)
        }),
{
    let n = m.with(i, r, v);
    assert(n.ks[i] == r && n.vs[i] == v);
    if r.has(k) {
        assert(held_at(n.ks, k, i));
        lemma_point_held::<O>(n, k, i);
    } else if exists|h: int| held_at(m.ks, k, h) {
        let h = choose|h: int| held_at(m.ks, k, h);
        lemma_point_held::<O>(m, k, h);
        let h2 = if h < i { h } else { h + 1 };
        assert(n.ks[h2] == m.ks[h] && n.vs[h2] == m.vs[h]);
        assert(held_at(n.ks, k, h2));
        lemma_point_held::<O>(n, k, h2);
    } else {
        lemma_point_free::<O>(m, k);
        assert forall|h: int| !#[trigger] held_at(n.ks, k, h) by {
            if held_at(n.ks, k, h) && h != i {
                let h2 = if h < i { h } else { h - 1 };
                assert(n.ks[h] == m.ks[h2]);
                assert(held_at(m.ks, k, h2));
            }
        }
        lemma_point_free::<O>(n, k);
    }
}

/// Once a segment is taken out nothing is said of its keys.
pub proof fn without_is_silent<O: PointOperations>(
    m: Segments<<O::V as View>::V>,
    i: int,
    k: int,
)
    requires
        wf_segments::<O>(m),
        0 <= i < m.ks.len(),
    ensures
        point::<O>(m.without(i), k) == (if m.ks[i].has(k) {
            None
        } else {
            point::<O>(m, k)
        }),
{
    let n = m.without(i);
    lemma_wf_without::<O>(m, i);
    if exists|h: int| held_at(n.ks, k, h) {
        let h = choose|h: int| held_at(n.ks, k, h);
        let h2 = if h < i { h } else { h + 1 };
        assert(n.ks[h] == m.ks[h2] && n.vs[h] == m.vs[h2]);
        assert(held_at(m.ks, k, h2));
        lemma_point_held::<O>(n, k, h);
        lemma_point_held::<O>(m, k, h2);
        if m.ks[i].has(k) {
            holder_is_unique(m.ks, k, i, h2);
        }
    } else {
        lemma_point_free::<O>(n, k);
        if !m.ks[i].has(k) {
            assert forall|h: int| !#[trigger] held_at(m.ks, k, h) by {
                if held_at(m.ks, k, h) {
                    let h2 = if h < i { h } else { h - 1 };
                    assert(n.ks[h2] == m.ks[h]);
                    assert(held_at(n.ks, k, h2));
                }
            }
            lemma_point_free::<O>(m, k);
        }
    }
}

/// A segment in another's place speaks for its own keys, and nothing is said
/// of the keys that only the other one held.
pub proof fn set_speaks<O: PointOperations>(
    m: Segments<<O::V as View>::V>,
    i: int,
    r: Range,
    v: <O::V as View>::V,
    k: int,
)
    requires
        wf_segments::<O>(m),
        0 <= i < m.ks.len(),
        sorted(m.set(i, r, v).ks),
    ensures
        point::<O>(m.set(i, r, v), k) == (if r.has(k) {
            Some(O::at(r, v, k))
        } else if m.ks[i].has(k) {
            None
        } else {
            point::<O>(m, k)
        }),
{
    without_is_silent::<O>(m, i, k);
    lemma_wf_without::<O>(m, i);
    assert(m.without(i).with(i, r, v) =~= m.set(i, r, v));
    with_speaks::<O>(m.without(i), i, r, v, k);
}

/// Joining two segments changes nothing that is said of any key.
pub proof fn joining_keeps<O: PointOperations>(m: Segments<<O::V as View>::V>, i: int, k: int)
    requires
        wf_segments::<O>(m),
    ensures
        wf_segments::<O>(joined::<O>(m, i)),
        point::<O>(joined::<O>(m, i), k) == point::<O>(m, k),
{
    if let Some(v) = join_value::<O>(m, i) {
        let r1 = m.ks[i];
        let r2 = m.ks[i + 1];
        let r = Range { start: r1.start, end: r2.end };
        O::merge_keeps(r1, m.vs[i], r2, m.vs[i + 1], v, r1.start as int);
        lemma_wf_joined::<O>(m, i, v);
        let n = m.without(i + 1);
        lemma_wf_without::<O>(m, i + 1);
        assert(n.ks[i] == r1 && n.vs[i] == m.vs[i]);
        without_is_silent::<O>(m, i + 1, k);
        set_speaks::<O>(n, i, r, v, k);
        if r.has(k) {
            O::merge_keeps(r1, m.vs[i], r2, m.vs[i + 1], v, k);
            if k < r1.end {
                assert(held_at(m.ks, k, i));
                lemma_point_held::<O>(m, k, i);
            } else {
                assert(held_at(m.ks, k, i + 1));
                lemma_point_held::<O>(m, k, i + 1);
            }
        }
    }
}

/// Joining a run of segments changes nothing that is said of any key.
pub proof fn joining_run_keeps<O: PointOperations>(
    m: Segments<<O::V as View>::V>,
    i: int,
    end: u64,
    k: int,
)
    requires
        wf_segments::<O>(m),
    ensures
        wf_segments::<O>(joined_run::<O>(m, i, end)),
        point::<O>(joined_run::<O>(m, i, end), k) == point::<O>(m, k),
    decreases m.ks.len() - i,
{
    if 0 <= i && i + 1 < m.ks.len() && m.ks[i + 1].start < end {
        if join_value::<O>(m, i) is Some {
            joining_keeps::<O>(m, i, k);
            joining_run_keeps::<O>(joined::<O>(m, i), i, end, k);
        } else {
            joining_run_keeps::<O>(m, i + 1, end, k);
        }
    }
}

/// Joining at the rim of a range changes nothing that is said of any key.
pub proof fn joining_outside_keeps<O: PointOperations>(
    m: Segments<<O::V as View>::V>,
    r: Range,
    k: int,
)
    requires
        wf_segments::<O>(m),
    ensures
        wf_segments::<O>(joined_outside::<O>(m, r)),
        point::<O>(joined_outside::<O>(m, r), k) == point::<O>(m, k),
{
    let i = holder(m.ks, r.start as int);
    let m1 = if i < m.ks.len() {
        joined::<O>(m, i - 1)
    } else {
        m
    };
    joining_keeps::<O>(m, i - 1, k);
    joining_keeps::<O>(m1, holder(m1.ks, r.end - 1), k);
}

/// A cut changes nothing that is said of any key.
pub proof fn cutting_keeps<O: PointOperations>(
    m: Segments<<O::V as View>::V>,
    i: int,
    s: u64,
    k: int,
)
    requires
        wf_segments::<O>(m),
        0 <= i < m.ks.len(),
        m.ks[i].cuttable(s as int),
    ensures
        wf_segments::<O>(cut::<O>(m, i, s)),
        point::<O>(cut::<O>(m, i, s), k) == point::<O>(m, k),
{
    let r = m.ks[i];
    let v = m.vs[i];
    assert(O::fits(r, v));
    O::split_keeps(r, v, s, r.start as int);
    lemma_wf_cut::<O>(m, i, s);
    let r1 = Range { start: r.start, end: s };
    let r2 = Range { start: s, end: r.end };
    lemma_wf_set::<O>(m, i, r1, O::lower(r, v, s));
    set_speaks::<O>(m, i, r1, O::lower(r, v, s), k);
    with_speaks::<O>(
        m.set(i, r1, O::lower(r, v, s)),
        i + 1,
        r2,
        O::upper(r, v, s),
        k,
    );
    if r.has(k) {
        O::split_keeps(r, v, s, k);
        assert(held_at(m.ks, k, i));
        lemma_point_held::<O>(m, k, i);
    }
}

/// Isolating a part of a segment changes nothing that is said of any key.
pub proof fn isolating_keeps<O: PointOperations>(
    m: Segments<<O::V as View>::V>,
    i: int,
    r: Range,
    k: int,
)
    requires
        wf_segments::<O>(m),
        0 <= i < m.ks.len(),
    ensures
        wf_segments::<O>(isolated::<O>(m, i, r)),
        point::<O>(isolated::<O>(m, i, r), k) == point::<O>(m, k),
{
    if m.ks[i].cuttable(r.start as int) {
        cutting_keeps::<O>(m, i, r.start, k);
    }
    let m1 = cut_start::<O>(m, i, r);
    let j = cut_start_at(m, i, r);
    if m1.ks[j].cuttable(r.end as int) {
        cutting_keeps::<O>(m1, j, r.end, k);
    }
}

/// A segment joined to its lower neighbour.
proof fn lemma_joined_below<O: SetOperations>(
    m: Segments<<O::V as View>::V>,
    i: int,
    r: Range,
    v: <O::V as View>::V,
    v1: <O::V as View>::V,
)
    requires
        m.ks.len() == m.vs.len(),
        0 < i <= m.ks.len(),
        joined_below::<O>(m, i - 1, r, v) == Some(v1),
    ensures
        joined::<O>(m.with(i, r, v), i - 1) == m.set(
            i - 1,
            Range { start: m.ks[i - 1].start, end: r.end },
            v1,
        ),
{
    let n = m.with(i, r, v);
    assert(n.ks[i] == r && n.vs[i] == v);
    assert(n.ks[i - 1] == m.ks[i - 1] && n.vs[i - 1] == m.vs[i - 1]);
    assert(n.without(i) =~= m);
}

/// A segment joined to its upper neighbour.
proof fn lemma_joined_above<O: SetOperations>(
    m: Segments<<O::V as View>::V>,
    i: int,
    r: Range,
    v: <O::V as View>::V,
)
    requires
        m.ks.len() == m.vs.len(),
        0 <= i <= m.ks.len(),
    ensures
        joined::<O>(m.with(i, r, v), i) == (match joined_above::<O>(m, i, r, v) {
            Some(v2) => m.set(i, Range { start: r.start, end: m.ks[i].end }, v2),
            None => m.with(i, r, v),
        }),
{
    let n = m.with(i, r, v);
    assert(n.ks[i] == r && n.vs[i] == v);
    if i < m.ks.len() {
        assert(n.ks[i + 1] == m.ks[i] && n.vs[i + 1] == m.vs[i]);
        assert(n.without(i + 1) =~= m.set(i, r, v));
        if let Some(v2) = joined_above::<O>(m, i, r, v) {
            let r2 = Range { start: r.start, end: m.ks[i].end };
            assert(m.set(i, r, v).set(i, r2, v2) =~= m.set(i, r2, v2));
        }
    }
}

/// Putting a segment in is placing it and then joining it.
pub proof fn lemma_inserted_is_joined<O: SetOperations>(
    m: Segments<<O::V as View>::V>,
    r: Range,
    v: <O::V as View>::V,
)
    requires
        m.ks.len() == m.vs.len(),
        0 <= place(m.ks, r) <= m.ks.len(),
    ensures
        ({
            let i = place(m.ks, r);
            let n = m.with(i, r, v);
            inserted::<O>(m, r, v) == (if joined_below::<O>(m, i - 1, r, v) is Some {
                joined::<O>(joined::<O>(n, i - 1), i - 1)
            } else {
                joined::<O>(n, i)
            })
        }),
{
    let i = place(m.ks, r);
    match joined_below::<O>(m, i - 1, r, v) {
        Some(v1) => {
            lemma_joined_below::<O>(m, i, r, v, v1);
            let r1 = Range { start: m.ks[i - 1].start, end: r.end };
            let n1 = m.set(i - 1, r1, v1);
            assert(n1.ks[i - 1] == r1 && n1.vs[i - 1] == v1);
            if i < m.ks.len() {
                assert(n1.ks[i] == m.ks[i] && n1.vs[i] == m.vs[i]);
                if let Some(v2) = joined_above::<O>(m, i, r1, v1) {
                    let r2 = Range { start: r1.start, end: m.ks[i].end };
                    assert(n1.without(i).set(i - 1, r2, v2) =~= m.without(i).set(i - 1, r2, v2));
                }
            }
        },
        None => {
            lemma_joined_above::<O>(m, i, r, v);
        },
    }
}

/// A segment that was put in speaks for its keys, whether or not it was joined
/// to its neighbours, and changes nothing that is said of other keys.
pub proof fn insertion_speaks<O: PointOperations>(
    m: Segments<<O::V as View>::V>,
    r: Range,
    v: <O::V as View>::V,
    k: int,
)
    requires
        wf_segments::<O>(m),
        r.start < r.end,
        range_free(m.ks, r),
        O::fits(r, v),
    ensures
        wf_segments::<O>(inserted::<O>(m, r, v)),
        point::<O>(inserted::<O>(m, r, v), k) == (if r.has(k) {
            Some(O::at(r, v, k))
        } else {
            point::<O>(m, k)
        }),
{
    let i = place(m.ks, r);
    lemma_place(m.ks, r);
    lemma_wf_with::<O>(m, i, r, v);
    with_speaks::<O>(m, i, r, v, k);
    let n = m.with(i, r, v);
    lemma_inserted_is_joined::<O>(m, r, v);
    joining_keeps::<O>(n, i - 1, k);
    joining_keeps::<O>(joined::<O>(n, i - 1), i - 1, k);
    joining_keeps::<O>(n, i, k);
}

} // verus!
