use vstd::prelude::*;

use crate::range::Range;
use crate::segment::keys::{count_before, free, gap_at, held_at, lemma_count_before, sorted, Gap};
use crate::segment::model::{cut, holder, lemma_holder, lemma_wf_set, lemma_wf_without, wf_segments, Segments};
use crate::segment::nav::{at, gap_after};
use crate::segment::ops::SetOperations;
use crate::segment::point::{
    cutting_keeps, lemma_point_free, lemma_point_held, point, PointOperations,
};
use crate::segment::set::SegmentSet;

verus! {

/// How many segments start below `k`.
pub open spec fn below(ks: Seq<Range>, k: u64) -> int {
    count_before(ks, at(k)) as int
}

/// No segment has `k` strictly inside it.
pub open spec fn uncut(ks: Seq<Range>, k: int) -> bool {
    forall|i: int| 0 <= i < ks.len() ==> !(#[trigger] ks[i]).cuttable(k)
}

/// The segments after the one that has `k` strictly inside it was cut there.
pub open spec fn cut_at_key<O: SetOperations>(
    m: Segments<<O::V as View>::V>,
    k: u64,
) -> Segments<<O::V as View>::V> {
    let i = holder(m.ks, k as int);
    if 0 <= i < m.ks.len() && m.ks[i].cuttable(k as int) {
        cut::<O>(m, i, k)
    } else {
        m
    }
}

/// The segments after they were cut at both bounds of `r`.
pub open spec fn carved<O: SetOperations>(
    m: Segments<<O::V as View>::V>,
    r: Range,
) -> Segments<<O::V as View>::V> {
    cut_at_key::<O>(cut_at_key::<O>(m, r.start), r.end)
}

/// The segments without those at the indices from `a` up to `b`.
pub open spec fn dropped<T>(m: Segments<T>, a: int, b: int) -> Segments<T> {
    Segments { ks: m.ks.take(a) + m.ks.skip(b), vs: m.vs.take(a) + m.vs.skip(b) }
}

/// The segments without what lay in `r`.
pub open spec fn cleared<O: SetOperations>(
    m: Segments<<O::V as View>::V>,
    r: Range,
) -> Segments<<O::V as View>::V> {
    let c = carved::<O>(m, r);
    dropped(c, below(c.ks, r.start), below(c.ks, r.end))
}

/// How the segments lie about `r` when none crosses its bounds.
pub open spec fn parted(ks: Seq<Range>, r: Range, a: int, b: int) -> bool {
    &&& 0 <= a <= b <= ks.len()
    &&& forall|i: int| 0 <= i < a ==> (#[trigger] ks[i]).end <= r.start
    &&& forall|i: int| a <= i < b ==> r.covers(#[trigger] ks[i])
    &&& forall|i: int| b <= i < ks.len() ==> r.end <= (#[trigger] ks[i]).start
}

pub proof fn lemma_parted(ks: Seq<Range>, r: Range)
    requires
        sorted(ks),
        r.start <= r.end,
        uncut(ks, r.start as int),
        uncut(ks, r.end as int),
    ensures
        parted(ks, r, below(ks, r.start), below(ks, r.end)),
{
    lemma_count_before(ks, at(r.start));
    lemma_count_before(ks, at(r.end));
    let a = below(ks, r.start);
    let b = below(ks, r.end);
    if b < a {
        assert(ks[b].before(at(r.start)));
        assert(!ks[b].before(at(r.end)));
    }
    assert forall|i: int| 0 <= i < a implies (#[trigger] ks[i]).end <= r.start by {
        assert(ks[i].before(at(r.start)));
        assert(!ks[i].cuttable(r.start as int));
    }
    assert forall|i: int| a <= i < b implies r.covers(#[trigger] ks[i]) by {
        assert(!ks[i].before(at(r.start)));
        assert(ks[i].before(at(r.end)));
        assert(!ks[i].cuttable(r.end as int));
    }
    assert forall|i: int| b <= i < ks.len() implies r.end <= (#[trigger] ks[i]).start by {
        assert(!ks[i].before(at(r.end)));
    }
}

/// A cut leaves no segment with the key inside it, and crosses no key anew.
pub proof fn lemma_cut_at_key<O: SetOperations>(m: Segments<<O::V as View>::V>, k: u64)
    requires
        sorted(m.ks),
        m.ks.len() == m.vs.len(),
    ensures
        uncut(cut_at_key::<O>(m, k).ks, k as int),
        forall|x: int| uncut(m.ks, x) ==> #[trigger] uncut(cut_at_key::<O>(m, k).ks, x),
{
    let n = cut_at_key::<O>(m, k);
    if exists|i: int| 0 <= i < m.ks.len() && (#[trigger] m.ks[i]).cuttable(k as int) {
        let i = choose|i: int| 0 <= i < m.ks.len() && (#[trigger] m.ks[i]).cuttable(k as int);
        assert(held_at(m.ks, k as int, i));
        lemma_holder(m.ks, k as int, i);
        assert(n == cut::<O>(m, i, k));
        assert forall|j: int| 0 <= j < n.ks.len() implies !(#[trigger] n.ks[j]).cuttable(
            k as int,
        ) by {
            if j < i {
                assert(n.ks[j] == m.ks[j]);
                assert(m.ks[j].end <= m.ks[i].start);
            } else if j > i + 1 {
                assert(n.ks[j] == m.ks[j - 1]);
                assert(m.ks[i].end <= m.ks[j - 1].start);
            }
        }
        assert forall|x: int| uncut(m.ks, x) implies #[trigger] uncut(n.ks, x) by {
            assert forall|j: int| 0 <= j < n.ks.len() implies !(#[trigger] n.ks[j]).cuttable(x) by {
                assert(!m.ks[i].cuttable(x));
                if j < i {
                    assert(n.ks[j] == m.ks[j]);
                } else if j > i + 1 {
                    assert(n.ks[j] == m.ks[j - 1]);
                }
            }
        }
    } else {
        assert(n == m);
    }
}

/// Cutting at a key changes nothing that is said of any key.
pub proof fn cutting_at_key_keeps<O: PointOperations>(
    m: Segments<<O::V as View>::V>,
    s: u64,
    k: int,
)
    requires
        wf_segments::<O>(m),
    ensures
        wf_segments::<O>(cut_at_key::<O>(m, s)),
        point::<O>(cut_at_key::<O>(m, s), k) == point::<O>(m, k),
{
    let i = holder(m.ks, s as int);
    if 0 <= i < m.ks.len() && m.ks[i].cuttable(s as int) {
        cutting_keeps::<O>(m, i, s, k);
    }
}

/// Cutting at the bounds of a range changes nothing that is said of any key.
pub proof fn carving_keeps<O: PointOperations>(
    m: Segments<<O::V as View>::V>,
    r: Range,
    k: int,
)
    requires
        wf_segments::<O>(m),
    ensures
        wf_segments::<O>(carved::<O>(m, r)),
        point::<O>(carved::<O>(m, r), k) == point::<O>(m, k),
{
    cutting_at_key_keeps::<O>(m, r.start, k);
    cutting_at_key_keeps::<O>(cut_at_key::<O>(m, r.start), r.end, k);
}

/// After the cuts the segments part into those below, within and above the
/// range.
pub proof fn lemma_carved_parts<O: SetOperations>(m: Segments<<O::V as View>::V>, r: Range)
    requires
        sorted(m.ks),
        m.ks.len() == m.vs.len(),
        sorted(cut_at_key::<O>(m, r.start).ks),
        sorted(carved::<O>(m, r).ks),
        r.start <= r.end,
    ensures
        ({
            let c = carved::<O>(m, r);
            parted(c.ks, r, below(c.ks, r.start), below(c.ks, r.end))
        }),
{
    let m1 = cut_at_key::<O>(m, r.start);
    lemma_cut_at_key::<O>(m, r.start);
    lemma_cut_at_key::<O>(m1, r.end);
    assert(uncut(carved::<O>(m, r).ks, r.start as int));
    lemma_parted(carved::<O>(m, r).ks, r);
}

/// What a cut makes of the segments.
proof fn lemma_cut_pieces<O: SetOperations>(m: Segments<<O::V as View>::V>, k: u64, i: int)
    requires
        sorted(m.ks),
        m.ks.len() == m.vs.len(),
        0 <= i < cut_at_key::<O>(m, k).ks.len(),
    ensures
        exists|j: int|
            0 <= j < m.ks.len() && is_piece(#[trigger] m.ks[j], k, cut_at_key::<O>(m, k).ks[i]),
{
    let n = cut_at_key::<O>(m, k);
    let h = holder(m.ks, k as int);
    if 0 <= h < m.ks.len() && m.ks[h].cuttable(k as int) {
        let j = if i <= h { i } else { i - 1 };
        if j != h {
            assert(n.ks[i] == m.ks[j]);
            if j < h {
                assert(m.ks[j].end <= m.ks[h].start);
            } else {
                assert(m.ks[h].end <= m.ks[j].start);
            }
        }
        assert(is_piece(m.ks[j], k, n.ks[i]));
    } else {
        lemma_cut_at_key::<O>(m, k);
        assert(is_piece(m.ks[i], k, n.ks[i]));
    }
}

/// `p` is what a cut at `k` leaves of `s`: all of it, or one of its sides.
pub open spec fn is_piece(s: Range, k: u64, p: Range) -> bool {
    if s.cuttable(k as int) {
        p == (Range { start: s.start, end: k }) || p == (Range { start: k, end: s.end })
    } else {
        p == s
    }
}

/// After the cuts each segment within the range is what an old one had in
/// common with the range.
pub proof fn lemma_carved_pieces<O: SetOperations>(m: Segments<<O::V as View>::V>, r: Range)
    requires
        sorted(m.ks),
        m.ks.len() == m.vs.len(),
        sorted(cut_at_key::<O>(m, r.start).ks),
        sorted(carved::<O>(m, r).ks),
        r.start <= r.end,
    ensures
        ({
            let c = carved::<O>(m, r);
            forall|i: int|
                below(c.ks, r.start) <= i < below(c.ks, r.end) ==> exists|j: int|
                    0 <= j < m.ks.len() && #[trigger] c.ks[i] == (#[trigger] m.ks[j]).common(r)
        }),
{
    let m1 = cut_at_key::<O>(m, r.start);
    let c = carved::<O>(m, r);
    lemma_carved_parts::<O>(m, r);
    assert forall|i: int| below(c.ks, r.start) <= i < below(c.ks, r.end) implies exists|j: int|
        0 <= j < m.ks.len() && #[trigger] c.ks[i] == (#[trigger] m.ks[j]).common(r) by {
        lemma_cut_pieces::<O>(m1, r.end, i);
        let h = choose|h: int|
            0 <= h < m1.ks.len() && is_piece(#[trigger] m1.ks[h], r.end, c.ks[i]);
        lemma_cut_pieces::<O>(m, r.start, h);
        let j = choose|j: int|
            0 <= j < m.ks.len() && is_piece(#[trigger] m.ks[j], r.start, m1.ks[h]);
        assert(r.covers(c.ks[i]));
        assert(c.ks[i].start < c.ks[i].end);
        assert(c.ks[i] == m.ks[j].common(r));
    }
}

pub proof fn lemma_wf_dropped<O: SetOperations>(
    m: Segments<<O::V as View>::V>,
    a: int,
    b: int,
)
    requires
        wf_segments::<O>(m),
        0 <= a <= b <= m.ks.len(),
    ensures
        wf_segments::<O>(dropped(m, a, b)),
    decreases b - a,
{
    let n = dropped(m, a, b);
    assert forall|i: int| 0 <= i < n.ks.len() implies (#[trigger] n.ks[i]).start < n.ks[i].end
        && O::fits(n.ks[i], n.vs[i]) by {
        let i2 = if i < a { i } else { i + (b - a) };
        assert(n.ks[i] == m.ks[i2] && n.vs[i] == m.vs[i2]);
    }
    assert forall|i: int, j: int| 0 <= i < j < n.ks.len() implies (#[trigger] n.ks[i]).end <= (
    #[trigger] n.ks[j]).start by {
        let i2 = if i < a { i } else { i + (b - a) };
        let j2 = if j < a { j } else { j + (b - a) };
        assert(n.ks[i] == m.ks[i2] && n.ks[j] == m.ks[j2]);
    }
}

/// Once what lay in a range is taken out, nothing is said of the keys of that
/// range, and what is said of other keys stays.
pub proof fn clearing_is_silent<O: PointOperations>(
    m: Segments<<O::V as View>::V>,
    r: Range,
    k: int,
)
    requires
        wf_segments::<O>(m),
        r.start <= r.end,
    ensures
        wf_segments::<O>(cleared::<O>(m, r)),
        point::<O>(cleared::<O>(m, r), k) == (if r.has(k) {
            None
        } else {
            point::<O>(m, k)
        }),
{
    let c = carved::<O>(m, r);
    let a = below(c.ks, r.start);
    let b = below(c.ks, r.end);
    cutting_at_key_keeps::<O>(m, r.start, k);
    carving_keeps::<O>(m, r, k);
    lemma_carved_parts::<O>(m, r);
    lemma_wf_dropped::<O>(c, a, b);
    dropping_is_silent::<O>(c, r, a, b, k);
}

/// Once the segments within a range are taken out, nothing is said of the keys
/// of that range, and what is said of other keys stays.
proof fn dropping_is_silent<O: PointOperations>(
    c: Segments<<O::V as View>::V>,
    r: Range,
    a: int,
    b: int,
    k: int,
)
    requires
        wf_segments::<O>(c),
        parted(c.ks, r, a, b),
        sorted(dropped(c, a, b).ks),
    ensures
        point::<O>(dropped(c, a, b), k) == (if r.has(k) {
            None
        } else {
            point::<O>(c, k)
        }),
{
    let n = dropped(c, a, b);
    if exists|h: int| held_at(n.ks, k, h) {
        let h = choose|h: int| held_at(n.ks, k, h);
        let h2 = if h < a { h } else { h + (b - a) };
        assert(n.ks[h] == c.ks[h2] && n.vs[h] == c.vs[h2]);
        assert(held_at(c.ks, k, h2));
        lemma_point_held::<O>(n, k, h);
        lemma_point_held::<O>(c, k, h2);
    } else {
        lemma_point_free::<O>(n, k);
        if !r.has(k) {
            assert forall|h: int| !#[trigger] held_at(c.ks, k, h) by {
                if held_at(c.ks, k, h) {
                    if h < a {
                        assert(n.ks[h] == c.ks[h]);
                        assert(held_at(n.ks, k, h));
                    } else if h >= b {
                        assert(n.ks[h - (b - a)] == c.ks[h]);
                        assert(held_at(n.ks, k, h - (b - a)));
                    } else {
                        assert(r.covers(c.ks[h]));
                    }
                }
            }
            lemma_point_free::<O>(c, k);
        }
    }
}

/// Where two sets have the same ranges, the same segment speaks for a key in
/// both, and it lies within `r` exactly if the key does.
pub proof fn same_speaker<O: PointOperations>(
    c: Segments<<O::V as View>::V>,
    m: Segments<<O::V as View>::V>,
    r: Range,
    a: int,
    b: int,
    k: int,
) -> (j: int)
    requires
        sorted(c.ks),
        m.ks == c.ks,
        parted(c.ks, r, a, b),
    ensures
        0 <= j <= c.ks.len(),
        j < c.ks.len() ==> {
            &&& held_at(c.ks, k, j)
            &&& point::<O>(c, k) == Some(O::at(c.ks[j], c.vs[j], k))
            &&& point::<O>(m, k) == Some(O::at(c.ks[j], m.vs[j], k))
            &&& r.has(k) == (a <= j < b)
        },
        j == c.ks.len() ==> point::<O>(c, k) is None && point::<O>(m, k) is None,
{
    if exists|h: int| held_at(c.ks, k, h) {
        let h = choose|h: int| held_at(c.ks, k, h);
        lemma_point_held::<O>(c, k, h);
        lemma_point_held::<O>(m, k, h);
        h
    } else {
        lemma_point_free::<O>(c, k);
        lemma_point_free::<O>(m, k);
        c.ks.len() as int
    }
}

impl<O: SetOperations> SegmentSet<O> {
    /// Cuts the segment that has `k` strictly inside it.
    pub(crate) fn cut_key(&mut self, k: u64)
        requires
            old(self).wf(),
        ensures
            final(self).wf(),
            final(self).model() == cut_at_key::<O>(old(self).model(), k),
    {
        if let Some(i) = self.index_holding(k) {
            if self.keys[i].can_split_at(k) {
                self.cut_at(i, k);
            }
        }
    }

    /// Cuts the segments at the bounds of `r`, and tells the indices between
    /// which those within `r` stand.
    pub(crate) fn carve(&mut self, r: Range) -> (ab: (usize, usize))
        requires
            old(self).wf(),
            r.start <= r.end,
        ensures
            final(self).wf(),
            final(self).model() == carved::<O>(old(self).model(), r),
            ab.0 == below(final(self).ranges(), r.start),
            ab.1 == below(final(self).ranges(), r.end),
            parted(final(self).ranges(), r, ab.0 as int, ab.1 as int),
    {
        let ghost m = self.model();
        self.cut_key(r.start);
        self.cut_key(r.end);
        proof {
            lemma_carved_parts::<O>(m, r);
        }
        let a = self.rank_before(Range { start: r.start, end: r.start });
        let b = self.rank_before(Range { start: r.end, end: r.end });
        (a, b)
    }

    /// Takes out the segments at the indices from `a` up to `b`.
    pub(crate) fn drop_span(&mut self, a: usize, b: usize)
        requires
            old(self).wf(),
            a <= b <= old(self).ranges().len(),
        ensures
            final(self).wf(),
            final(self).model() == dropped(old(self).model(), a as int, b as int),
    {
        let ghost m = self.model();
        let mut i = a;
        assert(dropped(m, a as int, a as int) =~= m);
        while i < b
            invariant
                self.wf(),
                a <= i <= b <= m.ks.len(),
                m.ks.len() == m.vs.len(),
                self.model() == dropped(m, a as int, i as int),
            decreases b - i,
        {
            proof {
                lemma_wf_without::<O>(self.model(), a as int);
            }
            let ghost before = self.model();
            let _ = self.raw_remove(a);
            assert(before.without(a as int) =~= dropped(m, a as int, i + 1));
            i = i + 1;
        }
    }

    /// Takes out what lies in `r`.
    pub(crate) fn clear(&mut self, r: Range)
        requires
            old(self).wf(),
            r.start <= r.end,
        ensures
            final(self).wf(),
            final(self).model() == cleared::<O>(old(self).model(), r),
    {
        let (a, b) = self.carve(r);
        self.drop_span(a, b);
    }

    pub(crate) fn range_of(&self, i: usize) -> (r: Range)
        requires
            i < self.ranges().len(),
        ensures
            r == self.ranges()[i as int],
    {
        self.keys[i]
    }

    pub(crate) fn value_of(&self, i: usize) -> (v: &O::V)
        requires
            self.wf(),
            i < self.ranges().len(),
        ensures
            v@ == self.values()[i as int],
    {
        let n = self.vals.len();
        assert(self.ranges().len() == self.values().len());
        &self.vals[i]
    }

    /// Gives the segment at index `i` the value `v`.
    pub(crate) fn set_value_of(&mut self, i: usize, v: O::V)
        requires
            old(self).wf(),
            i < old(self).ranges().len(),
            O::fits(old(self).ranges()[i as int], v@),
        ensures
            final(self).wf(),
            final(self).model() == old(self).model().set_value(i as int, v@),
    {
        let ghost m = self.model();
        let r = self.keys[i];
        proof {
            lemma_wf_set::<O>(m, i as int, r, v@);
            assert(m.set(i as int, r, v@) =~= m.set_value(i as int, v@));
        }
        self.raw_set(i, r, v);
    }
}

/// From index `i` on, `n` segments follow each other without a gap, each of
/// them starting below `end`.
pub open spec fn contiguous(ks: Seq<Range>, i: int, n: int, end: u64) -> bool {
    &&& 0 <= i
    &&& 1 <= n
    &&& i + n <= ks.len()
    &&& forall|j: int|
        i < j < i + n ==> (#[trigger] ks[j]).start == ks[j - 1].end && ks[j].start < end
}

impl<O: SetOperations> SegmentSet<O> {
    /// Gives new values to the parts of segments that lie in `r`, from its
    /// start up to the first gap. The gap is told unless the end of `r` was
    /// reached.
    pub fn apply_contiguous<F: Fn(Range, &O::V) -> O::V>(&mut self, r: Range, f: F) -> (g: Option<
        Gap,
    >)
        requires
            old(self).wf(),
            r.start <= r.end,
            forall|s: Range, v: &O::V| #[trigger] f.requires((s, v)),
            forall|s: Range, v: &O::V, w: O::V| #[trigger]
                f.ensures((s, v), w) && O::fits(s, v@) ==> O::fits(s, w@),
        ensures
            final(self).wf(),
            free(old(self).ranges(), r.start as int) ==> final(self).model() == old(self).model()
                && g == Some(
                gap_at(
                    old(self).ranges(),
                    count_before(old(self).ranges(), at(r.start)) as int,
                ),
            ),
            !free(old(self).ranges(), r.start as int) ==> {
                let m = cut_at_key::<O>(old(self).model(), r.start);
                let i = below(m.ks, r.start);
                exists|n: int|
                    {
                        let last = m.ks[i + n - 1];
                        let c = if last.cuttable(r.end as int) {
                            cut::<O>(m, i + n - 1, r.end)
                        } else {
                            m
                        };
                        &&& #[trigger] contiguous(m.ks, i, n, r.end)
                        &&& last.end < r.end ==> (i + n == m.ks.len() || last.end < m.ks[i
                            + n].start)
                        &&& g == (if last.end < r.end {
                            gap_after(c.ks, last)
                        } else {
                            None
                        })
                        &&& final(self).ranges() == c.ks
                        &&& final(self).values().len() == c.vs.len()
                        &&& forall|j: int|
                            0 <= j < c.ks.len() && !(i <= j < i + n) ==> (
                            #[trigger] final(self).values()[j]) == c.vs[j]
                        &&& forall|j: int|
                            i <= j < i + n ==> applied::<O, F>(
                                f,
                                c.ks[j],
                                c.vs[j],
                                #[trigger] final(self).values()[j],
                            )
                    }
            },
    {
        let ghost m0 = self.model();
        let h = match self.index_holding(r.start) {
            Some(h) => h,
            None => return self.find_gap(r.start),
        };
        proof {
            assert(!free(m0.ks, r.start as int)) by {
                assert(m0.ks[h as int].has(r.start as int));
            }
        }
        self.cut_key(r.start);
        let ghost m = self.model();
        let i0 = self.rank_before(Range { start: r.start, end: r.start });
        proof {
            lemma_first_of_cut::<O>(m0, r.start, h as int);
        }
        let n = self.keys.len();
        let mut i = i0;
        while i + 1 < n && self.keys[i].end < r.end && self.keys[i + 1].start == self.keys[i].end
            invariant
                n == self.keys@.len(),
                sorted(self.keys@),
                m.ks == self.keys@,
                i0 <= i < n,
                contiguous(m.ks, i0 as int, i - i0 + 1, r.end),
            decreases n - i,
        {
            i = i + 1;
        }
        let last = self.keys[i];
        proof {
            if i + 1 < n {
                assert(m.ks[i as int].end <= m.ks[i + 1].start);
            }
        }
        if last.can_split_at(r.end) {
            self.cut_at(i, r.end);
        }
        let ghost c = self.model();
        self.apply_span(i0, i + 1, f);
        if last.end >= r.end {
            None
        } else {
            let s = self.seg_from(i);
            self.next_gap_of_seg(&s)
        }
    }

    /// Gives new values to the segments at the indices from `a` up to `b`.
    fn apply_span<F: Fn(Range, &O::V) -> O::V>(&mut self, a: usize, b: usize, f: F)
        requires
            old(self).wf(),
            a <= b <= old(self).ranges().len(),
            forall|s: Range, v: &O::V| #[trigger] f.requires((s, v)),
            forall|s: Range, v: &O::V, w: O::V| #[trigger]
                f.ensures((s, v), w) && O::fits(s, v@) ==> O::fits(s, w@),
        ensures
            final(self).wf(),
            final(self).ranges() == old(self).ranges(),
            final(self).values().len() == old(self).values().len(),
            forall|j: int|
                0 <= j < old(self).ranges().len() && !(a <= j < b) ==> (
                #[trigger] final(self).values()[j]) == old(self).values()[j],
            forall|j: int|
                a <= j < b ==> applied::<O, F>(
                    f,
                    old(self).ranges()[j],
                    old(self).values()[j],
                    #[trigger] final(self).values()[j],
                ),
    {
        let ghost m = self.model();
        let mut i = a;
        while i < b
            invariant
                self.wf(),
                a <= i <= b <= m.ks.len(),
                self.ranges() == m.ks,
                self.values().len() == m.vs.len(),
                m.ks.len() == m.vs.len(),
                forall|j: int|
                    0 <= j < m.ks.len() && !(a <= j < i) ==> (#[trigger] self.values()[j])
                        == m.vs[j],
                forall|j: int|
                    a <= j < i ==> applied::<O, F>(
                        f,
                        m.ks[j],
                        m.vs[j],
                        #[trigger] self.values()[j],
                    ),
                forall|s: Range, v: &O::V| #[trigger] f.requires((s, v)),
                forall|s: Range, v: &O::V, w: O::V| #[trigger]
                    f.ensures((s, v), w) && O::fits(s, v@) ==> O::fits(s, w@),
            decreases b - i,
        {
            let ghost before = self.model();
            let v = self.value_of(i);
            let w = f(self.keys[i], v);
            assert(before.vs[i as int] == m.vs[i as int]);
            assert(O::fits(before.ks[i as int], before.vs[i as int]));
            assert(applied::<O, F>(f, m.ks[i as int], m.vs[i as int], w@));
            self.set_value_of(i, w);
            assert forall|j: int| a <= j < i + 1 implies applied::<O, F>(
                f,
                m.ks[j],
                m.vs[j],
                #[trigger] self.values()[j],
            ) by {
                if j < i {
                    assert(self.values()[j] == before.vs[j]);
                }
            }
            i = i + 1;
        }
    }
}

/// `f` may make of a value that shows `v` one that shows `w`.
pub open spec fn applied<O: SetOperations, F: Fn(Range, &O::V) -> O::V>(
    f: F,
    r: Range,
    v: <O::V as View>::V,
    w: <O::V as View>::V,
) -> bool {
    exists|a: &O::V, b: O::V| #[trigger] f.ensures((r, a), b) && a@ == v && b@ == w
}

/// After a cut at a key that a segment holds, a segment starts there.
proof fn lemma_first_of_cut<O: SetOperations>(
    m: Segments<<O::V as View>::V>,
    k: u64,
    h: int,
)
    requires
        sorted(m.ks),
        m.ks.len() == m.vs.len(),
        held_at(m.ks, k as int, h),
        sorted(cut_at_key::<O>(m, k).ks),
    ensures
        ({
            let c = cut_at_key::<O>(m, k);
            let i = below(c.ks, k);
            &&& c.ks.len() == c.vs.len()
            &&& 0 <= i < c.ks.len()
            &&& c.ks[i].start == k
        }),
{
    lemma_holder(m.ks, k as int, h);
    let c = cut_at_key::<O>(m, k);
    lemma_count_before(c.ks, at(k));
    let s = if m.ks[h].cuttable(k as int) {
        h + 1
    } else {
        h
    };
    assert(c.ks[s].start == k);
    let i = below(c.ks, k);
    assert(!c.ks[s].before(at(k)));
    if i < s {
        assert(!c.ks[i].before(at(k)));
        assert(c.ks[i].end <= c.ks[s].start);
        assert(c.ks[i].start < c.ks[i].end);
    }
}

} // verus!
