use vstd::prelude::*;

use crate::addr::Addr;
use crate::errno::{sys, SysError, SysResult, EINVAL};
use crate::memmap::InvalidateOpts;
use crate::mm::hosts::{lemma_invalidated_places, places_kept};
use crate::mm::manager::{backs, page_bound, pma_at, vma_at, whole_pages, Effect, MemoryManager};
use crate::mm::pma::{
    any_pma, lemma_pma_properties_last, PmaPoint, PmaSet, PmaSetOperations, PmaView,
};
use crate::mm::vma::{
    any_vma, data_vma, lemma_vma_properties_last, locked_vma, Vma, VmaSetOperations,
};
use crate::range::{AddrRange, Range};
use crate::segment::bounds::{bounded, lemma_bounded_carved, lemma_bounded_without};
use crate::segment::keys::{held_at, sorted};
use crate::segment::model::{
    cut_start, cut_start_at, isolated, lemma_wf_without, wf_segments, Segments,
};
use crate::segment::point::{lemma_point_free, lemma_point_held, without_is_silent};
use crate::segment::span::{below, carved, cleared, clearing_is_silent, dropped};
use crate::segment::total::{lemma_total_bound, lemma_total_carved, lemma_total_without, total};
use crate::segment::SetOperations;

verus! {

/// The memory behind an address goes when the address is invalidated.
pub open spec fn doomed(p: Option<PmaPoint>, opts: InvalidateOpts) -> bool {
    p is Some && (opts.invalidate_private || !p->Some_0.private)
}

/// There is memory in `ar` that goes when `ar` is invalidated.
pub open spec fn any_doomed(
    m: Segments<PmaView>,
    ar: AddrRange,
    opts: InvalidateOpts,
) -> bool {
    exists|k: int| ar.has(k) && doomed(#[trigger] pma_at(m, k), opts)
}

/// The objects that are no longer mapped once the areas at the indices from `a`
/// up to `b` are gone.
pub open spec fn removals(m: Segments<Vma>, a: int, b: int) -> Seq<Effect>
    decreases b - a,
{
    if b <= a {
        Seq::empty()
    } else {
        let rest = removals(m, a, b - 1);
        match m.vs[b - 1].mappable {
            Some(mappable) => rest.push(
                Effect::RemoveMapping {
                    mappable,
                    ar: m.ks[b - 1],
                    off: m.vs[b - 1].off,
                    writable: m.vs[b - 1].writes_through(),
                },
            ),
            None => rest,
        }
    }
}

/// The objects that are no longer mapped once nothing is mapped in `ar`.
pub open spec fn removals_in(m: Segments<Vma>, ar: AddrRange) -> Seq<Effect> {
    let c = carved::<VmaSetOperations>(m, ar);
    removals(c, below(c.ks, ar.start), below(c.ks, ar.end))
}

/// What is left of the memory behind an address after `ar` was invalidated.
pub open spec fn spared(
    p: Option<PmaPoint>,
    ar: AddrRange,
    opts: InvalidateOpts,
    k: int,
) -> Option<PmaPoint> {
    if ar.has(k) && doomed(p, opts) {
        None
    } else {
        p
    }
}

/// The memory behind `ar` is gone, as far as it has to go, and the address space has given
/// it up.
pub open spec fn invalidates(
    a: MemoryManager,
    b: MemoryManager,
    ar: AddrRange,
    opts: InvalidateOpts,
) -> bool {
    &&& forall|k: int| #[trigger]
        pma_at(b.pmas.model(), k) == spared(pma_at(a.pmas.model(), k), ar, opts, k)
    &&& b.outbox@ == (if any_doomed(a.pmas.model(), ar, opts) {
        a.outbox@.unmapping(ar.common(a.layout.application()))
    } else {
        a.outbox@
    })
}

/// What is left of memory at `r` once what it has in `ar` is gone.
pub open spec fn outside(r: Range, p: PmaView, ar: AddrRange) -> Segments<PmaView> {
    let none = Segments { ks: Seq::empty(), vs: Seq::empty() };
    let low = if r.start < ar.start {
        Segments {
            ks: seq![Range { start: r.start, end: ar.start }],
            vs: seq![PmaSetOperations::lower(r, p, ar.start)],
        }
    } else {
        none
    };
    if ar.end < r.end {
        Segments {
            ks: low.ks.push(Range { start: ar.end, end: r.end }),
            vs: low.vs.push(PmaSetOperations::upper(r, p, ar.end)),
        }
    } else {
        low
    }
}

/// What is left of the first `n` segments of memory after `ar` was invalidated.
pub open spec fn remaining(
    m: Segments<PmaView>,
    ar: AddrRange,
    opts: InvalidateOpts,
    n: int,
) -> Segments<PmaView>
    decreases n,
{
    if n <= 0 {
        Segments { ks: Seq::empty(), vs: Seq::empty() }
    } else {
        let rest = remaining(m, ar, opts, n - 1);
        let r = m.ks[n - 1];
        let p = m.vs[n - 1];
        if r.meets(ar) && (opts.invalidate_private || !p.private) {
            let o = outside(r, p, ar);
            Segments { ks: rest.ks + o.ks, vs: rest.vs + o.vs }
        } else {
            Segments { ks: rest.ks.push(r), vs: rest.vs.push(p) }
        }
    }
}

/// The memory after `ar` was invalidated.
pub open spec fn invalidated(
    m: Segments<PmaView>,
    ar: AddrRange,
    opts: InvalidateOpts,
) -> Segments<PmaView> {
    remaining(m, ar, opts, m.ks.len() as int)
}

/// The first `n` segments as they are left, and the others as they are.
spec fn half_way(
    m: Segments<PmaView>,
    ar: AddrRange,
    opts: InvalidateOpts,
    n: int,
) -> Segments<PmaView> {
    let rest = remaining(m, ar, opts, n);
    Segments { ks: rest.ks + m.ks.skip(n), vs: rest.vs + m.vs.skip(n) }
}

/// Segments below the range are left as they are.
proof fn lemma_remaining_below(
    m: Segments<PmaView>,
    ar: AddrRange,
    opts: InvalidateOpts,
    n: int,
)
    requires
        0 <= n <= m.ks.len(),
        m.ks.len() == m.vs.len(),
        forall|j: int| 0 <= j < n ==> !(#[trigger] m.ks[j]).meets(ar),
    ensures
        remaining(m, ar, opts, n) == (Segments { ks: m.ks.take(n), vs: m.vs.take(n) }),
    decreases n,
{
    if n > 0 {
        lemma_remaining_below(m, ar, opts, n - 1);
        assert(m.ks.take(n - 1).push(m.ks[n - 1]) =~= m.ks.take(n));
        assert(m.vs.take(n - 1).push(m.vs[n - 1]) =~= m.vs.take(n));
    } else {
        assert(m.ks.take(0) =~= Seq::empty());
        assert(m.vs.take(0) =~= Seq::empty());
    }
}

/// Segments above the range are left as they are.
proof fn lemma_remaining_above(
    m: Segments<PmaView>,
    ar: AddrRange,
    opts: InvalidateOpts,
    n: int,
    l: int,
)
    requires
        0 <= n <= l <= m.ks.len(),
        m.ks.len() == m.vs.len(),
        forall|j: int| n <= j < l ==> !(#[trigger] m.ks[j]).meets(ar),
    ensures
        half_way(m, ar, opts, n) == half_way(m, ar, opts, l),
    decreases l - n,
{
    if n < l {
        lemma_remaining_above(m, ar, opts, n + 1, l);
        let rest = remaining(m, ar, opts, n);
        assert(rest.ks + m.ks.skip(n) =~= rest.ks.push(m.ks[n]) + m.ks.skip(n + 1));
        assert(rest.vs + m.vs.skip(n) =~= rest.vs.push(m.vs[n]) + m.vs.skip(n + 1));
    }
}

/// One segment further on the way through the memory.
#[verifier::spinoff_prover]
#[verifier::rlimit(80)]
proof fn lemma_remaining_next(
    m: Segments<PmaView>,
    ar: AddrRange,
    opts: InvalidateOpts,
    n: int,
)
    requires
        wf_segments::<PmaSetOperations>(m),
        0 <= n < m.ks.len(),
        m.ks[n].meets(ar),
        ar.start < ar.end,
        remaining(m, ar, opts, n).ks.len() == remaining(m, ar, opts, n).vs.len(),
    ensures
        ({
            let h = half_way(m, ar, opts, n);
            let i = remaining(m, ar, opts, n).ks.len() as int;
            let j = cut_start_at(h, i, ar);
            let next = remaining(m, ar, opts, n + 1);
            &&& h.ks[i] == m.ks[n] && h.vs[i] == m.vs[n]
            &&& next.ks.len() == next.vs.len()
            &&& if opts.invalidate_private || !m.vs[n].private {
                &&& isolated::<PmaSetOperations>(h, i, ar).without(j) == half_way(
                    m,
                    ar,
                    opts,
                    n + 1,
                )
                &&& next.ks.len() == j + (if ar.end < m.ks[n].end {
                    1int
                } else {
                    0
                })
            } else {
                h == half_way(m, ar, opts, n + 1) && next.ks.len() == i + 1
            }
        }),
{
    let rest = remaining(m, ar, opts, n);
    let h = half_way(m, ar, opts, n);
    let i = rest.ks.len() as int;
    let r = m.ks[n];
    let p = m.vs[n];
    assert(h.ks[i] == r && h.vs[i] == p);
    assert(PmaSetOperations::fits(r, p));
    let next = half_way(m, ar, opts, n + 1);
    if opts.invalidate_private || !p.private {
        let j = cut_start_at(h, i, ar);
        let m1 = cut_start::<PmaSetOperations>(h, i, ar);
        let iso = isolated::<PmaSetOperations>(h, i, ar);
        if r.cuttable(ar.start as int) {
            let up = Range { start: ar.start, end: r.end };
            assert(m1.ks[j] == up);
            assert(m1.vs[j] == PmaSetOperations::upper(r, p, ar.start));
            if up.cuttable(ar.end as int) {
                let two = PmaSetOperations::upper(up, m1.vs[j], ar.end);
                let one = PmaSetOperations::upper(r, p, ar.end);
                assert(two.host =~= one.host);
                assert(two =~= one);
            }
        }
        assert(iso.without(j).ks =~= next.ks);
        assert(iso.without(j).vs =~= next.vs);
    } else {
        assert(h.ks =~= next.ks);
        assert(h.vs =~= next.vs);
    }
}

/// Takes out the memory behind `ar` that is doomed, and tells how much it was
/// and whether there was any.
#[verifier::spinoff_prover]
#[verifier::rlimit(60)]
fn invalidate_pmas(
    pmas: &mut PmaSet,
    ar: AddrRange,
    opts: InvalidateOpts,
    p: Ghost<spec_fn(u64) -> bool>,
) -> (res: (u64, bool))
    requires
        old(pmas).wf(),
        bounded(old(pmas).ranges(), p@),
        ar.start < ar.end,
        p@(ar.start),
        p@(ar.end),
    ensures
        final(pmas).wf(),
        bounded(final(pmas).ranges(), p@),
        forall|k: int| #[trigger]
            pma_at(final(pmas).model(), k) == spared(pma_at(old(pmas).model(), k), ar, opts, k),
        final(pmas).model() == invalidated(old(pmas).model(), ar, opts),
        total(final(pmas).model(), any_pma()) == total(old(pmas).model(), any_pma()) - res.0,
        res.1 == any_doomed(old(pmas).model(), ar, opts),
{
    let ghost m0 = pmas.model();
    let mut gone: u64 = 0;
    let mut any = false;
    let mut i = pmas.index_past(ar.start);
    let ghost mut n = i as int;
    proof {
        lemma_total_bound(m0, any_pma());
        lemma_remaining_below(m0, ar, opts, n);
        assert(half_way(m0, ar, opts, n) =~= m0);
    }
    while i < pmas.count_segments() && pmas.range_of(i).start < ar.end
        invariant
            pmas.wf(),
            bounded(pmas.ranges(), p@),
            ar.start < ar.end,
            p@(ar.start),
            p@(ar.end),
            i <= pmas.ranges().len(),
            forall|j: int|
                i <= j < pmas.ranges().len() ==> ar.start < (#[trigger] pmas.ranges()[j]).end,
            forall|j: int|
                0 <= j < i ==> !(#[trigger] pmas.ranges()[j]).meets(ar) || (
                !opts.invalidate_private && pmas.values()[j].private),
            forall|k: int| #[trigger]
                pma_at(pmas.model(), k) == pma_at(m0, k) || (pma_at(pmas.model(), k) is None
                    && ar.has(k) && doomed(pma_at(m0, k), opts)),
            any ==> any_doomed(m0, ar, opts),
            !any ==> forall|k: int| #[trigger] pma_at(pmas.model(), k) == pma_at(m0, k),
            total(pmas.model(), any_pma()) == total(m0, any_pma()) - gone,
            0 <= total(m0, any_pma()) <= u64::MAX,
            wf_segments::<PmaSetOperations>(m0),
            0 <= n <= m0.ks.len(),
            forall|j: int| n <= j < m0.ks.len() ==> ar.start < (#[trigger] m0.ks[j]).end,
            pmas.model() == half_way(m0, ar, opts, n),
            remaining(m0, ar, opts, n).ks.len() == remaining(m0, ar, opts, n).vs.len(),
            remaining(m0, ar, opts, n).ks.len() == i || (remaining(m0, ar, opts, n).ks.len() == i
                + 1 && ar.end <= pmas.ranges()[i as int].start),
        decreases total(pmas.model(), any_pma()), pmas.ranges().len() - i,
    {
        let ghost before = pmas.model();
        assert(before.ks[i as int].start < before.ks[i as int].end);
        proof {
            lemma_remaining_next(m0, ar, opts, n);
        }
        if opts.invalidate_private || !pmas.value_of(i).private {
            let j = pmas.isolate_index(i, ar);
            let ghost c = pmas.model();
            proof {
                lemma_pma_properties_last();
                assert(bounded(c.ks, p@));
                assert(total(c, any_pma()) == total(before, any_pma()));
                lemma_same_privacy(before, c, i as int, j as int);
            }
            let r = pmas.range_of(j);
            proof {
                lemma_removed_doomed(m0, before, c, ar, opts, j as int, p@);
            }
            any = true;
            gone = gone + (r.end - r.start);
            let _ = pmas.raw_remove(j);
            proof {
                lemma_after_removal(before, c, ar, opts, i as int, j as int);
                n = n + 1;
            }
            i = j;
        } else {
            proof {
                lemma_total_bound(before, any_pma());
                n = n + 1;
            }
            i = i + 1;
        }
    }
    proof {
        lemma_all_invalidated(m0, pmas.model(), ar, opts, i as int, n);
        if any_doomed(m0, ar, opts) {
            let k = choose|k: int| ar.has(k) && doomed(#[trigger] pma_at(m0, k), opts);
            assert(pma_at(pmas.model(), k) == spared(pma_at(m0, k), ar, opts, k));
        }
    }
    (gone, any)
}

/// What is left once all segments that could go were seen to: those before index `i` stay,
/// and those from there on lie past `ar`.
#[verifier::spinoff_prover]
proof fn lemma_all_invalidated(
    m0: Segments<PmaView>,
    m: Segments<PmaView>,
    ar: AddrRange,
    opts: InvalidateOpts,
    i: int,
    n: int,
)
    requires
        wf_segments::<PmaSetOperations>(m0),
        wf_segments::<PmaSetOperations>(m),
        ar.start < ar.end,
        0 <= i <= m.ks.len(),
        i < m.ks.len() ==> ar.end <= m.ks[i].start,
        forall|j: int|
            0 <= j < i ==> !(#[trigger] m.ks[j]).meets(ar) || (!opts.invalidate_private
                && m.vs[j].private),
        forall|k: int| #[trigger]
            pma_at(m, k) == pma_at(m0, k) || (pma_at(m, k) is None && ar.has(k) && doomed(
                pma_at(m0, k),
                opts,
            )),
        0 <= n <= m0.ks.len(),
        m == half_way(m0, ar, opts, n),
        remaining(m0, ar, opts, n).ks.len() == remaining(m0, ar, opts, n).vs.len(),
        remaining(m0, ar, opts, n).ks.len() == i || (remaining(m0, ar, opts, n).ks.len() == i + 1
            && ar.end <= m.ks[i].start),
    ensures
        m == invalidated(m0, ar, opts),
        forall|k: int| #[trigger] pma_at(m, k) == spared(pma_at(m0, k), ar, opts, k),
{
    let len = m0.ks.len() as int;
    assert forall|j: int| n <= j < len implies !(#[trigger] m0.ks[j]).meets(ar) by {
        let at = remaining(m0, ar, opts, n).ks.len() + (j - n);
        assert(m.ks[at] == m0.ks[j]);
        if i < at {
            assert(m.ks[i].end <= m.ks[at].start);
            assert(m.ks[i].start < m.ks[i].end);
        }
    }
    lemma_remaining_above(m0, ar, opts, n, len);
    assert(half_way(m0, ar, opts, len) =~= invalidated(m0, ar, opts));
    assert forall|k: int| #[trigger] pma_at(m, k) == spared(pma_at(m0, k), ar, opts, k) by {
        if ar.has(k) && pma_at(m, k) is Some {
            if forall|h: int| !held_at(m.ks, k, h) {
                lemma_point_free::<PmaSetOperations>(m, k);
            }
            let h = choose|h: int| held_at(m.ks, k, h);
            lemma_point_held::<PmaSetOperations>(m, k, h);
            assert(m.ks[h].meets(ar));
            if h > i {
                assert(m.ks[i].end <= m.ks[h].start);
                assert(m.ks[i].start < m.ks[i].end);
            }
        }
    }
}

/// A part of a segment is private exactly if the segment was.
proof fn lemma_same_privacy(before: Segments<PmaView>, c: Segments<PmaView>, i: int, j: int)
    requires
        sorted(before.ks),
        sorted(c.ks),
        0 <= i < before.ks.len(),
        0 <= j < c.ks.len(),
        before.ks[i].covers(c.ks[j]),
        forall|k: int| #[trigger] pma_at(c, k) == pma_at(before, k),
    ensures
        c.vs[j].private == before.vs[i].private,
{
    let k = c.ks[j].start as int;
    assert(c.ks[j].start < c.ks[j].end);
    assert(held_at(c.ks, k, j) && held_at(before.ks, k, i));
    lemma_point_held::<PmaSetOperations>(c, k, j);
    lemma_point_held::<PmaSetOperations>(before, k, i);
    assert(pma_at(c, k) == pma_at(before, k));
}

proof fn lemma_removed_doomed(
    m0: Segments<PmaView>,
    before: Segments<PmaView>,
    c: Segments<PmaView>,
    ar: AddrRange,
    opts: InvalidateOpts,
    j: int,
    p: spec_fn(u64) -> bool,
)
    requires
        wf_segments::<PmaSetOperations>(c),
        bounded(c.ks, p),
        0 <= j < c.ks.len(),
        ar.covers(c.ks[j]),
        opts.invalidate_private || !c.vs[j].private,
        forall|k: int| #[trigger] pma_at(c, k) == pma_at(before, k),
        forall|k: int| #[trigger]
            pma_at(before, k) == pma_at(m0, k) || (pma_at(before, k) is None && ar.has(k)
                && doomed(pma_at(m0, k), opts)),
    ensures
        any_doomed(m0, ar, opts),
        forall|k: int| #[trigger]
            pma_at(c.without(j), k) == pma_at(m0, k) || (pma_at(c.without(j), k) is None && ar.has(
                k,
            ) && doomed(pma_at(m0, k), opts)),
        total(c.without(j), any_pma()) == total(c, any_pma()) - c.ks[j].length(),
        0 <= total(c.without(j), any_pma()),
        c.ks[j].start < c.ks[j].end,
        wf_segments::<PmaSetOperations>(c.without(j)),
        bounded(c.without(j).ks, p),
{
    let r = c.ks[j];
    lemma_total_without(c, j, any_pma());
    lemma_wf_without::<PmaSetOperations>(c, j);
    lemma_bounded_without(c, j, p);
    lemma_total_bound(c.without(j), any_pma());
    assert forall|k: int| r.has(k) implies #[trigger] doomed(pma_at(m0, k), opts) by {
        assert(held_at(c.ks, k, j));
        lemma_point_held::<PmaSetOperations>(c, k, j);
        assert(pma_at(c, k) == pma_at(before, k));
    }
    assert(doomed(pma_at(m0, r.start as int), opts));
    assert forall|k: int| #[trigger]
        pma_at(c.without(j), k) == pma_at(m0, k) || (pma_at(c.without(j), k) is None && ar.has(k)
            && doomed(pma_at(m0, k), opts)) by {
        without_is_silent::<PmaSetOperations>(c, j, k);
        assert(pma_at(c, k) == pma_at(before, k));
        if r.has(k) {
            assert(doomed(pma_at(m0, k), opts));
        }
    }
}

proof fn lemma_after_removal(
    before: Segments<PmaView>,
    c: Segments<PmaView>,
    ar: AddrRange,
    opts: InvalidateOpts,
    i: int,
    j: int,
)
    requires
        sorted(c.ks),
        c.ks.len() == c.vs.len(),
        0 <= i <= j <= i + 1,
        j < c.ks.len(),
        ar.covers(c.ks[j]),
        j == i + 1 ==> c.ks[i].end == ar.start,
        forall|h: int|
            0 <= h < i ==> #[trigger] c.ks[h] == before.ks[h] && c.vs[h] == before.vs[h],
        forall|h: int|
            0 <= h < i ==> !(#[trigger] before.ks[h]).meets(ar) || (!opts.invalidate_private
                && before.vs[h].private),
    ensures
        forall|h: int|
            0 <= h < j ==> !(#[trigger] c.without(j).ks[h]).meets(ar) || (
            !opts.invalidate_private && c.without(j).vs[h].private),
        forall|h: int|
            j <= h < c.without(j).ks.len() ==> ar.start < (#[trigger] c.without(j).ks[h]).end,
{
    let n = c.without(j);
    assert forall|h: int| 0 <= h < j implies !(#[trigger] n.ks[h]).meets(ar) || (
    !opts.invalidate_private && n.vs[h].private) by {
        assert(n.ks[h] == c.ks[h] && n.vs[h] == c.vs[h]);
        if h < i {
            assert(c.ks[h] == before.ks[h]);
        }
    }
    assert forall|h: int| j <= h < n.ks.len() implies ar.start < (#[trigger] n.ks[h]).end by {
        assert(n.ks[h] == c.ks[h + 1]);
        assert(c.ks[j].end <= c.ks[h + 1].start);
        assert(c.ks[h + 1].start < c.ks[h + 1].end);
        assert(c.ks[j].start < c.ks[j].end);
    }
}

impl MemoryManager {
    /// The keys that bound what is mapped, and `ar`: page bounds, where all is in
    /// whole pages.
    spec fn bounds_within(&self, ar: AddrRange) -> spec_fn(u64) -> bool {
        if self.wf() && whole_pages(ar) {
            page_bound()
        } else {
            |k: u64| true
        }
    }

    /// Takes away the memory behind the addresses in `ar`, so that it has to be
    /// looked up anew. Private memory stays unless it is to go too.
    pub fn invalidate(&mut self, ar: AddrRange, opts: InvalidateOpts)
        requires
            old(self).accounted(),
            ar.start < ar.end,
        ensures
            final(self).accounted(),
            old(self).wf() && whole_pages(ar) ==> final(self).wf(),
            final(self).same_settings(old(self)),
            final(self).brk == old(self).brk,
            final(self).vmas == old(self).vmas,
            final(self).usage_address_space == old(self).usage_address_space,
            final(self).data_address_space == old(self).data_address_space,
            final(self).locked_as == old(self).locked_as,
            final(self).max_rss == old(self).max_rss,
            final(self).pmas.model() == invalidated(old(self).pmas.model(), ar, opts),
            places_kept(old(self).pmas.model(), final(self).pmas.model()),
            invalidates(*old(self), *final(self), ar, opts),
    {
        if self.capture_invalidations {
            return;
        }
        let ghost m0 = self.pmas.model();
        let ghost vm = self.vmas.model();
        let ghost p = self.bounds_within(ar);
        let (gone, any) = invalidate_pmas(&mut self.pmas, ar, opts, Ghost(p));
        proof {
            lemma_invalidated_places(m0, ar, opts);
            lemma_total_bound(self.pmas.model(), any_pma());
            assert forall|k: int| backs(vma_at(vm, k), #[trigger] pma_at(
                self.pmas.model(),
                k,
            )) by {
                assert(backs(vma_at(vm, k), pma_at(m0, k)));
            }
        }
        self.cur_rss = self.cur_rss - gone;
        if any {
            self.unmap_address_space(ar);
        }
    }

    /// Takes the areas in `ar` away.
    fn remove_vmas(&mut self, ar: AddrRange)
        requires
            old(self).accounted(),
            ar.start <= ar.end,
            forall|k: int| ar.has(k) ==> #[trigger] pma_at(old(self).pmas.model(), k) is None,
        ensures
            final(self).accounted(),
            old(self).wf() && whole_pages(ar) ==> final(self).wf(),
            final(self).same_settings(old(self)),
            final(self).brk == old(self).brk,
            final(self).pmas == old(self).pmas,
            final(self).cur_rss == old(self).cur_rss,
            final(self).max_rss == old(self).max_rss,
            final(self).vmas.model() == cleared::<VmaSetOperations>(old(self).vmas.model(), ar),
            final(self).locked_drift() == old(self).locked_drift(),
            final(self).outbox@ == old(self).outbox@.followed_by(
                removals_in(old(self).vmas.model(), ar),
            ),
    {
        let ghost mm0 = *self;
        let ghost p = self.bounds_within(ar);
        let ghost m0 = self.vmas.model();
        let ghost out0 = self.outbox@;
        let (a, b) = self.vmas.carve(ar);
        let ghost c = self.vmas.model();
        proof {
            lemma_vma_properties_last();
            lemma_total_carved::<VmaSetOperations>(m0, ar, any_vma());
            lemma_total_carved::<VmaSetOperations>(m0, ar, data_vma());
            lemma_total_carved::<VmaSetOperations>(m0, ar, locked_vma());
            lemma_bounded_carved::<VmaSetOperations>(m0, ar, p);
            assert(dropped(c, a as int, a as int) =~= c);
            assert(self.outbox@ =~= out0.followed_by(removals(c, a as int, a as int)));
        }
        let mut h = a;
        while h < b
            invariant
                a <= h <= b <= c.ks.len(),
                c.ks.len() == c.vs.len(),
                self.vmas.wf(),
                self.vmas.model() == dropped(c, a as int, h as int),
                bounded(self.vmas.ranges(), p),
                self.usage_address_space == total(self.vmas.model(), any_vma()),
                self.data_address_space == total(self.vmas.model(), data_vma()),
                self.locked_drift() == mm0.locked_drift(),
                self.same_settings(&mm0),
                self.brk == mm0.brk,
                self.pmas == mm0.pmas,
                self.cur_rss == mm0.cur_rss,
                self.max_rss == mm0.max_rss,
                self.outbox@ == out0.followed_by(removals(c, a as int, h as int)),
            decreases b - h,
        {
            let ghost before = self.vmas.model();
            let r = self.vmas.range_of(a);
            let v = *self.vmas.value_of(a);
            proof {
                assert(r == c.ks[h as int] && v == c.vs[h as int]);
                lemma_wf_without::<VmaSetOperations>(before, a as int);
                lemma_bounded_without(before, a as int, p);
                lemma_total_without(before, a as int, any_vma());
                lemma_total_without(before, a as int, data_vma());
                lemma_total_without(before, a as int, locked_vma());
                lemma_total_bound(before.without(a as int), any_vma());
                lemma_total_bound(before.without(a as int), data_vma());
            }
            if let Some(mappable) = v.mappable {
                self.outbox.effects.push(
                    Effect::RemoveMapping {
                        mappable,
                        ar: r,
                        off: v.off,
                        writable: v.can_write_mappable(),
                    },
                );
            }
            let n = r.end - r.start;
            self.usage_address_space = self.usage_address_space - n;
            if v.is_private_data() {
                self.data_address_space = self.data_address_space - n;
            }
            if v.is_locked() {
                self.locked_as = self.locked_as.wrapping_sub(n);
            }
            let _ = self.vmas.raw_remove(a);
            proof {
                assert(before.without(a as int) =~= dropped(c, a as int, h + 1));
                assert(self.outbox@ =~= out0.followed_by(removals(c, a as int, h + 1)));
            }
            h = h + 1;
        }
        proof {
            assert forall|k: int| backs(
                vma_at(self.vmas.model(), k),
                #[trigger] pma_at(self.pmas.model(), k),
            ) by {
                clearing_is_silent::<VmaSetOperations>(m0, ar, k);
                assert(backs(vma_at(m0, k), pma_at(mm0.pmas.model(), k)));
            }
        }
    }

    /// Takes away what is mapped in `ar`, and the memory behind it.
    pub(crate) fn unmap(&mut self, ar: AddrRange)
        requires
            old(self).accounted(),
            ar.start < ar.end,
        ensures
            final(self).accounted(),
            old(self).wf() && whole_pages(ar) ==> final(self).wf(),
            final(self).same_settings(old(self)),
            final(self).brk == old(self).brk,
            final(self).max_rss == old(self).max_rss,
            unmapped(*old(self), *final(self), ar),
    {
        let ghost mm0 = *self;
        let opts = InvalidateOpts { invalidate_private: true };
        self.invalidate(ar, opts);
        self.remove_vmas(ar);
        proof {
            assert forall|k: int| #[trigger]
                vma_at(self.vmas.model(), k) == (if ar.has(k) {
                    None
                } else {
                    vma_at(mm0.vmas.model(), k)
                }) by {
                clearing_is_silent::<VmaSetOperations>(mm0.vmas.model(), ar, k);
            }
        }
    }

    /// Takes away what is mapped in whole pages from `addr` on.
    pub fn munmap(&mut self, addr: Addr, length: u64) -> (res: SysResult<()>)
        requires
            old(self).wf(),
        ensures
            final(self).wf(),
            final(self).same_settings(old(self)),
            final(self).brk == old(self).brk,
            final(self).max_rss == old(self).max_rss,
            munmaps(*old(self), *final(self), addr, length, res),
    {
        if addr.page_offset() != 0 {
            return Err(SysError::new(EINVAL));
        }
        if length == 0 {
            return Err(SysError::new(EINVAL));
        }
        let la = match Addr(length).round_up() {
            Some(la) => la,
            None => return Err(SysError::new(EINVAL)),
        };
        let ar = match addr.to_range(la.0) {
            Some(ar) => ar,
            None => return Err(SysError::new(EINVAL)),
        };
        self.unmap(ar);
        Ok(())
    }
}

/// What comes of asking for pages to be taken away.
pub open spec fn munmaps(
    a: MemoryManager,
    b: MemoryManager,
    addr: Addr,
    length: u64,
    res: SysResult<()>,
) -> bool {
    &&& res is Ok == (addr.page_aligned() && length > 0 && addr.0 + Addr(length).page_above()
        <= u64::MAX)
    &&& match res {
        Ok(_) => unmapped(
            a,
            b,
            Range { start: addr.0, end: (addr.0 + Addr(length).page_above()) as u64 },
        ),
        Err(e) => e == sys(EINVAL) && b == a,
    }
}

/// Nothing is left of what was mapped in `ar`, and the rest is as before. The
/// objects that were mapped there are told so, after the address space was
/// unmapped where there was memory.
pub open spec fn unmapped(a: MemoryManager, b: MemoryManager, ar: AddrRange) -> bool {
    let opts = InvalidateOpts { invalidate_private: true };
    let out = if any_doomed(a.pmas.model(), ar, opts) {
        a.outbox@.unmapping(ar.common(a.layout.application()))
    } else {
        a.outbox@
    };
    &&& b.vmas.model() == cleared::<VmaSetOperations>(a.vmas.model(), ar)
    &&& b.pmas.model() == invalidated(a.pmas.model(), ar, opts)
    &&& forall|k: int| #[trigger]
        vma_at(b.vmas.model(), k) == (if ar.has(k) {
            None
        } else {
            vma_at(a.vmas.model(), k)
        })
    &&& forall|k: int| #[trigger]
        pma_at(b.pmas.model(), k) == (if ar.has(k) {
            None
        } else {
            pma_at(a.pmas.model(), k)
        })
    &&& places_kept(a.pmas.model(), b.pmas.model())
    &&& b.locked_drift() == a.locked_drift()
    &&& b.outbox@ == out.followed_by(removals_in(a.vmas.model(), ar))
}

} // verus!
