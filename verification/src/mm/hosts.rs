use vstd::prelude::*;

use crate::access::AccessType;
use crate::memmap::InvalidateOpts;
use crate::mm::io::known;
use crate::mm::pma::{PmaPoint, PmaSetOperations, PmaView};
use crate::mm::protect::{pma_with_perms, re_permitted_behind, revalued, tidied};
use crate::mm::unmap::{invalidated, outside, remaining};
use crate::range::{AddrRange, Range};
use crate::segment::keys::{held_at, holder_is_unique, range_free, sorted};
use crate::segment::model::{
    cut, cut_start, cut_start_at, holder, inserted, isolated, join_value, joined, joined_about,
    joined_outside, joined_run, lemma_holder, lemma_place, lemma_wf_cut, lemma_wf_joined,
    lemma_wf_set, lemma_wf_with, lemma_wf_without, place, wf_segments, Segments,
};
use crate::segment::nav::first_from;
use crate::segment::point::{
    cutting_keeps, insertion_speaks, isolating_keeps, joining_keeps, lemma_inserted_is_joined,
};
use crate::segment::span::{
    below, carved, cleared, clearing_is_silent, cut_at_key, lemma_carved_parts,
};
use crate::segment::SetOperations;

verus! {

/// A host address, and what part of which file is there.
pub ghost struct HostPlace {
    pub host: int,
    pub file: u64,
    pub off: int,
}

/// Where memory `p` at `r` is mapped at address `k`, if that is known.
pub open spec fn place_in(r: Range, p: PmaView, k: int) -> Option<HostPlace> {
    if p.host.len() > 0 {
        Some(HostPlace { host: p.host[k - r.start], file: p.file, off: p.off + (k - r.start) })
    } else {
        None
    }
}

/// Where the memory at address `k` is mapped, if that is known.
pub open spec fn place_at(m: Segments<PmaView>, k: int) -> Option<HostPlace> {
    let i = holder(m.ks, k);
    if known(m, k) {
        place_in(m.ks[i], m.vs[i], k)
    } else {
        None
    }
}

/// Every part of a file is mapped where `f` says.
pub open spec fn mapped_by(m: Segments<PmaView>, f: spec_fn(u64, int) -> int) -> bool {
    forall|k: int| #[trigger] place_at(m, k) is Some ==> place_at(m, k)->Some_0.host == f(
        place_at(m, k)->Some_0.file,
        place_at(m, k)->Some_0.off,
    )
}

/// The same part of a file is behind both addresses.
pub open spec fn same_part(a: Option<PmaPoint>, b: Option<PmaPoint>) -> bool {
    match (a, b) {
        (Some(a), Some(b)) => a.file == b.file && a.off == b.off,
        _ => false,
    }
}

/// Where it is known in `b` what is mapped behind an address, it was known in `a`
/// and is the same.
pub open spec fn places_kept(a: Segments<PmaView>, b: Segments<PmaView>) -> bool {
    forall|k: int| #[trigger] place_at(b, k) is Some ==> place_at(b, k) == place_at(a, k)
}

/// What is known in `b` of memory that was moved from `ar` to the addresses from
/// `to` on was known in `a` at the old addresses, and else where it is.
pub open spec fn places_moved(
    a: Segments<PmaView>,
    b: Segments<PmaView>,
    ar: AddrRange,
    to: u64,
) -> bool {
    forall|k: int| #[trigger]
        place_at(b, k) is Some ==> place_at(b, k) == (if to <= k < to + ar.length() {
            place_at(a, k - to + ar.start)
        } else {
            place_at(a, k)
        })
}

pub proof fn lemma_place_held(m: Segments<PmaView>, k: int, i: int)
    requires
        sorted(m.ks),
        held_at(m.ks, k, i),
    ensures
        place_at(m, k) == place_in(m.ks[i], m.vs[i], k),
{
    lemma_holder(m.ks, k, i);
}

pub proof fn lemma_place_free(m: Segments<PmaView>, k: int)
    requires
        forall|i: int| !#[trigger] held_at(m.ks, k, i),
    ensures
        place_at(m, k) is None,
{
}

proof fn lemma_place_with(m: Segments<PmaView>, i: int, r: Range, p: PmaView, k: int)
    requires
        sorted(m.ks),
        m.ks.len() == m.vs.len(),
        0 <= i <= m.ks.len(),
        sorted(m.with(i, r, p).ks),
    ensures
        place_at(m.with(i, r, p), k) == (if r.has(k) {
            place_in(r, p, k)
        } else {
            place_at(m, k)
        }),
{
    let n = m.with(i, r, p);
    assert(n.ks[i] == r && n.vs[i] == p);
    if r.has(k) {
        assert(held_at(n.ks, k, i));
        lemma_place_held(n, k, i);
    } else if exists|h: int| held_at(m.ks, k, h) {
        let h = choose|h: int| held_at(m.ks, k, h);
        lemma_place_held(m, k, h);
        let h2 = if h < i { h } else { h + 1 };
        assert(n.ks[h2] == m.ks[h] && n.vs[h2] == m.vs[h]);
        assert(held_at(n.ks, k, h2));
        lemma_place_held(n, k, h2);
    } else {
        lemma_place_free(m, k);
        assert forall|h: int| !#[trigger] held_at(n.ks, k, h) by {
            if held_at(n.ks, k, h) && h != i {
                let h2 = if h < i { h } else { h - 1 };
                assert(n.ks[h] == m.ks[h2]);
                assert(held_at(m.ks, k, h2));
            }
        }
        lemma_place_free(n, k);
    }
}

pub proof fn lemma_place_without(m: Segments<PmaView>, i: int, k: int)
    requires
        wf_segments::<PmaSetOperations>(m),
        0 <= i < m.ks.len(),
    ensures
        place_at(m.without(i), k) == (if m.ks[i].has(k) {
            None
        } else {
            place_at(m, k)
        }),
{
    let n = m.without(i);
    lemma_wf_without::<PmaSetOperations>(m, i);
    if exists|h: int| held_at(n.ks, k, h) {
        let h = choose|h: int| held_at(n.ks, k, h);
        let h2 = if h < i { h } else { h + 1 };
        assert(n.ks[h] == m.ks[h2] && n.vs[h] == m.vs[h2]);
        assert(held_at(m.ks, k, h2));
        lemma_place_held(n, k, h);
        lemma_place_held(m, k, h2);
        if m.ks[i].has(k) {
            holder_is_unique(m.ks, k, i, h2);
        }
    } else {
        lemma_place_free(n, k);
        if !m.ks[i].has(k) {
            assert forall|h: int| !#[trigger] held_at(m.ks, k, h) by {
                if held_at(m.ks, k, h) {
                    let h2 = if h < i { h } else { h - 1 };
                    assert(n.ks[h2] == m.ks[h]);
                    assert(held_at(n.ks, k, h2));
                }
            }
            lemma_place_free(m, k);
        }
    }
}

pub proof fn lemma_place_set(m: Segments<PmaView>, i: int, r: Range, p: PmaView, k: int)
    requires
        wf_segments::<PmaSetOperations>(m),
        0 <= i < m.ks.len(),
        sorted(m.set(i, r, p).ks),
    ensures
        place_at(m.set(i, r, p), k) == (if r.has(k) {
            place_in(r, p, k)
        } else if m.ks[i].has(k) {
            None
        } else {
            place_at(m, k)
        }),
{
    lemma_place_without(m, i, k);
    lemma_wf_without::<PmaSetOperations>(m, i);
    assert(m.without(i).with(i, r, p) =~= m.set(i, r, p));
    lemma_place_with(m.without(i), i, r, p, k);
}

/// Memory that is joined has to be mapped anew, and the rest stays.
proof fn lemma_joined_places(m: Segments<PmaView>, i: int)
    requires
        wf_segments::<PmaSetOperations>(m),
    ensures
        wf_segments::<PmaSetOperations>(joined::<PmaSetOperations>(m, i)),
        places_kept(m, joined::<PmaSetOperations>(m, i)),
{
    joining_keeps::<PmaSetOperations>(m, i, 0);
    if let Some(v) = join_value::<PmaSetOperations>(m, i) {
        let r1 = m.ks[i];
        let r = Range { start: r1.start, end: m.ks[i + 1].end };
        lemma_wf_joined::<PmaSetOperations>(m, i, v);
        let n = m.without(i + 1);
        lemma_wf_without::<PmaSetOperations>(m, i + 1);
        assert(n.ks[i] == r1 && n.vs[i] == m.vs[i]);
        let j = joined::<PmaSetOperations>(m, i);
        assert forall|k: int| #[trigger] place_at(j, k) is Some implies place_at(j, k)
            == place_at(m, k) by {
            lemma_place_without(m, i + 1, k);
            lemma_place_set(n, i, r, v, k);
        }
    }
}

pub proof fn lemma_joined_about_places(m: Segments<PmaView>, i: int)
    requires
        wf_segments::<PmaSetOperations>(m),
    ensures
        places_kept(m, joined_about::<PmaSetOperations>(m, i)),
{
    lemma_joined_places(m, i - 1);
    let n = joined::<PmaSetOperations>(m, i - 1);
    let j = if join_value::<PmaSetOperations>(m, i - 1) is Some {
        i - 1
    } else {
        i
    };
    lemma_joined_places(n, j);
}

proof fn lemma_joined_run_places(m: Segments<PmaView>, i: int, end: u64)
    requires
        wf_segments::<PmaSetOperations>(m),
    ensures
        wf_segments::<PmaSetOperations>(joined_run::<PmaSetOperations>(m, i, end)),
        places_kept(m, joined_run::<PmaSetOperations>(m, i, end)),
    decreases m.ks.len() - i,
{
    if 0 <= i && i + 1 < m.ks.len() && m.ks[i + 1].start < end {
        if join_value::<PmaSetOperations>(m, i) is Some {
            lemma_joined_places(m, i);
            lemma_joined_run_places(joined::<PmaSetOperations>(m, i), i, end);
        } else {
            lemma_joined_run_places(m, i + 1, end);
        }
    }
}

/// Memory that is tidied is where it was, or has to be mapped anew.
pub proof fn lemma_tidied_places(m: Segments<PmaView>, r: AddrRange, t: Segments<PmaView>)
    requires
        wf_segments::<PmaSetOperations>(m),
        tidied::<PmaSetOperations>(m, r, t),
    ensures
        places_kept(m, t),
{
    let i = choose|i: int| #[trigger]
        first_from(m.ks, r.start as int, i) && t == joined_outside::<PmaSetOperations>(
            if i < m.ks.len() {
                joined_run::<PmaSetOperations>(m, i, r.end)
            } else {
                m
            },
            r,
        );
    let m1 = if i < m.ks.len() {
        joined_run::<PmaSetOperations>(m, i, r.end)
    } else {
        m
    };
    lemma_joined_run_places(m, i, r.end);
    let h = holder(m1.ks, r.start as int);
    let m2 = if h < m1.ks.len() {
        joined::<PmaSetOperations>(m1, h - 1)
    } else {
        m1
    };
    lemma_joined_places(m1, h - 1);
    lemma_joined_places(m2, holder(m2.ks, r.end - 1));
}

/// A cut leaves memory where it is.
proof fn lemma_cut_places(m: Segments<PmaView>, i: int, s: u64, k: int)
    requires
        wf_segments::<PmaSetOperations>(m),
        0 <= i < m.ks.len(),
        m.ks[i].cuttable(s as int),
    ensures
        wf_segments::<PmaSetOperations>(cut::<PmaSetOperations>(m, i, s)),
        place_at(cut::<PmaSetOperations>(m, i, s), k) == place_at(m, k),
{
    let r = m.ks[i];
    let v = m.vs[i];
    cutting_keeps::<PmaSetOperations>(m, i, s, k);
    assert(PmaSetOperations::fits(r, v));
    lemma_wf_cut::<PmaSetOperations>(m, i, s);
    let r1 = Range { start: r.start, end: s };
    let r2 = Range { start: s, end: r.end };
    let v1 = PmaSetOperations::lower(r, v, s);
    let v2 = PmaSetOperations::upper(r, v, s);
    lemma_wf_set::<PmaSetOperations>(m, i, r1, v1);
    lemma_place_set(m, i, r1, v1, k);
    lemma_place_with(m.set(i, r1, v1), i + 1, r2, v2, k);
    if r.has(k) {
        assert(held_at(m.ks, k, i));
        lemma_place_held(m, k, i);
    }
}

/// Isolating a part leaves memory where it is.
pub proof fn lemma_isolated_places(m: Segments<PmaView>, i: int, r: Range, k: int)
    requires
        wf_segments::<PmaSetOperations>(m),
        0 <= i < m.ks.len(),
    ensures
        wf_segments::<PmaSetOperations>(isolated::<PmaSetOperations>(m, i, r)),
        place_at(isolated::<PmaSetOperations>(m, i, r), k) == place_at(m, k),
{
    isolating_keeps::<PmaSetOperations>(m, i, r, k);
    if m.ks[i].cuttable(r.start as int) {
        lemma_cut_places(m, i, r.start, k);
    }
    let m1 = cut_start::<PmaSetOperations>(m, i, r);
    let j = cut_start_at(m, i, r);
    if m1.ks[j].cuttable(r.end as int) {
        lemma_cut_places(m1, j, r.end, k);
    }
}

proof fn lemma_cut_at_key_places(m: Segments<PmaView>, s: u64, k: int)
    requires
        wf_segments::<PmaSetOperations>(m),
    ensures
        wf_segments::<PmaSetOperations>(cut_at_key::<PmaSetOperations>(m, s)),
        place_at(cut_at_key::<PmaSetOperations>(m, s), k) == place_at(m, k),
{
    let i = holder(m.ks, s as int);
    if 0 <= i < m.ks.len() && m.ks[i].cuttable(s as int) {
        lemma_cut_places(m, i, s, k);
    }
}

pub proof fn lemma_carved_places(m: Segments<PmaView>, r: Range, k: int)
    requires
        wf_segments::<PmaSetOperations>(m),
    ensures
        wf_segments::<PmaSetOperations>(carved::<PmaSetOperations>(m, r)),
        place_at(carved::<PmaSetOperations>(m, r), k) == place_at(m, k),
{
    lemma_cut_at_key_places(m, r.start, k);
    lemma_cut_at_key_places(cut_at_key::<PmaSetOperations>(m, r.start), r.end, k);
}

/// Other permissions leave memory where it is.
proof fn lemma_re_permitted_places(
    m: Segments<PmaView>,
    areas: Seq<Range>,
    a: int,
    n: int,
    perms: AccessType,
)
    requires
        wf_segments::<PmaSetOperations>(m),
    ensures
        wf_segments::<PmaSetOperations>(re_permitted_behind(m, areas, a, n, perms)),
        places_kept(m, re_permitted_behind(m, areas, a, n, perms)),
    decreases n,
{
    if n > 0 {
        lemma_re_permitted_places(m, areas, a, n - 1, perms);
        let b = re_permitted_behind(m, areas, a, n - 1, perms);
        let r = areas[a + n - 1];
        let c = carved::<PmaSetOperations>(b, r);
        let t = revalued::<PmaSetOperations>(b, r, pma_with_perms(perms));
        lemma_carved_places(b, r, 0);
        assert forall|i: int| 0 <= i < t.ks.len() implies PmaSetOperations::fits(
            #[trigger] t.ks[i],
            t.vs[i],
        ) by {
            assert(PmaSetOperations::fits(c.ks[i], c.vs[i]));
        }
        assert forall|k: int| #[trigger] place_at(t, k) is Some implies place_at(t, k)
            == place_at(m, k) by {
            lemma_carved_places(b, r, k);
            let i = holder(t.ks, k);
            assert(held_at(t.ks, k, i));
            lemma_place_held(t, k, i);
            lemma_place_held(c, k, i);
            assert(place_at(b, k) == place_at(m, k));
        }
    }
}

/// Changing permissions leaves memory where it is, or has it mapped anew.
pub proof fn lemma_protected_places(
    m: Segments<PmaView>,
    areas: Seq<Range>,
    a: int,
    n: int,
    perms: AccessType,
    ar: AddrRange,
    t: Segments<PmaView>,
)
    requires
        wf_segments::<PmaSetOperations>(m),
        tidied::<PmaSetOperations>(re_permitted_behind(m, areas, a, n, perms), ar, t),
    ensures
        places_kept(m, t),
{
    lemma_re_permitted_places(m, areas, a, n, perms);
    lemma_tidied_places(re_permitted_behind(m, areas, a, n, perms), ar, t);
}

/// Memory that is put in is where it says, unless it was joined, and the rest
/// stays or has to be mapped anew.
pub proof fn lemma_inserted_places(m: Segments<PmaView>, r: Range, p: PmaView)
    requires
        wf_segments::<PmaSetOperations>(m),
        r.start < r.end,
        range_free(m.ks, r),
        PmaSetOperations::fits(r, p),
    ensures
        wf_segments::<PmaSetOperations>(inserted::<PmaSetOperations>(m, r, p)),
        forall|k: int| #[trigger]
            place_at(inserted::<PmaSetOperations>(m, r, p), k) is Some ==> place_at(
                inserted::<PmaSetOperations>(m, r, p),
                k,
            ) == (if r.has(k) {
                place_in(r, p, k)
            } else {
                place_at(m, k)
            }),
{
    insertion_speaks::<PmaSetOperations>(m, r, p, 0);
    let i = place(m.ks, r);
    lemma_place(m.ks, r);
    lemma_wf_with::<PmaSetOperations>(m, i, r, p);
    let n = m.with(i, r, p);
    lemma_inserted_is_joined::<PmaSetOperations>(m, r, p);
    lemma_joined_places(n, i - 1);
    lemma_joined_places(joined::<PmaSetOperations>(n, i - 1), i - 1);
    lemma_joined_places(n, i);
    let t = inserted::<PmaSetOperations>(m, r, p);
    assert forall|k: int| #[trigger] place_at(t, k) is Some implies place_at(t, k) == (
    if r.has(k) {
        place_in(r, p, k)
    } else {
        place_at(m, k)
    }) by {
        lemma_place_with(m, i, r, p, k);
        let j = joined::<PmaSetOperations>(n, i - 1);
        if place_at(joined::<PmaSetOperations>(j, i - 1), k) is Some {
            assert(place_at(j, k) == place_at(n, k));
        }
    }
}

/// What is left once a range was cleared is where it was.
pub proof fn lemma_cleared_places(m: Segments<PmaView>, r: Range)
    requires
        wf_segments::<PmaSetOperations>(m),
        r.start <= r.end,
    ensures
        places_kept(m, cleared::<PmaSetOperations>(m, r)),
{
    let c = carved::<PmaSetOperations>(m, r);
    lemma_cut_at_key_places(m, r.start, 0);
    lemma_carved_places(m, r, 0);
    lemma_carved_parts::<PmaSetOperations>(m, r);
    clearing_is_silent::<PmaSetOperations>(m, r, 0);
    let a = below(c.ks, r.start);
    let b = below(c.ks, r.end);
    let t = cleared::<PmaSetOperations>(m, r);
    assert forall|k: int| #[trigger] place_at(t, k) is Some implies place_at(t, k)
        == place_at(m, k) by {
        let h = holder(t.ks, k);
        assert(held_at(t.ks, k, h));
        let j = if h < a { h } else { h + (b - a) };
        assert(t.ks[h] == c.ks[j] && t.vs[h] == c.vs[j]);
        assert(held_at(c.ks, k, j));
        lemma_place_held(t, k, h);
        lemma_place_held(c, k, j);
        lemma_carved_places(m, r, k);
    }
}

/// Memory that is left after addresses were invalidated is where it was.
proof fn lemma_remaining_pieces(
    m: Segments<PmaView>,
    ar: AddrRange,
    opts: InvalidateOpts,
    n: int,
)
    requires
        wf_segments::<PmaSetOperations>(m),
        0 <= n <= m.ks.len(),
        ar.start < ar.end,
    ensures
        remaining(m, ar, opts, n).ks.len() == remaining(m, ar, opts, n).vs.len(),
        forall|h: int|
            0 <= h < remaining(m, ar, opts, n).ks.len() ==> #[trigger] piece_of(
                m,
                n,
                remaining(m, ar, opts, n).ks[h],
                remaining(m, ar, opts, n).vs[h],
            ),
    decreases n,
{
    if n > 0 {
        lemma_remaining_pieces(m, ar, opts, n - 1);
        let rest = remaining(m, ar, opts, n - 1);
        let t = remaining(m, ar, opts, n);
        let r = m.ks[n - 1];
        let p = m.vs[n - 1];
        let o = outside(r, p, ar);
        assert(PmaSetOperations::fits(r, p));
        assert forall|h: int| 0 <= h < t.ks.len() implies #[trigger] piece_of(
            m,
            n,
            t.ks[h],
            t.vs[h],
        ) by {
            if h < rest.ks.len() {
                assert(t.ks[h] == rest.ks[h] && t.vs[h] == rest.vs[h]);
                assert(piece_of(m, n - 1, rest.ks[h], rest.vs[h]));
                let j = choose|j: int|
                    0 <= j < n - 1 && #[trigger] m.ks[j].covers(rest.ks[h]) && same_places(
                        m.ks[j],
                        m.vs[j],
                        rest.ks[h],
                        rest.vs[h],
                    );
                assert(m.ks[j].covers(t.ks[h]));
            } else {
                assert(r.covers(t.ks[h]));
                assert(same_places(r, p, t.ks[h], t.vs[h]));
                assert(m.ks[n - 1].covers(t.ks[h]));
            }
        }
    }
}

/// Both have the same host addresses in `s`.
spec fn same_places(r: Range, p: PmaView, s: Range, q: PmaView) -> bool {
    forall|k: int| s.has(k) ==> #[trigger] place_in(r, p, k) == place_in(s, q, k)
}

/// Memory `p` at `r` is part of one of the first `n` segments.
spec fn piece_of(m: Segments<PmaView>, n: int, r: Range, p: PmaView) -> bool {
    exists|j: int|
        0 <= j < n && #[trigger] m.ks[j].covers(r) && same_places(m.ks[j], m.vs[j], r, p)
}

/// Invalidating addresses leaves the memory that stays where it is.
pub proof fn lemma_invalidated_places(m: Segments<PmaView>, ar: AddrRange, opts: InvalidateOpts)
    requires
        wf_segments::<PmaSetOperations>(m),
        ar.start < ar.end,
        sorted(invalidated(m, ar, opts).ks),
    ensures
        places_kept(m, invalidated(m, ar, opts)),
{
    let t = invalidated(m, ar, opts);
    let n = m.ks.len() as int;
    lemma_remaining_pieces(m, ar, opts, n);
    assert forall|k: int, h: int| held_at(t.ks, k, h) implies place_at(t, k) == place_at(m, k) by {
        assert(piece_of(m, n, t.ks[h], t.vs[h]));
        let j = choose|j: int|
            0 <= j < n && #[trigger] m.ks[j].covers(t.ks[h]) && same_places(
                m.ks[j],
                m.vs[j],
                t.ks[h],
                t.vs[h],
            );
        assert(held_at(m.ks, k, j));
        lemma_place_held(t, k, h);
        lemma_place_held(m, k, j);
        assert(place_in(m.ks[j], m.vs[j], k) == place_in(t.ks[h], t.vs[h], k));
    }
    assert forall|k: int| #[trigger] place_at(t, k) is Some implies place_at(t, k)
        == place_at(m, k) by {
        assert(held_at(t.ks, k, holder(t.ks, k)));
    }
}

} // verus!
