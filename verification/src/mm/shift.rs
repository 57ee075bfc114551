use vstd::prelude::*;

use crate::addr::Addr;
use crate::mm::hosts::{
    lemma_carved_places, lemma_cleared_places, lemma_inserted_places, lemma_place_held, place_at,
    place_in, places_kept, places_moved,
};
use crate::mm::manager::{page_bound, pma_at, whole_pages};
use crate::mm::pma::{any_pma, lemma_pma_properties_last, Pma, PmaSet, PmaSetOperations, PmaView};
use crate::range::{AddrRange, Range};
use crate::segment::bounds::{
    bounded, lemma_bounded_carved, lemma_bounded_inserted, lemma_bounded_without,
};
use crate::segment::keys::{held_at, range_free, sorted};
use crate::segment::model::{holder, inserted, lemma_wf_without, wf_segments, Segments};
use crate::segment::point::{insertion_speaks, lemma_point_free, lemma_point_held};
use crate::segment::span::{
    below, carved, carving_keeps, cleared, clearing_is_silent, dropped, parted,
};
use crate::segment::total::{
    lemma_total_carved, lemma_total_inserted, lemma_total_without, total,
};
use crate::segment::SetOperations;

verus! {

/// The range as far from `to` as `r` is from `from`.
pub open spec fn shifted(r: Range, from: u64, to: u64) -> Range {
    Range { start: (r.start - from + to) as u64, end: (r.end - from + to) as u64 }
}

/// The segments `m` after `n` of those of `c`, from index `a` on, were put in as
/// far from `to` as they were from `from`.
#[verifier::opaque]
pub open spec fn arriving(
    m: Segments<PmaView>,
    c: Segments<PmaView>,
    a: int,
    n: int,
    from: u64,
    to: u64,
) -> Segments<PmaView>
    decreases n,
{
    if n <= 0 {
        m
    } else {
        inserted::<PmaSetOperations>(
            arriving(m, c, a, n - 1, from, to),
            shifted(c.ks[a + n - 1], from, to),
            c.vs[a + n - 1],
        )
    }
}

/// One segment more has been put in.
pub proof fn lemma_arriving(
    m: Segments<PmaView>,
    c: Segments<PmaView>,
    a: int,
    n: int,
    from: u64,
    to: u64,
)
    requires
        0 <= n,
    ensures
        arriving(m, c, a, 0, from, to) == m,
        arriving(m, c, a, n + 1, from, to) == inserted::<PmaSetOperations>(
            arriving(m, c, a, n, from, to),
            shifted(c.ks[a + n], from, to),
            c.vs[a + n],
        ),
{
    reveal(arriving);
}

/// The memory after that behind `ar` was moved to the addresses from `to` on.
pub open spec fn shifted_memory(
    m: Segments<PmaView>,
    ar: AddrRange,
    to: u64,
) -> Segments<PmaView> {
    let c = carved::<PmaSetOperations>(m, ar);
    let a = below(c.ks, ar.start);
    let n = below(c.ks, ar.end) - a;
    arriving(cleared::<PmaSetOperations>(m, ar), c, a, n, ar.start, to)
}

/// The total length of the ranges at the indices from `a` up to `b`.
spec fn run_length(ks: Seq<Range>, a: int, b: int) -> int
    decreases b - a,
{
    if b <= a {
        0
    } else {
        run_length(ks, a, b - 1) + ks[b - 1].length()
    }
}

/// Part of what was moved has come to address `k`.
spec fn arrived(ks: Seq<Range>, a: int, h: int, d: int, k: int) -> bool {
    exists|j: int| a <= j < h && (#[trigger] ks[j]).has(k - d)
}

/// The parts are those of `c` at the indices from `a` on.
spec fn parts_of(parts: Seq<(AddrRange, Pma)>, c: Segments<PmaView>, a: int) -> bool {
    forall|j: int|
        0 <= j < parts.len() ==> (#[trigger] parts[j]).0 == c.ks[a + j] && parts[j].1@ == c.vs[a
            + j]
}

/// Takes out the memory behind `ar`, part by part.
fn take_pmas(pmas: &mut PmaSet, ar: AddrRange) -> (parts: Vec<(AddrRange, Pma)>)
    requires
        old(pmas).wf(),
        bounded(old(pmas).ranges(), page_bound()),
        whole_pages(ar),
        ar.start <= ar.end,
    ensures
        final(pmas).wf(),
        bounded(final(pmas).ranges(), page_bound()),
        final(pmas).model() == cleared::<PmaSetOperations>(old(pmas).model(), ar),
        ({
            let c = carved::<PmaSetOperations>(old(pmas).model(), ar);
            let a = below(c.ks, ar.start);
            let b = below(c.ks, ar.end);
            &&& wf_segments::<PmaSetOperations>(c)
            &&& bounded(c.ks, page_bound())
            &&& parted(c.ks, ar, a, b)
            &&& parts@.len() == b - a
            &&& parts_of(parts@, c, a)
            &&& total(final(pmas).model(), any_pma()) == total(old(pmas).model(), any_pma())
                - run_length(c.ks, a, b)
        }),
{
    let ghost m0 = pmas.model();
    let (a, b) = pmas.carve(ar);
    let ghost c = pmas.model();
    proof {
        lemma_pma_properties_last();
        lemma_total_carved::<PmaSetOperations>(m0, ar, any_pma());
        lemma_bounded_carved::<PmaSetOperations>(m0, ar, page_bound());
        assert(dropped(c, a as int, a as int) =~= c);
    }
    let mut parts: Vec<(AddrRange, Pma)> = Vec::new();
    let mut h = a;
    while h < b
        invariant
            a <= h <= b <= c.ks.len(),
            c.ks.len() == c.vs.len(),
            pmas.wf(),
            pmas.model() == dropped(c, a as int, h as int),
            bounded(pmas.ranges(), page_bound()),
            total(pmas.model(), any_pma()) == total(c, any_pma()) - run_length(
                c.ks,
                a as int,
                h as int,
            ),
            parts@.len() == h - a,
            parts_of(parts@, c, a as int),
        decreases b - h,
    {
        let ghost before = pmas.model();
        proof {
            lemma_wf_without::<PmaSetOperations>(before, a as int);
            lemma_bounded_without(before, a as int, page_bound());
            lemma_total_without(before, a as int, any_pma());
            assert(before.ks[a as int] == c.ks[h as int] && before.vs[a as int]
                == c.vs[h as int]);
            assert(before.without(a as int) =~= dropped(c, a as int, h + 1));
        }
        let r = pmas.range_of(a);
        let v = pmas.raw_remove(a);
        parts.push((r, v));
        h = h + 1;
    }
    parts
}

/// Moves the memory behind `old_ar` to the addresses from `to` on.
#[verifier::spinoff_prover]
#[verifier::rlimit(80)]
pub(crate) fn shift_pmas(pmas: &mut PmaSet, old_ar: AddrRange, to: u64)
    requires
        old(pmas).wf(),
        bounded(old(pmas).ranges(), page_bound()),
        whole_pages(old_ar),
        Addr(to).page_aligned(),
        old_ar.start < old_ar.end,
        to + old_ar.length() <= u64::MAX,
        !old_ar.meets(shifted(old_ar, old_ar.start, to)),
        forall|k: int|
            shifted(old_ar, old_ar.start, to).has(k) ==> #[trigger] pma_at(old(pmas).model(), k)
                is None,
    ensures
        final(pmas).wf(),
        bounded(final(pmas).ranges(), page_bound()),
        total(final(pmas).model(), any_pma()) == total(old(pmas).model(), any_pma()),
        final(pmas).model() == shifted_memory(old(pmas).model(), old_ar, to),
        places_moved(old(pmas).model(), final(pmas).model(), old_ar, to),
        forall|k: int| #[trigger]
            pma_at(final(pmas).model(), k) == (if old_ar.has(k) {
                None
            } else if shifted(old_ar, old_ar.start, to).has(k) {
                pma_at(old(pmas).model(), k - to + old_ar.start)
            } else {
                pma_at(old(pmas).model(), k)
            }),
{
    let ghost m0 = pmas.model();
    let moved = take_pmas(pmas, old_ar);
    let ghost c = carved::<PmaSetOperations>(m0, old_ar);
    let ghost a = below(c.ks, old_ar.start);
    let ghost b = below(c.ks, old_ar.end);
    let ghost base = pmas.model();
    proof {
        assert forall|k: int| #[trigger]
            pma_at(base, k) == (if old_ar.has(k) {
                None
            } else {
                pma_at(m0, k)
            }) by {
            clearing_is_silent::<PmaSetOperations>(m0, old_ar, k);
        }
    }
    let ghost d = to - old_ar.start;
    proof {
        lemma_arriving(base, c, a, 0, old_ar.start, to);
    }
    let mut i: usize = 0;
    while i < moved.len()
        invariant
            0 <= a <= b <= c.ks.len(),
            wf_segments::<PmaSetOperations>(c),
            bounded(c.ks, page_bound()),
            parted(c.ks, old_ar, a, b),
            whole_pages(old_ar),
            Addr(to).page_aligned(),
            d == to - old_ar.start,
            to + old_ar.length() <= u64::MAX,
            moved@.len() == b - a,
            i <= moved@.len(),
            parts_of(moved@, c, a),
            pmas.wf(),
            pmas.model() == arriving(base, c, a, i as int, old_ar.start, to),
            bounded(pmas.ranges(), page_bound()),
            total(pmas.model(), any_pma()) == total(base, any_pma()) + run_length(c.ks, a, a + i),
            forall|k: int|
                shifted(old_ar, old_ar.start, to).has(k) ==> #[trigger] pma_at(base, k) is None,
            places_arrived(c, base, pmas.model(), a, a + i, d),
            forall|k: int| #[trigger]
                pma_at(pmas.model(), k) == (if arrived(c.ks, a, a + i, d, k) {
                    pma_at(c, k - d)
                } else {
                    pma_at(base, k)
                }),
        decreases moved@.len() - i,
    {
        let ghost before = pmas.model();
        let ghost x = a + i;
        assert(moved@[i as int].0 == c.ks[x] && moved@[i as int].1@ == c.vs[x]);
        let r = moved[i].0;
        let v = moved[i].1.duplicate();
        proof {
            assert(old_ar.covers(c.ks[x]));
            assert(page_bound()(c.ks[x].start) && page_bound()(c.ks[x].end));
            assert(c.ks[x].start < c.ks[x].end);
            assert(PmaSetOperations::fits(c.ks[x], c.vs[x]));
        }
        let nr = Range {
            start: to + (r.start - old_ar.start),
            end: to + (r.end - old_ar.start),
        };
        proof {
            lemma_pma_properties_last();
            lemma_room_for_next(c, before, old_ar, to, a, x, nr);
            lemma_total_inserted::<PmaSetOperations>(before, nr, v@, any_pma());
            lemma_bounded_inserted::<PmaSetOperations>(before, nr, v@, page_bound());
            lemma_next_arrived(c, before, base, old_ar, to, a, x, nr);
            lemma_arriving(base, c, a, i as int, old_ar.start, to);
            lemma_next_place(c, before, base, old_ar, to, a, x, nr);
        }
        let _ = pmas.insert(nr, v);
        i = i + 1;
    }
    proof {
        assert(places_moved(m0, pmas.model(), old_ar, to)) by {
            lemma_cleared_places(m0, old_ar);
            assert forall|k: int| #[trigger] place_at(c, k) == place_at(m0, k) by {
                lemma_carved_places(m0, old_ar, k);
            }
            lemma_all_places_arrived(m0, c, base, pmas.model(), old_ar, to, a, b);
        }
        assert forall|k: int| #[trigger]
            pma_at(pmas.model(), k) == (if old_ar.has(k) {
                None
            } else if shifted(old_ar, old_ar.start, to).has(k) {
                pma_at(m0, k - to + old_ar.start)
            } else {
                pma_at(m0, k)
            }) by {
            carving_keeps::<PmaSetOperations>(m0, old_ar, k - d);
            lemma_all_arrived(c, pmas.model(), base, m0, old_ar, to, a, b, k);
        }
    }
}

/// Once the next part is put in, it has arrived.
proof fn lemma_next_arrived(
    c: Segments<PmaView>,
    before: Segments<PmaView>,
    base: Segments<PmaView>,
    old_ar: AddrRange,
    to: u64,
    a: int,
    x: int,
    nr: AddrRange,
)
    requires
        wf_segments::<PmaSetOperations>(c),
        wf_segments::<PmaSetOperations>(before),
        0 <= a <= x < c.ks.len(),
        old_ar.covers(c.ks[x]),
        nr == shifted(c.ks[x], old_ar.start, to),
        to + old_ar.length() <= u64::MAX,
        range_free(before.ks, nr),
        forall|k: int| #[trigger]
            pma_at(before, k) == (if arrived(c.ks, a, x, to - old_ar.start, k) {
                pma_at(c, k - (to - old_ar.start))
            } else {
                pma_at(base, k)
            }),
    ensures
        forall|k: int| #[trigger]
            pma_at(inserted::<PmaSetOperations>(before, nr, c.vs[x]), k) == (if arrived(
                c.ks,
                a,
                x + 1,
                to - old_ar.start,
                k,
            ) {
                pma_at(c, k - (to - old_ar.start))
            } else {
                pma_at(base, k)
            }),
{
    let d = to - old_ar.start;
    let n = inserted::<PmaSetOperations>(before, nr, c.vs[x]);
    assert(c.ks[x].start < c.ks[x].end);
    assert(PmaSetOperations::fits(c.ks[x], c.vs[x]));
    assert forall|k: int| #[trigger]
        pma_at(n, k) == (if arrived(c.ks, a, x + 1, d, k) {
            pma_at(c, k - d)
        } else {
            pma_at(base, k)
        }) by {
        insertion_speaks::<PmaSetOperations>(before, nr, c.vs[x], k);
        if c.ks[x].has(k - d) {
            assert(held_at(c.ks, k - d, x));
            lemma_point_held::<PmaSetOperations>(c, k - d, x);
            assert(arrived(c.ks, a, x + 1, d, k));
        } else {
            lemma_not_next(c.ks, a, x, d, k);
            assert(pma_at(before, k) == pma_at(before, k));
        }
    }
}

/// Once the next part is put in, it is where it was before it moved.
proof fn lemma_next_place(
    c: Segments<PmaView>,
    before: Segments<PmaView>,
    base: Segments<PmaView>,
    old_ar: AddrRange,
    to: u64,
    a: int,
    x: int,
    nr: AddrRange,
)
    requires
        wf_segments::<PmaSetOperations>(c),
        wf_segments::<PmaSetOperations>(before),
        0 <= a <= x < c.ks.len(),
        old_ar.covers(c.ks[x]),
        nr == shifted(c.ks[x], old_ar.start, to),
        to + old_ar.length() <= u64::MAX,
        range_free(before.ks, nr),
        places_arrived(c, base, before, a, x, to - old_ar.start),
    ensures
        places_arrived(
            c,
            base,
            inserted::<PmaSetOperations>(before, nr, c.vs[x]),
            a,
            x + 1,
            to - old_ar.start,
        ),
{
    let d = to - old_ar.start;
    let n = inserted::<PmaSetOperations>(before, nr, c.vs[x]);
    assert(c.ks[x].start < c.ks[x].end);
    assert(PmaSetOperations::fits(c.ks[x], c.vs[x]));
    lemma_inserted_places(before, nr, c.vs[x]);
    assert forall|k: int| #[trigger] place_at(n, k) is Some implies place_at(n, k) == (if arrived(
        c.ks,
        a,
        x + 1,
        d,
        k,
    ) {
        place_at(c, k - d)
    } else {
        place_at(base, k)
    }) by {
        if c.ks[x].has(k - d) {
            assert(held_at(c.ks, k - d, x));
            lemma_place_held(c, k - d, x);
            assert(arrived(c.ks, a, x + 1, d, k));
            assert(place_in(nr, c.vs[x], k) == place_in(c.ks[x], c.vs[x], k - d));
        } else {
            lemma_not_next(c.ks, a, x, d, k);
            assert(place_at(before, k) is Some);
        }
    }
}

/// What is known of the parts that have come is what was known before they moved.
spec fn places_arrived(
    c: Segments<PmaView>,
    base: Segments<PmaView>,
    m: Segments<PmaView>,
    a: int,
    h: int,
    d: int,
) -> bool {
    forall|k: int| #[trigger]
        place_at(m, k) is Some ==> place_at(m, k) == (if arrived(c.ks, a, h, d, k) {
            place_at(c, k - d)
        } else {
            place_at(base, k)
        })
}

/// Once all parts have arrived, they are where they were before they moved.
proof fn lemma_all_places_arrived(
    m0: Segments<PmaView>,
    c: Segments<PmaView>,
    base: Segments<PmaView>,
    m: Segments<PmaView>,
    old_ar: AddrRange,
    to: u64,
    a: int,
    b: int,
)
    requires
        old_ar.start < old_ar.end,
        to + old_ar.length() <= u64::MAX,
        places_kept(m0, base),
        forall|k: int| #[trigger] place_at(c, k) == place_at(m0, k),
        sorted(base.ks),
        forall|k: int|
            shifted(old_ar, old_ar.start, to).has(k) ==> #[trigger] pma_at(base, k) is None,
        parted(c.ks, old_ar, a, b),
        places_arrived(c, base, m, a, b, to - old_ar.start),
    ensures
        places_moved(m0, m, old_ar, to),
{
    let d = to - old_ar.start;
    assert forall|k: int| #[trigger] place_at(m, k) is Some implies place_at(m, k) == (if to <= k
        < to + old_ar.length() {
        place_at(m0, k - to + old_ar.start)
    } else {
        place_at(m0, k)
    }) by {
        if arrived(c.ks, a, b, d, k) {
            let j = choose|j: int| a <= j < b && (#[trigger] c.ks[j]).has(k - d);
            assert(old_ar.covers(c.ks[j]));
            assert(place_at(c, k - d) == place_at(m0, k - d));
        } else {
            assert(place_at(base, k) == place_at(m0, k));
            if shifted(old_ar, old_ar.start, to).has(k) {
                lemma_known_is_there(base, k);
                assert(pma_at(base, k) is None);
            }
        }
    }
}

/// Where memory is mapped is known only where there is some.
proof fn lemma_known_is_there(m: Segments<PmaView>, k: int)
    requires
        sorted(m.ks),
        place_at(m, k) is Some,
    ensures
        pma_at(m, k) is Some,
{
    lemma_point_held::<PmaSetOperations>(m, k, holder(m.ks, k));
}

proof fn lemma_not_next(ks: Seq<Range>, a: int, x: int, d: int, k: int)
    requires
        0 <= a <= x < ks.len(),
        !ks[x].has(k - d),
    ensures
        arrived(ks, a, x + 1, d, k) == arrived(ks, a, x, d, k),
{
    if arrived(ks, a, x, d, k) {
        let j = choose|j: int| a <= j < x && (#[trigger] ks[j]).has(k - d);
        assert(ks[j].has(k - d));
    }
    if arrived(ks, a, x + 1, d, k) {
        let j = choose|j: int| a <= j < x + 1 && (#[trigger] ks[j]).has(k - d);
        assert(ks[j].has(k - d));
    }
}

/// Once all parts have arrived, the memory is that of the old addresses.
proof fn lemma_all_arrived(
    c: Segments<PmaView>,
    m: Segments<PmaView>,
    base: Segments<PmaView>,
    m0: Segments<PmaView>,
    old_ar: AddrRange,
    to: u64,
    a: int,
    b: int,
    k: int,
)
    requires
        sorted(c.ks),
        parted(c.ks, old_ar, a, b),
        to + old_ar.length() <= u64::MAX,
        old_ar.start < old_ar.end,
        !old_ar.meets(shifted(old_ar, old_ar.start, to)),
        shifted(old_ar, old_ar.start, to).has(k) ==> pma_at(base, k) is None,
        pma_at(base, k) == (if old_ar.has(k) {
            None
        } else {
            pma_at(m0, k)
        }),
        pma_at(c, k - (to - old_ar.start)) == pma_at(m0, k - (to - old_ar.start)),
        pma_at(m, k) == (if arrived(c.ks, a, b, to - old_ar.start, k) {
            pma_at(c, k - (to - old_ar.start))
        } else {
            pma_at(base, k)
        }),
    ensures
        pma_at(m, k) == (if old_ar.has(k) {
            None
        } else if shifted(old_ar, old_ar.start, to).has(k) {
            pma_at(m0, k - to + old_ar.start)
        } else {
            pma_at(m0, k)
        }),
{
    let d = to - old_ar.start;
    if arrived(c.ks, a, b, d, k) {
        let j = choose|j: int| a <= j < b && (#[trigger] c.ks[j]).has(k - d);
        assert(old_ar.covers(c.ks[j]));
    } else if shifted(old_ar, old_ar.start, to).has(k) {
        assert forall|j: int| !#[trigger] held_at(c.ks, k - d, j) by {
            if held_at(c.ks, k - d, j) {
                if j < a {
                    assert(c.ks[j].end <= old_ar.start);
                } else if j >= b {
                    assert(old_ar.end <= c.ks[j].start);
                } else {
                    assert(c.ks[j].has(k - d));
                }
            }
        }
        lemma_point_free::<PmaSetOperations>(c, k - d);
    }
}

/// The next part to be moved has nothing in its way.
proof fn lemma_room_for_next(
    c: Segments<PmaView>,
    before: Segments<PmaView>,
    old_ar: AddrRange,
    to: u64,
    a: int,
    x: int,
    nr: AddrRange,
)
    requires
        sorted(c.ks),
        sorted(before.ks),
        0 <= a <= x < c.ks.len(),
        old_ar.covers(c.ks[x]),
        nr == shifted(c.ks[x], old_ar.start, to),
        to + old_ar.length() <= u64::MAX,
        forall|k: int|
            shifted(old_ar, old_ar.start, to).has(k) && !arrived(
                c.ks,
                a,
                x,
                to - old_ar.start,
                k,
            ) ==> #[trigger] pma_at(before, k) is None,
    ensures
        range_free(before.ks, nr),
{
    let d = to - old_ar.start;
    assert(c.ks[x].start < c.ks[x].end);
    assert forall|i: int| 0 <= i < before.ks.len() implies !(#[trigger] before.ks[i]).meets(
        nr,
    ) by {
        if before.ks[i].meets(nr) {
            assert(before.ks[i].start < before.ks[i].end);
            let k = if before.ks[i].start >= nr.start {
                before.ks[i].start as int
            } else {
                nr.start as int
            };
            assert(held_at(before.ks, k, i));
            lemma_point_held::<PmaSetOperations>(before, k, i);
            assert(!arrived(c.ks, a, x, d, k)) by {
                if arrived(c.ks, a, x, d, k) {
                    let j = choose|j: int| a <= j < x && (#[trigger] c.ks[j]).has(k - d);
                    assert(c.ks[j].end <= c.ks[x].start);
                }
            }
            assert(pma_at(before, k) is None);
        }
    }
}

} // verus!
