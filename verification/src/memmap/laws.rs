use vstd::prelude::*;

use crate::memmap::mappable::InvalidateOpts;
use crate::memmap::mapping_set::{
    added, invalidation, invalidations, mapped_at, part_at, place_of, places, removed, spot,
    Invalidation, MappingOfRange, MappingSetOperations,
};
use crate::range::{AddrRange, MappableRange};
use crate::segment::keys::held_at;
use crate::segment::model::{wf_segments, Segments};
use crate::segment::point::{lemma_point_free, lemma_point_held};
use crate::segment::SetOperations;

verus! {

/// A mapping that is added maps each byte of the object, from its offset on, at the
/// address that is as far from its start, besides where it is mapped already.
pub proof fn added_mapping_is_there(
    p: Option<Set<(int, bool)>>,
    ar: AddrRange,
    offset: u64,
    writable: bool,
    j: int,
)
    requires
        ar.start < ar.end,
        offset + ar.length() <= u64::MAX,
    ensures
        part_at(ar, offset).has(offset + j) == (0 <= j < ar.end - ar.start),
        added(p, spot(ar, offset, writable, offset + j)) matches Some(s) && s.contains(
            (ar.start + j, writable),
        ) && forall|x: (int, bool)| #[trigger]
            s.contains(x) ==> x == (ar.start + j, writable) || (p is Some && p->Some_0.contains(x)),
        p matches Some(t) ==> forall|x: (int, bool)| #[trigger]
            t.contains(x) ==> added(p, spot(ar, offset, writable, offset + j))->Some_0.contains(x),
{
}

/// A mapping that is taken out maps none of its bytes any more, and all others are mapped
/// where they were.
pub proof fn removed_mapping_is_gone(
    p: Option<Set<(int, bool)>>,
    ar: AddrRange,
    offset: u64,
    writable: bool,
    j: int,
    x: (int, bool),
)
    ensures
        ({
            let q = removed(p, spot(ar, offset, writable, offset + j));
            (q is Some && q->Some_0.contains(x)) == (p is Some && p->Some_0.contains(x) && x != (
                ar.start + j,
                writable,
            ))
        }),
{
    if let Some(s) = p {
        let y = spot(ar, offset, writable, offset + j);
        if s.remove(y) == Set::<(int, bool)>::empty() {
            assert(!s.remove(y).contains(x));
        }
    }
}

/// The invalidation comes from the mapping at index `h` of the part at index `i`.
spec fn comes_from(
    m: Segments<Seq<MappingOfRange>>,
    mr: MappableRange,
    opts: InvalidateOpts,
    i: int,
    h: int,
    e: Invalidation,
) -> bool {
    &&& 0 <= i < m.ks.len()
    &&& m.ks[i].meets(mr)
    &&& 0 <= h < m.vs[i].len()
    &&& e == invalidation(m.ks[i], m.vs[i][h], mr, opts)
}

/// The invalidation comes from one of the first `n` parts.
spec fn comes_from_first(
    m: Segments<Seq<MappingOfRange>>,
    mr: MappableRange,
    opts: InvalidateOpts,
    n: int,
    e: Invalidation,
) -> bool {
    exists|i: int, h: int| i < n && #[trigger] comes_from(m, mr, opts, i, h, e)
}

proof fn lemma_invalidations(
    m: Segments<Seq<MappingOfRange>>,
    mr: MappableRange,
    opts: InvalidateOpts,
    n: int,
)
    requires
        0 <= n <= m.ks.len(),
        m.ks.len() == m.vs.len(),
    ensures
        ({
            let all = invalidations(m, mr, opts, n);
            &&& forall|i: int, h: int|
                #![trigger m.ks[i], m.vs[i][h]]
                0 <= i < n && m.ks[i].meets(mr) && 0 <= h < m.vs[i].len() ==> all.contains(
                    invalidation(m.ks[i], m.vs[i][h], mr, opts),
                )
            &&& forall|x: int|
                0 <= x < all.len() ==> comes_from_first(m, mr, opts, n, #[trigger] all[x])
        }),
    decreases n,
{
    if n > 0 {
        lemma_invalidations(m, mr, opts, n - 1);
        let rest = invalidations(m, mr, opts, n - 1);
        let all = invalidations(m, mr, opts, n);
        let more = if m.ks[n - 1].meets(mr) {
            m.vs[n - 1].map_values(|v: MappingOfRange| invalidation(m.ks[n - 1], v, mr, opts))
        } else {
            Seq::<Invalidation>::empty()
        };
        assert(all == rest + more);
        assert forall|i: int, h: int|
            #![trigger m.ks[i], m.vs[i][h]]
            0 <= i < n && m.ks[i].meets(mr) && 0 <= h < m.vs[i].len() implies all.contains(
            invalidation(m.ks[i], m.vs[i][h], mr, opts),
        ) by {
            let e = invalidation(m.ks[i], m.vs[i][h], mr, opts);
            if i < n - 1 {
                assert(rest.contains(e));
                let x = rest.index_of(e);
                assert(all[x] == e);
            } else {
                assert(all[rest.len() + h] == e);
            }
        }
        assert forall|x: int| 0 <= x < all.len() implies comes_from_first(
            m,
            mr,
            opts,
            n,
            #[trigger] all[x],
        ) by {
            if x < rest.len() {
                assert(all[x] == rest[x]);
                assert(comes_from_first(m, mr, opts, n - 1, rest[x]));
                let (i, h) = choose|i: int, h: int|
                    i < n - 1 && #[trigger] comes_from(m, mr, opts, i, h, rest[x]);
                assert(comes_from(m, mr, opts, i, h, all[x]));
            } else {
                let h = x - rest.len();
                assert(comes_from(m, mr, opts, n - 1, h, all[x]));
            }
        }
    }
}

/// Wherever a byte of the part of the object that has changed is mapped, translations are
/// no longer valid.
pub proof fn changed_part_is_invalidated(
    m: Segments<Seq<MappingOfRange>>,
    mr: MappableRange,
    opts: InvalidateOpts,
    k: int,
    x: (int, bool),
)
    requires
        wf_segments::<MappingSetOperations>(m),
        mr.start <= k < mr.end,
        mapped_at(m, k) matches Some(s) && s.contains(x),
    ensures
        ({
            let all = invalidations(m, mr, opts, m.ks.len() as int);
            exists|i: int|
                {
                    &&& 0 <= i < all.len()
                    &&& (#[trigger] all[i]).addr_range.start <= x.0 < all[i].addr_range.end
                    &&& all[i].opts.invalidate_private == opts.invalidate_private
                }
        }),
{
    let all = invalidations(m, mr, opts, m.ks.len() as int);
    if forall|i: int| !held_at(m.ks, k, i) {
        lemma_point_free::<MappingSetOperations>(m, k);
    }
    let i = choose|i: int| held_at(m.ks, k, i);
    lemma_point_held::<MappingSetOperations>(m, k, i);
    assert(MappingSetOperations::fits(m.ks[i], m.vs[i]));
    assert(places(m.ks[i], m.vs[i], k).contains(x));
    let h = choose|h: int|
        0 <= h < m.vs[i].len() && x == place_of(m.ks[i], #[trigger] m.vs[i][h], k);
    lemma_invalidations(m, mr, opts, m.ks.len() as int);
    assert(m.ks[i].meets(mr));
    let e = invalidation(m.ks[i], m.vs[i][h], mr, opts);
    assert(m.vs[i][h].addr_range.length() == m.ks[i].length());
    assert(all.contains(e));
    let y = all.index_of(e);
    assert(all[y].addr_range.start <= x.0 < all[y].addr_range.end);
}

/// Translations are no longer valid only where the part that has changed is mapped.
pub proof fn only_changed_part_is_invalidated(
    m: Segments<Seq<MappingOfRange>>,
    mr: MappableRange,
    opts: InvalidateOpts,
    y: int,
    a: int,
)
    requires
        wf_segments::<MappingSetOperations>(m),
        0 <= y < invalidations(m, mr, opts, m.ks.len() as int).len(),
        invalidations(m, mr, opts, m.ks.len() as int)[y].addr_range.start <= a,
        a < invalidations(m, mr, opts, m.ks.len() as int)[y].addr_range.end,
    ensures
        exists|k: int, w: bool|
            mr.start <= k < mr.end && mapped_at(m, k) is Some && #[trigger] mapped_at(
                m,
                k,
            )->Some_0.contains((a, w)),
{
    let all = invalidations(m, mr, opts, m.ks.len() as int);
    lemma_invalidations(m, mr, opts, m.ks.len() as int);
    assert(comes_from_first(m, mr, opts, m.ks.len() as int, all[y]));
    let (i, h) = choose|i: int, h: int|
        i < m.ks.len() && #[trigger] comes_from(m, mr, opts, i, h, all[y]);
    assert(MappingSetOperations::fits(m.ks[i], m.vs[i]));
    assert(m.ks[i].start < m.ks[i].end);
    let v = m.vs[i][h];
    assert(v.addr_range.length() == m.ks[i].length());
    assert(v.addr_range.well_formed());
    let k = m.ks[i].start + (a - v.addr_range.start);
    assert(m.ks[i].has(k) && mr.has(k));
    assert(held_at(m.ks, k, i));
    lemma_point_held::<MappingSetOperations>(m, k, i);
    assert(place_of(m.ks[i], v, k) == (a, v.writable));
    assert(places(m.ks[i], m.vs[i], k).contains((a, v.writable)));
    assert(mapped_at(m, k)->Some_0.contains((a, v.writable)));
}

} // verus!
