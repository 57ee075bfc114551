use vstd::prelude::*;

use crate::mm::manager::{page_bound, pma_at, MemoryManager};
use crate::mm::place::{mapped_along, placed_perms, placement, placements, Placement};
use crate::mm::pma::{PmaPoint, PmaSetOperations, PmaView};
use crate::range::AddrRange;
use crate::segment::keys::{held_at, sorted};
use crate::segment::model::{lemma_holder, Segments};
use crate::segment::point::{lemma_point_free, lemma_point_held};
use crate::segment::search::lemma_mask_down;
use crate::segment::SetOperations;

verus! {

/// The placement maps address `k` to the memory `q`, and gives no more access to it than
/// it may have.
pub open spec fn places_at(p: Placement, k: int, q: Option<PmaPoint>) -> bool {
    match q {
        Some(q) => {
            &&& p.addr.0 <= k < p.addr.0 + p.range.length()
            &&& p.file == q.file
            &&& p.range.start + (k - p.addr.0) == q.off
            &&& p.perms.read == q.effective_perms.read
            &&& p.perms.execute == q.effective_perms.execute
            &&& p.perms.write == (q.effective_perms.write && !q.need_cow)
        },
        None => false,
    }
}

/// The memory can be accessed without being copied first.
pub open spec fn open_to_use(q: Option<PmaPoint>) -> bool {
    match q {
        Some(q) => q.effective_perms.read || q.effective_perms.execute || (q.effective_perms.write
            && !q.need_cow),
        None => false,
    }
}

proof fn lemma_placements(
    m: Segments<PmaView>,
    i: int,
    end: u64,
    map_ar: AddrRange,
    precommit: bool,
)
    requires
        sorted(m.ks),
        0 <= i <= m.ks.len(),
    ensures
        ({
            let ps = placements(m, i, end, map_ar, precommit);
            &&& forall|x: int|
                0 <= x < ps.len() ==> exists|j: int|
                    i <= j < m.ks.len() && (#[trigger] m.ks[j]).start < end && #[trigger] ps[x]
                        == placement(m.ks[j], m.vs[j], map_ar, precommit)
            &&& forall|j: int|
                i <= j < m.ks.len() && (#[trigger] m.ks[j]).start < end && placed_perms(
                    m.vs[j],
                ).some() ==> ps.contains(placement(m.ks[j], m.vs[j], map_ar, precommit))
        }),
    decreases m.ks.len() - i,
{
    let ps = placements(m, i, end, map_ar, precommit);
    if i < m.ks.len() && m.ks[i].start < end {
        let rest = placements(m, i + 1, end, map_ar, precommit);
        let x0 = placement(m.ks[i], m.vs[i], map_ar, precommit);
        lemma_placements(m, i + 1, end, map_ar, precommit);
        let n: int = if placed_perms(m.vs[i]).some() {
            1
        } else {
            0
        };
        assert forall|x: int| 0 <= x < ps.len() implies exists|j: int|
            i <= j < m.ks.len() && (#[trigger] m.ks[j]).start < end && #[trigger] ps[x]
                == placement(m.ks[j], m.vs[j], map_ar, precommit) by {
            if x < n {
                assert(ps[x] == x0);
                assert(m.ks[i].start < end);
            } else {
                assert(ps[x] == rest[x - n]);
            }
        }
        assert forall|j: int|
            i <= j < m.ks.len() && (#[trigger] m.ks[j]).start < end && placed_perms(
                m.vs[j],
            ).some() implies ps.contains(placement(m.ks[j], m.vs[j], map_ar, precommit)) by {
            if j == i {
                assert(ps[0] == x0);
            } else {
                let y = placement(m.ks[j], m.vs[j], map_ar, precommit);
                let x = rest.index_of(y);
                assert(rest.contains(y));
                assert(ps[x + n] == y);
            }
        }
    } else if i < m.ks.len() {
        assert forall|j: int| i <= j < m.ks.len() implies (#[trigger] m.ks[j]).start >= end by {
            if i < j {
                assert(m.ks[i].start < m.ks[i].end);
                assert(m.ks[i].end <= m.ks[j].start);
            }
        }
    }
}

/// The part of a segment that is placed.
proof fn lemma_placed_part(mm: MemoryManager, ar: AddrRange, precommit: bool, map_unit: u64, j: int)
    requires
        mm.wf(),
        ar.start < ar.end,
        !mm.no_memory(ar.start),
        mm.memory(ar.start) <= j < mm.pmas.ranges().len(),
        mm.pmas.ranges()[j].start < ar.end,
    ensures
        ({
            let m = mm.pmas.model();
            let along = mapped_along(ar, precommit, map_unit);
            let part = m.ks[j].common(along);
            &&& along.start <= ar.start
            &&& part.start < part.end
            &&& m.ks[j].covers(part)
            &&& m.vs[j].off + m.ks[j].length() <= u64::MAX
            &&& m.ks[j].end <= 0xffff_ffff_ffff_f000
            &&& along.end >= ar.end || along.end == 0xffff_ffff_ffff_f000
        }),
{
    let m = mm.pmas.model();
    let i = mm.memory(ar.start);
    assert(held_at(m.ks, ar.start as int, i)) by {
        let h = choose|h: int| held_at(m.ks, ar.start as int, h);
        assert(exists|h: int| held_at(m.ks, ar.start as int, h)) by {
            let h = choose|h: int| 0 <= h < m.ks.len() && (#[trigger] m.ks[h]).has(
                ar.start as int,
            );
            assert(held_at(m.ks, ar.start as int, h));
        }
        lemma_holder(m.ks, ar.start as int, h);
    }
    assert(PmaSetOperations::fits(m.ks[j], m.vs[j]));
    assert(page_bound()(m.ks[j].start) && page_bound()(m.ks[j].end));
    assert(page_bound()(m.ks[i].start) && page_bound()(m.ks[i].end));
    assert(m.ks[j].start < m.ks[j].end);
    if map_unit != 0 {
        lemma_mask_down(ar.start, map_unit);
    }
    if i < j {
        assert(m.ks[i].end <= m.ks[j].start);
    }
}

/// Each part of a file that is mapped into the address space is the memory behind the
/// addresses at which it is mapped, with the access that this memory has. Memory that is
/// to be copied first cannot be written there.
pub proof fn placed_memory_is_right(
    mm: MemoryManager,
    ar: AddrRange,
    precommit: bool,
    map_unit: u64,
    ps: Seq<Placement>,
    x: int,
)
    requires
        mm.wf(),
        ar.start < ar.end,
        !mm.no_memory(ar.start),
        ps == placements(
            mm.pmas.model(),
            mm.memory(ar.start),
            ar.end,
            mapped_along(ar, precommit, map_unit),
            precommit,
        ),
        0 <= x < ps.len(),
    ensures
        0 < ps[x].range.length(),
        ps[x].precommit == precommit,
        forall|k: int|
            ps[x].addr.0 <= k < ps[x].addr.0 + ps[x].range.length() ==> places_at(
                ps[x],
                k,
                #[trigger] pma_at(mm.pmas.model(), k),
            ),
        precommit ==> ar.start <= ps[x].addr.0 && ps[x].addr.0 + ps[x].range.length() <= ar.end,
{
    let m = mm.pmas.model();
    let i = mm.memory(ar.start);
    let along = mapped_along(ar, precommit, map_unit);
    assert(0 <= i <= m.ks.len());
    lemma_placements(m, i, ar.end, along, precommit);
    let j = choose|j: int|
        i <= j < m.ks.len() && (#[trigger] m.ks[j]).start < ar.end && ps[x] == placement(
            m.ks[j],
            m.vs[j],
            along,
            precommit,
        );
    lemma_placed_part(mm, ar, precommit, map_unit, j);
    let part = m.ks[j].common(along);
    assert forall|k: int|
        ps[x].addr.0 <= k < ps[x].addr.0 + ps[x].range.length() implies places_at(
        ps[x],
        k,
        #[trigger] pma_at(m, k),
    ) by {
        assert(held_at(m.ks, k, j));
        lemma_point_held::<PmaSetOperations>(m, k, j);
    }
}

/// All memory in the range that can be used as it is gets mapped into the address space.
pub proof fn all_memory_is_placed(
    mm: MemoryManager,
    ar: AddrRange,
    precommit: bool,
    map_unit: u64,
    ps: Seq<Placement>,
    k: int,
)
    requires
        mm.wf(),
        ar.start < ar.end,
        !mm.no_memory(ar.start),
        ps == placements(
            mm.pmas.model(),
            mm.memory(ar.start),
            ar.end,
            mapped_along(ar, precommit, map_unit),
            precommit,
        ),
        ar.start <= k < ar.end,
        open_to_use(pma_at(mm.pmas.model(), k)),
    ensures
        exists|x: int|
            0 <= x < ps.len() && places_at(#[trigger] ps[x], k, pma_at(mm.pmas.model(), k)),
{
    let j = lemma_placed_from(mm, ar, k);
    lemma_placed_part(mm, ar, precommit, map_unit, j);
    lemma_placed_unit(mm, ar, precommit, map_unit, ps, k, j);
}

/// The segment that holds an address at or after the start of `ar` is among those that
/// are looked at.
proof fn lemma_placed_from(mm: MemoryManager, ar: AddrRange, k: int) -> (j: int)
    requires
        mm.wf(),
        ar.start < ar.end,
        !mm.no_memory(ar.start),
        ar.start <= k < ar.end,
        pma_at(mm.pmas.model(), k) is Some,
    ensures
        mm.memory(ar.start) <= j,
        held_at(mm.pmas.ranges(), k, j),
{
    let m = mm.pmas.model();
    if forall|j: int| !held_at(m.ks, k, j) {
        lemma_point_free::<PmaSetOperations>(m, k);
    }
    let j = choose|j: int| held_at(m.ks, k, j);
    let h = choose|h: int| 0 <= h < m.ks.len() && (#[trigger] m.ks[h]).has(ar.start as int);
    assert(held_at(m.ks, ar.start as int, h));
    lemma_holder(m.ks, ar.start as int, h);
    if j < h {
        assert(m.ks[j].end <= m.ks[h].start);
    }
    j
}

/// An address is mapped if its segment is looked at and it lies in what is mapped along.
proof fn lemma_placed_unit(
    mm: MemoryManager,
    ar: AddrRange,
    precommit: bool,
    map_unit: u64,
    ps: Seq<Placement>,
    k: int,
    j: int,
)
    requires
        mm.wf(),
        ar.start < ar.end,
        !mm.no_memory(ar.start),
        ps == placements(
            mm.pmas.model(),
            mm.memory(ar.start),
            ar.end,
            mapped_along(ar, precommit, map_unit),
            precommit,
        ),
        mm.memory(ar.start) <= j,
        held_at(mm.pmas.ranges(), k, j),
        mm.pmas.ranges()[j].start < ar.end,
        mapped_along(ar, precommit, map_unit).start <= k,
        k < mapped_along(ar, precommit, map_unit).end || k < ar.end,
        open_to_use(pma_at(mm.pmas.model(), k)),
    ensures
        exists|x: int|
            0 <= x < ps.len() && places_at(#[trigger] ps[x], k, pma_at(mm.pmas.model(), k)),
{
    let m = mm.pmas.model();
    let i = mm.memory(ar.start);
    let along = mapped_along(ar, precommit, map_unit);
    lemma_point_held::<PmaSetOperations>(m, k, j);
    lemma_placements(m, i, ar.end, along, precommit);
    lemma_placed_part(mm, ar, precommit, map_unit, j);
    let y = placement(m.ks[j], m.vs[j], along, precommit);
    assert(ps.contains(y));
    let x = ps.index_of(y);
    assert(places_at(ps[x], k, pma_at(m, k)));
}

/// Where nothing is to be committed, memory is mapped along with that in the range: in
/// units of a power of two, all that lies in the unit of an address of the range and in
/// the same segment of memory. With no unit it is all of the segment.
pub proof fn memory_is_placed_in_units(
    mm: MemoryManager,
    ar: AddrRange,
    map_unit: u64,
    ps: Seq<Placement>,
    j: u64,
    k: u64,
    i: int,
)
    requires
        mm.wf(),
        ar.start < ar.end,
        !mm.no_memory(ar.start),
        ps == placements(
            mm.pmas.model(),
            mm.memory(ar.start),
            ar.end,
            mapped_along(ar, false, map_unit),
            false,
        ),
        ar.start <= j < ar.end,
        held_at(mm.pmas.ranges(), j as int, i),
        held_at(mm.pmas.ranges(), k as int, i),
        map_unit == 0 || (map_unit & (map_unit - 1) as u64 == 0 && j & !((map_unit - 1) as u64) == k
            & !((map_unit - 1) as u64)),
        open_to_use(pma_at(mm.pmas.model(), k as int)),
    ensures
        exists|x: int|
            0 <= x < ps.len() && places_at(
                #[trigger] ps[x],
                k as int,
                pma_at(mm.pmas.model(), k as int),
            ),
{
    let m = mm.pmas.model();
    let along = mapped_along(ar, false, map_unit);
    lemma_point_held::<PmaSetOperations>(m, j as int, i);
    let h = lemma_placed_from(mm, ar, j as int);
    lemma_holder(m.ks, j as int, h);
    lemma_holder(m.ks, j as int, i);
    assert(page_bound()(m.ks[i].end));
    if map_unit != 0 {
        let u = (map_unit - 1) as u64;
        let s = ar.start;
        let e = ar.end;
        assert(k >= s & !u) by (bit_vector)
            requires
                s <= j,
                map_unit == u + 1,
                map_unit & u == 0,
                j & !u == k & !u,
        ;
        if e + u <= u64::MAX {
            let t = (e + u) as u64;
            assert(t & !u >= e && k < t & !u) by (bit_vector)
                requires
                    j < e,
                    t == e + u,
                    map_unit == u + 1,
                    map_unit & u == 0,
                    j & !u == k & !u,
            ;
        }
    }
    lemma_placed_unit(mm, ar, false, map_unit, ps, k as int, i);
}

} // verus!
