use vstd::prelude::*;

use crate::access::AccessType;
use crate::mm::io::{
    access_end, access_result, all_hosts, host_at, hosts, lemma_vma_held, limited, IoLimit,
};
use crate::mm::manager::{pma_at, vma_at, MemoryManager};
use crate::mm::pma::{PmaSetOperations, PmaView};
use crate::mm::protect::{may_have, reaches};
use crate::mm::transfer::{all_ready, pages_of, way_to, IoStart, MappingStep};
use crate::mm::vec_io::{cut_short, first_bytes, had_up_to, none_empty, VecIoStart};
use crate::mm::vma::VmaSetOperations;
use crate::range::{AddrRange, Range};
use crate::segment::keys::held_at;
use crate::segment::model::{holder, lemma_holder, Segments};
use crate::segment::point::{lemma_point_free, lemma_point_held};
use crate::segment::SetOperations;

verus! {

/// The pages of a range are whole pages that hold it, and no more than that takes.
pub proof fn pages_hold_the_range(ar: AddrRange)
    requires
        ar.start < ar.end <= 0xffff_ffff_ffff_f000,
    ensures
        pages_of(ar).1 is Ok,
        pages_of(ar).0.start % 4096 == 0,
        pages_of(ar).0.end % 4096 == 0,
        pages_of(ar).0.start <= ar.start < pages_of(ar).0.start + 4096,
        ar.end <= pages_of(ar).0.end < ar.end + 4096,
{
}

/// Where an access goes up to `x` it goes up to the end of an area or to its own end.
proof fn lemma_access_end(mm: MemoryManager, ar: AddrRange, need: AccessType, max: bool, x: u64)
    requires
        mm.wf(),
        ar.start < ar.end,
        reaches(mm.vmas.model(), ar, need, max, x),
        x > ar.start,
    ensures
        access_end(mm.vmas.ranges(), ar, x) >= x,
        x < ar.end ==> access_end(mm.vmas.ranges(), ar, x) == x,
{
    let m = mm.vmas.model();
    let last = (x - 1) as u64;
    assert(may_have(vma_at(m, last as int), need, max));
    lemma_vma_held(m, last);
    let h = holder(m.ks, last as int);
    assert(held_at(m.ks, last as int, h));
    if x < ar.end && m.ks[h].end > x {
        assert(held_at(m.ks, x as int, h));
        lemma_point_held::<VmaSetOperations>(m, last as int, h);
        lemma_point_held::<VmaSetOperations>(m, x as int, h);
    }
}

/// An access that starts is to what can be accessed from its start on, all of it if there
/// is nothing else. One that does not start is to an address that cannot be accessed.
pub proof fn access_is_to_what_can_be_accessed(
    mm: MemoryManager,
    ar: AddrRange,
    need: AccessType,
    max: bool,
    s: IoStart,
)
    requires
        mm.wf(),
        ar.start < ar.end,
        mm.starts(ar, need, max, s),
        !(s is Ready),
    ensures
        match s {
            IoStart::Walk { ar: part, walk, res } => {
                &&& part.start == ar.start
                &&& part.start < part.end <= ar.end
                &&& forall|k: int|
                    part.start <= k < part.end ==> may_have(
                        #[trigger] vma_at(mm.vmas.model(), k),
                        need,
                        max,
                    )
                &&& part.end < ar.end ==> !may_have(
                    vma_at(mm.vmas.model(), part.end as int),
                    need,
                    max,
                )
                &&& res is Ok == (part == ar)
                &&& walk.at == need
                &&& walk.pos == walk.ar.start
                &&& walk.ar.start % 4096 == 0
                &&& walk.ar.start <= part.start < walk.ar.start + 4096
            },
            IoStart::Stop(r) => {
                &&& r matches Err(e) && e.code == 14
                &&& !may_have(vma_at(mm.vmas.model(), ar.start as int), need, max)
            },
            IoStart::Ready(_) => true,
        },
{
    let m = mm.vmas.model();
    if !all_ready(mm.pmas.model(), ar, need, max) {
        let x = choose|x: u64|
            {
                let end = access_end(mm.vmas.ranges(), ar, x);
                let res = access_result(mm.vmas.model(), ar, x);
                &&& #[trigger] reaches(mm.vmas.model(), ar, need, max, x)
                &&& match limited(ar, end, res) {
                    IoLimit::Stop(r) => s == IoStart::Stop(r),
                    IoLimit::Go(part) => s == (IoStart::Walk {
                        ar: part,
                        walk: way_to(part, need),
                        res,
                    }),
                }
            };
        if x > ar.start {
            lemma_access_end(mm, ar, need, max, x);
        } else {
            assert(!may_have(vma_at(m, ar.start as int), need, max));
            assert(ar.has(ar.start as int));
            lemma_nothing_before(mm, ar, need, max, x);
        }
    }
}

/// Where not even the first address can be accessed, areas end there or before.
proof fn lemma_nothing_before(mm: MemoryManager, ar: AddrRange, need: AccessType, max: bool, x: u64)
    requires
        mm.wf(),
        x == ar.start,
    ensures
        access_end(mm.vmas.ranges(), ar, x) <= x,
{
    let m = mm.vmas.model();
    if crate::segment::keys::free(m.ks, x as int) {
        crate::segment::keys::lemma_free_is_between(m.ks, x);
    } else {
        let h = choose|h: int| 0 <= h < m.ks.len() && (#[trigger] m.ks[h]).has(x as int);
        assert(held_at(m.ks, x as int, h));
        lemma_holder(m.ks, x as int, h);
        if h > 0 {
            assert(m.ks[h - 1].end <= m.ks[h].start);
        }
    }
}

/// The addresses of several ranges, one after the other.
pub open spec fn addresses(ars: Seq<AddrRange>) -> Seq<int>
    decreases ars.len(),
{
    if ars.len() == 0 {
        Seq::empty()
    } else {
        Seq::new(ars[0].length() as nat, |i: int| ars[0].start + i) + addresses(ars.skip(1))
    }
}

proof fn lemma_addresses_of_one(r: AddrRange)
    ensures
        addresses(seq![r]) == Seq::new(r.length() as nat, |i: int| r.start + i),
{
    reveal_with_fuel(addresses, 2);
    let f = Seq::new(r.length() as nat, |i: int| r.start + i);
    assert(seq![r].skip(1) =~= Seq::<AddrRange>::empty());
    assert(f + Seq::<int>::empty() =~= f);
}

proof fn lemma_addresses_add(a: Seq<AddrRange>, b: Seq<AddrRange>)
    ensures
        addresses(a + b) == addresses(a) + addresses(b),
    decreases a.len(),
{
    if a.len() == 0 {
        assert(a + b =~= b);
        assert(addresses(a) + addresses(b) =~= addresses(b));
    } else {
        let ab = a + b;
        assert(ab.skip(1) =~= a.skip(1) + b);
        assert(ab[0] == a[0]);
        lemma_addresses_add(a.skip(1), b);
        let f = Seq::new(a[0].length() as nat, |i: int| a[0].start + i);
        assert(f + (addresses(a.skip(1)) + addresses(b)) =~= (f + addresses(a.skip(1)))
            + addresses(b));
    }
}

/// The first bytes of several ranges are at the first of their addresses.
pub proof fn first_bytes_come_first(ars: Seq<AddrRange>, n: int)
    requires
        forall|i: int| 0 <= i < ars.len() ==> (#[trigger] ars[i]).well_formed(),
        0 <= n,
    ensures
        addresses(first_bytes(ars, n)) == (if n <= addresses(ars).len() {
            addresses(ars).take(n)
        } else {
            addresses(ars)
        }),
    decreases ars.len(),
{
    if ars.len() > 0 && n > 0 {
        let rest = ars.skip(1);
        let f = Seq::new(ars[0].length() as nat, |i: int| ars[0].start + i);
        assert(ars[0].well_formed());
        assert forall|i: int| 0 <= i < rest.len() implies (#[trigger] rest[i]).well_formed() by {
            assert(ars[i + 1].well_formed());
        }
        if ars[0].length() <= n {
            let m = n - ars[0].length();
            first_bytes_come_first(rest, m);
            let b = first_bytes(ars, n);
            assert(b[0] == ars[0]);
            assert(b.skip(1) =~= first_bytes(rest, m));
            assert(addresses(b) == f + addresses(first_bytes(rest, m)));
            if n <= addresses(ars).len() {
                assert(f + addresses(rest).take(m) =~= addresses(ars).take(n));
            }
        } else {
            let r = Range { start: ars[0].start, end: (ars[0].start + n) as u64 };
            let b = seq![r];
            lemma_addresses_of_one(r);
            assert(addresses(b) =~= addresses(ars).take(n));
        }
    } else if ars.len() == 0 {
        assert(addresses(ars).take(0) =~= addresses(ars));
    } else {
        assert(addresses(ars).take(0) =~= Seq::<int>::empty());
    }
}

/// What is left of several ranges, where memory could be had up to some address of one of
/// them, are their first addresses: all of the ranges before, and that one up to there.
pub proof fn memory_is_had_for_the_first_addresses(ars: Seq<AddrRange>, j: int, end: u64)
    requires
        forall|i: int| 0 <= i < ars.len() ==> (#[trigger] ars[i]).well_formed(),
        0 <= j < ars.len(),
        ars[j].start <= end <= ars[j].end,
    ensures
        ({
            let n = addresses(ars.take(j)).len() + (end - ars[j].start);
            &&& n <= addresses(ars).len()
            &&& addresses(had_up_to(ars, j, end)) == addresses(ars).take(n)
            &&& addresses(cut_short(ars, j, end)) == addresses(ars).take(n)
        }),
{
    let a = ars.take(j);
    let b = ars.skip(j);
    let m = end - ars[j].start;
    assert(ars =~= a + b);
    lemma_addresses_add(a, b);
    assert(ars[j].well_formed());
    assert forall|i: int| 0 <= i < b.len() implies (#[trigger] b[i]).well_formed() by {
        assert(ars[j + i].well_formed());
    }
    first_bytes_come_first(b, m);
    assert(b[0] == ars[j]);
    let n = addresses(a).len() + m;
    assert(addresses(b).len() >= ars[j].length());
    lemma_addresses_add(a, first_bytes(b, m));
    assert(addresses(a) + addresses(b).take(m) =~= addresses(ars).take(n));
    if end <= ars[j].start {
        assert(addresses(a) =~= addresses(ars).take(n));
    } else {
        let r = Range { start: ars[j].start, end };
        lemma_addresses_add(a, seq![r]);
        assert(a.push(r) =~= a + seq![r]);
        lemma_addresses_of_one(r);
        assert(addresses(seq![r]) =~= addresses(b).take(m));
    }
}

/// The places of several ranges are those of their addresses, one after the other.
pub proof fn places_are_those_of_the_addresses(m: Segments<PmaView>, ars: Seq<AddrRange>)
    requires
        forall|i: int| 0 <= i < ars.len() ==> (#[trigger] ars[i]).well_formed(),
    ensures
        all_hosts(m, ars).len() == addresses(ars).len(),
        forall|i: int|
            0 <= i < addresses(ars).len() ==> #[trigger] all_hosts(m, ars)[i] == host_at(
                m,
                addresses(ars)[i],
            ),
    decreases ars.len(),
{
    if ars.len() > 0 {
        let t = ars.drop_last();
        let l = ars.last();
        assert(ars[ars.len() - 1].well_formed());
        assert forall|i: int| 0 <= i < t.len() implies (#[trigger] t[i]).well_formed() by {
            assert(ars[i].well_formed());
        }
        places_are_those_of_the_addresses(m, t);
        assert(ars =~= t + seq![l]);
        lemma_addresses_add(t, seq![l]);
        lemma_addresses_of_one(l);
        assert forall|i: int| 0 <= i < addresses(ars).len() implies #[trigger] all_hosts(m, ars)[i]
            == host_at(m, addresses(ars)[i]) by {
            if i < addresses(t).len() {
                assert(all_hosts(m, ars)[i] == all_hosts(m, t)[i]);
            } else {
                assert(all_hosts(m, ars)[i] == hosts(m, l)[i - addresses(t).len()]);
            }
        }
    }
}

/// An access to several ranges of which memory has to be had is to the first of their
/// addresses, all of which can be accessed, and to all of them if they can be.
pub proof fn vector_access_is_to_what_can_be_accessed(
    mm: MemoryManager,
    ars: Seq<AddrRange>,
    need: AccessType,
    max: bool,
    s: VecIoStart,
)
    requires
        mm.wf(),
        none_empty(ars),
        mm.vec_starts(ars, need, max, s),
        s is Walk,
    ensures
        match s {
            VecIoStart::Walk { ars: left, res } => {
                &&& addresses(left@).len() <= addresses(ars).len()
                &&& addresses(left@) == addresses(ars).take(addresses(left@).len() as int)
                &&& res is Ok ==> left@ == ars
                &&& addresses(left@).len() < addresses(ars).len() ==> !may_have(
                    vma_at(mm.vmas.model(), addresses(ars)[addresses(left@).len() as int]),
                    need,
                    max,
                )
            },
            _ => false,
        },
{
    let (j, x) = choose|j: int, x: u64|
        {
            let (left, res) = mm.vec_accessible(ars, j, x);
            &&& #[trigger] mm.vec_reaches(ars, need, max, j, x)
            &&& left.len() > 0
            &&& match s {
                VecIoStart::Walk { ars: a, res: r } => a@ == left && r == res,
                _ => false,
            }
        };
    assert forall|i: int| 0 <= i < ars.len() implies (#[trigger] ars[i]).well_formed() by {
        assert(ars[i].start < ars[i].end);
    }
    if j == ars.len() {
        assert(addresses(ars).take(addresses(ars).len() as int) =~= addresses(ars));
    } else {
        let e = access_end(mm.vmas.ranges(), ars[j], x);
        let end = if x > ars[j].start {
            lemma_access_end(mm, ars[j], need, max, x);
            x
        } else {
            lemma_nothing_before(mm, ars[j], need, max, x);
            ars[j].start
        };
        assert(ars[j].start < ars[j].end);
        assert(cut_short(ars, j, e) == cut_short(ars, j, end));
        memory_is_had_for_the_first_addresses(ars, j, end);
        let a = ars.take(j);
        let b = ars.skip(j);
        assert(ars =~= a + b);
        lemma_addresses_add(a, b);
        assert(b[0] == ars[j]);
        let n = addresses(a).len() + (end - ars[j].start);
        assert(addresses(ars)[n] == addresses(b)[end - ars[j].start]);
        assert(addresses(ars)[n] == end);
        assert(x == end);
    }
}

/// The memory behind an address that has no place of the host yet is to be mapped from its
/// own file, with a part that holds it, for reading and writing as far as it may ever be
/// used so, and never for executing it. Past memory that has one the way goes on.
pub proof fn memory_is_mapped_from_its_file(mm: MemoryManager, ar: AddrRange, pos: u64)
    requires
        mm.wf(),
        ar.start <= pos < ar.end,
    ensures
        ({
            let p = pma_at(mm.pmas.model(), pos as int);
            match mm.mapping_next(ar, pos) {
                MappingStep::MapInternal { file, range, perms } => {
                    &&& p is Some
                    &&& file == p->Some_0.file
                    &&& range.start <= p->Some_0.off < range.end
                    &&& perms.read == p->Some_0.max_perms.read
                    &&& perms.write == p->Some_0.max_perms.write
                    &&& !perms.execute
                },
                MappingStep::Next(next) => p is Some && pos < next < ar.end,
                MappingStep::End { end, res } => res is Ok && (p is None ==> end == 0) && (p is Some
                    ==> ar.end <= end),
            }
        }),
{
    let m = mm.pmas.model();
    let i = mm.memory(pos);
    if mm.no_memory(pos) {
        assert forall|h: int| !#[trigger] held_at(m.ks, pos as int, h) by {}
        lemma_point_free::<PmaSetOperations>(m, pos as int);
    } else {
        let h = choose|h: int| 0 <= h < m.ks.len() && (#[trigger] m.ks[h]).has(pos as int);
        assert(held_at(m.ks, pos as int, h));
        lemma_holder(m.ks, pos as int, h);
        lemma_point_held::<PmaSetOperations>(m, pos as int, i);
        assert(PmaSetOperations::fits(m.ks[i], m.vs[i]));
    }
}

} // verus!
