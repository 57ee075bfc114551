use vstd::prelude::*;

use crate::addr::Addr;
use crate::errno::SysResult;
use crate::mm::find::{
    alignment_for, as_asked, found, found_is_free, high_in, highest_place, low_in,
    lowest_place, roomy, usable, FindAvailableOpts,
};
use crate::mm::layout::{MmapDirection, MmapLayout};
use crate::mm::manager::{page_bound, MemoryManager};
use crate::mm::vma::Vma;
use crate::pgalloc_laws::{lemma_gap_of, lemma_gaps_part};
use crate::range::{AddrRange, Range};
use crate::segment::keys::{between, held_at, range_free, sorted};
use crate::segment::model::Segments;
use crate::segment::search::lemma_gap_span_count;

verus! {

/// The addresses from `x` on are free, and far enough below an area that grows down and
/// is the next one above them.
pub open spec fn has_place(m: Segments<Vma>, x: u64, length: u64) -> bool {
    &&& x + length <= u64::MAX
    &&& range_free(m.ks, Range { start: x, end: (x + length) as u64 })
    &&& forall|j: int|
        0 <= j < m.ks.len() && (#[trigger] m.ks[j]).start >= x + length && m.vs[j].grows_down && (
        forall|i: int| 0 <= i < j ==> (#[trigger] m.ks[i]).end <= x) ==> m.ks[j].start >= x + length
            + 0x10_0000
}

/// A gap is usable just where it has places.
proof fn lemma_usable_place(m: Segments<Vma>, j: int, x: u64, length: u64)
    requires
        sorted(m.ks),
        length > 0,
        0 <= j <= m.ks.len(),
        usable(m, j).start <= x,
        x + length <= usable(m, j).end,
    ensures
        has_place(m, x, length),
{
    let ar = Range { start: x, end: (x + length) as u64 };
    lemma_gap_span_count(m.ks, j);
    crate::segment::search::lemma_in_gap_is_free(m.ks, j, ar);
    assert forall|h: int|
        0 <= h < m.ks.len() && (#[trigger] m.ks[h]).start >= x + length && m.vs[h].grows_down && (
        forall|i: int| 0 <= i < h ==> (#[trigger] m.ks[i]).end <= x) implies m.ks[h].start >= x
        + length + 0x10_0000 by {
        if h > j {
            assert(m.ks[j].end <= x);
            assert(m.ks[j].start < m.ks[j].end);
        } else if h < j {
            assert(m.ks[h].start < m.ks[h].end);
            if h < j - 1 {
                assert(m.ks[h].end <= m.ks[j - 1].start);
                assert(m.ks[j - 1].start < m.ks[j - 1].end);
            }
        }
    }
}

proof fn lemma_place_is_usable(m: Segments<Vma>, x: u64, length: u64) -> (j: int)
    requires
        sorted(m.ks),
        length > 0,
        has_place(m, x, length),
    ensures
        0 <= j <= m.ks.len(),
        usable(m, j).start <= x,
        x + length <= usable(m, j).end,
        between(m.ks, x as int, j),
{
    let j = lemma_gap_of(m.ks, x, length);
    lemma_gap_span_count(m.ks, j);
    if j < m.ks.len() {
        assert forall|i: int| 0 <= i < j implies (#[trigger] m.ks[i]).end <= x by {
            if i < j - 1 {
                assert(m.ks[i].end <= m.ks[j - 1].start);
                assert(m.ks[j - 1].start < m.ks[j - 1].end);
            }
        }
        assert(m.ks[j].start >= x + length);
    }
    j
}

/// Where memory is to be mapped at an address if possible, it is mapped there if there is
/// a place. Where that is insisted on, it is mapped there or nowhere, and what is there
/// may be in the way only if it may be taken.
pub proof fn asked_place_is_had(
    mm: MemoryManager,
    length: u64,
    opts: FindAvailableOpts,
    a: SysResult<Addr>,
)
    requires
        mm.wf(),
        length > 0,
        !opts.map32bit,
        found(mm.layout, mm.vmas.model(), length, opts, a),
        mm.layout.min_addr.0 <= opts.addr.0,
        opts.addr.0 + length <= mm.layout.max_addr.0,
    ensures
        has_place(mm.vmas.model(), opts.addr.0, length) || opts.unmap ==> a == Ok::<
            Addr,
            crate::errno::SysError,
        >(opts.addr),
        opts.fixed && !opts.unmap && !has_place(mm.vmas.model(), opts.addr.0, length) ==> a is Err
            && a->Err_0.code == 12,
{
    let m = mm.vmas.model();
    let ar = Range { start: opts.addr.0, end: (opts.addr.0 + length) as u64 };
    if !opts.unmap {
        if has_place(m, opts.addr.0, length) {
            let j = lemma_place_is_usable(m, opts.addr.0, length);
            assert(between(m.ks, ar.start as int, j) && usable(m, j).covers(ar));
        } else if as_asked(mm.layout, m, length, opts) {
            let j = choose|j: int|
                #![trigger usable(m, j)]
                between(m.ks, ar.start as int, j) && usable(m, j).covers(ar);
            lemma_usable_place(m, j, opts.addr.0, length);
        }
    }
}

/// Addresses that are insisted on but are not those of the application cannot be had.
pub proof fn place_outside_is_refused(
    mm: MemoryManager,
    length: u64,
    opts: FindAvailableOpts,
    a: SysResult<Addr>,
)
    requires
        mm.wf(),
        length > 0,
        opts.fixed,
        found(mm.layout, mm.vmas.model(), length, opts, a),
        opts.addr.0 < mm.layout.min_addr.0 || opts.addr.0 + length > mm.layout.max_addr.0,
    ensures
        a matches Err(e) && e.code == 12,
{
}

/// The addresses between which a place is looked for, if the one that was asked for
/// cannot be had.
pub open spec fn searched(l: MmapLayout, map32bit: bool) -> AddrRange {
    if map32bit {
        l.application().common(Range { start: 0x4000_0000, end: 0x8000_0000 })
    } else if l.default_direction == MmapDirection::MmapBottomUp {
        Range { start: l.bottom_up_base.0, end: l.max_addr.0 }
    } else {
        Range { start: l.min_addr.0, end: l.top_down_base.0 }
    }
}

/// A place that is found is one, and if it is not the one that was asked for it lies
/// between the addresses where it is looked for.
pub proof fn found_place_is_one(
    mm: MemoryManager,
    length: u64,
    opts: FindAvailableOpts,
    a: Addr,
)
    requires
        mm.wf(),
        length > 0,
        length % 4096 == 0,
        opts.addr.0 % 4096 == 0,
        found(mm.layout, mm.vmas.model(), length, opts, Ok(a)),
        a != opts.addr || !opts.unmap,
    ensures
        a.0 % 4096 == 0,
        has_place(mm.vmas.model(), a.0, length),
        a != opts.addr ==> {
            &&& !opts.fixed
            &&& searched(mm.layout, opts.map32bit).start <= a.0
            &&& a.0 + length <= searched(mm.layout, opts.map32bit).end
        },
        opts.map32bit && !opts.fixed ==> 0x4000_0000 <= a.0 && a.0 + length <= 0x8000_0000,
{
    let l = mm.layout;
    let m = mm.vmas.model();
    found_is_free(l, m, length, opts, a);
    let ar = Range { start: a.0, end: (a.0 + length) as u64 };
    if as_asked(l, m, length, opts) {
        if !opts.unmap {
            let j = choose|j: int|
                #![trigger usable(m, j)]
                between(m.ks, opts.addr.0 as int, j) && usable(m, j).covers(ar);
            lemma_usable_place(m, j, a.0, length);
        }
    } else {
        let b = searched(l, opts.map32bit);
        if opts.map32bit || l.default_direction == MmapDirection::MmapBottomUp {
            let j = choose|j: int|
                {
                    &&& #[trigger] roomy(m, b, length, j)
                    &&& a.0 == low_in(usable(m, j).common(b), length, alignment_for(length))
                };
            lemma_usable_place(m, j, a.0, length);
        } else {
            let j = choose|j: int|
                {
                    &&& #[trigger] roomy(m, b, length, j)
                    &&& a.0 == high_in(usable(m, j).common(b), length, alignment_for(length))
                };
            lemma_usable_place(m, j, a.0, length);
        }
    }
}

/// What is usable of a gap starts and ends at a page.
proof fn lemma_usable_pages(mm: MemoryManager, j: int, b: AddrRange)
    requires
        mm.wf(),
        0 <= j <= mm.vmas.ranges().len(),
        b.start % 4096 == 0,
        b.end % 4096 == 0,
    ensures
        usable(mm.vmas.model(), j).common(b).start % 4096 == 0,
        usable(mm.vmas.model(), j).common(b).length() > 0 ==> usable(mm.vmas.model(), j).common(
            b,
        ).end % 4096 == 0,
{
    let m = mm.vmas.model();
    lemma_gap_span_count(m.ks, j);
    if 0 < j {
        assert(page_bound()(m.ks[j - 1].end));
    }
    if j < m.ks.len() {
        assert(page_bound()(m.ks[j].start));
    }
}

/// A place of less than 2 MB that is looked for is the lowest or the highest one,
/// according to the direction. It is not found only if there is none.
pub proof fn found_place_is_first(
    mm: MemoryManager,
    length: u64,
    opts: FindAvailableOpts,
    a: SysResult<Addr>,
    x: u64,
)
    requires
        mm.wf(),
        0 < length < 0x20_0000,
        length % 4096 == 0,
        found(mm.layout, mm.vmas.model(), length, opts, a),
        a != Ok::<Addr, crate::errno::SysError>(opts.addr),
        !opts.fixed,
        has_place(mm.vmas.model(), x, length),
        searched(mm.layout, opts.map32bit).start <= x,
        x + length <= searched(mm.layout, opts.map32bit).end,
        !held_at(mm.vmas.ranges(), searched(mm.layout, opts.map32bit).end as int, 0),
    ensures
        a is Ok,
        if opts.map32bit || mm.layout.default_direction == MmapDirection::MmapBottomUp {
            a->Ok_0.0 <= x
        } else {
            a->Ok_0.0 >= x
        },
{
    let l = mm.layout;
    let m = mm.vmas.model();
    let b = searched(l, opts.map32bit);
    let i = lemma_place_is_usable(m, x, length);
    assert(usable(m, i).common(b).length() >= length);
    assert(roomy(m, b, length, i));
    assert(b.start % 4096 == 0 && b.end % 4096 == 0);
    if opts.map32bit || l.default_direction == MmapDirection::MmapBottomUp {
        lemma_lowest(mm, b, length, a, x, i);
    } else {
        lemma_highest(mm, b, length, a, x, i);
    }
}

#[verifier::spinoff_prover]
#[verifier::rlimit(60)]
proof fn lemma_lowest(
    mm: MemoryManager,
    b: AddrRange,
    length: u64,
    a: SysResult<Addr>,
    x: u64,
    i: int,
)
    requires
        mm.wf(),
        0 < length < 0x20_0000,
        b.start % 4096 == 0,
        b.end % 4096 == 0,
        lowest_place(mm.vmas.model(), b, length, a),
        roomy(mm.vmas.model(), b, length, i),
        usable(mm.vmas.model(), i).start <= x,
        b.start <= x,
    ensures
        a is Ok,
        a->Ok_0.0 <= x,
{
    let m = mm.vmas.model();
    let j = choose|j: int|
        {
            &&& #[trigger] roomy(m, b, length, j)
            &&& forall|i: int| i < j ==> !#[trigger] roomy(m, b, length, i)
            &&& a->Ok_0.0 == low_in(usable(m, j).common(b), length, alignment_for(length))
        };
    lemma_usable_pages(mm, j, b);
    assert(alignment_for(length) == 4096);
    assert(a->Ok_0.0 == usable(m, j).common(b).start);
    assert(j <= i);
    if j < i {
        lemma_gaps_part(m.ks, j, i);
        lemma_gap_span_count(m.ks, j);
        lemma_gap_span_count(m.ks, i);
    }
}

#[verifier::spinoff_prover]
#[verifier::rlimit(60)]
proof fn lemma_highest(
    mm: MemoryManager,
    b: AddrRange,
    length: u64,
    a: SysResult<Addr>,
    x: u64,
    i: int,
)
    requires
        mm.wf(),
        0 < length < 0x20_0000,
        length % 4096 == 0,
        b.start % 4096 == 0,
        b.end % 4096 == 0,
        highest_place(mm.vmas.model(), b, length, a),
        roomy(mm.vmas.model(), b, length, i),
        x + length <= usable(mm.vmas.model(), i).end,
        x + length <= b.end,
        !held_at(mm.vmas.ranges(), b.end as int, 0),
    ensures
        a is Ok,
        a->Ok_0.0 >= x,
{
    let m = mm.vmas.model();
    let j = choose|j: int|
        {
            &&& #[trigger] roomy(m, b, length, j)
            &&& forall|i: int| j < i ==> !#[trigger] roomy(m, b, length, i)
            &&& a->Ok_0.0 == high_in(usable(m, j).common(b), length, alignment_for(length))
        };
    lemma_usable_pages(mm, j, b);
    assert(alignment_for(length) == 4096);
    assert(a->Ok_0.0 == usable(m, j).common(b).end - length);
    assert(i <= j);
    if i < j {
        lemma_gaps_part(m.ks, i, j);
        lemma_gap_span_count(m.ks, j);
        lemma_gap_span_count(m.ks, i);
    }
}

} // verus!
