use vstd::prelude::*;

use crate::addr::{Addr, HUGE_PAGE_SIZE, PAGE_SIZE};
use crate::errno::{sys, SysError, SysResult, ENOMEM};
use crate::mm::layout::{MmapDirection, MmapLayout};
use crate::mm::manager::{page_bound, whole_pages, MemoryManager};
use crate::mm::vma::Vma;
use crate::range::{AddrRange, Range};
use crate::segment::bounds::bounded;
use crate::segment::edit::lemma_index_of_key;
use crate::segment::keys::{
    between, count_before, free, gap_at, held_at, holder_is_unique, key_at, lemma_between,
    lemma_free_is_between, range_free, sorted, Gap,
};
use crate::segment::model::Segments;
use crate::segment::nav::at;
use crate::segment::search::{
    gap_width, lemma_count_at_gap_end, lemma_gap_span_count, lemma_in_gap_is_free,
};

verus! {

/// The first address that a 32 bit mapping may have.
pub const MAP32START: u64 = 0x40000000;

/// The address just past the last one that a 32 bit mapping may have.
pub const MAP32END: u64 = 0x80000000;

/// How much space is left below an area that grows down.
pub const GUARD_BYTES: u64 = 0x100000;

/// What is asked of an address range to be found.
#[derive(Debug, Clone, Copy, PartialEq, Eq, Structural)]
pub struct FindAvailableOpts {
    pub addr: Addr,
    pub fixed: bool,
    pub unmap: bool,
    pub map32bit: bool,
}

impl Default for FindAvailableOpts {
    fn default() -> (o: FindAvailableOpts)
        ensures
            o == (FindAvailableOpts {
                addr: Addr(0),
                fixed: false,
                unmap: false,
                map32bit: false,
            }),
    {
        FindAvailableOpts { addr: Addr(0), fixed: false, unmap: false, map32bit: false }
    }
}

/// The part of the gap below the area at index `j` that may be used: all of it
/// but for the guard below an area that grows down.
pub open spec fn usable(m: Segments<Vma>, j: int) -> AddrRange {
    let g = gap_at(m.ks, j).span();
    if j < m.ks.len() && m.vs[j].grows_down {
        if g.length() < GUARD_BYTES {
            Range { start: g.start, end: g.start }
        } else {
            Range { start: g.start, end: (g.end - GUARD_BYTES) as u64 }
        }
    } else {
        g
    }
}

/// The gap below the area at index `j` has room for `length` bytes within the
/// bounds.
pub open spec fn roomy(m: Segments<Vma>, bounds: AddrRange, length: u64, j: int) -> bool {
    &&& 0 <= j <= m.ks.len()
    &&& usable(m, j).common(bounds).length() >= length
}

/// The alignment at which `length` bytes are placed where that is possible.
pub open spec fn alignment_for(length: u64) -> u64 {
    if length >= HUGE_PAGE_SIZE {
        HUGE_PAGE_SIZE
    } else {
        PAGE_SIZE
    }
}

/// Where `length` bytes go at the start of `gr`: at the first aligned address
/// if they fit there, or else at the very start.
pub open spec fn low_in(gr: AddrRange, length: u64, alignment: u64) -> int {
    let offset = gr.start % alignment;
    if offset != 0 && gr.length() >= length + alignment - offset {
        gr.start + alignment - offset
    } else {
        gr.start as int
    }
}

/// Where `length` bytes go at the end of `gr`: at the last aligned address if
/// they fit there, or else at the very end.
pub open spec fn high_in(gr: AddrRange, length: u64, alignment: u64) -> int {
    let start = gr.end - length;
    let offset = start % alignment as int;
    if offset != 0 && gr.start <= start - offset {
        start - offset
    } else {
        start
    }
}

/// The lowest place within the bounds.
pub open spec fn lowest_place(
    m: Segments<Vma>,
    bounds: AddrRange,
    length: u64,
    a: SysResult<Addr>,
) -> bool {
    match a {
        Ok(a) => exists|j: int|
            {
                &&& #[trigger] roomy(m, bounds, length, j)
                &&& forall|i: int| i < j ==> !#[trigger] roomy(m, bounds, length, i)
                &&& a.0 == low_in(usable(m, j).common(bounds), length, alignment_for(length))
            },
        Err(e) => e == sys(ENOMEM) && forall|j: int| !#[trigger] roomy(m, bounds, length, j),
    }
}

/// The highest place within the bounds. Nothing is looked for where the bounds
/// end inside the first area.
pub open spec fn highest_place(
    m: Segments<Vma>,
    bounds: AddrRange,
    length: u64,
    a: SysResult<Addr>,
) -> bool {
    match a {
        Ok(a) => !held_at(m.ks, bounds.end as int, 0) && exists|j: int|
            {
                &&& #[trigger] roomy(m, bounds, length, j)
                &&& forall|i: int| j < i ==> !#[trigger] roomy(m, bounds, length, i)
                &&& a.0 == high_in(usable(m, j).common(bounds), length, alignment_for(length))
            },
        Err(e) => e == sys(ENOMEM) && (held_at(m.ks, bounds.end as int, 0) || forall|j: int|
            !#[trigger] roomy(m, bounds, length, j)),
    }
}

/// The addresses at which `opts` allows a mapping.
pub open spec fn allowed(l: MmapLayout, opts: FindAvailableOpts) -> AddrRange {
    if opts.map32bit && !opts.fixed {
        l.application().common(Range { start: MAP32START, end: MAP32END })
    } else {
        l.application()
    }
}

/// The range that was asked for can be had.
pub open spec fn as_asked(
    l: MmapLayout,
    m: Segments<Vma>,
    length: u64,
    opts: FindAvailableOpts,
) -> bool {
    let ar = Range { start: opts.addr.0, end: (opts.addr.0 + length) as u64 };
    &&& opts.addr.0 + length <= u64::MAX
    &&& allowed(l, opts).covers(ar)
    &&& opts.unmap || exists|j: int|
        #![trigger usable(m, j)]
        between(m.ks, ar.start as int, j) && usable(m, j).covers(ar)
}

/// Where `length` bytes can be mapped.
pub open spec fn found(
    l: MmapLayout,
    m: Segments<Vma>,
    length: u64,
    opts: FindAvailableOpts,
    a: SysResult<Addr>,
) -> bool {
    if as_asked(l, m, length, opts) {
        a == Ok::<Addr, SysError>(opts.addr)
    } else if opts.fixed {
        a == Err::<Addr, SysError>(sys(ENOMEM))
    } else if opts.map32bit {
        lowest_place(m, allowed(l, opts), length, a)
    } else if l.default_direction == MmapDirection::MmapBottomUp {
        lowest_place(
            m,
            Range { start: l.bottom_up_base.0, end: l.max_addr.0 },
            length,
            a,
        )
    } else {
        highest_place(m, Range { start: l.min_addr.0, end: l.top_down_base.0 }, length, a)
    }
}

/// The usable part of a gap lies within the gap.
proof fn lemma_usable(m: Segments<Vma>, j: int)
    requires
        sorted(m.ks),
        0 <= j <= m.ks.len(),
    ensures
        gap_at(m.ks, j).span().covers(usable(m, j)),
        usable(m, j).well_formed(),
        gap_at(m.ks, j).span().well_formed(),
{
    lemma_gap_span_count(m.ks, j);
}

proof fn lemma_gaps_ascend(ks: Seq<Range>, i: int, j: int)
    requires
        sorted(ks),
        0 <= i < j <= ks.len(),
    ensures
        gap_at(ks, i).hi() < gap_at(ks, j).lo(),
{
    assert(ks[i].start < ks[i].end);
    if i < j - 1 {
        assert(ks[i].end <= ks[j - 1].start);
        assert(ks[j - 1].start < ks[j - 1].end);
    }
}

impl MemoryManager {
    fn available_range_of(&self, vgap: &Gap) -> (r: AddrRange)
        requires
            self.vmas.wf(),
            exists|j: int|
                0 <= j <= self.vmas.ranges().len() && vgap.range == (#[trigger] gap_at(
                    self.vmas.ranges(),
                    j,
                )).range,
        ensures
            forall|j: int|
                0 <= j <= self.vmas.ranges().len() && vgap.range == (#[trigger] gap_at(
                    self.vmas.ranges(),
                    j,
                )).range ==> r == usable(self.vmas.model(), j),
    {
        let ghost ks = self.vmas.ranges();
        let ghost m = self.vmas.model();
        proof {
            assert forall|j: int|
                0 <= j <= ks.len() && vgap.range == (#[trigger] gap_at(ks, j)).range implies {
                &&& gap_at(ks, j).lo() <= gap_at(ks, j).hi()
                &&& j < ks.len() ==> count_before(ks, at(ks[j].start)) == j
            } by {
                lemma_gap_span_count(ks, j);
                if j < ks.len() {
                    lemma_count_at_gap_end(ks, j);
                }
            }
        }
        let mut ar = vgap.range();
        let grows_down = match self.vmas.next_segment_of_gap(vgap) {
            Some(s) => match self.vmas.position(s.range) {
                Some(i) => self.vmas.value_of(i).grows_down,
                None => false,
            },
            None => false,
        };
        proof {
            assert forall|j: int|
                0 <= j <= ks.len() && vgap.range == (#[trigger] gap_at(ks, j)).range implies
                grows_down == (j < ks.len() && m.vs[j].grows_down) by {
                if j < ks.len() {
                    assert(ks.contains(ks[j]));
                    lemma_index_of_key(ks, j);
                }
            }
        }
        if !grows_down {
            ar
        } else if ar.end - ar.start < GUARD_BYTES {
            Range { start: ar.start, end: ar.start }
        } else {
            ar.end = ar.end - GUARD_BYTES;
            ar
        }
    }

    fn find_lowest_available(&self, length: u64, alignment: u64, bounds: AddrRange) -> (a:
        SysResult<Addr>)
        requires
            self.vmas.wf(),
            length > 0,
            alignment == alignment_for(length),
        ensures
            lowest_place(self.vmas.model(), bounds, length, a),
    {
        let ghost m = self.vmas.model();
        let ghost ks = m.ks;
        let ghost mut j: int = 0;
        proof {
            lemma_start_low(m, bounds.start);
            j = start_low(m.ks, bounds.start);
            assert forall|i: int| i < j implies !#[trigger] roomy(m, bounds, length, i) by {
                if 0 <= i {
                    lemma_usable(m, i);
                }
            }
        }
        let mut maybe_gap = self.vmas.lower_bound_gap(bounds.start);
        loop
            invariant
                self.vmas.wf(),
                m == self.vmas.model(),
                ks == m.ks,
                length > 0,
                alignment == alignment_for(length),
                match maybe_gap {
                    Some(g) => 0 <= j <= ks.len() && g.range == gap_at(ks, j).range,
                    None => forall|i: int| j <= i ==> !#[trigger] roomy(m, bounds, length, i),
                },
                forall|i: int| i < j ==> !#[trigger] roomy(m, bounds, length, i),
            decreases ks.len() - j, (if maybe_gap is Some { 1int } else { 0int }),
        {
            let gap = match maybe_gap {
                Some(g) => g,
                None => return Err(SysError::new(ENOMEM)),
            };
            proof {
                lemma_usable(m, j);
            }
            if gap.start() >= bounds.end {
                proof {
                    assert forall|i: int| !#[trigger] roomy(m, bounds, length, i) by {
                        if j <= i <= ks.len() {
                            lemma_usable(m, i);
                            if j < i {
                                lemma_gaps_ascend(ks, j, i);
                            }
                        }
                    }
                }
                return Err(SysError::new(ENOMEM));
            }
            assert(gap_at(ks, j).range == gap.range);
            let gr = self.available_range_of(&gap).intersect(&bounds);
            assert(gr == usable(m, j).common(bounds));
            let n = gr.end - gr.start;
            if n >= length {
                assert(roomy(m, bounds, length, j));
                let offset = gr.start % alignment;
                return if offset != 0 && n - length >= alignment - offset {
                    Ok(Addr(gr.start + (alignment - offset)))
                } else {
                    Ok(Addr(gr.start))
                };
            }
            proof {
                if j < ks.len() {
                    lemma_count_at_gap_end(ks, j);
                }
                assert forall|i: int| 0 <= i <= ks.len() && #[trigger] gap_width(ks, i)
                    < length implies !roomy(m, bounds, length, i) by {
                    lemma_usable(m, i);
                }
            }
            maybe_gap = self.vmas.next_large_enough_gap(&gap, length);
            proof {
                match maybe_gap {
                    Some(g) => {
                        let k = choose|k: int|
                            {
                                &&& j < k <= ks.len()
                                &&& length <= gap_width(ks, k)
                                &&& forall|i: int|
                                    j < i < k ==> #[trigger] gap_width(ks, i) < length
                                &&& g == #[trigger] gap_at(ks, k)
                            };
                        assert forall|i: int| i < k implies !#[trigger] roomy(
                            m,
                            bounds,
                            length,
                            i,
                        ) by {
                            if j < i {
                                assert(gap_width(ks, i) < length);
                            }
                        }
                        j = k;
                    },
                    None => {
                        assert forall|i: int| j <= i implies !#[trigger] roomy(
                            m,
                            bounds,
                            length,
                            i,
                        ) by {
                            if j < i <= ks.len() {
                                assert(gap_width(ks, i) < length);
                            }
                        }
                    },
                }
            }
        }
    }

    fn find_highest_available(&self, length: u64, alignment: u64, bounds: AddrRange) -> (a:
        SysResult<Addr>)
        requires
            self.vmas.wf(),
            length > 0,
            alignment == alignment_for(length),
        ensures
            highest_place(self.vmas.model(), bounds, length, a),
    {
        let ghost m = self.vmas.model();
        let ghost ks = m.ks;
        let ghost mut j: int = 0;
        let mut maybe_gap = self.vmas.upper_bound_gap(bounds.end);
        proof {
            lemma_start_high(m, bounds.end);
            j = start_high(ks, bounds.end);
            assert forall|i: int| j < i implies !#[trigger] roomy(m, bounds, length, i) by {
                if i <= ks.len() {
                    lemma_usable(m, i);
                }
            }
        }
        loop
            invariant
                self.vmas.wf(),
                m == self.vmas.model(),
                ks == m.ks,
                length > 0,
                alignment == alignment_for(length),
                match maybe_gap {
                    Some(g) => 0 <= j <= ks.len() && g.range == gap_at(ks, j).range && !held_at(
                        ks,
                        bounds.end as int,
                        0,
                    ),
                    None => held_at(ks, bounds.end as int, 0) || forall|i: int|
                        !#[trigger] roomy(m, bounds, length, i),
                },
                forall|i: int| j < i ==> !#[trigger] roomy(m, bounds, length, i),
            decreases j, (if maybe_gap is Some { 1int } else { 0int }),
        {
            let gap = match maybe_gap {
                Some(g) => g,
                None => return Err(SysError::new(ENOMEM)),
            };
            proof {
                lemma_usable(m, j);
            }
            if gap.end() <= bounds.start {
                proof {
                    assert forall|i: int| !#[trigger] roomy(m, bounds, length, i) by {
                        if 0 <= i <= j {
                            lemma_usable(m, i);
                            if i < j {
                                lemma_gaps_ascend(ks, i, j);
                            }
                        }
                    }
                }
                return Err(SysError::new(ENOMEM));
            }
            assert(gap_at(ks, j).range == gap.range);
            let gr = self.available_range_of(&gap).intersect(&bounds);
            assert(gr == usable(m, j).common(bounds));
            if gr.end - gr.start >= length {
                assert(roomy(m, bounds, length, j));
                let start = gr.end - length;
                let offset = start % alignment;
                assert(offset <= start) by (nonlinear_arith)
                    requires
                        alignment > 0,
                        offset == start % alignment,
                ;
                if offset != 0 && gr.start <= start - offset {
                    return Ok(Addr(start - offset));
                }
                return Ok(Addr(start));
            }
            proof {
                lemma_gap_span_count(ks, j);
                assert(gap.span() == gap_at(ks, j).span());
                assert forall|i: int| 0 <= i <= ks.len() && #[trigger] gap_width(ks, i)
                    < length implies !roomy(m, bounds, length, i) by {
                    lemma_usable(m, i);
                }
            }
            maybe_gap = self.vmas.prev_large_enough_gap(&gap, length);
            proof {
                match maybe_gap {
                    Some(g) => {
                        let k = choose|k: int|
                            {
                                &&& 0 <= k < j
                                &&& length <= gap_width(ks, k)
                                &&& forall|i: int|
                                    k < i < j ==> #[trigger] gap_width(ks, i) < length
                                &&& g.range == (#[trigger] gap_at(ks, k)).range
                                &&& g.prev_key == key_at(ks, k - 2)
                            };
                        assert forall|i: int| k < i implies !#[trigger] roomy(
                            m,
                            bounds,
                            length,
                            i,
                        ) by {
                            if i < j {
                                assert(gap_width(ks, i) < length);
                            }
                        }
                        j = k;
                    },
                    None => {
                        assert forall|i: int| !#[trigger] roomy(m, bounds, length, i) by {
                            if 0 <= i < j {
                                assert(gap_width(ks, i) < length);
                            }
                        }
                    },
                }
            }
        }
    }

    /// Finds addresses at which `length` bytes can be mapped.
    pub fn find_available(&self, length: u64, opts: FindAvailableOpts) -> (a: SysResult<Addr>)
        requires
            self.wf(),
            length > 0,
        ensures
            found(self.layout, self.vmas.model(), length, opts, a),
    {
        let ghost m = self.vmas.model();
        let map32bit = opts.map32bit && !opts.fixed;
        let mut allowed_ar = self.application_addr_range();
        if map32bit {
            allowed_ar = allowed_ar.intersect(&Range { start: MAP32START, end: MAP32END });
        }
        if let Some(ar) = opts.addr.to_range(length) {
            if allowed_ar.is_superset_of(&ar) {
                if opts.unmap {
                    return Ok(opts.addr);
                }
                if let Some(g) = self.vmas.find_gap(ar.start) {
                    let ghost j = choose|j: int|
                        between(m.ks, ar.start as int, j) && g == #[trigger] gap_at(m.ks, j);
                    assert(g.range == gap_at(m.ks, j).range);
                    let usable_ar = self.available_range_of(&g);
                    proof {
                        assert forall|i: int| between(m.ks, ar.start as int, i) implies i == j by {
                            lemma_between(m.ks, ar.start, i);
                            lemma_between(m.ks, ar.start, j);
                        }
                        assert(usable_ar == usable(m, j));
                    }
                    if usable_ar.is_superset_of(&ar) {
                        return Ok(opts.addr);
                    }
                } else {
                    proof {
                        let h = choose|h: int| held_at(m.ks, ar.start as int, h);
                        assert forall|i: int| !between(m.ks, ar.start as int, i) by {
                            if between(m.ks, ar.start as int, i) {
                                lemma_between(m.ks, ar.start, i);
                                assert(!m.ks[h].has(ar.start as int));
                            }
                        }
                    }
                }
            }
        }
        assert(!as_asked(self.layout, m, length, opts));
        if opts.fixed {
            return Err(SysError::new(ENOMEM));
        }
        let alignment = if length >= HUGE_PAGE_SIZE {
            HUGE_PAGE_SIZE
        } else {
            PAGE_SIZE
        };
        if map32bit {
            self.find_lowest_available(length, alignment, allowed_ar)
        } else if self.layout.default_direction == MmapDirection::MmapBottomUp {
            self.find_lowest_available(
                length,
                alignment,
                Range { start: self.layout.bottom_up_base.0, end: self.layout.max_addr.0 },
            )
        } else {
            self.find_highest_available(
                length,
                alignment,
                Range { start: self.layout.min_addr.0, end: self.layout.top_down_base.0 },
            )
        }
    }
}

/// The addresses that were found are free, unless what is there is to be
/// unmapped. They are whole pages where the areas and the length are.
pub proof fn found_is_free(
    l: MmapLayout,
    m: Segments<Vma>,
    length: u64,
    opts: FindAvailableOpts,
    a: Addr,
)
    requires
        l.wf(),
        sorted(m.ks),
        bounded(m.ks, page_bound()),
        length > 0,
        Addr(length).page_aligned(),
        opts.addr.page_aligned(),
        found(l, m, length, opts, Ok(a)),
    ensures
        a.0 + length <= u64::MAX,
        a.page_aligned(),
        !opts.unmap || !as_asked(l, m, length, opts) ==> range_free(
            m.ks,
            Range { start: a.0, end: (a.0 + length) as u64 },
        ),
        !opts.fixed || opts.unmap || a == opts.addr,
{
    if as_asked(l, m, length, opts) {
        if !opts.unmap {
            let ar = Range { start: opts.addr.0, end: (opts.addr.0 + length) as u64 };
            let j = choose|j: int|
                #![trigger usable(m, j)]
                between(m.ks, ar.start as int, j) && usable(m, j).covers(ar);
            lemma_usable(m, j);
            lemma_in_gap_is_free(m.ks, j, ar);
        }
    } else if opts.map32bit {
        lemma_lowest_is_free(m, allowed(l, opts), length, a);
    } else if l.default_direction == MmapDirection::MmapBottomUp {
        lemma_lowest_is_free(
            m,
            Range { start: l.bottom_up_base.0, end: l.max_addr.0 },
            length,
            a,
        );
    } else {
        lemma_highest_is_free(
            m,
            Range { start: l.min_addr.0, end: l.top_down_base.0 },
            length,
            a,
        );
    }
}

proof fn lemma_usable_pages(m: Segments<Vma>, bounds: AddrRange, j: int)
    requires
        sorted(m.ks),
        bounded(m.ks, page_bound()),
        whole_pages(bounds),
        0 <= j <= m.ks.len(),
        usable(m, j).common(bounds).start < usable(m, j).common(bounds).end,
    ensures
        whole_pages(usable(m, j).common(bounds)),
{
    lemma_usable(m, j);
    if 0 < j {
        assert(page_bound()(m.ks[j - 1].end));
    }
    if j < m.ks.len() {
        assert(page_bound()(m.ks[j].start));
    }
}

proof fn lemma_lowest_is_free(m: Segments<Vma>, bounds: AddrRange, length: u64, a: Addr)
    requires
        sorted(m.ks),
        bounded(m.ks, page_bound()),
        length > 0,
        Addr(length).page_aligned(),
        whole_pages(bounds),
        lowest_place(m, bounds, length, Ok(a)),
    ensures
        a.0 + length <= u64::MAX,
        a.page_aligned(),
        range_free(m.ks, Range { start: a.0, end: (a.0 + length) as u64 }),
{
    let j = choose|j: int|
        {
            &&& #[trigger] roomy(m, bounds, length, j)
            &&& forall|i: int| i < j ==> !#[trigger] roomy(m, bounds, length, i)
            &&& a.0 == low_in(usable(m, j).common(bounds), length, alignment_for(length))
        };
    lemma_usable(m, j);
    lemma_usable_pages(m, bounds, j);
    lemma_in_gap_is_free(m.ks, j, Range { start: a.0, end: (a.0 + length) as u64 });
}

proof fn lemma_highest_is_free(m: Segments<Vma>, bounds: AddrRange, length: u64, a: Addr)
    requires
        sorted(m.ks),
        bounded(m.ks, page_bound()),
        length > 0,
        Addr(length).page_aligned(),
        whole_pages(bounds),
        highest_place(m, bounds, length, Ok(a)),
    ensures
        a.0 + length <= u64::MAX,
        a.page_aligned(),
        range_free(m.ks, Range { start: a.0, end: (a.0 + length) as u64 }),
{
    let j = choose|j: int|
        {
            &&& #[trigger] roomy(m, bounds, length, j)
            &&& forall|i: int| j < i ==> !#[trigger] roomy(m, bounds, length, i)
            &&& a.0 == high_in(usable(m, j).common(bounds), length, alignment_for(length))
        };
    lemma_usable(m, j);
    lemma_usable_pages(m, bounds, j);
    lemma_in_gap_is_free(m.ks, j, Range { start: a.0, end: (a.0 + length) as u64 });
}

/// The gap from which the search for the lowest place starts.
spec fn start_low(ks: Seq<Range>, k: u64) -> int {
    if free(ks, k as int) {
        count_before(ks, at(k)) as int
    } else {
        (choose|i: int| held_at(ks, k as int, i)) + 1
    }
}

proof fn lemma_start_low(m: Segments<Vma>, k: u64)
    requires
        sorted(m.ks),
    ensures
        ({
            let j = start_low(m.ks, k);
            &&& 0 <= j <= m.ks.len()
            &&& between(m.ks, k as int, j) || held_at(m.ks, k as int, j - 1)
            &&& forall|i: int| 0 <= i < j ==> (#[trigger] gap_at(m.ks, i)).hi() <= k
        }),
{
    let ks = m.ks;
    let j = start_low(ks, k);
    if free(ks, k as int) {
        lemma_free_is_between(ks, k);
    } else {
        let h = choose|i: int| 0 <= i < ks.len() && ks[i].has(k as int);
        assert(held_at(ks, k as int, h));
    }
    assert forall|i: int| 0 <= i < j implies (#[trigger] gap_at(ks, i)).hi() <= k by {
        assert(ks[i].start < ks[i].end);
        if i < j - 1 {
            assert(ks[i].end <= ks[j - 1].start);
            assert(ks[j - 1].start < ks[j - 1].end);
        }
    }
}

/// The gap from which the search for the highest place starts.
spec fn start_high(ks: Seq<Range>, k: u64) -> int {
    if free(ks, k as int) {
        count_before(ks, at(k)) as int
    } else {
        choose|i: int| held_at(ks, k as int, i)
    }
}

proof fn lemma_start_high(m: Segments<Vma>, k: u64)
    requires
        sorted(m.ks),
    ensures
        ({
            let j = start_high(m.ks, k);
            &&& 0 <= j <= m.ks.len()
            &&& between(m.ks, k as int, j) || held_at(m.ks, k as int, j)
            &&& between(m.ks, k as int, j) ==> !held_at(m.ks, k as int, 0)
            &&& held_at(m.ks, k as int, j) ==> (j == 0) == held_at(m.ks, k as int, 0)
            &&& forall|i: int| j < i <= m.ks.len() ==> k <= (#[trigger] gap_at(m.ks, i)).lo()
        }),
{
    let ks = m.ks;
    let j = start_high(ks, k);
    if free(ks, k as int) {
        lemma_free_is_between(ks, k);
    } else {
        let h = choose|i: int| 0 <= i < ks.len() && ks[i].has(k as int);
        assert(held_at(ks, k as int, h));
        if held_at(ks, k as int, 0) {
            holder_is_unique(ks, k as int, 0, j);
        }
    }
    assert forall|i: int| j < i <= ks.len() implies k <= (#[trigger] gap_at(ks, i)).lo() by {
        assert(ks[j].start < ks[j].end);
        if j < i - 1 {
            assert(ks[j].end <= ks[i - 1].start);
            assert(ks[i - 1].start < ks[i - 1].end);
        }
    }
}

} // verus!
