use vstd::prelude::*;

use crate::errno::SysResult;
use crate::pgalloc::{
    alignment_of, allocation_is_free, allocation_speaks, has_low_room, low_start, AllocOpts,
    AllocPlan, Direction, MemoryFile, UsageInfoSetOperations,
};
use crate::range::{FileRange, Range};
use crate::segment::keys::{count_before, free, gap_at, lemma_free_is_between, range_free, sorted};
use crate::segment::point::point;
use crate::segment::search::{has_room, highest_room, mask_down, usable_end};

verus! {

proof fn lemma_masks(x: u64)
    ensures
        mask_down(x, 4096) == x - x % 4096,
        mask_down(x, 0x20_0000) == x - x % 0x20_0000,
{
    assert(x & !0xfffu64 == x - x % 4096) by (bit_vector);
    assert(x & !0x1f_ffffu64 == x - x % 0x20_0000) by (bit_vector);
}

/// Memory that is allocated is as long as was asked for, was not in use and now is, for
/// what was asked, and lies in the file at a whole page. From 2 MB on it lies at a whole
/// huge page. What else is in use and where the file is mapped stays.
pub proof fn allocated_memory_is_new(
    a: MemoryFile,
    b: MemoryFile,
    length: u64,
    opts: AllocOpts,
    grown: SysResult<()>,
    r: FileRange,
)
    requires
        a.wf(),
        b.wf(),
        length > 0,
        length % 4096 == 0,
        a.allocates(b, length, opts, grown, Ok(r)),
    ensures
        r.end - r.start == length,
        r.start % 4096 == 0,
        length >= 0x20_0000 ==> r.start % 0x20_0000 == 0,
        r.end <= b.file_size,
        a.file_size <= b.file_size,
        r.end <= a.file_size ==> b.file_size == a.file_size,
        b.file_size > a.file_size ==> b.file_size < r.end + 0x4000_0000 && grown is Ok,
        forall|k: int|
            r.start <= k < r.end ==> #[trigger] point::<UsageInfoSetOperations>(
                a.usage.model(),
                k,
            ) is None,
        forall|k: int|
            r.start <= k < r.end ==> (#[trigger] point::<UsageInfoSetOperations>(
                b.usage.model(),
                k,
            ) matches Some(u) && u.kind == opts.kind && !u.known_committed),
        forall|k: int|
            !(r.start <= k < r.end) ==> #[trigger] point::<UsageInfoSetOperations>(
                b.usage.model(),
                k,
            ) == point::<UsageInfoSetOperations>(a.usage.model(), k),
        forall|i: int|
            0 <= i < b.mappings@.len() ==> #[trigger] b.mappings@[i] == (if i < a.mappings@.len() {
                a.mappings@[i]
            } else {
                0
            }),
{
    let p = choose|p: AllocPlan|
        {
            &&& #[trigger] a.plans(length, opts.dir, p)
            &&& r == p.range
            &&& b.file_size == p.file_size
            &&& p.file_size > a.file_size ==> grown is Ok
        };
    allocation_is_free(a, length, opts.dir, p);
    assert forall|k: int| r.start <= k < r.end implies #[trigger] point::<UsageInfoSetOperations>(
        a.usage.model(),
        k,
    ) is None by {
        allocation_speaks(a.usage.model(), r, opts.kind, k);
    }
    assert forall|k: int| #[trigger]
        point::<UsageInfoSetOperations>(b.usage.model(), k) == (if r.has(k) {
            Some(crate::pgalloc::UsageInfo { kind: opts.kind, known_committed: false })
        } else {
            point::<UsageInfoSetOperations>(a.usage.model(), k)
        }) by {
        allocation_speaks(a.usage.model(), r, opts.kind, k);
    }
    if length >= 0x20_0000 {
        lemma_huge(a, length, opts.dir, r.start);
    }
}

proof fn lemma_huge(a: MemoryFile, length: u64, dir: Direction, s: u64)
    requires
        length >= 0x20_0000,
        crate::pgalloc::available_start(
            a.usage.ranges(),
            a.file_size,
            length,
            alignment_of(length),
            dir,
            Some(s),
        ),
        a.wf(),
    ensures
        s % 0x20_0000 == 0,
{
    let ks = a.usage.ranges();
    match dir {
        Direction::BottomUp => {
            let j = choose|j: int|
                #[trigger] has_low_room(ks, length, 0x20_0000, j) && s == low_start(
                    ks,
                    0x20_0000,
                    j,
                );
            lemma_masks((gap_at(ks, j).lo() + 0x20_0000 - 1) as u64);
        },
        Direction::TopDown => {
            crate::segment::search::top_down_start_is_masked(ks, a.file_size, length, 0x20_0000, s);
            let x = choose|x: u64| s == mask_down(x, 0x20_0000);
            lemma_masks(x);
        },
    }
}

/// A failed allocation changes nothing.
pub proof fn failed_allocation_changes_nothing(
    a: MemoryFile,
    b: MemoryFile,
    length: u64,
    opts: AllocOpts,
    grown: SysResult<()>,
    res: SysResult<FileRange>,
)
    requires
        a.allocates(b, length, opts, grown, res),
        res is Err,
    ensures
        b.file_size == a.file_size,
        b.usage.model() == a.usage.model(),
        b.mappings@ == a.mappings@,
        res->Err_0.code == 12 || grown is Err,
{
}

/// The gap that free keys lie in.
pub proof fn lemma_gap_of(ks: Seq<Range>, s: u64, length: u64) -> (j: int)
    requires
        sorted(ks),
        length > 0,
        s + length <= u64::MAX,
        range_free(ks, Range { start: s, end: (s + length) as u64 }),
    ensures
        0 <= j <= ks.len(),
        gap_at(ks, j).lo() <= s,
        s + length <= gap_at(ks, j).hi(),
{
    let r = Range { start: s, end: (s + length) as u64 };
    assert(free(ks, s as int)) by {
        assert forall|i: int| 0 <= i < ks.len() implies !(#[trigger] ks[i]).has(s as int) by {
            assert(!ks[i].meets(r));
        }
    }
    lemma_free_is_between(ks, s);
    let j = count_before(ks, Range { start: s, end: s }) as int;
    if j < ks.len() {
        assert(!ks[j].meets(r));
        assert(ks[j].start < ks[j].end);
    }
    j
}

/// From the bottom up memory is put as low as it fits.
pub proof fn low_allocation_is_lowest(
    a: MemoryFile,
    length: u64,
    p: AllocPlan,
    s: u64,
)
    requires
        a.wf(),
        length > 0,
        length % 4096 == 0,
        a.plans(length, Direction::BottomUp, p),
        s % 4096 == 0,
        length >= 0x20_0000 ==> s % 0x20_0000 == 0,
        s + length <= u64::MAX,
        range_free(a.usage.ranges(), Range { start: s, end: (s + length) as u64 }),
    ensures
        p.range.start <= s,
{
    let ks = a.usage.ranges();
    let al = alignment_of(length);
    let j = choose|j: int|
        {
            &&& #[trigger] has_low_room(ks, length, al, j)
            &&& forall|i: int| i < j ==> !#[trigger] has_low_room(ks, length, al, i)
            &&& p.range.start == low_start(ks, al, j)
            &&& p.range.start + length <= i64::MAX
        };
    let i = lemma_gap_of(ks, s, length);
    lemma_low(ks, al, s, i);
    if i < j {
        assert(!has_low_room(ks, length, al, i));
    } else if j < i {
        lemma_gaps_part(ks, j, i);
    }
}

/// The first multiple of the alignment in a gap is no higher than any other.
proof fn lemma_low(ks: Seq<Range>, al: u64, s: u64, i: int)
    requires
        al == 4096 || al == 0x20_0000,
        s % al == 0,
        gap_at(ks, i).lo() <= s,
        s + al <= u64::MAX,
    ensures
        low_start(ks, al, i) <= s,
{
    let lo = gap_at(ks, i).lo();
    let x = (lo + al - 1) as u64;
    lemma_masks(x);
}

pub proof fn lemma_gaps_part(ks: Seq<Range>, j: int, i: int)
    requires
        sorted(ks),
        0 <= j < i <= ks.len(),
    ensures
        gap_at(ks, j).hi() <= gap_at(ks, i).lo(),
{
    assert(ks[j].start < ks[j].end);
    if j < i - 1 {
        assert(ks[j].end <= ks[i - 1].start);
        assert(ks[i - 1].start < ks[i - 1].end);
    }
}

/// From the top down memory is put as high as it fits in the file, if it fits.
pub proof fn high_allocation_is_highest(a: MemoryFile, length: u64, p: AllocPlan, s: u64)
    requires
        a.wf(),
        length > 0,
        length % 4096 == 0,
        a.plans(length, Direction::TopDown, p),
        s % 4096 == 0,
        length >= 0x20_0000 ==> s % 0x20_0000 == 0,
        s + length <= a.file_size,
        range_free(a.usage.ranges(), Range { start: s, end: (s + length) as u64 }),
    ensures
        s <= p.range.start,
        p.range.end <= a.file_size,
{
    let ks = a.usage.ranges();
    let al = alignment_of(length);
    let size = a.file_size as int;
    let i = lemma_gap_of(ks, s, length);
    lemma_high(ks, size, length, al, s, i);
    assert(has_room(ks, size, length, al, i));
    let j = choose|j: int|
        highest_room(ks, size, length, al, j) && p.range.start == mask_down(
            (#[trigger] usable_end(ks, size, j) - length) as u64,
            al,
        );
    if j < i {
        assert(!has_room(ks, size, length, al, i));
    } else if i < j {
        lemma_gaps_part(ks, i, j);
    }
    lemma_masks((usable_end(ks, size, j) - length) as u64);
}

proof fn lemma_high(ks: Seq<Range>, size: int, length: u64, al: u64, s: u64, i: int)
    requires
        al == 4096 || al == 0x20_0000,
        s % al == 0,
        0 <= i <= ks.len(),
        gap_at(ks, i).lo() <= s,
        s + length <= gap_at(ks, i).hi(),
        s + length <= size <= i64::MAX,
    ensures
        has_room(ks, size, length, al, i),
        s <= mask_down((usable_end(ks, size, i) - length) as u64, al),
{
    lemma_masks((usable_end(ks, size, i) - length) as u64);
}

} // verus!
