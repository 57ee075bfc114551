use vstd::prelude::*;

use crate::access::AccessType;
use crate::addr::{up_to, Addr, HUGE_PAGE_SIZE, PAGE_SIZE};
use crate::block::{block_bytes, flat, wf_blocks, Block, BlockSeq};
use crate::errno::{sys, SysError, SysResult, EACCES, ENOMEM};
use crate::range::{FileRange, Range};
use crate::segment::keys::{gap_at, held_at, range_free, sorted, Gap};
use crate::segment::model::{inserted, lemma_place, place, wf_segments, Segments};
use crate::segment::point::{insertion_speaks, lemma_point_free, point, PointOperations};
use crate::segment::search::{
    align_down, gap_width, lemma_count_at_gap_end, lemma_in_gap_is_free, lemma_mask_down, mask_down, top, top_down_start,
    top_down_start_is_free, top_down_start_is_masked, CHUNK_SIZE,
};
use crate::segment::{SegmentSet, SetOperations};

verus! {

#[derive(Debug, Clone, Copy, PartialEq, Eq, Structural)]
pub enum Direction {
    BottomUp,
    TopDown,
}

/// What memory is used for.
#[derive(Debug, Clone, Copy, PartialEq, Eq, Structural)]
pub enum MemoryKind {
    System,
    Anonymous,
    PageCache,
    Tmpfs,
    Ramdiskfs,
    Mapped,
}

#[derive(Debug, Clone, Copy, PartialEq, Eq, Structural)]
pub struct UsageInfo {
    pub kind: MemoryKind,
    pub known_committed: bool,
}

impl View for UsageInfo {
    type V = UsageInfo;

    open spec fn view(&self) -> UsageInfo {
        *self
    }
}

/// Neighbouring ranges of equal use are one.
pub struct UsageInfoSetOperations;

impl SetOperations for UsageInfoSetOperations {
    type V = UsageInfo;

    open spec fn fits(r: Range, v: UsageInfo) -> bool {
        true
    }

    open spec fn merged(r1: Range, v1: UsageInfo, r2: Range, v2: UsageInfo) -> Option<UsageInfo> {
        if v1 == v2 {
            Some(v1)
        } else {
            None
        }
    }

    open spec fn lower(r: Range, v: UsageInfo, split: u64) -> UsageInfo {
        v
    }

    open spec fn upper(r: Range, v: UsageInfo, split: u64) -> UsageInfo {
        v
    }

    #[verifier::spinoff_prover]
    fn merge(&self, r1: Range, v1: &UsageInfo, r2: Range, v2: &UsageInfo) -> (res: Option<
        UsageInfo,
    >) {
        if *v1 == *v2 {
            assert(Self::merged(r1, v1@, r2, v2@) == Some(*v1));
            Some(*v1)
        } else {
            None
        }
    }

    fn split(&self, r: Range, v: &UsageInfo, split: u64) -> (res: (UsageInfo, UsageInfo)) {
        (*v, *v)
    }
}

impl PointOperations for UsageInfoSetOperations {
    type P = UsageInfo;

    open spec fn at(r: Range, v: UsageInfo, k: int) -> UsageInfo {
        v
    }

    proof fn merge_keeps(r1: Range, v1: UsageInfo, r2: Range, v2: UsageInfo, v: UsageInfo, k: int) {
    }

    proof fn split_keeps(r: Range, v: UsageInfo, split: u64, k: int) {
    }
}

pub type UsageSet = SegmentSet<UsageInfoSetOperations>;

#[derive(Debug, Clone, Copy, PartialEq, Eq, Structural)]
pub struct ReclaimSetValue;

impl View for ReclaimSetValue {
    type V = ReclaimSetValue;

    open spec fn view(&self) -> ReclaimSetValue {
        *self
    }
}

/// Neighbouring ranges are always one.
pub struct ReclaimSetOperations;

impl SetOperations for ReclaimSetOperations {
    type V = ReclaimSetValue;

    open spec fn fits(r: Range, v: ReclaimSetValue) -> bool {
        true
    }

    open spec fn merged(
        r1: Range,
        v1: ReclaimSetValue,
        r2: Range,
        v2: ReclaimSetValue,
    ) -> Option<ReclaimSetValue> {
        Some(ReclaimSetValue)
    }

    open spec fn lower(r: Range, v: ReclaimSetValue, split: u64) -> ReclaimSetValue {
        ReclaimSetValue
    }

    open spec fn upper(r: Range, v: ReclaimSetValue, split: u64) -> ReclaimSetValue {
        ReclaimSetValue
    }

    fn merge(&self, r1: Range, v1: &ReclaimSetValue, r2: Range, v2: &ReclaimSetValue) -> (res:
        Option<ReclaimSetValue>) {
        Some(ReclaimSetValue)
    }

    fn split(&self, r: Range, v: &ReclaimSetValue, split: u64) -> (res: (
        ReclaimSetValue,
        ReclaimSetValue,
    )) {
        (ReclaimSetValue, ReclaimSetValue)
    }
}

#[derive(Debug, Clone, Copy, PartialEq, Eq, Structural)]
pub enum DelayedEviction {
    Defaulted,
    Disabled,
    Enabled,
    Manual,
}

impl Default for DelayedEviction {
    fn default() -> (d: DelayedEviction)
        ensures
            d == DelayedEviction::Defaulted,
    {
        DelayedEviction::Defaulted
    }
}

#[derive(Debug, Clone, Copy, PartialEq, Eq, Structural)]
pub struct MemoryFileOpts {
    pub delayed_eviction: DelayedEviction,
    pub use_host_memcg_pressure: bool,
    pub manual_zeroing: bool,
}

impl Default for MemoryFileOpts {
    fn default() -> (o: MemoryFileOpts)
        ensures
            o == (MemoryFileOpts {
                delayed_eviction: DelayedEviction::Defaulted,
                use_host_memcg_pressure: false,
                manual_zeroing: false,
            }),
    {
        MemoryFileOpts {
            delayed_eviction: DelayedEviction::Defaulted,
            use_host_memcg_pressure: false,
            manual_zeroing: false,
        }
    }
}

#[derive(Debug, Clone, Copy)]
pub struct AllocOpts {
    pub kind: MemoryKind,
    pub dir: Direction,
}

/// The first multiple of the alignment in gap `j`.
pub open spec fn low_start(ks: Seq<Range>, a: u64, j: int) -> int {
    mask_down((gap_at(ks, j).lo() + a - 1) as u64, a) as int
}

/// Gap `j` has room for `length` keys that start at a multiple of the
/// alignment.
pub open spec fn has_low_room(ks: Seq<Range>, length: u64, a: u64, j: int) -> bool {
    &&& 0 <= j <= ks.len()
    &&& low_start(ks, a, j) + length <= gap_at(ks, j).hi()
}

/// Where `length` keys are put, from the bottom up: into the lowest gap with
/// room, unless they would end past the greatest file offset there.
pub open spec fn bottom_up_start(ks: Seq<Range>, length: u64, a: u64, s: Option<u64>) -> bool {
    match s {
        Some(s) => exists|j: int|
            {
                &&& #[trigger] has_low_room(ks, length, a, j)
                &&& forall|i: int| i < j ==> !#[trigger] has_low_room(ks, length, a, i)
                &&& s == low_start(ks, a, j)
                &&& s + length <= i64::MAX
            },
        None => forall|j: int| #[trigger]
            has_low_room(ks, length, a, j) ==> low_start(ks, a, j) + length > i64::MAX,
    }
}

/// Where `length` keys are put in a file of `size` bytes.
pub open spec fn available_start(
    ks: Seq<Range>,
    size: i64,
    length: u64,
    a: u64,
    dir: Direction,
    s: Option<u64>,
) -> bool {
    match dir {
        Direction::BottomUp => bottom_up_start(ks, length, a, s),
        Direction::TopDown => top_down_start(ks, size, length, a, s),
    }
}

/// Whether `a` has one bit set.
pub open spec fn power_of_two(a: u64) -> bool {
    a >= 1 && a & ((a - 1) as u64) == 0
}

/// The greatest power of two has the highest bit set alone.
proof fn lemma_power_of_two_bound(a: u64)
    requires
        power_of_two(a),
    ensures
        a - 1 <= i64::MAX,
{
    assert(a >= 1 && a & ((a - 1) as u64) == 0 ==> a <= 0x8000_0000_0000_0000) by (bit_vector);
}

proof fn lemma_mask_down_ascends(x: u64, y: u64, a: u64)
    requires
        power_of_two(a),
        x <= y,
    ensures
        mask_down(x, a) <= mask_down(y, a),
{
    assert(x <= y && a >= 1 && a & ((a - 1) as u64) == 0 ==> x & !((a - 1) as u64) <= y & !((a
        - 1) as u64)) by (bit_vector);
}

proof fn lemma_low_starts_ascend(ks: Seq<Range>, a: u64, i: int, j: int)
    requires
        sorted(ks),
        power_of_two(a),
        top(ks) + a - 1 <= u64::MAX,
        0 <= i <= j <= ks.len(),
    ensures
        gap_at(ks, i).lo() + a - 1 <= u64::MAX,
        low_start(ks, a, i) <= low_start(ks, a, j),
        gap_at(ks, i).lo() <= low_start(ks, a, i),
{
    if 0 < i < j {
        assert(ks[i - 1].end <= ks[j - 1].start);
        assert(ks[j - 1].start < ks[j - 1].end);
    }
    if 0 < j < ks.len() {
        assert(ks[j - 1].end <= ks[ks.len() - 1].start);
        assert(ks[ks.len() - 1].start < ks[ks.len() - 1].end);
    }
    lemma_mask_down_ascends(
        (gap_at(ks, i).lo() + a - 1) as u64,
        (gap_at(ks, j).lo() + a - 1) as u64,
        a,
    );
    lemma_mask_down((gap_at(ks, i).lo() + a - 1) as u64, a);
}

/// Whatever the search from the bottom up finds meets no segment and starts at
/// a multiple of the alignment.
pub proof fn bottom_up_start_is_free(ks: Seq<Range>, length: u64, a: u64, s: u64)
    requires
        sorted(ks),
        power_of_two(a),
        top(ks) + a - 1 <= u64::MAX,
        bottom_up_start(ks, length, a, Some(s)),
    ensures
        s + length <= i64::MAX,
        range_free(ks, Range { start: s, end: (s + length) as u64 }),
        s & ((a - 1) as u64) == 0,
{
    let j = choose|j: int|
        {
            &&& #[trigger] has_low_room(ks, length, a, j)
            &&& forall|i: int| i < j ==> !#[trigger] has_low_room(ks, length, a, i)
            &&& s == low_start(ks, a, j)
            &&& s + length <= i64::MAX
        };
    lemma_low_starts_ascend(ks, a, j, j);
    lemma_in_gap_is_free(ks, j, Range { start: s, end: (s + length) as u64 });
    lemma_masked_is_aligned((gap_at(ks, j).lo() + a - 1) as u64, a);
}

/// What is left after the bits of a mask were cleared has none of them.
pub proof fn lemma_masked_is_aligned(x: u64, a: u64)
    requires
        a >= 1,
    ensures
        mask_down(x, a) & ((a - 1) as u64) == 0,
{
    let m = (a - 1) as u64;
    assert((x & !m) & m == 0) by (bit_vector);
}

/// The alignments that memory is allocated at are multiples of the page size.
proof fn lemma_masked_page(x: u64)
    ensures
        mask_down(x, PAGE_SIZE) % PAGE_SIZE == 0,
        mask_down(x, HUGE_PAGE_SIZE) % HUGE_PAGE_SIZE == 0,
        power_of_two(PAGE_SIZE),
        power_of_two(HUGE_PAGE_SIZE),
{
    assert((x & !((4096 - 1) as u64)) % 4096 == 0) by (bit_vector);
    assert((x & !((0x200000 - 1) as u64)) % 0x200000 == 0) by (bit_vector);
    assert(4096u64 & ((4096 - 1) as u64) == 0) by (bit_vector);
    assert(0x200000u64 & ((0x200000 - 1) as u64) == 0) by (bit_vector);
}

/// Finds room for `length` keys from the bottom up.
pub fn find_available_range_bottom_up(usage: &UsageSet, length: u64, alignment: u64) -> (fr: Option<
    FileRange,
>)
    requires
        usage.wf(),
        length > 0,
        power_of_two(alignment),
        top(usage.ranges()) <= i64::MAX,
    ensures
        match fr {
            Some(r) => r.end == r.start + length && bottom_up_start(
                usage.ranges(),
                length,
                alignment,
                Some(r.start),
            ),
            None => bottom_up_start(usage.ranges(), length, alignment, None),
        },
{
    let ghost ks = usage.ranges();
    proof {
        lemma_power_of_two_bound(alignment);
    }
    let mut gap = match usage.first_gap() {
        Some(g) => g,
        None => Gap::minimum(),
    };
    let ghost mut j: int = 0;
    loop
        invariant
            usage.wf(),
            ks == usage.ranges(),
            0 <= j <= ks.len(),
            gap.lo() == gap_at(ks, j).lo(),
            gap.hi() == gap_at(ks, j).hi(),
            j < ks.len() ==> gap.range.end == Some(ks[j].start),
            j == ks.len() ==> gap.range.end is None,
            power_of_two(alignment),
            length > 0,
            top(ks) <= i64::MAX,
            alignment - 1 <= i64::MAX,
            j == ks.len() ==> (length <= gap_width(ks, j) || j == 0),
            forall|i: int| i < j ==> !#[trigger] has_low_room(ks, length, alignment, i),
        decreases ks.len() - j,
    {
        proof {
            lemma_low_starts_ascend(ks, alignment, j, j);
        }
        let start = align_down(gap.start() + (alignment - 1), alignment);
        proof {
            assert forall|i: int| #[trigger]
                has_low_room(ks, length, alignment, i) implies low_start(ks, alignment, i)
                >= start by {
                if i >= j {
                    lemma_low_starts_ascend(ks, alignment, j, i);
                }
            }
        }
        let end = match start.checked_add(length) {
            Some(end) => end,
            None => return None,
        };
        if end > 0x7fff_ffff_ffff_ffff {
            return None;
        }
        if end <= gap.end() {
            assert(has_low_room(ks, length, alignment, j));
            return Some(Range { start, end });
        }
        assert(!has_low_room(ks, length, alignment, j));
        proof {
            if j < ks.len() {
                lemma_count_at_gap_end(ks, j);
            }
            assert forall|i: int| 0 <= i <= ks.len() && #[trigger] gap_width(ks, i)
                < length implies !has_low_room(ks, length, alignment, i) by {
                lemma_low_starts_ascend(ks, alignment, i, i);
            }
        }
        match usage.next_large_enough_gap(&gap, length) {
            Some(g) => {
                proof {
                    let k = choose|k: int|
                        {
                            &&& j < k <= ks.len()
                            &&& length <= gap_width(ks, k)
                            &&& forall|i: int| j < i < k ==> #[trigger] gap_width(ks, i) < length
                            &&& g == #[trigger] gap_at(ks, k)
                        };
                    assert forall|i: int| i < k implies !#[trigger] has_low_room(
                        ks,
                        length,
                        alignment,
                        i,
                    ) by {
                        if j < i {
                            assert(gap_width(ks, i) < length);
                        }
                    }
                    j = k;
                }
                gap = g;
            },
            None => {
                proof {
                    assert(j < ks.len());
                    assert(gap_width(ks, ks.len() as int) < length);
                }
                return None;
            },
        }
    }
}

/// Finds room for `length` keys in a file of `file_size` bytes.
pub fn find_available_range(
    usage: &UsageSet,
    file_size: i64,
    length: u64,
    alignment: u64,
    dir: Direction,
) -> (fr: Option<FileRange>)
    requires
        usage.wf(),
        file_size >= 0,
        length > 0,
        power_of_two(alignment),
        top(usage.ranges()) <= i64::MAX,
    ensures
        match fr {
            Some(r) => r.end == r.start + length && available_start(
                usage.ranges(),
                file_size,
                length,
                alignment,
                dir,
                Some(r.start),
            ),
            None => available_start(usage.ranges(), file_size, length, alignment, dir, None),
        },
{
    proof {
        lemma_power_of_two_bound(alignment);
    }
    match dir {
        Direction::BottomUp => find_available_range_bottom_up(usage, length, alignment),
        Direction::TopDown => usage.find_available_range(file_size, length, alignment),
    }
}

/// The file that backs the memory of all applications: how large it is, where
/// its chunks are mapped, and which parts of it are in use.
pub struct MemoryFile {
    pub file_size: i64,
    /// Where each chunk of the file is mapped, or zero.
    pub mappings: Vec<u64>,
    pub usage: UsageSet,
    pub opts: MemoryFileOpts,
}

/// The part of a chunk that a file range takes up.
#[derive(Debug, Clone, Copy, PartialEq, Eq, Structural)]
pub struct ChunkSlice {
    pub chunk: u64,
    pub start: u64,
    pub end: u64,
}

/// What is to be done before a file range is mapped.
#[derive(Debug)]
pub enum MapStep {
    /// Map the chunk with this index.
    NeedChunk(u64),
    Mapped(BlockSeq),
}

/// How many bytes of a file range are left past the start of chunk `c`.
pub open spec fn chunk_slice(fr: FileRange, c: int) -> ChunkSlice {
    let s = c * CHUNK_SIZE;
    ChunkSlice {
        chunk: c as u64,
        start: if s < fr.start {
            (fr.start - s) as u64
        } else {
            0
        },
        end: if s + CHUNK_SIZE > fr.end {
            (fr.end - s) as u64
        } else {
            CHUNK_SIZE as u64
        },
    }
}

/// The first chunk that a file range touches.
pub open spec fn first_chunk(fr: FileRange) -> int {
    fr.start as int / CHUNK_SIZE as int
}

/// How many chunks a file range touches.
pub open spec fn chunk_count(fr: FileRange) -> nat {
    ((fr.end + CHUNK_SIZE - 1) / CHUNK_SIZE as int - first_chunk(fr)) as nat
}

/// The parts of chunks that make up a file range, in order.
pub open spec fn chunk_slices(fr: FileRange) -> Seq<ChunkSlice> {
    Seq::new(chunk_count(fr), |i: int| chunk_slice(fr, first_chunk(fr) + i))
}

/// The alignment at which `length` bytes are allocated.
pub open spec fn alignment_of(length: u64) -> u64 {
    if length >= HUGE_PAGE_SIZE {
        HUGE_PAGE_SIZE
    } else {
        PAGE_SIZE
    }
}

/// The size of a file that has to reach up to `end`.
pub open spec fn grown_size(size: i64, end: u64) -> int {
    if end > size {
        up_to(end as int, CHUNK_SIZE as int)
    } else {
        size as int
    }
}

/// A file of this size cannot be, or its chunks cannot be counted.
pub open spec fn too_large(size: int) -> bool {
    size > i64::MAX || size / CHUNK_SIZE as int > usize::MAX
}

/// An allocation that was found to be possible: the range that it takes, and
/// the size that the file has to have.
#[derive(Debug, Clone, Copy, PartialEq, Eq, Structural)]
pub struct AllocPlan {
    pub range: FileRange,
    pub file_size: i64,
}

impl MemoryFile {
    pub open spec fn wf(&self) -> bool {
        &&& self.usage.wf()
        &&& self.file_size >= 0
        &&& self.file_size as int % CHUNK_SIZE as int == 0
        &&& top(self.usage.ranges()) <= self.file_size
        &&& self.mappings@.len() == self.file_size as int / CHUNK_SIZE as int
        &&& forall|i: int|
            0 <= i < self.mappings@.len() ==> #[trigger] self.mappings@[i] + CHUNK_SIZE <= u64::MAX
    }

    /// The range and the size are those that an allocation of `length` bytes
    /// comes to.
    pub open spec fn plans(&self, length: u64, dir: Direction, p: AllocPlan) -> bool {
        &&& available_start(
            self.usage.ranges(),
            self.file_size,
            length,
            alignment_of(length),
            dir,
            Some(p.range.start),
        )
        &&& p.range.end == p.range.start + length
        &&& p.file_size == grown_size(self.file_size, p.range.end)
        &&& p.file_size > self.file_size ==> !too_large(p.file_size as int)
    }

    /// There is no room for `length` bytes, or the file would have to be too
    /// large for them.
    pub open spec fn no_room(&self, length: u64, dir: Direction) -> bool {
        ||| available_start(
            self.usage.ranges(),
            self.file_size,
            length,
            alignment_of(length),
            dir,
            None,
        )
        ||| exists|s: u64|
            {
                &&& #[trigger] available_start(
                    self.usage.ranges(),
                    self.file_size,
                    length,
                    alignment_of(length),
                    dir,
                    Some(s),
                )
                &&& too_large(grown_size(self.file_size, (s + length) as u64))
            }
    }

    /// What allocating `length` bytes comes to: the place that is planned for
    /// them, where the file could grow to hold it, and else an error.
    pub open spec fn allocates(
        &self,
        after: MemoryFile,
        length: u64,
        opts: AllocOpts,
        grown: SysResult<()>,
        res: SysResult<FileRange>,
    ) -> bool {
        match res {
            Ok(r) => {
                &&& exists|p: AllocPlan|
                    {
                        &&& #[trigger] self.plans(length, opts.dir, p)
                        &&& r == p.range
                        &&& after.file_size == p.file_size
                        &&& p.file_size > self.file_size ==> grown is Ok
                    }
                &&& after.usage.model() == inserted::<UsageInfoSetOperations>(
                    self.usage.model(),
                    r,
                    UsageInfo { kind: opts.kind, known_committed: false },
                )
                &&& after.mappings@ == self.mappings@ + Seq::new(
                    (after.mappings@.len() - self.mappings@.len()) as nat,
                    |i: int| 0u64,
                )
            },
            Err(e) => {
                &&& after.file_size == self.file_size
                &&& after.usage.model() == self.usage.model()
                &&& after.mappings@ == self.mappings@
                &&& (e == sys(ENOMEM) && self.no_room(length, opts.dir)) || (exists|p: AllocPlan|
                    {
                        &&& #[trigger] self.plans(length, opts.dir, p)
                        &&& p.file_size > self.file_size
                        &&& grown == Err::<(), SysError>(e)
                    })
            },
        }
    }

    pub fn new(opts: MemoryFileOpts) -> (f: Self)
        ensures
            f.wf(),
            f.file_size == 0,
            f.usage.ranges() == Seq::<Range>::empty(),
            f.opts == (match opts.delayed_eviction {
                DelayedEviction::Defaulted => MemoryFileOpts {
                    delayed_eviction: DelayedEviction::Enabled,
                    ..opts
                },
                DelayedEviction::Enabled => opts,
                _ => MemoryFileOpts { use_host_memcg_pressure: false, ..opts },
            }),
    {
        let mut opts = opts;
        match opts.delayed_eviction {
            DelayedEviction::Defaulted => {
                opts.delayed_eviction = DelayedEviction::Enabled;
            },
            DelayedEviction::Disabled | DelayedEviction::Manual => {
                opts.use_host_memcg_pressure = false;
            },
            DelayedEviction::Enabled => {},
        }
        MemoryFile {
            file_size: 0,
            mappings: Vec::new(),
            usage: SegmentSet::new(UsageInfoSetOperations),
            opts,
        }
    }

    fn find_available_range(&self, length: u64, alignment: u64, dir: Direction) -> (fr: Option<
        FileRange,
    >)
        requires
            self.wf(),
            length > 0,
            power_of_two(alignment),
        ensures
            match fr {
                Some(r) => r.end == r.start + length && available_start(
                    self.usage.ranges(),
                    self.file_size,
                    length,
                    alignment,
                    dir,
                    Some(r.start),
                ),
                None => available_start(
                    self.usage.ranges(),
                    self.file_size,
                    length,
                    alignment,
                    dir,
                    None,
                ),
            },
    {
        find_available_range(&self.usage, self.file_size, length, alignment, dir)
    }

    /// Where `length` bytes would be allocated, and how large the file has to
    /// be for them.
    pub fn plan(&self, length: u64, opts: &AllocOpts) -> (p: SysResult<AllocPlan>)
        requires
            self.wf(),
            length > 0,
            length % PAGE_SIZE == 0,
        ensures
            match p {
                Ok(p) => self.plans(length, opts.dir, p),
                Err(e) => e == sys(ENOMEM) && self.no_room(length, opts.dir),
            },
    {
        let alignment = if length >= HUGE_PAGE_SIZE {
            HUGE_PAGE_SIZE
        } else {
            PAGE_SIZE
        };
        proof {
            lemma_masked_page(0);
        }
        let range = match self.find_available_range(length, alignment, opts.dir) {
            Some(r) => r,
            None => return Err(SysError::new(ENOMEM)),
        };
        if range.end <= self.file_size as u64 {
            return Ok(AllocPlan { range, file_size: self.file_size });
        }
        let chunk = CHUNK_SIZE as u64;
        assert(available_start(
            self.usage.ranges(),
            self.file_size,
            length,
            alignment,
            opts.dir,
            Some(range.start),
        ));
        if range.end > 0x7fff_ffff_c000_0000 {
            return Err(SysError::new(ENOMEM));
        }
        let up = range.end + (chunk - 1);
        if up / chunk > usize::MAX as u64 {
            return Err(SysError::new(ENOMEM));
        }
        Ok(AllocPlan { range, file_size: (up - up % chunk) as i64 })
    }

    /// Allocates `length` bytes as planned by [`MemoryFile::plan`]. Where the
    /// file has to grow, `grown` tells whether it could be brought to its new
    /// size.
    pub fn allocate(&mut self, length: u64, opts: AllocOpts, grown: SysResult<()>) -> (res:
        SysResult<FileRange>)
        requires
            old(self).wf(),
            length > 0,
            length % PAGE_SIZE == 0,
            !old(self).opts.manual_zeroing,
        ensures
            final(self).wf(),
            final(self).opts == old(self).opts,
            old(self).allocates(*final(self), length, opts, grown, res),
    {
        let plan = match self.plan(length, &opts) {
            Ok(plan) => plan,
            Err(e) => return Err(e),
        };
        proof {
            allocation_is_free(*self, length, opts.dir, plan);
            lemma_top_allocated(self.usage.model(), plan.range, opts.kind);
        }
        assert(self.plans(length, opts.dir, plan));
        if plan.file_size > self.file_size {
            match grown {
                Ok(_) => {},
                Err(e) => return Err(e),
            }
            let n = (plan.file_size / CHUNK_SIZE) as usize;
            let m = self.mappings.len();
            self.mappings.resize(n, 0);
            proof {
                assert(self.mappings@ =~= old(self).mappings@ + Seq::new(
                    (n - m) as nat,
                    |i: int| 0u64,
                )) by {
                    assert forall|i: int| 0 <= i < m implies self.mappings@[i] == old(
                        self,
                    ).mappings@[i] by {
                        assert(self.mappings@.subrange(0, m as int)[i] == self.mappings@[i]);
                    }
                }
                assert forall|i: int| 0 <= i < n implies #[trigger] self.mappings@[i] + CHUNK_SIZE
                    <= u64::MAX by {
                    if i < m {
                        assert(self.mappings@[i] == old(self).mappings@[i]);
                    }
                }
            }
            self.file_size = plan.file_size;
        } else {
            assert(self.mappings@ =~= old(self).mappings@ + Seq::new(0, |i: int| 0u64));
        }
        let info = UsageInfo { kind: opts.kind, known_committed: false };
        let _ = self.usage.add(plan.range, info);
        Ok(plan.range)
    }

    pub fn should_cache_evictable(&self) -> (b: bool)
        ensures
            b == (self.opts.delayed_eviction == DelayedEviction::Manual
                || self.opts.use_host_memcg_pressure),
    {
        self.opts.delayed_eviction == DelayedEviction::Manual || self.opts.use_host_memcg_pressure
    }

    pub fn total_size(&self) -> (n: u64)
        requires
            self.wf(),
        ensures
            n == self.file_size,
    {
        self.file_size as u64
    }

    /// Where the chunk with this index is mapped, if it is.
    pub fn chunk_mapping(&self, chunk: u64) -> (m: Option<u64>)
        requires
            chunk < self.mappings@.len(),
        ensures
            match m {
                Some(m) => m == self.mappings@[chunk as int] && m != 0,
                None => self.mappings@[chunk as int] == 0,
            },
    {
        let n = self.mappings.len();
        assert(chunk < n);
        let m = self.mappings[chunk as usize];
        if m != 0 {
            Some(m)
        } else {
            None
        }
    }

    /// Notes that the chunk with this index is mapped at `m`.
    pub fn set_chunk_mapping(&mut self, chunk: u64, m: u64)
        requires
            old(self).wf(),
            chunk < old(self).mappings@.len(),
            m + CHUNK_SIZE <= u64::MAX,
        ensures
            final(self).wf(),
            final(self).mappings@ == old(self).mappings@.update(chunk as int, m),
            final(self).file_size == old(self).file_size,
            final(self).usage.model() == old(self).usage.model(),
            final(self).opts == old(self).opts,
    {
        let n = self.mappings.len();
        assert(chunk < n);
        self.mappings.set(chunk as usize, m);
    }

    /// Maps a file range: tells the first chunk that has to be mapped for it,
    /// or, where all are, the memory that holds the range.
    pub fn map_internal(&self, fr: FileRange, at: AccessType) -> (res: SysResult<MapStep>)
        requires
            self.wf(),
            fr.start < fr.end <= self.file_size,
        ensures
            match res {
                Ok(MapStep::NeedChunk(c)) => {
                    let i = c - first_chunk(fr);
                    &&& !at.execute
                    &&& 0 <= i < chunk_slices(fr).len()
                    &&& self.mappings@[c as int] == 0
                    &&& forall|j: int|
                        0 <= j < i ==> self.mappings@[#[trigger] chunk_slices(fr)[j].chunk as int]
                            != 0
                },
                Ok(MapStep::Mapped(bs)) => {
                    &&& !at.execute
                    &&& forall|j: int|
                        0 <= j < chunk_slices(fr).len() ==> self.mappings@[#[trigger] chunk_slices(
                            fr,
                        )[j].chunk as int] != 0
                    &&& bs@ == self.blocks_of(fr)
                },
                Err(e) => at.execute && e == sys(EACCES),
            },
    {
        if at.execute {
            return Err(SysError::new(EACCES));
        }
        let slices = chunk_slices_of(fr);
        let n = self.mappings.len();
        let mut blocks: Vec<Block> = Vec::new();
        let mut i: usize = 0;
        while i < slices.len()
            invariant
                self.wf(),
                fr.start < fr.end <= self.file_size,
                !at.execute,
                slices@ == chunk_slices(fr),
                i <= slices@.len(),
                n == self.mappings@.len(),
                wf_blocks(blocks@),
                blocks@ == self.blocks_of(fr).take(i as int),
                forall|j: int|
                    0 <= j < i ==> self.mappings@[#[trigger] chunk_slices(fr)[j].chunk as int] != 0,
            decreases slices@.len() - i,
        {
            let s = slices[i];
            proof {
                lemma_chunk_slice(fr, i as int);
                assert(s == chunk_slices(fr)[i as int]);
                assert(s.chunk < n);
            }
            let m = self.mappings[s.chunk as usize];
            if m == 0 {
                return Ok(MapStep::NeedChunk(s.chunk));
            }
            let b = Block { addr: m + s.start, len: s.end - s.start };
            blocks.push(b);
            assert(self.blocks_of(fr).take(i + 1) =~= self.blocks_of(fr).take(i as int).push(b));
            i = i + 1;
        }
        assert(self.blocks_of(fr).take(i as int) =~= self.blocks_of(fr));
        Ok(MapStep::Mapped(BlockSeq::from_blocks(blocks)))
    }

    /// The memory that a file range is mapped to.
    pub open spec fn blocks_of(&self, fr: FileRange) -> Seq<Block> {
        chunk_slices(fr).map_values(
            |s: ChunkSlice|
                Block {
                    addr: (self.mappings@[s.chunk as int] + s.start) as u64,
                    len: (s.end - s.start) as u64,
                },
        )
    }
}

/// A slice lies within its chunk and is not empty.
proof fn lemma_chunk_slice(fr: FileRange, i: int)
    requires
        fr.start < fr.end <= i64::MAX,
        0 <= i < chunk_count(fr),
    ensures
        chunk_slices(fr)[i] == chunk_slice(fr, first_chunk(fr) + i),
        chunk_slices(fr)[i].chunk == first_chunk(fr) + i,
        chunk_slices(fr)[i].start < chunk_slices(fr)[i].end <= CHUNK_SIZE,
        (first_chunk(fr) + i) * CHUNK_SIZE < fr.end,
{
}

/// The parts of chunks that make up a file range.
fn chunk_slices_of(fr: FileRange) -> (v: Vec<ChunkSlice>)
    requires
        fr.start < fr.end <= i64::MAX,
    ensures
        v@ == chunk_slices(fr),
{
    let chunk_size = CHUNK_SIZE as u64;
    let mut v: Vec<ChunkSlice> = Vec::new();
    let mut chunk = fr.start / chunk_size;
    let n = (fr.end + (chunk_size - 1)) / chunk_size;
    let ghost c0 = first_chunk(fr);
    while chunk < n
        invariant
            fr.start < fr.end <= i64::MAX,
            chunk_size == CHUNK_SIZE,
            c0 == first_chunk(fr),
            n == (fr.end + CHUNK_SIZE - 1) / CHUNK_SIZE as int,
            c0 <= chunk <= n,
            v@ == chunk_slices(fr).take(chunk - c0),
        decreases n - chunk,
    {
        proof {
            lemma_chunk_slice(fr, chunk - c0);
        }
        let chunk_start = chunk * chunk_size;
        let start = if chunk_start < fr.start {
            fr.start - chunk_start
        } else {
            0
        };
        let end = if chunk_start + chunk_size > fr.end {
            fr.end - chunk_start
        } else {
            chunk_size
        };
        let s = ChunkSlice { chunk, start, end };
        assert(s == chunk_slice(fr, chunk as int));
        v.push(s);
        assert(chunk_slices(fr).take(chunk + 1 - c0) =~= chunk_slices(fr).take(chunk - c0).push(s));
        chunk = chunk + 1;
    }
    assert(chunk_slices(fr).take(chunk - c0) =~= chunk_slices(fr));
    v
}

/// What is left of an allocation of `fr` into which only `n` bytes could be
/// read.
pub fn filled_range(fr: FileRange, n: u64) -> (r: FileRange)
    requires
        fr.start <= fr.end,
    ensures
        r.start == fr.start,
        r.end == (if Addr(n).page() < fr.end - fr.start {
            fr.start + Addr(n).page()
        } else {
            fr.end as int
        }),
{
    let un = Addr(n).round_down().0;
    if un < fr.end - fr.start {
        Range { start: fr.start, end: fr.start + un }
    } else {
        fr
    }
}

/// The number of bytes that a file with this many blocks takes up.
pub fn total_usage(blocks: u64) -> (n: u64)
    requires
        blocks * 512 <= u64::MAX,
    ensures
        n == blocks * 512,
{
    blocks * 512
}

proof fn lemma_top_allocated(m: Segments<UsageInfo>, r: FileRange, kind: MemoryKind)
    requires
        wf_segments::<UsageInfoSetOperations>(m),
        r.start < r.end,
        range_free(m.ks, r),
    ensures
        ({
            let n = inserted::<UsageInfoSetOperations>(
                m,
                r,
                UsageInfo { kind, known_committed: false },
            );
            top(n.ks) == (if r.end > top(m.ks) {
                r.end
            } else {
                top(m.ks)
            })
        }),
{
    let info = UsageInfo { kind, known_committed: false };
    let n = inserted::<UsageInfoSetOperations>(m, r, info);
    let i = place(m.ks, r);
    lemma_place(m.ks, r);
    if i == m.ks.len() {
        assert(n.ks.last().end == r.end);
    } else {
        let l = m.ks.len() - 1;
        if i < l {
            assert(m.ks[i].end <= m.ks[l].start);
            assert(m.ks[i].start < m.ks[i].end);
        }
        assert(m.ks[l].start < m.ks[l].end);
        assert(n.ks.last().end == m.ks[l].end);
    }
}

/// A planned allocation takes whole pages that nothing uses yet, and lies
/// within the size that the file is to have.
#[verifier::spinoff_prover]
#[verifier::rlimit(60)]
pub proof fn allocation_is_free(f: MemoryFile, length: u64, dir: Direction, p: AllocPlan)
    requires
        f.wf(),
        length > 0,
        length % PAGE_SIZE == 0,
        f.plans(length, dir, p),
    ensures
        range_free(f.usage.ranges(), p.range),
        p.range.start % PAGE_SIZE == 0,
        p.range.end % PAGE_SIZE == 0,
        p.range.start < p.range.end,
        f.file_size <= p.file_size,
        p.range.end <= p.file_size,
        p.file_size as int % CHUNK_SIZE as int == 0,
{
    let ks = f.usage.ranges();
    let a = alignment_of(length);
    lemma_masked_page(0);
    match dir {
        Direction::BottomUp => {
            bottom_up_start_is_free(ks, length, a, p.range.start);
            let j = choose|j: int|
                {
                    &&& #[trigger] has_low_room(ks, length, a, j)
                    &&& forall|i: int| i < j ==> !#[trigger] has_low_room(ks, length, a, i)
                    &&& p.range.start == low_start(ks, a, j)
                    &&& p.range.start + length <= i64::MAX
                };
            lemma_masked_page((gap_at(ks, j).lo() + a - 1) as u64);
        },
        Direction::TopDown => {
            top_down_start_is_free(ks, f.file_size, length, a, p.range.start);
            top_down_start_is_masked(ks, f.file_size, length, a, p.range.start);
            let x = choose|x: u64| p.range.start == mask_down(x, a);
            lemma_masked_page(x);
        },
    }
}

/// An allocation is used as it was asked for, and what is said of the rest of
/// the file stays.
pub proof fn allocation_speaks(
    m: Segments<UsageInfo>,
    r: FileRange,
    kind: MemoryKind,
    k: int,
)
    requires
        wf_segments::<UsageInfoSetOperations>(m),
        r.start < r.end,
        range_free(m.ks, r),
    ensures
        ({
            let info = UsageInfo { kind, known_committed: false };
            let n = inserted::<UsageInfoSetOperations>(m, r, info);
            &&& r.has(k) ==> point::<UsageInfoSetOperations>(m, k) is None
            &&& point::<UsageInfoSetOperations>(n, k) == (if r.has(k) {
                Some(info)
            } else {
                point::<UsageInfoSetOperations>(m, k)
            })
        }),
{
    insertion_speaks::<UsageInfoSetOperations>(
        m,
        r,
        UsageInfo { kind, known_committed: false },
        k,
    );
    if r.has(k) {
        assert forall|i: int| !#[trigger] held_at(m.ks, k, i) by {
            if held_at(m.ks, k, i) {
                assert(m.ks[i].meets(r));
            }
        }
        lemma_point_free::<UsageInfoSetOperations>(m, k);
    }
}

/// The host address of offset `off` of a file whose chunks are mapped at
/// `mappings`.
pub open spec fn host_of(mappings: Seq<u64>, off: int) -> int {
    mappings[off / CHUNK_SIZE as int] + off % CHUNK_SIZE as int
}

proof fn lemma_slices_flat(f: MemoryFile, fr: FileRange, n: int)
    requires
        f.wf(),
        fr.start < fr.end <= f.file_size,
        0 <= n <= chunk_count(fr),
    ensures
        ({
            let end = (first_chunk(fr) + n) * CHUNK_SIZE;
            let to = if n == 0 {
                fr.start as int
            } else if end > fr.end {
                fr.end as int
            } else {
                end
            };
            &&& fr.start <= to
            &&& flat(f.blocks_of(fr).take(n)) == Seq::new(
                (to - fr.start) as nat,
                |j: int| host_of(f.mappings@, fr.start + j),
            )
        }),
    decreases n,
{
    let bs = f.blocks_of(fr);
    if n == 0 {
        assert(bs.take(0) =~= Seq::empty());
        assert(flat(bs.take(0)) =~= Seq::empty());
    } else {
        lemma_slices_flat(f, fr, n - 1);
        lemma_chunk_slice(fr, n - 1);
        let c = first_chunk(fr) + n - 1;
        let s = chunk_slice(fr, c);
        assert(bs.take(n).drop_last() =~= bs.take(n - 1));
        assert(c < f.mappings@.len());
        assert(f.mappings@[c] + CHUNK_SIZE <= u64::MAX);
        let b = bs.take(n).last();
        assert(b == Block { addr: (f.mappings@[c] + s.start) as u64, len: (s.end - s.start) as u64 });
        let from = c * CHUNK_SIZE + s.start;
        assert forall|j: int| 0 <= j < s.end - s.start implies #[trigger] block_bytes(b)[j]
            == host_of(f.mappings@, from + j) by {
            assert((from + j) / CHUNK_SIZE as int == c);
            assert((from + j) % CHUNK_SIZE as int == s.start + j);
        }
        let end = (first_chunk(fr) + n) * CHUNK_SIZE;
        let to = if end > fr.end {
            fr.end as int
        } else {
            end
        };
        assert(flat(bs.take(n)) =~= Seq::new(
            (to - fr.start) as nat,
            |j: int| host_of(f.mappings@, fr.start + j),
        ));
    }
}

/// Part of a file is mapped byte by byte where its chunks are, whatever part is
/// asked for.
pub proof fn file_is_mapped_by_chunks(f: MemoryFile, fr: FileRange, j: int)
    requires
        f.wf(),
        fr.start < fr.end <= f.file_size,
        0 <= j < fr.length(),
    ensures
        flat(f.blocks_of(fr)).len() == fr.length(),
        flat(f.blocks_of(fr))[j] == host_of(f.mappings@, fr.start + j),
{
    let n = chunk_count(fr) as int;
    lemma_slices_flat(f, fr, n);
    assert(f.blocks_of(fr).take(n) =~= f.blocks_of(fr));
}

/// Mapping a further chunk leaves those that are mapped where they are.
pub proof fn mapped_chunks_stay(before: Seq<u64>, chunk: u64, m: u64, off: int)
    requires
        chunk < before.len(),
        before[chunk as int] == 0,
        0 <= off / CHUNK_SIZE as int,
        off / (CHUNK_SIZE as int) < before.len(),
        before[off / CHUNK_SIZE as int] != 0,
    ensures
        host_of(before.update(chunk as int, m), off) == host_of(before, off),
{
}

} // verus!
