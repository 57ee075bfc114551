use vstd::prelude::*;

use crate::access::AccessType;
use crate::addr::{down_to, up_to, Addr, PAGE_SIZE};
use crate::block::{flat, BlockSeq};
use crate::mm::hosts::{lemma_place_held, lemma_place_set, place_at, places_kept};
use crate::mm::manager::{backs, page_bound, pma_at, vma_at, whole_pages, word, MemoryManager};
use crate::mm::mmap::PRIVATE_ALLOC_UNIT;
use crate::mm::pma::{any_pma, PmaPoint, PmaSetOperations, PmaView};
use crate::mm::vma::{Vma, VmaSetOperations};
use crate::range::{AddrRange, FileRange, MappableRange, Range};
use crate::segment::keys::{count_before, free, gap_at, held_at, lemma_free_is_between};
use crate::segment::model::{holder, lemma_holder, lemma_wf_set, Segments};
use crate::segment::nav::at;
use crate::segment::point::{lemma_point_free, lemma_point_held, set_speaks};
use crate::segment::total::lemma_total_set_value;
use crate::segment::SetOperations;

verus! {

/// The number of the file that holds anonymous memory.
pub const MEMORY_FILE: u64 = 0;

/// The way along the addresses in `ar` behind which memory for the access `at`
/// is to be had. Up to `pos` it is there.
#[derive(Debug, Clone, Copy, PartialEq, Eq, Structural)]
pub struct PmaWalk {
    pub ar: AddrRange,
    pub at: AccessType,
    pub pos: u64,
    pub did_unmap_as: bool,
}

/// What has to be done next on the way.
#[derive(Debug)]
pub enum PmaStep {
    /// The end is reached.
    Done,
    /// The memory at this place is as it should be.
    Next,
    /// Ask the mapped object where it has the part `required`, and as much of
    /// the part `optional` as is easy to tell.
    Translate {
        mappable: u64,
        required: MappableRange,
        optional: MappableRange,
        perms: AccessType,
    },
    /// Ask the mapped object the same for other permissions.
    Retranslate {
        mappable: u64,
        required: MappableRange,
        optional: MappableRange,
        perms: AccessType,
    },
    /// Allocate anonymous memory for these addresses.
    Allocate { ar: AddrRange },
    /// Map part of a file so that it can be copied.
    MapInternal { file: u64, range: FileRange, perms: AccessType },
    /// Copy the memory behind these addresses to newly allocated memory.
    Copy { ar: AddrRange, src: BlockSeq },
}

/// The whole units of anonymous memory that hold `ar`.
pub open spec fn in_units(ar: AddrRange) -> AddrRange {
    let end = up_to(ar.end as int, PRIVATE_ALLOC_UNIT as int);
    Range {
        start: down_to(ar.start as int, PRIVATE_ALLOC_UNIT as int) as u64,
        end: if end <= u64::MAX {
            end as u64
        } else {
            ar.end
        },
    }
}

/// Rounds a range to whole units of anonymous memory.
pub fn private_aligned(ar: AddrRange) -> (r: AddrRange)
    ensures
        r == in_units(ar),
{
    let start = ar.start - ar.start % PRIVATE_ALLOC_UNIT;
    let off = ar.end % PRIVATE_ALLOC_UNIT;
    let end = if off == 0 {
        ar.end
    } else {
        match ar.end.checked_add(PRIVATE_ALLOC_UNIT - off) {
            Some(end) => end,
            None => ar.end,
        }
    };
    Range { start, end }
}

/// The offset in the mapped object that the area at index `i` has at `k`, or would
/// have if it reached there. Offsets start anew past the greatest number.
pub open spec fn offset_in(m: Segments<Vma>, i: int, k: u64) -> u64 {
    ((m.vs[i].off + (k - m.ks[i].start)) % word()) as u64
}

/// The part of the mapped object that the area at index `i` has at `r`.
pub open spec fn part_of(m: Segments<Vma>, i: int, r: AddrRange) -> MappableRange {
    Range { start: offset_in(m, i, r.start), end: offset_in(m, i, r.end) }
}

/// The addresses at which an area at `vr`, which starts at offset `off` of the
/// object, has part `mr` of it.
pub open spec fn landing(vr: AddrRange, off: u64, mr: MappableRange) -> AddrRange {
    Range {
        start: (vr.start + (mr.start - off)) as u64,
        end: (vr.start + (mr.end - off)) as u64,
    }
}

/// The access that is asked of an object for access `at` to an area. A private
/// area is only read from.
pub open spec fn asked_of(at: AccessType, private: bool) -> AccessType {
    if private {
        AccessType { read: true, write: false, ..at }
    } else {
        at
    }
}

/// The part of a file that is behind a whole segment of memory.
pub open spec fn file_part(r: AddrRange, p: PmaView) -> FileRange {
    Range { start: p.off, end: (p.off + r.length()) as u64 }
}

/// The addresses about `ar` whose memory is copied together in a stack.
pub open spec fn with_neighbours(ar: AddrRange) -> AddrRange {
    Range {
        start: if ar.start >= PAGE_SIZE {
            (ar.start - PAGE_SIZE) as u64
        } else {
            ar.start
        },
        end: if ar.end + PAGE_SIZE <= u64::MAX {
            (ar.end + PAGE_SIZE) as u64
        } else {
            ar.end
        },
    }
}

/// How much of the memory at `r` is copied when `ar` is to be written to.
pub open spec fn copied_part(r: AddrRange, v: Vma, ar: AddrRange) -> AddrRange {
    if v.effective_perms.execute {
        r.common(ar)
    } else if v.grows_down {
        r.common(with_neighbours(ar))
    } else {
        r.common(in_units(ar))
    }
}

impl MemoryManager {
    /// The way leads along mapped addresses. Where an object told of more than it
    /// was asked, it may have gone back within the area that maps the object.
    pub open spec fn on_way(&self, w: PmaWalk) -> bool {
        &&& whole_pages(w.ar)
        &&& w.ar.start < w.ar.end
        &&& Addr(w.pos).page_aligned()
        &&& forall|k: int| w.ar.has(k) ==> #[trigger] vma_at(self.vmas.model(), k) is Some
        &&& w.pos < w.ar.start ==> {
            let v = self.area(w.ar.start);
            &&& held_at(self.vmas.ranges(), w.pos as int, v)
            &&& held_at(self.vmas.ranges(), w.ar.start as int, v)
            &&& self.vmas.values()[v].mappable is Some
        }
    }

    /// There is memory behind every address that the way has passed.
    pub open spec fn passed(&self, w: PmaWalk) -> bool {
        forall|k: int|
            w.ar.has(k) && k < w.pos ==> #[trigger] pma_at(self.pmas.model(), k) is Some
    }

    /// The index of the area at `pos`.
    pub open spec fn area(&self, pos: u64) -> int {
        holder(self.vmas.ranges(), pos as int)
    }

    /// The index of the memory at `pos`.
    pub open spec fn memory(&self, pos: u64) -> int {
        holder(self.pmas.ranges(), pos as int)
    }

    /// The index of the gap in memory at `pos`.
    pub open spec fn gap(&self, pos: u64) -> int {
        count_before(self.pmas.ranges(), at(pos)) as int
    }

    /// There is no memory at `pos`.
    pub open spec fn no_memory(&self, pos: u64) -> bool {
        free(self.pmas.ranges(), pos as int)
    }

    /// The part of the area at `pos` that lies in the gap in memory there.
    pub open spec fn area_in_gap(&self, pos: u64) -> AddrRange {
        self.vmas.ranges()[self.area(pos)].common(
            gap_at(self.pmas.ranges(), self.gap(pos)).span(),
        )
    }

    /// Nobody else refers to the memory at index `i`.
    pub open spec fn sole_owner(&self, i: int) -> bool {
        let fr = file_part(self.pmas.ranges()[i], self.pmas.values()[i]);
        let refs = self.private_refs.refs.model();
        let h = holder(refs.ks, fr.start as int);
        held_at(refs.ks, fr.start as int, h) && refs.vs[h] == 1 && fr.end <= refs.ks[h].end
    }

    /// The memory at index `i` has to be copied before it is written to.
    pub open spec fn must_copy(&self, i: int) -> bool {
        let p = self.pmas.values()[i];
        p.need_cow && !(p.private && self.sole_owner(i))
    }

    /// The memory at index `i` need no longer be copied before it is written to.
    pub open spec fn claims(&self, i: int) -> bool {
        let p = self.pmas.values()[i];
        p.need_cow && p.private && self.sole_owner(i)
    }

    /// What has to be done next.
    pub open spec fn next_step(&self, w: PmaWalk, step: PmaStep) -> bool {
        let vm = self.vmas.model();
        let v = self.area(w.pos);
        let i = self.memory(w.pos);
        let r = self.pmas.ranges()[i];
        let p = self.pmas.values()[i];
        if w.pos >= w.ar.end {
            step is Done
        } else if self.no_memory(w.pos) {
            let opt = self.area_in_gap(w.pos);
            match vm.vs[v].mappable {
                Some(mappable) => step == (PmaStep::Translate {
                    mappable,
                    required: part_of(vm, v, opt.common(w.ar)),
                    optional: part_of(vm, v, opt),
                    perms: asked_of(w.at, vm.vs[v].private),
                }),
                None => step == (PmaStep::Allocate { ar: opt.common(in_units(w.ar)) }),
            }
        } else if w.at.write && self.must_copy(i) {
            let part = copied_part(r, vm.vs[v], w.ar);
            if p.host.len() == 0 {
                step == (PmaStep::MapInternal {
                    file: p.file,
                    range: file_part(r, p),
                    perms: AccessType { execute: false, ..p.max_perms },
                })
            } else {
                match step {
                    PmaStep::Copy { ar, src } => {
                        &&& ar == part
                        &&& flat(src@) == (if part.start < part.end {
                            p.host.subrange(part.start - r.start, part.end - r.start)
                        } else {
                            Seq::empty()
                        })
                    },
                    _ => false,
                }
            }
        } else if !p.translate_perms.includes(w.at) {
            step == (PmaStep::Retranslate {
                mappable: vm.vs[v].mappable->Some_0,
                required: part_of(vm, v, r.common(w.ar)),
                optional: part_of(vm, v, r),
                perms: p.translate_perms.join(w.at),
            })
        } else {
            step is Next
        }
    }
}

/// Memory once it belongs to the application alone.
pub open spec fn claimed_memory(p: PmaView, v: Vma) -> PmaView {
    PmaView { need_cow: false, effective_perms: v.effective_perms, max_perms: v.max_perms, ..p }
}

/// The memory at an address once it belongs to the application alone.
pub open spec fn claimed(p: PmaPoint, v: Vma) -> PmaPoint {
    PmaPoint {
        need_cow: false,
        effective_perms: v.effective_perms,
        max_perms: v.max_perms,
        ..p
    }
}

pub proof fn lemma_area_at(mm: MemoryManager, w: PmaWalk)
    requires
        mm.wf(),
        mm.on_way(w),
        w.pos < w.ar.end,
    ensures
        held_at(mm.vmas.ranges(), w.pos as int, mm.area(w.pos)),
        vma_at(mm.vmas.model(), w.pos as int) == Some(
            mm.vmas.values()[mm.area(w.pos)].at(
                mm.vmas.ranges()[mm.area(w.pos)].start,
                w.pos as int,
            ),
        ),
{
    let m = mm.vmas.model();
    if w.pos < w.ar.start {
        let v = mm.area(w.ar.start);
        lemma_holder(m.ks, w.pos as int, v);
        lemma_point_held::<VmaSetOperations>(m, w.pos as int, v);
    } else {
        assert(w.ar.has(w.pos as int));
    }
    assert(vma_at(m, w.pos as int) is Some);
    if forall|i: int| !held_at(m.ks, w.pos as int, i) {
        lemma_point_free::<VmaSetOperations>(m, w.pos as int);
    }
    let i = choose|i: int| held_at(m.ks, w.pos as int, i);
    lemma_holder(m.ks, w.pos as int, i);
    lemma_point_held::<VmaSetOperations>(m, w.pos as int, i);
}

/// The gap at a free address holds it.
pub proof fn lemma_gap_at(mm: MemoryManager, pos: u64)
    requires
        mm.pmas.wf(),
        mm.no_memory(pos),
    ensures
        0 <= mm.gap(pos) <= mm.pmas.ranges().len(),
        gap_at(mm.pmas.ranges(), mm.gap(pos)).lo() <= pos,
        pos < u64::MAX ==> pos < gap_at(mm.pmas.ranges(), mm.gap(pos)).hi(),
{
    lemma_free_is_between(mm.pmas.ranges(), pos);
}

impl MemoryManager {
    fn mappable_range_of(&self, r: AddrRange, i: usize) -> (mr: MappableRange)
        requires
            self.vmas.wf(),
            i < self.vmas.ranges().len(),
        ensures
            mr == part_of(self.vmas.model(), i as int, r),
    {
        let off = self.vmas.value_of(i).off;
        let start = self.vmas.range_of(i).start;
        Range {
            start: off.wrapping_add(r.start.wrapping_sub(start)),
            end: off.wrapping_add(r.end.wrapping_sub(start)),
        }
    }

    /// The part of a file that is behind the memory at index `i`.
    pub(crate) fn file_range(&self, i: usize) -> (fr: FileRange)
        requires
            self.pmas.wf(),
            i < self.pmas.ranges().len(),
        ensures
            fr == file_part(self.pmas.ranges()[i as int], self.pmas.values()[i as int]),
            fr.length() == self.pmas.ranges()[i as int].length(),
    {
        proof {
            let m = self.pmas.model();
            assert(PmaSetOperations::fits(m.ks[i as int], m.vs[i as int]));
            assert(m.ks[i as int].start < m.ks[i as int].end);
        }
        let off = self.pmas.value_of(i).off;
        let r = self.pmas.range_of(i);
        Range { start: off, end: off + (r.end - r.start) }
    }

    /// Whether nobody else refers to the memory at index `i`.
    fn owns(&self, i: usize) -> (b: bool)
        requires
            self.wf(),
            i < self.pmas.ranges().len(),
        ensures
            b == self.sole_owner(i as int),
    {
        let fr = self.file_range(i);
        match self.private_refs.refs.index_holding(fr.start) {
            Some(h) => self.private_refs.refs.value_of(h).0 == 1 && fr.end
                <= self.private_refs.refs.range_of(h).end,
            None => false,
        }
    }

    /// How much of the memory at `r` is copied when `ar` is to be written to.
    pub(crate) fn copied_range(&self, r: AddrRange, v: &Vma, ar: AddrRange) -> (c: AddrRange)
        ensures
            c == copied_part(r, *v, ar),
    {
        if v.effective_perms.execute {
            r.intersect(&ar)
        } else if v.grows_down {
            let start = if ar.start >= PAGE_SIZE {
                ar.start - PAGE_SIZE
            } else {
                ar.start
            };
            let end = match ar.end.checked_add(PAGE_SIZE) {
                Some(end) => end,
                None => ar.end,
            };
            r.intersect(&Range { start, end })
        } else {
            r.intersect(&private_aligned(ar))
        }
    }

    /// Sees what has to be done next, and moves on where nothing has. Memory
    /// that nobody else refers to any more is claimed on the way.
    pub fn step(&mut self, w: &mut PmaWalk) -> (step: PmaStep)
        requires
            old(self).wf(),
            old(self).on_way(*old(w)),
        ensures
            final(self).wf(),
            *final(self) == (MemoryManager { pmas: final(self).pmas, ..*old(self) }),
            old(self).next_step(*old(w), step),
            final(self).pmas.ranges() == old(self).pmas.ranges(),
            ({
                let pos = old(w).pos;
                let i = old(self).memory(pos);
                let v = old(self).vmas.values()[old(self).area(pos)];
                if pos < old(w).ar.end && !old(self).no_memory(pos) && old(w).at.write && old(
                    self,
                ).claims(i) {
                    &&& final(self).pmas.model() == old(self).pmas.model().set_value(
                        i,
                        claimed_memory(old(self).pmas.values()[i], v),
                    )
                    &&& forall|k: int| #[trigger]
                        pma_at(final(self).pmas.model(), k) == (if old(
                            self,
                        ).pmas.ranges()[i].has(k) {
                            Some(claimed(pma_at(old(self).pmas.model(), k)->Some_0, v))
                        } else {
                            pma_at(old(self).pmas.model(), k)
                        })
                } else {
                    final(self).pmas == old(self).pmas
                }
            }),
            final(self).on_way(*final(w)),
            *final(w) == (if step is Next {
                PmaWalk { pos: old(self).pmas.ranges()[old(self).memory(old(w).pos)].end, ..*old(w) }
            } else {
                *old(w)
            }),
            step is Next ==> final(w).pos > old(w).pos,
            old(self).passed(*old(w)) ==> final(self).passed(*final(w)),
            places_kept(old(self).pmas.model(), final(self).pmas.model()),
    {
        let ghost mm0 = *self;
        let ghost w0 = *w;
        let pos = w.pos;
        if pos >= w.ar.end {
            return PmaStep::Done;
        }
        proof {
            lemma_area_at(mm0, w0);
        }
        let v = match self.vmas.index_holding(pos) {
            Some(v) => v,
            None => return PmaStep::Done,
        };
        let vma = *self.vmas.value_of(v);
        let i = match self.pmas.index_holding(pos) {
            Some(i) => i,
            None => return self.step_in_gap(w, v),
        };
        assert(!mm0.no_memory(pos)) by {
            assert(self.pmas.ranges()[i as int].has(pos as int));
        }
        let r = self.pmas.range_of(i);
        let ghost p = self.pmas.values()[i as int];
        if w.at.write && self.pmas.value_of(i).need_cow {
            if self.pmas.value_of(i).private && self.owns(i) {
                self.claim(i, &vma);
            } else {
                return self.step_to_copy(w, v, i);
            }
        }
        if !self.pmas.value_of(i).translate_perms.is_superset_of(w.at) {
            let req = r.intersect(&w.ar);
            proof {
                assert(backs(
                    vma_at(mm0.vmas.model(), pos as int),
                    pma_at(mm0.pmas.model(), pos as int),
                ));
                lemma_point_held::<PmaSetOperations>(mm0.pmas.model(), pos as int, i as int);
            }
            let mappable = match vma.mappable {
                Some(m) => m,
                None => 0,
            };
            let perms = self.pmas.value_of(i).translate_perms.union(w.at);
            return PmaStep::Retranslate {
                mappable,
                required: self.mappable_range_of(req, v),
                optional: self.mappable_range_of(r, v),
                perms,
            };
        }
        proof {
            assert(page_bound()(mm0.pmas.ranges()[i as int].end));
            if r.end < w.ar.start {
                let a = mm0.area(w.ar.start);
                assert(held_at(self.vmas.ranges(), r.end as int, a));
            }
            assert forall|k: int| pos <= k < r.end implies #[trigger] pma_at(
                self.pmas.model(),
                k,
            ) is Some by {
                assert(held_at(self.pmas.ranges(), k, i as int));
                lemma_point_held::<PmaSetOperations>(self.pmas.model(), k, i as int);
            }
        }
        w.pos = r.end;
        PmaStep::Next
    }

    fn step_in_gap(&self, w: &PmaWalk, v: usize) -> (step: PmaStep)
        requires
            self.wf(),
            self.on_way(*w),
            w.pos < w.ar.end,
            self.no_memory(w.pos),
            v == self.area(w.pos),
            held_at(self.vmas.ranges(), w.pos as int, v as int),
        ensures
            self.next_step(*w, step),
            !(step is Next),
    {
        let vma = *self.vmas.value_of(v);
        let vr = self.vmas.range_of(v);
        proof {
            lemma_gap_at(*self, w.pos);
        }
        let c = self.pmas.rank_before(Range { start: w.pos, end: w.pos });
        let gap = self.pmas.gap_from(c);
        let opt = vr.intersect(&gap.range());
        match vma.mappable {
            Some(mappable) => {
                let req = opt.intersect(&w.ar);
                let mut perms = w.at;
                if vma.private {
                    perms.read = true;
                    perms.write = false;
                }
                PmaStep::Translate {
                    mappable,
                    required: self.mappable_range_of(req, v),
                    optional: self.mappable_range_of(opt, v),
                    perms,
                }
            },
            None => PmaStep::Allocate { ar: opt.intersect(&private_aligned(w.ar)) },
        }
    }

    fn step_to_copy(&self, w: &PmaWalk, v: usize, i: usize) -> (step: PmaStep)
        requires
            self.wf(),
            self.on_way(*w),
            w.pos < w.ar.end,
            v == self.area(w.pos),
            held_at(self.vmas.ranges(), w.pos as int, v as int),
            i == self.memory(w.pos),
            held_at(self.pmas.ranges(), w.pos as int, i as int),
            w.at.write,
            self.must_copy(i as int),
        ensures
            self.next_step(*w, step),
            !(step is Next),
    {
        let r = self.pmas.range_of(i);
        assert(!self.no_memory(w.pos)) by {
            assert(self.pmas.ranges()[i as int].has(w.pos as int));
        }
        proof {
            let m = self.pmas.model();
            assert(PmaSetOperations::fits(m.ks[i as int], m.vs[i as int]));
        }
        let pma = self.pmas.value_of(i);
        if pma.internal_mappings.is_empty() {
            let mut perms = pma.max_perms;
            perms.execute = false;
            return PmaStep::MapInternal { file: pma.file, range: self.file_range(i), perms };
        }
        let part = self.copied_range(r, self.vmas.value_of(v), w.ar);
        proof {
            assert(page_bound()(self.pmas.ranges()[i as int].start));
            assert(page_bound()(self.pmas.ranges()[i as int].end));
            lemma_copied_part(r, self.vmas.values()[v as int], w.ar, w.pos);
        }
        if part.is_empty() {
            return PmaStep::Copy { ar: part, src: BlockSeq::new() };
        }
        let rest = pma.internal_mappings.cut_first(part.start - r.start);
        let src = rest.take_first64(part.end - part.start);
        proof {
            let host = flat(pma.internal_mappings@);
            assert(flat(src@) =~= host.subrange(part.start - r.start, part.end - r.start));
        }
        PmaStep::Copy { ar: part, src }
    }

    /// Makes the memory at index `i` the application's own.
    fn claim(&mut self, i: usize, vma: &Vma)
        requires
            old(self).wf(),
            i < old(self).pmas.ranges().len(),
        ensures
            final(self).wf(),
            *final(self) == (MemoryManager { pmas: final(self).pmas, ..*old(self) }),
            final(self).pmas.ranges() == old(self).pmas.ranges(),
            final(self).pmas.model() == old(self).pmas.model().set_value(
                i as int,
                claimed_memory(old(self).pmas.values()[i as int], *vma),
            ),
            places_kept(old(self).pmas.model(), final(self).pmas.model()),
            forall|k: int| #[trigger]
                pma_at(final(self).pmas.model(), k) == (if old(
                    self,
                ).pmas.ranges()[i as int].has(k) {
                    Some(claimed(pma_at(old(self).pmas.model(), k)->Some_0, *vma))
                } else {
                    pma_at(old(self).pmas.model(), k)
                }),
    {
        let ghost m0 = self.pmas.model();
        let ghost vm = self.vmas.model();
        let mut p = self.pmas.value_of(i).duplicate();
        p.need_cow = false;
        p.effective_perms = vma.effective_perms;
        p.max_perms = vma.max_perms;
        let ghost r = m0.ks[i as int];
        proof {
            assert(PmaSetOperations::fits(m0.ks[i as int], m0.vs[i as int]));
            lemma_total_set_value(m0, i as int, p@, any_pma());
        }
        self.pmas.set_value_of(i, p);
        proof {
            let m = self.pmas.model();
            assert(p@ =~= claimed_memory(m0.vs[i as int], *vma));
            assert(m =~= m0.set(i as int, r, p@));
            lemma_wf_set::<PmaSetOperations>(m0, i as int, r, p@);
            assert forall|k: int| #[trigger] place_at(m, k) is Some implies place_at(m, k)
                == place_at(m0, k) by {
                lemma_place_set(m0, i as int, r, p@, k);
                if r.has(k) {
                    assert(held_at(m0.ks, k, i as int));
                    lemma_place_held(m0, k, i as int);
                }
            }
            assert forall|k: int| #[trigger]
                pma_at(m, k) == (if r.has(k) {
                    Some(claimed(pma_at(m0, k)->Some_0, *vma))
                } else {
                    pma_at(m0, k)
                }) by {
                set_speaks::<PmaSetOperations>(m0, i as int, r, p@, k);
                if r.has(k) {
                    assert(held_at(m0.ks, k, i as int));
                    lemma_point_held::<PmaSetOperations>(m0, k, i as int);
                }
            }
            assert forall|k: int| backs(vma_at(vm, k), #[trigger] pma_at(m, k)) by {
                assert(backs(vma_at(vm, k), pma_at(m0, k)));
                if r.has(k) {
                    assert(held_at(m0.ks, k, i as int));
                    lemma_point_held::<PmaSetOperations>(m0, k, i as int);
                }
            }
        }
    }
}

/// A multiple of a unit of anonymous memory is one of a page.
proof fn lemma_unit_is_pages(x: int)
    requires
        x >= 0,
    ensures
        0 <= down_to(x, 0x200000) <= x,
        x < down_to(x, 0x200000) + 0x200000,
        down_to(x, 0x200000) % 0x1000 == 0,
{
    let q = x / 0x200000;
    assert(down_to(x, 0x200000) == q * 0x200000);
    assert((q * 0x200000) % 0x1000 == 0);
}

/// Whole units of anonymous memory are whole pages.
#[verifier::spinoff_prover]
proof fn lemma_in_units(ar: AddrRange)
    requires
        whole_pages(ar),
    ensures
        in_units(ar).start <= ar.start,
        ar.end <= in_units(ar).end,
        whole_pages(in_units(ar)),
{
    lemma_unit_is_pages(ar.start as int);
    lemma_unit_is_pages(ar.end + 0x200000 - 1);
}

/// What is copied lies within the memory, and holds the address where the way
/// has not gone back.
pub proof fn lemma_copied_part(r: AddrRange, v: Vma, ar: AddrRange, pos: u64)
    requires
        r.has(pos as int),
        pos < ar.end,
        ar.start < ar.end,
        whole_pages(r),
        whole_pages(ar),
    ensures
        ({
            let part = copied_part(r, v, ar);
            &&& part.start <= part.end
            &&& part.start < part.end ==> r.covers(part)
            &&& ar.start <= pos ==> part.has(pos as int)
            &&& part.start <= pos || part.start <= ar.start
            &&& whole_pages(part)
        }),
{
    lemma_in_units(ar);
    let x = if v.effective_perms.execute {
        ar
    } else if v.grows_down {
        with_neighbours(ar)
    } else {
        in_units(ar)
    };
    assert(whole_pages(x));
    assert(x.start <= ar.start && ar.end <= x.end);
    assert(copied_part(r, v, ar) == r.common(x));
}

} // verus!
