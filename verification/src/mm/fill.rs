use vstd::prelude::*;

use crate::access::AccessType;
use crate::addr::Addr;
use crate::block::{flat, BlockSeq};
use crate::errno::SysResult;
use crate::memmap::Translation;
use crate::mm::hosts::{lemma_inserted_places, places_kept};
use crate::mm::manager::{
    backed, backs, page_bound, pma_at, vma_at, whole_pages, MemoryManager,
};
use crate::mm::pma::{any_pma, lemma_pma_properties_last, Pma, PmaSet, PmaSetOperations, PmaView};
use crate::mm::vma::{Vma, VmaPoint, VmaSetOperations};
use crate::mm::walk::{
    in_units, landing, lemma_area_at, lemma_gap_at, part_of, private_aligned, PmaWalk,
    MEMORY_FILE,
};
use crate::range::{AddrRange, FileRange, MappableRange, Range};
use crate::segment::bounds::{bounded, lemma_bounded_inserted};
use crate::segment::keys::{free, gap_at, held_at, range_free, sorted};
use crate::segment::model::{holder, inserted, lemma_holder, lemma_wf_set, Segments};
use crate::segment::point::{insertion_speaks, lemma_point_free, lemma_point_held, set_speaks};
use crate::segment::search::{lemma_gap_span_count, lemma_in_gap_is_free};
use crate::segment::total::{
    lasting, lemma_total_bound, lemma_total_inserted, lemma_total_set_value, total,
};
use crate::segment::SetOperations;

verus! {

/// Whether the way goes on, or where it ends and why.
#[derive(Debug, Clone, Copy, PartialEq, Eq)]
pub enum WalkResult {
    More,
    End { end: u64, res: SysResult<()> },
}

/// The memory for part of an object that is mapped by the area `v`.
pub open spec fn memory_of(t: Translation, v: Vma) -> PmaView {
    let eff = v.effective_perms.meet(t.perm);
    let max = v.max_perms.meet(t.perm);
    PmaView {
        file: t.file,
        off: t.offset,
        translate_perms: t.perm,
        effective_perms: if v.private {
            AccessType { write: false, ..eff }
        } else {
            eff
        },
        max_perms: if v.private {
            AccessType { write: false, ..max }
        } else {
            max
        },
        host: Seq::empty(),
        private: false,
        need_cow: v.private,
    }
}

/// What an object may tell of its part `opt`, for an area at `vr` that starts at
/// offset `off` of it: parts of it that follow each other, in whole pages.
pub open spec fn tellable(
    ts: Seq<Translation>,
    opt: MappableRange,
    vr: AddrRange,
    off: u64,
) -> bool {
    &&& forall|i: int|
        0 <= i < ts.len() ==> {
            &&& opt.covers((#[trigger] ts[i]).source)
            &&& ts[i].source.start < ts[i].source.end
            &&& ts[i].offset + ts[i].source.length() <= u64::MAX
            &&& whole_pages(landing(vr, off, ts[i].source))
        }
    &&& forall|i: int, j: int|
        0 <= i < j < ts.len() ==> (#[trigger] ts[i]).source.end <= (#[trigger] ts[j]).source.start
}

/// Address `k` is among those that the first `n` parts are mapped to.
pub open spec fn told(ts: Seq<Translation>, vr: AddrRange, off: u64, n: int, k: int) -> bool {
    exists|i: int| 0 <= i < n && landing(vr, off, (#[trigger] ts[i]).source).has(k)
}

/// The memory that was told for the first `n` parts is there, and else all is
/// as in `m0`.
pub open spec fn filled(
    m0: Segments<PmaView>,
    m: Segments<PmaView>,
    ts: Seq<Translation>,
    v: Vma,
    vr: AddrRange,
    n: int,
) -> bool {
    &&& forall|i: int, k: int|
        #![trigger ts[i], pma_at(m, k)]
        0 <= i < n && landing(vr, v.off, ts[i].source).has(k) ==> pma_at(m, k) == Some(
            memory_of(ts[i], v).at(landing(vr, v.off, ts[i].source).start, k),
        )
    &&& forall|k: int|
        !told(ts, vr, v.off, n, k) ==> #[trigger] pma_at(m, k) == pma_at(m0, k)
}

/// The memory after that of the first `n` parts was put in, one part after the
/// other.
pub open spec fn taken_in(
    m: Segments<PmaView>,
    ts: Seq<Translation>,
    v: Vma,
    vr: AddrRange,
    n: int,
) -> Segments<PmaView>
    decreases n,
{
    if n <= 0 {
        m
    } else {
        inserted::<PmaSetOperations>(
            taken_in(m, ts, v, vr, n - 1),
            landing(vr, v.off, ts[n - 1].source),
            memory_of(ts[n - 1], v),
        )
    }
}

/// The total length of the first `n` parts.
pub open spec fn told_length(ts: Seq<Translation>, n: int) -> int
    decreases n,
{
    if n <= 0 {
        0
    } else {
        told_length(ts, n - 1) + ts[n - 1].source.length()
    }
}

/// Addresses without memory are free.
proof fn lemma_free_of_memory(m: Segments<PmaView>, r: AddrRange)
    requires
        sorted(m.ks),
        r.start < r.end,
        forall|k: int| r.has(k) ==> #[trigger] pma_at(m, k) is None,
    ensures
        range_free(m.ks, r),
{
    assert forall|i: int| 0 <= i < m.ks.len() implies !(#[trigger] m.ks[i]).meets(r) by {
        if m.ks[i].meets(r) {
            assert(m.ks[i].start < m.ks[i].end);
            let k = if m.ks[i].start >= r.start {
                m.ks[i].start as int
            } else {
                r.start as int
            };
            assert(held_at(m.ks, k, i));
            lemma_point_held::<PmaSetOperations>(m, k, i);
            assert(pma_at(m, k) is None);
        }
    }
}

proof fn lemma_filled_next(
    m0: Segments<PmaView>,
    m: Segments<PmaView>,
    m2: Segments<PmaView>,
    ts: Seq<Translation>,
    opt: MappableRange,
    v: Vma,
    vr: AddrRange,
    n: int,
)
    requires
        tellable(ts, opt, vr, v.off),
        filled(m0, m, ts, v, vr, n),
        0 <= n < ts.len(),
        v.off <= vr.start + opt.start,
        vr.start + (opt.end - v.off) <= u64::MAX,
        ({
            let r = landing(vr, v.off, ts[n].source);
            forall|k: int| #[trigger]
                pma_at(m2, k) == (if r.has(k) {
                    Some(memory_of(ts[n], v).at(r.start, k))
                } else {
                    pma_at(m, k)
                })
        }),
    ensures
        filled(m0, m2, ts, v, vr, n + 1),
{
    assert forall|i: int, k: int|
        #![trigger ts[i], pma_at(m2, k)]
        0 <= i < n + 1 && landing(vr, v.off, ts[i].source).has(k) implies pma_at(m2, k) == Some(
        memory_of(ts[i], v).at(landing(vr, v.off, ts[i].source).start, k),
    ) by {
        if i < n {
            assert(opt.covers(ts[i].source) && opt.covers(ts[n].source));
            assert(ts[i].source.end <= ts[n].source.start);
            assert(pma_at(m, k) == Some(
                memory_of(ts[i], v).at(landing(vr, v.off, ts[i].source).start, k),
            ));
        }
    }
    assert forall|k: int| !told(ts, vr, v.off, n + 1, k) implies #[trigger] pma_at(m2, k)
        == pma_at(m0, k) by {
        assert(!landing(vr, v.off, ts[n].source).has(k));
        assert(!told(ts, vr, v.off, n, k)) by {
            if told(ts, vr, v.off, n, k) {
                let i = choose|i: int|
                    0 <= i < n && landing(vr, v.off, (#[trigger] ts[i]).source).has(k);
                assert(landing(vr, v.off, ts[i].source).has(k));
            }
        }
        assert(pma_at(m, k) == pma_at(m0, k));
    }
}

/// The addresses at which an area at `vr`, which starts at offset `off` of the
/// object, has part `mr` of it.
pub(crate) fn landing_of(vr: AddrRange, off: u64, mr: MappableRange) -> (r: AddrRange)
    requires
        off <= vr.start + mr.start,
        mr.start <= mr.end,
        vr.start + (mr.end - off) <= u64::MAX,
    ensures
        r == landing(vr, off, mr),
        r.start == vr.start + mr.start - off,
        r.end == vr.start + mr.end - off,
{
    let start = vr.start as u128 + mr.start as u128 - off as u128;
    let end = vr.start as u128 + mr.end as u128 - off as u128;
    Range { start: start as u64, end: end as u64 }
}

/// Puts in the memory that an object told of.
pub(crate) fn put_told(
    pmas: &mut PmaSet,
    ts: &Vec<Translation>,
    opt: Ghost<MappableRange>,
    v: &Vma,
    vr: AddrRange,
) -> (n: u64)
    requires
        old(pmas).wf(),
        bounded(old(pmas).ranges(), page_bound()),
        tellable(ts@, opt@, vr, v.off),
        v.off <= vr.start + opt@.start,
        vr.start + (opt@.end - v.off) <= u64::MAX,
        forall|i: int, k: int|
            #![trigger ts@[i], pma_at(old(pmas).model(), k)]
            0 <= i < ts@.len() && landing(vr, v.off, ts@[i].source).has(k) ==> pma_at(
                old(pmas).model(),
                k,
            ) is None,
    ensures
        final(pmas).wf(),
        bounded(final(pmas).ranges(), page_bound()),
        filled(old(pmas).model(), final(pmas).model(), ts@, *v, vr, ts@.len() as int),
        final(pmas).model() == taken_in(old(pmas).model(), ts@, *v, vr, ts@.len() as int),
        places_kept(old(pmas).model(), final(pmas).model()),
        n == told_length(ts@, ts@.len() as int),
        total(final(pmas).model(), any_pma()) == total(old(pmas).model(), any_pma()) + n,
{
    let ghost m0 = pmas.model();
    let mut n: u64 = 0;
    let mut i: usize = 0;
    proof {
        lemma_pma_properties_last();
        lemma_total_bound(m0, any_pma());
        assert(filled(m0, m0, ts@, *v, vr, 0));
    }
    while i < ts.len()
        invariant
            i <= ts@.len(),
            pmas.wf(),
            bounded(pmas.ranges(), page_bound()),
            tellable(ts@, opt@, vr, v.off),
            v.off <= vr.start + opt@.start,
            vr.start + (opt@.end - v.off) <= u64::MAX,
            forall|i: int, k: int|
                #![trigger ts@[i], pma_at(m0, k)]
                0 <= i < ts@.len() && landing(vr, v.off, ts@[i].source).has(k) ==> pma_at(m0, k)
                    is None,
            filled(m0, pmas.model(), ts@, *v, vr, i as int),
            pmas.model() == taken_in(m0, ts@, *v, vr, i as int),
            places_kept(m0, pmas.model()),
            n == told_length(ts@, i as int),
            total(pmas.model(), any_pma()) == total(m0, any_pma()) + n,
            0 <= total(m0, any_pma()),
            lasting::<PmaSetOperations>(any_pma()),
        decreases ts@.len() - i,
    {
        let ghost m = pmas.model();
        let t = ts[i];
        assert(opt@.covers(ts@[i as int].source));
        let r = landing_of(vr, v.off, t.source);
        let mut p = Pma {
            file: t.file,
            off: t.offset,
            translate_perms: t.perm,
            effective_perms: v.effective_perms.intersect(t.perm),
            max_perms: v.max_perms.intersect(t.perm),
            internal_mappings: BlockSeq::new(),
            private: false,
            need_cow: false,
        };
        if v.private {
            p.effective_perms.write = false;
            p.max_perms.write = false;
            p.need_cow = true;
        }
        proof {
            assert(r == landing(vr, v.off, ts@[i as int].source));
            assert(p@ =~= memory_of(t, *v));
            lemma_next_is_free(m0, m, ts@, opt@, *v, vr, i as int);
            lemma_inserted_places(m, r, p@);
            lemma_total_inserted::<PmaSetOperations>(m, r, p@, any_pma());
            lemma_bounded_inserted::<PmaSetOperations>(m, r, p@, page_bound());
        }
        let _ = pmas.insert(r, p);
        proof {
            assert forall|k: int| #[trigger]
                pma_at(pmas.model(), k) == (if r.has(k) {
                    Some(memory_of(t, *v).at(r.start, k))
                } else {
                    pma_at(m, k)
                }) by {
                insertion_speaks::<PmaSetOperations>(m, r, p@, k);
            }
            lemma_filled_next(m0, m, pmas.model(), ts@, opt@, *v, vr, i as int);
            lemma_total_bound(pmas.model(), any_pma());
        }
        n = n + (t.source.end - t.source.start);
        i = i + 1;
    }
    n
}

proof fn lemma_next_is_free(
    m0: Segments<PmaView>,
    m: Segments<PmaView>,
    ts: Seq<Translation>,
    opt: MappableRange,
    v: Vma,
    vr: AddrRange,
    n: int,
)
    requires
        sorted(m.ks),
        tellable(ts, opt, vr, v.off),
        filled(m0, m, ts, v, vr, n),
        0 <= n < ts.len(),
        v.off <= vr.start + opt.start,
        vr.start + (opt.end - v.off) <= u64::MAX,
        forall|k: int|
            landing(vr, v.off, ts[n].source).has(k) ==> #[trigger] pma_at(m0, k) is None,
    ensures
        range_free(m.ks, landing(vr, v.off, ts[n].source)),
{
    let r = landing(vr, v.off, ts[n].source);
    assert(opt.covers(ts[n].source));
    assert forall|k: int| r.has(k) implies #[trigger] pma_at(m, k) is None by {
        assert(!told(ts, vr, v.off, n, k)) by {
            if told(ts, vr, v.off, n, k) {
                let i = choose|i: int|
                    0 <= i < n && landing(vr, v.off, (#[trigger] ts[i]).source).has(k);
                assert(opt.covers(ts[i].source));
                assert(ts[i].source.end <= ts[n].source.start);
            }
        }
        assert(pma_at(m, k) == pma_at(m0, k));
    }
    lemma_free_of_memory(m, r);
}

/// Newly allocated memory for the area `v`.
pub open spec fn own_memory(fr: FileRange, v: Vma) -> PmaView {
    PmaView {
        file: MEMORY_FILE,
        off: fr.start,
        translate_perms: AccessType::all(),
        effective_perms: v.effective_perms,
        max_perms: v.max_perms,
        host: Seq::empty(),
        private: true,
        need_cow: false,
    }
}

/// The end of the memory before index `i`.
pub open spec fn end_before(ks: Seq<Range>, i: int) -> u64 {
    if i > 0 {
        ks[i - 1].end
    } else {
        0
    }
}

impl MemoryManager {
    /// What most of the way leaves alone.
    pub open spec fn same_but_memory(&self, other: &MemoryManager) -> bool {
        *self == (MemoryManager {
            pmas: self.pmas,
            cur_rss: self.cur_rss,
            max_rss: self.max_rss,
            ..*other
        })
    }

    /// The end of the memory at address `k`.
    pub open spec fn memory_end(&self, k: u64) -> u64 {
        self.pmas.ranges()[self.memory(k)].end
    }

    /// Counts memory that was added.
    fn add_rss(&mut self, n: u64)
        requires
            old(self).cur_rss + n <= u64::MAX,
            old(self).cur_rss <= old(self).max_rss,
        ensures
            *final(self) == (MemoryManager {
                cur_rss: (old(self).cur_rss + n) as u64,
                max_rss: if old(self).cur_rss + n > old(self).max_rss {
                    (old(self).cur_rss + n) as u64
                } else {
                    old(self).max_rss
                },
                ..*old(self)
            }),
    {
        self.cur_rss = self.cur_rss + n;
        if self.cur_rss > self.max_rss {
            self.max_rss = self.cur_rss;
        }
    }

    /// The end of the memory at address `k`.
    pub(crate) fn end_of_memory(&self, k: u64) -> (e: u64)
        requires
            self.wf(),
            pma_at(self.pmas.model(), k as int) is Some,
        ensures
            e == self.memory_end(k),
            e > k,
            Addr(e).page_aligned(),
            held_at(self.pmas.ranges(), k as int, self.memory(k)),
    {
        let ghost m = self.pmas.model();
        proof {
            lemma_memory_at(m, k);
            assert(page_bound()(m.ks[self.memory(k)].end));
        }
        match self.pmas.index_holding(k) {
            Some(i) => self.pmas.range_of(i).end,
            None => 0,
        }
    }

    /// Takes in what the mapped object told of a part of it that there was no
    /// memory for.
    pub fn translated(&mut self, w: &mut PmaWalk, ts: &Vec<Translation>, res: SysResult<()>) -> (r:
        WalkResult)
        requires
            old(self).wf(),
            old(self).on_way(*old(w)),
            old(w).pos < old(w).ar.end,
            old(self).no_memory(old(w).pos),
            ({
                let vm = old(self).vmas.model();
                let v = old(self).area(old(w).pos);
                &&& vm.vs[v].mappable is Some
                &&& tellable(
                    ts@,
                    part_of(vm, v, old(self).area_in_gap(old(w).pos)),
                    vm.ks[v],
                    vm.vs[v].off,
                )
            }),
        ensures
            final(self).wf(),
            final(self).same_but_memory(old(self)),
            final(self).on_way(*final(w)),
            places_kept(old(self).pmas.model(), final(self).pmas.model()),
            ({
                let pos = old(w).pos;
                let v = old(self).area(pos);
                let vr = old(self).vmas.ranges()[v];
                let vma = old(self).vmas.values()[v];
                let first = landing(vr, vma.off, ts@[0].source);
                let last = landing(vr, vma.off, ts@.last().source);
                if ts@.len() == 0 {
                    &&& *final(self) == *old(self)
                    &&& *final(w) == *old(w)
                    &&& r == (WalkResult::End {
                        end: gap_at(old(self).pmas.ranges(), old(self).gap(pos)).lo(),
                        res,
                    })
                } else {
                    &&& final(self).pmas.model() == taken_in(
                        old(self).pmas.model(),
                        ts@,
                        vma,
                        vr,
                        ts@.len() as int,
                    )
                    &&& filled(
                        old(self).pmas.model(),
                        final(self).pmas.model(),
                        ts@,
                        vma,
                        vr,
                        ts@.len() as int,
                    )
                    &&& if res is Err && last.end < old(w).ar.end {
                        &&& *final(w) == *old(w)
                        &&& r == (WalkResult::End {
                            end: final(self).memory_end((last.end - 1) as u64),
                            res,
                        })
                    } else {
                        &&& r == WalkResult::More
                        &&& *final(w) == (PmaWalk { pos: first.start, ..*old(w) })
                    }
                }
            }),
            ({
                let v = old(self).area(old(w).pos);
                let vr = old(self).vmas.ranges()[v];
                let first = landing(vr, old(self).vmas.values()[v].off, ts@[0].source);
                old(self).passed(*old(w)) && (ts@.len() > 0 ==> first.start <= old(w).pos)
                    ==> final(self).passed(*final(w))
            }),
    {
        let ghost mm0 = *self;
        let ghost vm = self.vmas.model();
        let pos = w.pos;
        proof {
            lemma_area_at(mm0, *w);
            lemma_gap_at(mm0, pos);
        }
        if ts.len() == 0 {
            let c = self.pmas.rank_before(Range { start: pos, end: pos });
            let gap = self.pmas.gap_from(c);
            return WalkResult::End { end: gap.start(), res };
        }
        let v = match self.vmas.index_holding(pos) {
            Some(v) => v,
            None => return WalkResult::More,
        };
        let vr = self.vmas.range_of(v);
        let vma = *self.vmas.value_of(v);
        let ghost opt_ar = mm0.area_in_gap(pos);
        let ghost opt = part_of(vm, v as int, opt_ar);
        proof {
            assert(VmaSetOperations::fits(vm.ks[v as int], vm.vs[v as int]));
            lemma_gap_lands_free(mm0, pos, ts@, opt_ar);
        }
        let n = put_told(&mut self.pmas, ts, Ghost(opt), &vma, vr);
        proof {
            lemma_total_bound(self.pmas.model(), any_pma());
            assert forall|k: int| told(ts@, vr, vma.off, ts@.len() as int, k) implies maps_object(
                #[trigger] vma_at(vm, k),
            ) by {
                let i = choose|i: int|
                    0 <= i < ts@.len() && landing(vr, vma.off, (#[trigger] ts@[i]).source).has(k);
                assert(opt.covers(ts@[i].source));
                assert(held_at(vm.ks, k, v as int));
                lemma_point_held::<VmaSetOperations>(vm, k, v as int);
            }
            lemma_filled_backs(mm0, self.pmas.model(), ts@, v as int);
            lemma_filled_keeps(mm0.pmas.model(), self.pmas.model(), ts@, vma, vr, ts@.len() as int);
        }
        self.add_rss(n);
        let last = ts[ts.len() - 1];
        assert(opt.covers(ts@[ts@.len() - 1].source));
        let last_end = landing_of(vr, vma.off, last.source).end;
        proof {
            let i = ts@.len() - 1;
            assert(landing(vr, vma.off, ts@[i].source).has(last_end - 1));
            assert(pma_at(self.pmas.model(), last_end - 1) is Some);
        }
        if res.is_err() && last_end < w.ar.end {
            let end = self.end_of_memory(last_end - 1);
            return WalkResult::End { end, res };
        }
        assert(opt.covers(ts@[0].source));
        let first = landing_of(vr, vma.off, ts[0].source);
        proof {
            assert(whole_pages(landing(vr, vma.off, ts@[0].source)));
            if first.start < w.ar.start {
                assert(held_at(vm.ks, first.start as int, v as int));
                assert(held_at(vm.ks, w.ar.start as int, v as int));
                lemma_holder(vm.ks, w.ar.start as int, v as int);
            }
        }
        w.pos = first.start;
        WalkResult::More
    }

    /// Takes in memory that was allocated for the gap at the present place.
    pub fn allocated(&mut self, w: &mut PmaWalk, fr: SysResult<FileRange>) -> (r: WalkResult)
        requires
            old(self).wf(),
            old(self).on_way(*old(w)),
            old(w).pos < old(w).ar.end,
            old(self).no_memory(old(w).pos),
            old(self).vmas.values()[old(self).area(old(w).pos)].mappable is None,
            match fr {
                Ok(fr) => fr.start <= fr.end && fr.length() == old(self).area_in_gap(
                    old(w).pos,
                ).common(in_units(old(w).ar)).length(),
                Err(_) => true,
            },
        ensures
            final(self).wf(),
            final(self).same_but_memory(old(self)),
            final(self).on_way(*final(w)),
            places_kept(old(self).pmas.model(), final(self).pmas.model()),
            ({
                let pos = old(w).pos;
                let vma = old(self).vmas.values()[old(self).area(pos)];
                let ar = old(self).area_in_gap(pos).common(in_units(old(w).ar));
                match fr {
                    Err(e) => {
                        &&& *final(self) == *old(self)
                        &&& *final(w) == *old(w)
                        &&& r == (WalkResult::End {
                            end: gap_at(old(self).pmas.ranges(), old(self).gap(pos)).lo(),
                            res: Err(e),
                        })
                    },
                    Ok(fr) => {
                        &&& r == WalkResult::More
                        &&& ar.has(pos as int)
                        &&& final(self).pmas.model() == inserted::<PmaSetOperations>(
                            old(self).pmas.model(),
                            ar,
                            own_memory(fr, vma),
                        )
                        &&& forall|k: int| #[trigger]
                            pma_at(final(self).pmas.model(), k) == (if ar.has(k) {
                                Some(own_memory(fr, vma).at(ar.start, k))
                            } else {
                                pma_at(old(self).pmas.model(), k)
                            })
                        &&& *final(w) == (PmaWalk { pos: final(self).memory_end(pos), ..*old(w) })
                        &&& final(w).pos > pos
                    },
                }
            }),
            old(self).passed(*old(w)) ==> final(self).passed(*final(w)),
    {
        let ghost mm0 = *self;
        let ghost vm = self.vmas.model();
        let ghost pm = self.pmas.model();
        let pos = w.pos;
        proof {
            lemma_area_at(mm0, *w);
            lemma_gap_at(mm0, pos);
        }
        let c = self.pmas.rank_before(Range { start: pos, end: pos });
        let gap = self.pmas.gap_from(c);
        let fr = match fr {
            Ok(fr) => fr,
            Err(e) => return WalkResult::End { end: gap.start(), res: Err(e) },
        };
        let v = match self.vmas.index_holding(pos) {
            Some(v) => v,
            None => return WalkResult::More,
        };
        let vma = *self.vmas.value_of(v);
        let ar = self.vmas.range_of(v).intersect(&gap.range()).intersect(&private_aligned(w.ar));
        let p = Pma {
            file: MEMORY_FILE,
            off: fr.start,
            translate_perms: AccessType::any_access(),
            effective_perms: vma.effective_perms,
            max_perms: vma.max_perms,
            internal_mappings: BlockSeq::new(),
            private: true,
            need_cow: false,
        };
        proof {
            assert(p@ =~= own_memory(fr, vma));
            lemma_pma_properties_last();
            lemma_units_in_gap(mm0, *w, ar);
            lemma_inserted_places(pm, ar, p@);
            lemma_total_inserted::<PmaSetOperations>(pm, ar, p@, any_pma());
            lemma_bounded_inserted::<PmaSetOperations>(pm, ar, p@, page_bound());
        }
        let _ = self.pmas.insert(ar, p);
        proof {
            let m = self.pmas.model();
            lemma_total_bound(m, any_pma());
            assert forall|k: int| #[trigger]
                pma_at(m, k) == (if ar.has(k) {
                    Some(own_memory(fr, vma).at(ar.start, k))
                } else {
                    pma_at(pm, k)
                }) by {
                insertion_speaks::<PmaSetOperations>(pm, ar, p@, k);
            }
            assert forall|k: int| backs(vma_at(vm, k), #[trigger] pma_at(m, k)) by {
                assert(backs(vma_at(vm, k), pma_at(pm, k)));
                if ar.has(k) {
                    assert(held_at(vm.ks, k, v as int));
                    lemma_point_held::<VmaSetOperations>(vm, k, v as int);
                }
            }
            assert(pma_at(m, pos as int) is Some);
        }
        self.add_rss(ar.end - ar.start);
        proof {
            lemma_up_to_memory_end(*self, pos);
        }
        w.pos = self.end_of_memory(pos);
        WalkResult::More
    }

    /// Notes where the memory at the present place is mapped, so that it can be
    /// copied.
    pub fn mapped_for_copy(&mut self, w: &mut PmaWalk, ims: SysResult<BlockSeq>) -> (r: WalkResult)
        requires
            old(self).wf(),
            old(self).on_way(*old(w)),
            !old(self).no_memory(old(w).pos),
            match ims {
                Ok(ims) => flat(ims@).len() == old(self).pmas.ranges()[old(self).memory(
                    old(w).pos,
                )].length(),
                Err(_) => true,
            },
        ensures
            final(self).wf(),
            *final(self) == (MemoryManager { pmas: final(self).pmas, ..*old(self) }),
            *final(w) == *old(w),
            ({
                let i = old(self).memory(old(w).pos);
                match ims {
                    Err(e) => *final(self) == *old(self) && r == (WalkResult::End {
                        end: end_before(old(self).pmas.ranges(), i),
                        res: Err(e),
                    }),
                    Ok(ims) => r == WalkResult::More && mapped_internally(
                        old(self).pmas.model(),
                        final(self).pmas.model(),
                        i,
                        flat(ims@),
                    ),
                }
            }),
            old(self).passed(*old(w)) ==> final(self).passed(*final(w)),
    {
        let i = self.index_of_memory(w.pos);
        match ims {
            Err(e) => WalkResult::End { end: self.end_of_prev(i), res: Err(e) },
            Ok(ims) => {
                self.set_internal_mappings(i, ims);
                WalkResult::More
            },
        }
    }

    /// The index of the memory at address `k`.
    pub(crate) fn index_of_memory(&self, k: u64) -> (i: usize)
        requires
            self.wf(),
            !self.no_memory(k),
        ensures
            i == self.memory(k),
            i < self.pmas.ranges().len(),
            held_at(self.pmas.ranges(), k as int, i as int),
    {
        match self.pmas.index_holding(k) {
            Some(i) => i,
            None => 0,
        }
    }

    /// The end of the memory before index `i`.
    pub(crate) fn end_of_prev(&self, i: usize) -> (e: u64)
        requires
            i <= self.pmas.ranges().len(),
        ensures
            e == end_before(self.pmas.ranges(), i as int),
    {
        if i > 0 {
            self.pmas.range_of(i - 1).end
        } else {
            0
        }
    }

    /// Notes where the memory at index `i` is mapped.
    pub(crate) fn set_internal_mappings(&mut self, i: usize, ims: BlockSeq)
        requires
            old(self).wf(),
            i < old(self).pmas.ranges().len(),
            flat(ims@).len() == old(self).pmas.ranges()[i as int].length(),
        ensures
            final(self).wf(),
            *final(self) == (MemoryManager { pmas: final(self).pmas, ..*old(self) }),
            mapped_internally(
                old(self).pmas.model(),
                final(self).pmas.model(),
                i as int,
                flat(ims@),
            ),
    {
        let ghost m0 = self.pmas.model();
        let ghost vm = self.vmas.model();
        let mut p = self.pmas.value_of(i).duplicate();
        p.internal_mappings = ims;
        let ghost r = m0.ks[i as int];
        proof {
            assert(PmaSetOperations::fits(m0.ks[i as int], m0.vs[i as int]));
            lemma_total_set_value(m0, i as int, p@, any_pma());
            lemma_wf_set::<PmaSetOperations>(m0, i as int, r, p@);
            assert(p@ =~= (PmaView { host: flat(ims@), ..m0.vs[i as int] }));
        }
        self.pmas.set_value_of(i, p);
        proof {
            let m = self.pmas.model();
            assert(m =~= m0.set(i as int, r, p@));
            assert forall|k: int| #[trigger] pma_at(m, k) == pma_at(m0, k) by {
                set_speaks::<PmaSetOperations>(m0, i as int, r, p@, k);
                if r.has(k) {
                    assert(held_at(m0.ks, k, i as int));
                    lemma_point_held::<PmaSetOperations>(m0, k, i as int);
                }
            }
            assert forall|k: int| backs(vma_at(vm, k), #[trigger] pma_at(m, k)) by {
                assert(pma_at(m, k) == pma_at(m0, k));
                assert(backs(vma_at(vm, k), pma_at(m0, k)));
            }
        }
    }
}

/// It is known where the memory at index `i` is mapped, and nothing else has
/// changed.
pub open spec fn mapped_internally(
    m0: Segments<PmaView>,
    m: Segments<PmaView>,
    i: int,
    host: Seq<int>,
) -> bool {
    &&& m == m0.set_value(i, PmaView { host, ..m0.vs[i] })
    &&& forall|k: int| #[trigger] pma_at(m, k) == pma_at(m0, k)
}

/// The memory that is allocated for a gap lies in the gap and in the area, and
/// holds the present place.
pub proof fn lemma_units_in_gap(mm: MemoryManager, w: PmaWalk, ar: AddrRange)
    requires
        mm.wf(),
        mm.on_way(w),
        w.pos < w.ar.end,
        mm.no_memory(w.pos),
        0 <= mm.gap(w.pos) <= mm.pmas.ranges().len(),
        gap_at(mm.pmas.ranges(), mm.gap(w.pos)).span().has(w.pos as int),
        held_at(mm.vmas.ranges(), w.pos as int, mm.area(w.pos)),
        mm.vmas.values()[mm.area(w.pos)].mappable is None,
        ar == mm.area_in_gap(w.pos).common(in_units(w.ar)),
    ensures
        ar.has(w.pos as int),
        whole_pages(ar),
        range_free(mm.pmas.ranges(), ar),
        mm.vmas.ranges()[mm.area(w.pos)].covers(ar),
{
    let ks = mm.pmas.ranges();
    let j = mm.gap(w.pos);
    let vr = mm.vmas.ranges()[mm.area(w.pos)];
    if w.pos < w.ar.start {
        lemma_holder(mm.vmas.ranges(), w.pos as int, mm.area(w.ar.start));
    }
    assert(page_bound()(vr.start) && page_bound()(vr.end));
    if 0 < j {
        assert(page_bound()(ks[j - 1].end));
    }
    if j < ks.len() {
        assert(page_bound()(ks[j].start));
    } else {
        assert(gap_at(ks, j).hi() == u64::MAX);
    }
    lemma_in_gap_is_free(ks, j, ar);
}

pub proof fn lemma_memory_at(m: Segments<PmaView>, k: u64)
    requires
        sorted(m.ks),
        pma_at(m, k as int) is Some,
    ensures
        held_at(m.ks, k as int, holder(m.ks, k as int)),
        !free(m.ks, k as int),
{
    if forall|i: int| !held_at(m.ks, k as int, i) {
        lemma_point_free::<PmaSetOperations>(m, k as int);
    }
    let i = choose|i: int| held_at(m.ks, k as int, i);
    lemma_holder(m.ks, k as int, i);
    assert(m.ks[i].has(k as int));
}

/// There is memory from an address that has some up to the end of it.
pub proof fn lemma_up_to_memory_end(mm: MemoryManager, k: u64)
    requires
        mm.wf(),
        pma_at(mm.pmas.model(), k as int) is Some,
    ensures
        forall|j: int|
            k <= j < mm.memory_end(k) ==> #[trigger] pma_at(mm.pmas.model(), j) is Some,
{
    let m = mm.pmas.model();
    lemma_memory_at(m, k);
    let i = mm.memory(k);
    assert forall|j: int| k <= j < mm.memory_end(k) implies #[trigger] pma_at(m, j) is Some by {
        assert(held_at(m.ks, j, i));
        lemma_point_held::<PmaSetOperations>(m, j, i);
    }
}

/// No memory goes where an object told of its own.
pub proof fn lemma_filled_keeps(
    m0: Segments<PmaView>,
    m: Segments<PmaView>,
    ts: Seq<Translation>,
    v: Vma,
    vr: AddrRange,
    n: int,
)
    requires
        filled(m0, m, ts, v, vr, n),
    ensures
        forall|k: int| pma_at(m0, k) is Some ==> #[trigger] pma_at(m, k) is Some,
{
    assert forall|k: int| pma_at(m0, k) is Some implies #[trigger] pma_at(m, k) is Some by {
        if told(ts, vr, v.off, n, k) {
            let i = choose|i: int|
                0 <= i < n && landing(vr, v.off, (#[trigger] ts[i]).source).has(k);
            assert(landing(vr, v.off, ts[i].source).has(k));
        }
    }
}

/// What is told of the part in a gap lands where there is no memory.
proof fn lemma_gap_lands_free(
    mm: MemoryManager,
    pos: u64,
    ts: Seq<Translation>,
    opt_ar: AddrRange,
)
    requires
        mm.wf(),
        mm.no_memory(pos),
        0 <= mm.gap(pos) <= mm.pmas.ranges().len(),
        gap_at(mm.pmas.ranges(), mm.gap(pos)).span().has(pos as int),
        held_at(mm.vmas.ranges(), pos as int, mm.area(pos)),
        mm.vmas.values()[mm.area(pos)].mappable is Some,
        opt_ar == mm.area_in_gap(pos),
        ({
            let vm = mm.vmas.model();
            let v = mm.area(pos);
            &&& VmaSetOperations::fits(vm.ks[v], vm.vs[v])
            &&& tellable(ts, part_of(vm, v, opt_ar), vm.ks[v], vm.vs[v].off)
        }),
    ensures
        ({
            let vm = mm.vmas.model();
            let v = mm.area(pos);
            let opt = part_of(vm, v, opt_ar);
            &&& vm.vs[v].off <= opt.start
            &&& vm.vs[v].off <= vm.ks[v].start + opt.start
            &&& opt.start <= opt.end
            &&& vm.ks[v].start + (opt.end - vm.vs[v].off) <= vm.ks[v].end
            &&& forall|i: int, k: int|
                #![trigger ts[i], pma_at(mm.pmas.model(), k)]
                0 <= i < ts.len() && landing(vm.ks[v], vm.vs[v].off, ts[i].source).has(k)
                    ==> pma_at(mm.pmas.model(), k) is None
        }),
{
    let vm = mm.vmas.model();
    let v = mm.area(pos);
    let opt = part_of(vm, v, opt_ar);
    let pm = mm.pmas.model();
    lemma_gap_span_count(pm.ks, mm.gap(pos));
    assert(vm.ks[v].start < vm.ks[v].end);
    assert(vm.ks[v].covers(opt_ar) && opt_ar.well_formed());
    assert forall|i: int, k: int|
        #![trigger ts[i], pma_at(pm, k)]
        0 <= i < ts.len() && landing(vm.ks[v], vm.vs[v].off, ts[i].source).has(k) implies pma_at(
        pm,
        k,
    ) is None by {
        assert(opt.covers(ts[i].source));
        assert(opt_ar.has(k));
        lemma_in_gap_is_free(pm.ks, mm.gap(pos), opt_ar);
        assert forall|h: int| !#[trigger] held_at(pm.ks, k, h) by {
            if held_at(pm.ks, k, h) {
                assert(pm.ks[h].meets(opt_ar));
            }
        }
        lemma_point_free::<PmaSetOperations>(pm, k);
    }
}

/// An object is mapped there.
pub open spec fn maps_object(p: Option<VmaPoint>) -> bool {
    p is Some && p->Some_0.mappable is Some
}

/// The memory that an object told of is behind addresses that map an object.
pub proof fn lemma_filled_backs(
    mm: MemoryManager,
    m: Segments<PmaView>,
    ts: Seq<Translation>,
    v: int,
)
    requires
        mm.wf(),
        forall|k: int|
            told(ts, mm.vmas.ranges()[v], mm.vmas.values()[v].off, ts.len() as int, k)
                ==> maps_object(#[trigger] vma_at(mm.vmas.model(), k)),
        forall|k: int|
            #![trigger pma_at(m, k)]
            told(
                ts,
                mm.vmas.ranges()[v],
                mm.vmas.values()[v].off,
                ts.len() as int,
                k,
            ) || pma_at(m, k) is None || pma_at(m, k) == pma_at(mm.pmas.model(), k),
    ensures
        backed(mm.vmas.model(), m),
{
    let vm = mm.vmas.model();
    assert forall|k: int| backs(vma_at(vm, k), #[trigger] pma_at(m, k)) by {
        assert(backs(vma_at(vm, k), pma_at(mm.pmas.model(), k)));
    }
}

} // verus!
