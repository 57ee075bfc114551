use vstd::prelude::*;

use crate::access::AccessType;
use crate::addr::{Addr, PAGE_SIZE};
use crate::block::BlockSeq;
use crate::errno::SysResult;
use crate::memmap::Translation;
use crate::mm::fill::{
    end_before, filled, landing_of, lemma_filled_backs, lemma_filled_keeps,
    lemma_up_to_memory_end, maps_object, own_memory, put_told, taken_in, tellable, told, told_length, WalkResult,
};
use crate::mm::hosts::{
    lemma_isolated_places, lemma_joined_about_places, lemma_place_set, lemma_place_without,
    place_at, places_kept,
};
use crate::mm::manager::{backs, page_bound, pma_at, vma_at, whole_pages, word, MemoryManager};
use crate::mm::pma::{any_pma, lemma_pma_properties_last, Pma, PmaSet, PmaSetOperations, PmaView};
use crate::mm::vma::{Vma, VmaSetOperations};
use crate::mm::walk::{
    copied_part, in_units, landing, lemma_area_at, lemma_copied_part, lemma_gap_at, part_of,
    private_aligned, PmaWalk, MEMORY_FILE,
};
use crate::range::{AddrRange, FileRange, MappableRange, Range};
use crate::segment::bounds::{bounded, lemma_bounded_joined, lemma_bounded_without};
use crate::segment::keys::held_at;
use crate::segment::model::{
    cut_start_at, isolated, joined, joined_about, lemma_holder, lemma_wf_set, lemma_wf_without, Segments,
};
use crate::segment::point::{joining_keeps, lemma_point_held, set_speaks, without_is_silent};
use crate::segment::total::{lemma_total_joined, lemma_total_set_value, lemma_total_without, total};
use crate::segment::SetOperations;

verus! {

/// Joins the memory at index `i` to its neighbours where they merge.
fn join_about(pmas: &mut PmaSet, i: usize)
    requires
        old(pmas).wf(),
        bounded(old(pmas).ranges(), page_bound()),
        i < old(pmas).ranges().len(),
    ensures
        final(pmas).wf(),
        final(pmas).model() == joined_about::<PmaSetOperations>(old(pmas).model(), i as int),
        bounded(final(pmas).ranges(), page_bound()),
        forall|k: int| #[trigger] pma_at(final(pmas).model(), k) == pma_at(old(pmas).model(), k),
        total(final(pmas).model(), any_pma()) == total(old(pmas).model(), any_pma()),
{
    let ghost m0 = pmas.model();
    proof {
        lemma_pma_properties_last();
    }
    let mut j = i;
    if i > 0 {
        proof {
            lemma_bounded_joined::<PmaSetOperations>(m0, i - 1, page_bound());
            lemma_total_joined::<PmaSetOperations>(m0, i - 1, any_pma());
            assert forall|k: int| #[trigger]
                pma_at(joined::<PmaSetOperations>(m0, i - 1), k) == pma_at(m0, k) by {
                joining_keeps::<PmaSetOperations>(m0, i - 1, k);
            }
        }
        if pmas.join_at(i - 1) {
            j = i - 1;
        }
    }
    let ghost m1 = pmas.model();
    let n = pmas.count_segments();
    if j + 1 < n {
        proof {
            lemma_bounded_joined::<PmaSetOperations>(m1, j as int, page_bound());
            lemma_total_joined::<PmaSetOperations>(m1, j as int, any_pma());
            assert forall|k: int| #[trigger]
                pma_at(joined::<PmaSetOperations>(m1, j as int), k) == pma_at(m0, k) by {
                joining_keeps::<PmaSetOperations>(m1, j as int, k);
                assert(pma_at(m1, k) == pma_at(m0, k));
            }
        }
        let _ = pmas.join_at(j);
    }
}

/// Puts the application's own memory in place of the memory at index `i`, at
/// the addresses `c`.
fn put_own(pmas: &mut PmaSet, i: usize, c: AddrRange, fr: FileRange, v: &Vma)
    requires
        old(pmas).wf(),
        bounded(old(pmas).ranges(), page_bound()),
        i < old(pmas).ranges().len(),
        old(pmas).ranges()[i as int].covers(c),
        c.start < c.end,
        whole_pages(c),
        fr.start <= fr.end,
        fr.length() == c.length(),
    ensures
        final(pmas).wf(),
        final(pmas).model() == with_copy(old(pmas).model(), i as int, c, fr, *v),
        places_kept(old(pmas).model(), final(pmas).model()),
        bounded(final(pmas).ranges(), page_bound()),
        forall|k: int| #[trigger]
            pma_at(final(pmas).model(), k) == (if c.has(k) {
                Some(own_memory(fr, *v).at(c.start, k))
            } else {
                pma_at(old(pmas).model(), k)
            }),
        total(final(pmas).model(), any_pma()) == total(old(pmas).model(), any_pma()),
{
    let ghost m0 = pmas.model();
    proof {
        lemma_pma_properties_last();
    }
    let j = pmas.isolate_index(i, c);
    let ghost m1 = pmas.model();
    let p = Pma {
        file: MEMORY_FILE,
        off: fr.start,
        translate_perms: AccessType::any_access(),
        effective_perms: v.effective_perms,
        max_perms: v.max_perms,
        internal_mappings: BlockSeq::new(),
        private: true,
        need_cow: false,
    };
    proof {
        assert(bounded(m1.ks, page_bound()));
        assert(total(m1, any_pma()) == total(m0, any_pma()));
        assert(m1.ks[j as int] == c);
        assert(p@ =~= own_memory(fr, *v));
        lemma_total_set_value(m1, j as int, p@, any_pma());
        lemma_wf_set::<PmaSetOperations>(m1, j as int, c, p@);
    }
    pmas.set_value_of(j, p);
    let ghost m2 = pmas.model();
    proof {
        assert(m2 =~= m1.set(j as int, c, p@));
        assert forall|k: int| #[trigger]
            pma_at(m2, k) == (if c.has(k) {
                Some(own_memory(fr, *v).at(c.start, k))
            } else {
                pma_at(m0, k)
            }) by {
            set_speaks::<PmaSetOperations>(m1, j as int, c, p@, k);
            assert(pma_at(m1, k) == pma_at(m0, k));
        }
    }
    join_about(pmas, j);
    proof {
        lemma_joined_about_places(m2, j as int);
        assert forall|k: int| #[trigger] place_at(pmas.model(), k) is Some implies place_at(
            pmas.model(),
            k,
        ) == place_at(m0, k) by {
            lemma_isolated_places(m0, i as int, c, k);
            lemma_place_set(m1, j as int, c, p@, k);
        }
        assert forall|k: int| #[trigger]
            pma_at(pmas.model(), k) == (if c.has(k) {
                Some(own_memory(fr, *v).at(c.start, k))
            } else {
                pma_at(m0, k)
            }) by {
            assert(pma_at(pmas.model(), k) == pma_at(m2, k));
        }
    }
}

/// The memory with the application's own in place of that at index `i`, at the
/// addresses `c`.
pub open spec fn with_copy(
    m: Segments<PmaView>,
    i: int,
    c: AddrRange,
    fr: FileRange,
    v: Vma,
) -> Segments<PmaView> {
    let j = cut_start_at(m, i, c);
    joined_about::<PmaSetOperations>(
        isolated::<PmaSetOperations>(m, i, c).set(j, c, own_memory(fr, v)),
        j,
    )
}

/// The memory with what was told of in place of that at index `i`.
pub open spec fn with_told(
    m: Segments<PmaView>,
    i: int,
    ts: Seq<Translation>,
    v: Vma,
    vr: AddrRange,
) -> Segments<PmaView> {
    let r = Range {
        start: landing(vr, v.off, ts[0].source).start,
        end: landing(vr, v.off, ts.last().source).end,
    };
    let c = isolated::<PmaSetOperations>(m, i, r);
    taken_in(c.without(cut_start_at(m, i, r)), ts, v, vr, ts.len() as int)
}

impl MemoryManager {
    /// Takes in the copy that was made of the memory at the present place, as
    /// far as it could be made.
    #[verifier::spinoff_prover]
    #[verifier::rlimit(60)]
    pub fn copied(&mut self, w: &mut PmaWalk, fr: SysResult<FileRange>) -> (res: WalkResult)
        requires
            old(self).wf(),
            old(self).on_way(*old(w)),
            old(w).pos < old(w).ar.end,
            !old(self).no_memory(old(w).pos),
            match fr {
                Ok(fr) => {
                    &&& fr.start <= fr.end
                    &&& fr.length() % PAGE_SIZE as int == 0
                    &&& fr.length() <= copied_part(
                        old(self).pmas.ranges()[old(self).memory(old(w).pos)],
                        old(self).vmas.values()[old(self).area(old(w).pos)],
                        old(w).ar,
                    ).length()
                },
                Err(_) => true,
            },
        ensures
            final(self).wf(),
            *final(self) == (MemoryManager {
                pmas: final(self).pmas,
                outbox: final(self).outbox,
                ..*old(self)
            }),
            final(self).on_way(*final(w)),
            places_kept(old(self).pmas.model(), final(self).pmas.model()),
            ({
                let pos = old(w).pos;
                let i = old(self).memory(pos);
                let vma = old(self).vmas.values()[old(self).area(pos)];
                let part = copied_part(old(self).pmas.ranges()[i], vma, old(w).ar);
                let nothing = *final(self) == *old(self) && *final(w) == *old(w);
                match fr {
                    Err(e) => nothing && res == (WalkResult::End {
                        end: end_before(old(self).pmas.ranges(), i),
                        res: Err(e),
                    }),
                    Ok(fr) => if fr.start == fr.end {
                        nothing && res == (WalkResult::End {
                            end: end_before(old(self).pmas.ranges(), i),
                            res: Ok(()),
                        })
                    } else {
                        let c = Range {
                            start: part.start,
                            end: (part.start + fr.length()) as u64,
                        };
                        let e = final(self).memory_end(c.start);
                        &&& final(self).pmas.model() == with_copy(
                            old(self).pmas.model(),
                            i,
                            c,
                            fr,
                            vma,
                        )
                        &&& forall|k: int| #[trigger]
                            pma_at(final(self).pmas.model(), k) == (if c.has(k) {
                                Some(own_memory(fr, vma).at(c.start, k))
                            } else {
                                pma_at(old(self).pmas.model(), k)
                            })
                        &&& final(self).outbox@ == (if old(w).did_unmap_as {
                            old(self).outbox@
                        } else {
                            old(self).outbox@.unmapping(
                                in_units(old(w).ar).common(old(self).layout.application()),
                            )
                        })
                        &&& if e < old(w).ar.end {
                            &&& res == (WalkResult::End { end: e, res: Ok(()) })
                            &&& *final(w) == (PmaWalk { did_unmap_as: true, ..*old(w) })
                        } else {
                            &&& res == WalkResult::More
                            &&& *final(w) == (PmaWalk { did_unmap_as: true, pos: e, ..*old(w) })
                        }
                    },
                }
            }),
            old(self).passed(*old(w)) ==> final(self).passed(*final(w)),
    {
        let ghost mm0 = *self;
        let ghost pm = self.pmas.model();
        let pos = w.pos;
        proof {
            lemma_area_at(mm0, *w);
        }
        let i = self.index_of_memory(pos);
        let fr = match fr {
            Ok(fr) => fr,
            Err(e) => return WalkResult::End { end: self.end_of_prev(i), res: Err(e) },
        };
        if fr.is_empty() {
            return WalkResult::End { end: self.end_of_prev(i), res: Ok(()) };
        }
        let v = match self.vmas.index_holding(pos) {
            Some(v) => v,
            None => return WalkResult::More,
        };
        let vma = *self.vmas.value_of(v);
        let part = self.copied_range(self.pmas.range_of(i), &vma, w.ar);
        proof {
            assert(page_bound()(pm.ks[i as int].start) && page_bound()(pm.ks[i as int].end));
            lemma_copied_part(pm.ks[i as int], vma, w.ar, pos);
        }
        if !w.did_unmap_as {
            self.unmap_address_space(private_aligned(w.ar));
            w.did_unmap_as = true;
        }
        let c = Range { start: part.start, end: part.start + (fr.end - fr.start) };
        put_own(&mut self.pmas, i, c, fr, &vma);
        proof {
            let m = self.pmas.model();
            assert forall|k: int| backs(
                vma_at(self.vmas.model(), k),
                #[trigger] pma_at(m, k),
            ) by {
                assert(backs(vma_at(mm0.vmas.model(), k), pma_at(pm, k)));
                if c.has(k) {
                    assert(held_at(pm.ks, k, i as int));
                    lemma_point_held::<PmaSetOperations>(pm, k, i as int);
                }
            }
            assert(pma_at(m, c.start as int) is Some);
        }
        let e = self.end_of_memory(c.start);
        proof {
            lemma_up_to_memory_end(*self, c.start);
        }
        if e < w.ar.end {
            return WalkResult::End { end: e, res: Ok(()) };
        }
        w.pos = e;
        WalkResult::More
    }

    /// Takes in what the mapped object told of a part of it that the memory at
    /// the present place is not good enough for.
    pub fn retranslated(&mut self, w: &mut PmaWalk, ts: &Vec<Translation>, res: SysResult<()>) -> (
    r: WalkResult)
        requires
            old(self).wf(),
            old(self).on_way(*old(w)),
            old(w).pos < old(w).ar.end,
            !old(self).no_memory(old(w).pos),
            !old(self).pmas.values()[old(self).memory(old(w).pos)].translate_perms.includes(
                old(w).at,
            ),
            ({
                let vm = old(self).vmas.model();
                let v = old(self).area(old(w).pos);
                &&& tellable(
                    ts@,
                    part_of(vm, v, old(self).pmas.ranges()[old(self).memory(old(w).pos)]),
                    vm.ks[v],
                    vm.vs[v].off,
                )
                &&& unbroken(ts@)
            }),
        ensures
            final(self).wf(),
            *final(self) == (MemoryManager { pmas: final(self).pmas, ..*old(self) }),
            final(self).on_way(*final(w)),
            places_kept(old(self).pmas.model(), final(self).pmas.model()),
            ({
                let pos = old(w).pos;
                let v = old(self).area(pos);
                let vr = old(self).vmas.ranges()[v];
                let vma = old(self).vmas.values()[v];
                let last = landing(vr, vma.off, ts@.last().source);
                let e = final(self).memory_end((last.end - 1) as u64);
                if ts@.len() == 0 {
                    &&& *final(self) == *old(self)
                    &&& *final(w) == *old(w)
                    &&& r == (WalkResult::End {
                        end: end_before(old(self).pmas.ranges(), old(self).memory(pos)),
                        res,
                    })
                } else {
                    &&& final(self).pmas.model() == with_told(
                        old(self).pmas.model(),
                        old(self).memory(pos),
                        ts@,
                        vma,
                        vr,
                    )
                    &&& filled(
                        old(self).pmas.model(),
                        final(self).pmas.model(),
                        ts@,
                        vma,
                        vr,
                        ts@.len() as int,
                    )
                    &&& if res is Err && e < old(w).ar.end {
                        *final(w) == *old(w) && r == (WalkResult::End { end: e, res })
                    } else {
                        &&& r == WalkResult::More
                        &&& *final(w) == (PmaWalk {
                            pos: if e > pos {
                                e
                            } else {
                                pos
                            },
                            ..*old(w)
                        })
                    }
                }
            }),
            old(self).passed(*old(w)) ==> final(self).passed(*final(w)),
    {
        let ghost mm0 = *self;
        let ghost vm = self.vmas.model();
        let ghost pm = self.pmas.model();
        let pos = w.pos;
        proof {
            lemma_area_at(mm0, *w);
        }
        let i = self.index_of_memory(pos);
        if ts.len() == 0 {
            return WalkResult::End { end: self.end_of_prev(i), res };
        }
        let v = match self.vmas.index_holding(pos) {
            Some(v) => v,
            None => return WalkResult::More,
        };
        let vr = self.vmas.range_of(v);
        let vma = *self.vmas.value_of(v);
        let ghost opt_ar = pm.ks[i as int];
        let ghost opt = part_of(vm, v as int, opt_ar);
        proof {
            assert(VmaSetOperations::fits(vm.ks[v as int], vm.vs[v as int]));
            assert(PmaSetOperations::fits(pm.ks[i as int], pm.vs[i as int]));
            lemma_objects_behind(mm0, i as int, w.at);
            assert(vma_at(vm, pos as int) is Some);
            assert(maps_object(vma_at(vm, pos as int)));
            assert(opt.covers(ts@[0].source) && opt.covers(ts@[ts@.len() - 1].source));
            lemma_ordered(ts@, opt, vr, vma.off);
        }
        let n = ts.len();
        proof {
            lemma_no_wrap(vm, v as int, opt_ar, pos);
        }
        let start = landing_of(vr, vma.off, ts[0].source).start;
        let end = landing_of(vr, vma.off, ts[n - 1].source).end;
        let trans_ar = Range { start, end };
        proof {
            assert(whole_pages(landing(vr, vma.off, ts@[0].source)));
            assert(whole_pages(landing(vr, vma.off, ts@[n - 1].source)));
            lemma_unbroken(ts@, vr, vma.off, n as int);
        }
        replace_told(&mut self.pmas, i, trans_ar, ts, Ghost(opt), &vma, vr);
        proof {
            assert forall|k: int| told(ts@, vr, vma.off, ts@.len() as int, k) implies maps_object(
                #[trigger] vma_at(vm, k),
            ) by {
                assert(opt_ar.has(k));
            }
            lemma_filled_backs(mm0, self.pmas.model(), ts@, v as int);
            assert(landing(vr, vma.off, ts@[n - 1].source).has(end - 1));
            assert(pma_at(self.pmas.model(), end - 1) is Some);
        }
        let e = self.end_of_memory(end - 1);
        proof {
            lemma_up_to_memory_end(*self, (end - 1) as u64);
            lemma_filled_keeps(pm, self.pmas.model(), ts@, vma, vr, ts@.len() as int);
            assert forall|k: int| pos <= k < e implies #[trigger] pma_at(
                self.pmas.model(),
                k,
            ) is Some by {
                if k < end - 1 {
                    assert(held_at(pm.ks, k, i as int));
                    lemma_point_held::<PmaSetOperations>(pm, k, i as int);
                }
            }
        }
        if res.is_err() && e < w.ar.end {
            return WalkResult::End { end: e, res };
        }
        if e > pos {
            w.pos = e;
        }
        WalkResult::More
    }
}

/// Memory that cannot be used in any way is behind addresses that map objects.
proof fn lemma_objects_behind(mm: MemoryManager, i: int, at: AccessType)
    requires
        mm.wf(),
        0 <= i < mm.pmas.ranges().len(),
        !mm.pmas.values()[i].translate_perms.includes(at),
    ensures
        forall|k: int|
            mm.pmas.ranges()[i].has(k) ==> maps_object(#[trigger] vma_at(mm.vmas.model(), k)),
{
    let vm = mm.vmas.model();
    let pm = mm.pmas.model();
    assert forall|k: int| pm.ks[i].has(k) implies maps_object(#[trigger] vma_at(vm, k)) by {
        assert(held_at(pm.ks, k, i));
        lemma_point_held::<PmaSetOperations>(pm, k, i);
        assert(backs(vma_at(vm, k), pma_at(pm, k)));
    }
}

/// A part that is not empty starts at an offset that the object has.
proof fn lemma_no_wrap(vm: Segments<Vma>, v: int, r: AddrRange, pos: u64)
    requires
        VmaSetOperations::fits(vm.ks[v], vm.vs[v]),
        vm.vs[v].mappable is Some,
        vm.ks[v].has(pos as int),
        r.has(pos as int),
        part_of(vm, v, r).start < part_of(vm, v, r).end,
    ensures
        part_of(vm, v, r).start == vm.vs[v].off + r.start - vm.ks[v].start,
        part_of(vm, v, r).end == vm.vs[v].off + r.end - vm.ks[v].start,
{
    let s = vm.vs[v].off + r.start - vm.ks[v].start;
    let e = vm.vs[v].off + r.end - vm.ks[v].start;
    assert(s <= u64::MAX);
    assert(0 <= e);
    assert(e - s < word());
}

/// Each part follows the one before it without a gap.
pub open spec fn unbroken(ts: Seq<Translation>) -> bool {
    forall|i: int|
        #![trigger ts[i]]
        0 < i < ts.len() ==> ts[i].source.start == ts[i - 1].source.end
}

proof fn lemma_ordered(ts: Seq<Translation>, opt: MappableRange, vr: AddrRange, off: u64)
    requires
        tellable(ts, opt, vr, off),
        ts.len() > 0,
    ensures
        ts[0].source.start < ts[ts.len() - 1].source.end,
{
    if ts.len() > 1 {
        assert(ts[0].source.end <= ts[ts.len() - 1].source.start);
    }
    assert(ts[0].source.start < ts[0].source.end);
    assert(ts[ts.len() - 1].source.start < ts[ts.len() - 1].source.end);
}

/// Parts that follow each other without a gap cover all between the first and
/// the last.
proof fn lemma_unbroken(ts: Seq<Translation>, vr: AddrRange, off: u64, n: int)
    requires
        unbroken(ts),
        0 < n <= ts.len(),
        forall|i: int|
            0 <= i < ts.len() ==> {
                &&& (#[trigger] ts[i]).source.start < ts[i].source.end
                &&& off <= vr.start + ts[i].source.start
                &&& vr.start + (ts[i].source.end - off) <= u64::MAX
            },
    ensures
        told_length(ts, n) == ts[n - 1].source.end - ts[0].source.start,
        forall|k: int|
            vr.start + (ts[0].source.start - off) <= k < vr.start + (ts[n - 1].source.end - off)
                ==> #[trigger] told(ts, vr, off, n, k),
        forall|k: int| #[trigger]
            told(ts, vr, off, n, k) ==> vr.start + (ts[0].source.start - off) <= k < vr.start + (
            ts[n - 1].source.end - off),
        ts[0].source.start < ts[n - 1].source.end,
    decreases n,
{
    if n == 1 {
        assert(told_length(ts, 0) == 0);
        assert(ts[0].source.start < ts[0].source.end);
        assert forall|k: int|
            vr.start + (ts[0].source.start - off) <= k < vr.start + (ts[0].source.end
                - off) implies #[trigger] told(ts, vr, off, 1, k) by {
            assert(landing(vr, off, ts[0].source).has(k));
        }
    } else {
        lemma_unbroken(ts, vr, off, n - 1);
        assert(ts[n - 1].source.start == ts[n - 2].source.end);
        assert forall|k: int|
            vr.start + (ts[0].source.start - off) <= k < vr.start + (ts[n - 1].source.end
                - off) implies #[trigger] told(ts, vr, off, n, k) by {
            if k < vr.start + (ts[n - 2].source.end - off) {
                assert(told(ts, vr, off, n - 1, k));
                let i = choose|i: int|
                    0 <= i < n - 1 && landing(vr, off, (#[trigger] ts[i]).source).has(k);
                assert(landing(vr, off, ts[i].source).has(k));
            } else {
                assert(landing(vr, off, ts[n - 1].source).has(k));
            }
        }
        assert forall|k: int| #[trigger] told(ts, vr, off, n, k) implies vr.start + (
        ts[0].source.start - off) <= k < vr.start + (ts[n - 1].source.end - off) by {
            let i = choose|i: int|
                0 <= i < n && landing(vr, off, (#[trigger] ts[i]).source).has(k);
            if i < n - 1 {
                assert(told(ts, vr, off, n - 1, k));
            }
        }
    }
}

/// Puts in the memory that an object told of, in place of the memory at index
/// `i` that is behind the same addresses.
fn replace_told(
    pmas: &mut PmaSet,
    i: usize,
    trans_ar: AddrRange,
    ts: &Vec<Translation>,
    opt: Ghost<MappableRange>,
    v: &Vma,
    vr: AddrRange,
)
    requires
        old(pmas).wf(),
        bounded(old(pmas).ranges(), page_bound()),
        i < old(pmas).ranges().len(),
        old(pmas).ranges()[i as int].covers(trans_ar),
        trans_ar.start < trans_ar.end,
        whole_pages(trans_ar),
        tellable(ts@, opt@, vr, v.off),
        v.off <= vr.start + opt@.start,
        vr.start + (opt@.end - v.off) <= u64::MAX,
        told_length(ts@, ts@.len() as int) == trans_ar.length(),
        forall|k: int| #[trigger]
            told(ts@, vr, v.off, ts@.len() as int, k) == trans_ar.has(k),
    ensures
        final(pmas).wf(),
        final(pmas).model() == taken_in(
            isolated::<PmaSetOperations>(old(pmas).model(), i as int, trans_ar).without(
                cut_start_at(old(pmas).model(), i as int, trans_ar),
            ),
            ts@,
            *v,
            vr,
            ts@.len() as int,
        ),
        places_kept(old(pmas).model(), final(pmas).model()),
        bounded(final(pmas).ranges(), page_bound()),
        filled(old(pmas).model(), final(pmas).model(), ts@, *v, vr, ts@.len() as int),
        total(final(pmas).model(), any_pma()) == total(old(pmas).model(), any_pma()),
{
    let ghost m0 = pmas.model();
    proof {
        lemma_pma_properties_last();
    }
    let j = pmas.isolate_index(i, trans_ar);
    let ghost m1 = pmas.model();
    proof {
        assert(m1.ks[j as int] == trans_ar);
        assert(bounded(m1.ks, page_bound()));
        assert(total(m1, any_pma()) == total(m0, any_pma()));
        lemma_wf_without::<PmaSetOperations>(m1, j as int);
        lemma_bounded_without(m1, j as int, page_bound());
        lemma_total_without(m1, j as int, any_pma());
    }
    let _ = pmas.raw_remove(j);
    let ghost m2 = pmas.model();
    proof {
        assert forall|k: int| #[trigger]
            pma_at(m2, k) == (if trans_ar.has(k) {
                None
            } else {
                pma_at(m0, k)
            }) by {
            without_is_silent::<PmaSetOperations>(m1, j as int, k);
            assert(pma_at(m1, k) == pma_at(m0, k));
        }
        assert forall|i: int, k: int|
            #![trigger ts@[i], pma_at(m2, k)]
            0 <= i < ts@.len() && landing(vr, v.off, ts@[i].source).has(k) implies pma_at(m2, k)
            is None by {
            assert(told(ts@, vr, v.off, ts@.len() as int, k));
        }
    }
    let _ = put_told(pmas, ts, opt, v, vr);
    proof {
        let m = pmas.model();
        assert forall|k: int| #[trigger] place_at(m, k) is Some implies place_at(m, k)
            == place_at(m0, k) by {
            lemma_isolated_places(m0, i as int, trans_ar, k);
            lemma_place_without(m1, j as int, k);
            assert(place_at(m2, k) is Some);
        }
        assert forall|k: int| !told(ts@, vr, v.off, ts@.len() as int, k) implies #[trigger] pma_at(
            m,
            k,
        ) == pma_at(m0, k) by {
            assert(pma_at(m, k) == pma_at(m2, k));
        }
    }
}

/// Whether an object may tell `ts` of its part `opt`.
fn is_tellable(ts: &Vec<Translation>, opt: MappableRange, vr: AddrRange, off: u64) -> (b: bool)
    requires
        opt.start < opt.end ==> off <= vr.start + opt.start && vr.start + (opt.end - off)
            <= u64::MAX,
    ensures
        b == tellable(ts@, opt, vr, off),
{
    let mut i: usize = 0;
    while i < ts.len()
        invariant
            i <= ts@.len(),
            opt.start < opt.end ==> off <= vr.start + opt.start && vr.start + (opt.end - off)
                <= u64::MAX,
            tellable(ts@.take(i as int), opt, vr, off),
        decreases ts@.len() - i,
    {
        let ghost was = ts@.take(i as int);
        let ghost now = ts@.take(i + 1);
        let t = ts[i];
        let s = t.source;
        assert(now =~= was.push(t));
        assert(tellable(ts@, opt, vr, off) ==> opt.covers(ts@[i as int].source));
        if !(opt.start <= s.start && s.end <= opt.end && s.start < s.end) {
            return false;
        }
        if t.offset.checked_add(s.end - s.start).is_none() {
            return false;
        }
        let l = landing_of(vr, off, s);
        if Addr(l.start).page_offset() != 0 || Addr(l.end).page_offset() != 0 {
            return false;
        }
        if i > 0 {
            assert(was[i - 1] == ts@[i - 1]);
            if ts[i - 1].source.end > s.start {
                return false;
            }
        }
        assert forall|a: int, b: int| 0 <= a < b < now.len() implies (#[trigger] now[a]).source.end
            <= (#[trigger] now[b]).source.start by {
            if b < i {
                assert(was[a].source.end <= was[b].source.start);
            } else if a < i - 1 {
                assert(was[a].source.end <= was[i - 1].source.start);
                assert(was[i - 1].source.start < was[i - 1].source.end);
            } else {
                assert(was[a] == ts@[i - 1]);
            }
        }
        assert forall|a: int| 0 <= a < now.len() implies {
            &&& opt.covers((#[trigger] now[a]).source)
            &&& now[a].source.start < now[a].source.end
            &&& now[a].offset + now[a].source.length() <= u64::MAX
            &&& whole_pages(landing(vr, off, now[a].source))
        } by {
            if a < i {
                assert(was[a] == now[a]);
            }
        }
        i = i + 1;
    }
    assert(ts@.take(i as int) =~= ts@);
    true
}

/// Whether each part follows the one before it without a gap.
fn is_unbroken(ts: &Vec<Translation>) -> (b: bool)
    ensures
        b == unbroken(ts@),
{
    let mut i: usize = 1;
    while i < ts.len()
        invariant
            1 <= i,
            forall|j: int|
                #![trigger ts@[j]]
                0 < j < i && j < ts@.len() ==> ts@[j].source.start == ts@[j - 1].source.end,
        decreases ts@.len() - i,
    {
        if ts[i].source.start != ts[i - 1].source.end {
            assert(ts@[i as int].source.start != ts@[i - 1].source.end);
            return false;
        }
        i = i + 1;
    }
    true
}

impl MemoryManager {
    /// The addresses about `pos` that an object is asked for: the memory there, or
    /// else the gap.
    pub open spec fn asked_about(&self, pos: u64) -> AddrRange {
        if self.no_memory(pos) {
            self.area_in_gap(pos)
        } else {
            self.pmas.ranges()[self.memory(pos)]
        }
    }

    /// Whether what the mapped object told can be taken in at the present place.
    /// `optional` is the part that it was asked for.
    pub fn accepts(&self, w: &PmaWalk, optional: MappableRange, ts: &Vec<Translation>) -> (b: bool)
        requires
            self.wf(),
            self.on_way(*w),
            w.pos < w.ar.end,
            if self.no_memory(w.pos) {
                self.vmas.values()[self.area(w.pos)].mappable is Some
            } else {
                !self.pmas.values()[self.memory(w.pos)].translate_perms.includes(w.at)
            },
            optional == part_of(self.vmas.model(), self.area(w.pos), self.asked_about(w.pos)),
        ensures
            b == (tellable(
                ts@,
                optional,
                self.vmas.ranges()[self.area(w.pos)],
                self.vmas.values()[self.area(w.pos)].off,
            ) && (self.no_memory(w.pos) || unbroken(ts@))),
    {
        let pos = w.pos;
        let ghost vm = self.vmas.model();
        let ghost pm = self.pmas.model();
        let ghost v = self.area(pos);
        let ghost r = self.asked_about(pos);
        proof {
            lemma_area_at(*self, *w);
        }
        let has_memory = self.pmas.index_holding(pos).is_some();
        let i = match self.vmas.index_holding(pos) {
            Some(i) => i,
            None => return false,
        };
        proof {
            lemma_holder(vm.ks, pos as int, i as int);
            assert(VmaSetOperations::fits(vm.ks[v], vm.vs[v]));
            if self.no_memory(pos) {
                lemma_gap_at(*self, pos);
            } else {
                let j = choose|j: int| held_at(pm.ks, pos as int, j);
                lemma_holder(pm.ks, pos as int, j);
                lemma_objects_behind(*self, j, w.at);
                assert(maps_object(vma_at(vm, pos as int)));
                lemma_point_held::<VmaSetOperations>(vm, pos as int, v);
            }
            assert(r.has(pos as int));
            if optional.start < optional.end {
                lemma_no_wrap(vm, v, r, pos);
            }
        }
        let vr = self.vmas.range_of(i);
        let off = self.vmas.value_of(i).off;
        is_tellable(ts, optional, vr, off) && (!has_memory || is_unbroken(ts))
    }
}

} // verus!
