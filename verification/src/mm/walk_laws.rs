use vstd::prelude::*;

use crate::memmap::Translation;
use crate::mm::fill::{lemma_units_in_gap, memory_of, own_memory};
use crate::mm::manager::{backs, page_bound, pma_at, vma_at, MemoryManager};
use crate::mm::pma::{PmaPoint, PmaSetOperations};
use crate::mm::vma::{Vma, VmaSetOperations};
use crate::mm::walk::{
    claimed, landing, lemma_area_at, lemma_gap_at, PmaStep, PmaWalk,
};
use crate::range::{AddrRange, FileRange};
use crate::segment::keys::{gap_at, held_at};
use crate::segment::model::lemma_holder;
use crate::segment::point::{lemma_point_free, lemma_point_held};
use crate::segment::search::{lemma_gap_span_count, lemma_in_gap_is_free};
use crate::segment::SetOperations;

verus! {

/// Memory was allocated for an address: it is the application's own, at the offset that
/// belongs to the address, and can be used as the address may be.
pub proof fn allocated_memory_is_ones_own(fr: FileRange, v: Vma, start: u64, k: int)
    ensures
        ({
            let p = own_memory(fr, v).at(start, k);
            &&& p.file == 0
            &&& p.off == fr.start + (k - start)
            &&& p.private
            &&& !p.need_cow
            &&& p.effective_perms == v.effective_perms
            &&& p.max_perms == v.max_perms
            &&& p.translate_perms.read && p.translate_perms.write && p.translate_perms.execute
            &&& own_memory(fr, v).host.len() == 0
        }),
{
}

/// Where an object told that it has a part of itself in a file, the memory behind an
/// address is at the offset in the file that belongs to what is mapped there. It can be
/// used as both the address and the object allow. Through a private area it is not
/// written, but copied first.
pub proof fn translated_memory_is_of_the_object(t: Translation, v: Vma, vr: AddrRange, k: int)
    requires
        v.mappable is Some,
        v.off <= t.source.start < t.source.end,
        vr.start + (t.source.end - v.off) <= u64::MAX,
        landing(vr, v.off, t.source).has(k),
    ensures
        ({
            let p = memory_of(t, v).at(landing(vr, v.off, t.source).start, k);
            let x = v.at(vr.start, k);
            &&& t.source.start <= x.off < t.source.end
            &&& p.file == t.file
            &&& p.off == t.offset + (x.off - t.source.start)
            &&& !p.private
            &&& p.need_cow == v.private
            &&& p.translate_perms == t.perm
            &&& p.effective_perms.read == (v.effective_perms.read && t.perm.read)
            &&& p.effective_perms.execute == (v.effective_perms.execute && t.perm.execute)
            &&& p.effective_perms.write == (v.effective_perms.write && t.perm.write && !v.private)
            &&& p.max_perms.read == (v.max_perms.read && t.perm.read)
            &&& p.max_perms.execute == (v.max_perms.execute && t.perm.execute)
            &&& p.max_perms.write == (v.max_perms.write && t.perm.write && !v.private)
            &&& memory_of(t, v).host.len() == 0
        }),
{
}

/// Memory that is claimed is the same memory. It no longer has to be copied, and can be
/// used as the area may be.
pub proof fn claimed_memory_is_the_same(p: PmaPoint, v: Vma)
    ensures
        claimed(p, v).file == p.file,
        claimed(p, v).off == p.off,
        claimed(p, v).private == p.private,
        claimed(p, v).translate_perms == p.translate_perms,
        !claimed(p, v).need_cow,
        claimed(p, v).effective_perms == v.effective_perms,
        claimed(p, v).max_perms == v.max_perms,
{
}

/// The way is at an end only once all addresses are passed. It goes on only past memory
/// that is there, whose object allows the access, and that, to be written, belongs to the
/// application alone or need not be copied.
pub proof fn way_goes_on_past_memory_only(mm: MemoryManager, w: PmaWalk, step: PmaStep)
    requires
        mm.wf(),
        mm.on_way(w),
        mm.next_step(w, step),
    ensures
        step is Done == (w.pos >= w.ar.end),
        step is Next ==> {
            &&& pma_at(mm.pmas.model(), w.pos as int) matches Some(p) && {
                &&& w.at.read ==> p.translate_perms.read
                &&& w.at.write ==> p.translate_perms.write
                &&& w.at.execute ==> p.translate_perms.execute
                &&& w.at.write && p.need_cow ==> p.private && mm.sole_owner(mm.memory(w.pos))
            }
        },
{
    if w.pos < w.ar.end && !mm.no_memory(w.pos) {
        lemma_memory_here(mm, w.pos);
    }
}

proof fn lemma_memory_here(mm: MemoryManager, pos: u64)
    requires
        mm.wf(),
        !mm.no_memory(pos),
    ensures
        held_at(mm.pmas.ranges(), pos as int, mm.memory(pos)),
        pma_at(mm.pmas.model(), pos as int) == Some(
            mm.pmas.values()[mm.memory(pos)].at(
                mm.pmas.ranges()[mm.memory(pos)].start,
                pos as int,
            ),
        ),
{
    let m = mm.pmas.model();
    let h = choose|h: int| 0 <= h < m.ks.len() && (#[trigger] m.ks[h]).has(pos as int);
    assert(held_at(m.ks, pos as int, h));
    lemma_holder(m.ks, pos as int, h);
    lemma_point_held::<PmaSetOperations>(m, pos as int, h);
}

/// Where there is no memory, it is had from the object that is mapped there, and
/// allocated if there is none.
pub proof fn missing_memory_is_had(mm: MemoryManager, w: PmaWalk, step: PmaStep)
    requires
        mm.wf(),
        mm.on_way(w),
        mm.next_step(w, step),
        w.pos < w.ar.end,
        mm.no_memory(w.pos),
    ensures
        vma_at(mm.vmas.model(), w.pos as int) matches Some(v) && match v.mappable {
            Some(object) => step matches PmaStep::Translate { mappable, .. } && mappable == object,
            None => step is Allocate,
        },
{
    lemma_area_at(mm, w);
}

/// The addresses for which memory is allocated hold the present place, are all without
/// memory and map no object, and lie in whole units of 2 MB with those of the way.
pub proof fn allocation_is_where_it_is_missing(mm: MemoryManager, w: PmaWalk, r: AddrRange, k: int)
    requires
        mm.wf(),
        mm.on_way(w),
        mm.next_step(w, PmaStep::Allocate { ar: r }),
        w.pos < w.ar.end,
    ensures
        r.start <= w.pos < r.end,
        r.start % 4096 == 0,
        r.end % 4096 == 0,
        r.start <= k < r.end ==> {
            &&& vma_at(mm.vmas.model(), k) matches Some(v) && v.mappable is None
            &&& pma_at(mm.pmas.model(), k) is None
            &&& w.ar.start - w.ar.start % 0x20_0000 <= k < w.ar.end + 0x20_0000
        },
        w.ar.start <= k < w.ar.end && mm.area_in_gap(w.pos).has(k) ==> r.start <= k < r.end,
{
    lemma_area_at(mm, w);
    lemma_gap_at(mm, w.pos);
    let ks = mm.pmas.ranges();
    let v = mm.area(w.pos);
    let vm = mm.vmas.model();
    assert(page_bound()(vm.ks[v].end));
    assert(gap_at(ks, mm.gap(w.pos)).span().has(w.pos as int));
    lemma_units_in_gap(mm, w, r);
    if r.has(k) {
        assert(held_at(vm.ks, k, v));
        lemma_point_held::<VmaSetOperations>(vm, k, v);
        assert forall|i: int| !#[trigger] held_at(ks, k, i) by {
            if held_at(ks, k, i) {
                assert(ks[i].meets(r));
            }
        }
        lemma_point_free::<PmaSetOperations>(mm.pmas.model(), k);
    }
}

/// What an object is asked for holds the offset that is mapped at the present place, and
/// those of all further addresses of the way in the same area and the same gap. It is
/// asked for the access that is wanted, but through a private area only to read.
pub proof fn object_is_asked_for_what_is_mapped(
    mm: MemoryManager,
    w: PmaWalk,
    step: PmaStep,
    k: int,
)
    requires
        mm.wf(),
        mm.on_way(w),
        mm.next_step(w, step),
        step is Translate,
        w.ar.start <= w.pos < w.ar.end,
        w.ar.start <= k < w.ar.end,
        mm.area_in_gap(w.pos).has(k),
    ensures
        match step {
            PmaStep::Translate { mappable, required, optional, perms } => {
                &&& vma_at(mm.vmas.model(), k) matches Some(v) && {
                    &&& v.mappable == Some(mappable)
                    &&& required.start <= v.off < required.end
                    &&& !v.private ==> perms == w.at
                    &&& v.private ==> perms.read && !perms.write && perms.execute == w.at.execute
                }
                &&& optional.start <= required.start && required.end <= optional.end
                &&& pma_at(mm.pmas.model(), k) is None
            },
            _ => false,
        },
        mm.area_in_gap(w.pos).has(w.pos as int),
{
    lemma_area_at(mm, w);
    lemma_gap_at(mm, w.pos);
    let vm = mm.vmas.model();
    let ks = mm.pmas.ranges();
    let v = mm.area(w.pos);
    let opt = mm.area_in_gap(w.pos);
    assert(page_bound()(vm.ks[v].end));
    assert(VmaSetOperations::fits(vm.ks[v], vm.vs[v]));
    assert(held_at(vm.ks, k, v));
    lemma_point_held::<VmaSetOperations>(vm, k, v);
    lemma_gap_span_count(ks, mm.gap(w.pos));
    lemma_in_gap_is_free(ks, mm.gap(w.pos), opt);
    assert forall|i: int| !#[trigger] held_at(ks, k, i) by {
        if held_at(ks, k, i) {
            assert(ks[i].meets(opt));
        }
    }
    lemma_point_free::<PmaSetOperations>(mm.pmas.model(), k);
    let need = opt.common(w.ar);
    assert(need.has(k));
    lemma_part(vm.vs[v].off, vm.ks[v], need, k);
    lemma_part(vm.vs[v].off, vm.ks[v], opt, k);
}

/// Offsets within an area do not start anew.
proof fn lemma_part(off: u64, vr: AddrRange, r: AddrRange, k: int)
    requires
        off + vr.length() <= u64::MAX,
        vr.covers(r),
        r.has(k),
    ensures
        (off + (r.start - vr.start)) % crate::mm::manager::word() == off + (r.start - vr.start),
        (off + (r.end - vr.start)) % crate::mm::manager::word() == off + (r.end - vr.start),
{
}

/// Memory is copied only to be written to, where it has to be. All of it is copied that
/// is to be written and lies in the same segment.
#[verifier::spinoff_prover]
#[verifier::rlimit(60)]
pub proof fn copying_is_for_writing(mm: MemoryManager, w: PmaWalk, step: PmaStep, k: int)
    requires
        mm.wf(),
        mm.on_way(w),
        mm.next_step(w, step),
        step is Copy || step is MapInternal,
        w.ar.start <= k < w.ar.end,
        held_at(mm.pmas.ranges(), k, mm.memory(w.pos)),
    ensures
        w.at.write,
        pma_at(mm.pmas.model(), w.pos as int) matches Some(p) && p.need_cow,
        match step {
            PmaStep::Copy { ar, .. } => ar.start <= k < ar.end,
            PmaStep::MapInternal { file, range, perms } => {
                &&& pma_at(mm.pmas.model(), k) matches Some(q) && {
                    &&& file == q.file
                    &&& range.start <= q.off < range.end
                    &&& perms.read == q.max_perms.read && perms.write == q.max_perms.write
                    &&& !perms.execute
                }
            },
            _ => false,
        },
{
    lemma_memory_here(mm, w.pos);
    let pm = mm.pmas.model();
    let i = mm.memory(w.pos);
    lemma_point_held::<PmaSetOperations>(pm, k, i);
    assert(PmaSetOperations::fits(pm.ks[i], pm.vs[i]));
}

/// An object is asked anew only if it did not allow the access before, and then for that
/// and all that it allowed before.
pub proof fn object_is_asked_anew_for_more(mm: MemoryManager, w: PmaWalk, step: PmaStep)
    requires
        mm.wf(),
        mm.on_way(w),
        mm.next_step(w, step),
        step is Retranslate,
    ensures
        pma_at(mm.pmas.model(), w.pos as int) matches Some(p) && match step {
            PmaStep::Retranslate { mappable, perms, .. } => {
                &&& perms.includes(w.at)
                &&& perms.includes(p.translate_perms)
                &&& !p.translate_perms.includes(w.at)
                &&& vma_at(mm.vmas.model(), w.pos as int) matches Some(v) && v.mappable == Some(
                    mappable,
                )
            },
            _ => false,
        },
{
    lemma_memory_here(mm, w.pos);
    lemma_area_at(mm, w);
    assert(backs(
        vma_at(mm.vmas.model(), w.pos as int),
        pma_at(mm.pmas.model(), w.pos as int),
    ));
}

} // verus!
