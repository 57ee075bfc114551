use vstd::prelude::*;

use crate::access::AccessType;
use crate::addr::Addr;
use crate::errno::{sys, SysError, SysResult, EACCES, EFAULT, EINVAL, ENOMEM};
use crate::mm::hosts::{lemma_protected_places, lemma_tidied_places, places_kept};
use crate::mm::manager::{
    backed, backs, page_bound, pma_at, vma_at, whole_pages, MemoryManager,
};
use crate::mm::pma::{
    any_pma, lemma_pma_properties_last, PmaPoint, PmaSet, PmaSetOperations, PmaView,
};
use crate::mm::vma::{
    any_vma, data_vma, lemma_vma_properties_last, locked_vma, NumaPolicy, Vma, VmaPoint, VmaSet,
    VmaSetOperations,
};
use crate::range::{AddrRange, Range};
use crate::segment::bounds::{
    bounded, lemma_bounded_carved, lemma_bounded_joined_outside, lemma_bounded_joined_run,
};
use crate::segment::keys::{held_at, sorted};
use crate::segment::model::{joined_outside, joined_run, wf_segments, Segments};
use crate::segment::nav::{first_from, first_past};
use crate::segment::point::{
    joining_outside_keeps, joining_run_keeps, lemma_point_free, lemma_point_held, point,
    PointOperations,
};
use crate::segment::span::{
    below, carved, carving_keeps, cut_at_key, cutting_at_key_keeps, lemma_carved_parts,
    same_speaker,
};
use crate::segment::total::{
    lasting, lemma_total_bound, lemma_total_carved, lemma_total_joined_outside,
    lemma_total_joined_run, lemma_total_set_value, total,
};
use crate::segment::{SegmentSet, SetOperations};

verus! {

/// Something is mapped that has the access `need`, or, with `max`, that may have
/// it.
pub open spec fn may_have(p: Option<VmaPoint>, need: AccessType, max: bool) -> bool {
    p is Some && if max {
        p->Some_0.max_perms.includes(need)
    } else {
        p->Some_0.effective_perms().includes(need)
    }
}

/// From the start of `ar` up to `x` all is mapped that has the access `need`,
/// or, with `max`, that may have it, and no further.
pub open spec fn reaches(
    m: Segments<Vma>,
    ar: AddrRange,
    need: AccessType,
    max: bool,
    x: u64,
) -> bool {
    &&& ar.start <= x <= ar.end
    &&& forall|k: int| ar.start <= k < x ==> may_have(#[trigger] vma_at(m, k), need, max)
    &&& x < ar.end ==> !may_have(vma_at(m, x as int), need, max)
}

impl MemoryManager {
    /// How far all is mapped that has the access `need`, or, with `max`, that may
    /// have it.
    pub(crate) fn reach(&self, ar: AddrRange, need: AccessType, max: bool) -> (x: u64)
        requires
            self.wf(),
            ar.start <= ar.end,
        ensures
            reaches(self.vmas.model(), ar, need, max, x),
            whole_pages(ar) ==> Addr(x).page_aligned(),
    {
        let ghost m = self.vmas.model();
        let n = self.vmas.count_segments();
        let mut x = ar.start;
        let mut i = self.vmas.index_past(x);
        while x < ar.end && i < n && self.vmas.range_of(i).start <= x && self.vma_allows(
            i,
            need,
            max,
        )
            invariant
                self.wf(),
                m == self.vmas.model(),
                n == m.ks.len(),
                i <= n,
                ar.start <= x <= ar.end,
                whole_pages(ar) ==> Addr(x).page_aligned(),
                x < ar.end ==> first_from(m.ks, x as int, i as int),
                forall|k: int| ar.start <= k < x ==> may_have(#[trigger] vma_at(m, k), need, max),
            decreases n - i,
        {
            let r = self.vmas.range_of(i);
            let ghost x0 = x;
            proof {
                assert(page_bound()(m.ks[i as int].end));
                assert forall|k: int| x0 <= k < r.end implies may_have(
                    #[trigger] vma_at(m, k),
                    need,
                    max,
                ) by {
                    assert(held_at(m.ks, k, i as int));
                    lemma_point_held::<VmaSetOperations>(m, k, i as int);
                    assert(VmaSetOperations::fits(m.ks[i as int], m.vs[i as int]));
                }
                assert forall|j: int| i + 1 <= j < m.ks.len() implies r.end < (
                #[trigger] m.ks[j]).end by {
                    assert(m.ks[i as int].end <= m.ks[j].start);
                    assert(m.ks[j].start < m.ks[j].end);
                }
                assert forall|j: int| 0 <= j < i + 1 implies (#[trigger] m.ks[j]).end <= r.end by {
                    if j < i {
                        assert(m.ks[j].end <= m.ks[i as int].start);
                    }
                }
            }
            x = if r.end < ar.end {
                r.end
            } else {
                ar.end
            };
            i = i + 1;
        }
        proof {
            if x < ar.end {
                if i < n && m.ks[i as int].start <= x {
                    assert(held_at(m.ks, x as int, i as int));
                    lemma_point_held::<VmaSetOperations>(m, x as int, i as int);
                    assert(VmaSetOperations::fits(m.ks[i as int], m.vs[i as int]));
                } else {
                    assert forall|h: int| !#[trigger] held_at(m.ks, x as int, h) by {
                        if held_at(m.ks, x as int, h) && i < h {
                            assert(m.ks[i as int].end <= m.ks[h].start);
                            assert(m.ks[i as int].start < m.ks[i as int].end);
                        }
                    }
                    lemma_point_free::<VmaSetOperations>(m, x as int);
                }
            }
        }
        x
    }

    /// Whether the area at index `i` has the access `need`, or, with `max`, may
    /// have it.
    fn vma_allows(&self, i: usize, need: AccessType, max: bool) -> (b: bool)
        requires
            self.vmas.wf(),
            i < self.vmas.ranges().len(),
        ensures
            b == (if max {
                self.vmas.values()[i as int].max_perms.includes(need)
            } else {
                self.vmas.values()[i as int].effective_perms.includes(need)
            }),
    {
        let v = self.vmas.value_of(i);
        if max {
            v.max_perms.is_superset_of(need)
        } else {
            v.effective_perms.is_superset_of(need)
        }
    }
}

/// The segments `m` after those that hold keys of `r` were joined where they
/// merge, and then the outermost of them to the ones outside `r`.
pub open spec fn tidied<O: SetOperations>(
    m: Segments<<O::V as View>::V>,
    r: AddrRange,
    t: Segments<<O::V as View>::V>,
) -> bool {
    exists|i: int| #[trigger]
        first_from(m.ks, r.start as int, i) && t == joined_outside::<O>(
            if i < m.ks.len() {
                joined_run::<O>(m, i, r.end)
            } else {
                m
            },
            r,
        )
}

/// Joins what merges in and about `ar`.
fn tidy<O: PointOperations>(s: &mut SegmentSet<O>, ar: AddrRange)
    requires
        old(s).wf(),
        bounded(old(s).ranges(), page_bound()),
        0 < ar.end,
    ensures
        final(s).wf(),
        tidied::<O>(old(s).model(), ar, final(s).model()),
        bounded(final(s).ranges(), page_bound()),
        forall|k: int| #[trigger]
            point::<O>(final(s).model(), k)
                == point::<O>(old(s).model(), k),
        forall|f: spec_fn(<O::V as View>::V) -> bool|
            lasting::<O>(f) ==> #[trigger] total(final(s).model(), f) == total(
                old(s).model(),
                f,
            ),
{
    let ghost m0 = s.model();
    s.merge_range(ar);
    let ghost m1 = s.model();
    proof {
        let i = choose|i: int| #[trigger]
            first_from(m0.ks, ar.start as int, i) && m1 == (if i < m0.ks.len() {
                joined_run::<O>(m0, i, ar.end)
            } else {
                m0
            });
        if i < m0.ks.len() {
            lemma_bounded_joined_run::<O>(m0, i, ar.end, page_bound());
        }
        assert forall|k: int| #[trigger]
            point::<O>(m1, k) == point::<O>(m0, k) by {
            if i < m0.ks.len() {
                joining_run_keeps::<O>(m0, i, ar.end, k);
            }
        }
        assert forall|f: spec_fn(<O::V as View>::V) -> bool| lasting::<O>(f) implies
            #[trigger] total(m1, f) == total(m0, f) by {
            if i < m0.ks.len() {
                lemma_total_joined_run::<O>(m0, i, ar.end, f);
            }
        }
    }
    s.merge_adjacant(ar);
    proof {
        let m2 = s.model();
        lemma_bounded_joined_outside::<O>(m1, ar, page_bound());
        assert forall|k: int| #[trigger]
            point::<O>(m2, k) == point::<O>(m0, k) by {
            joining_outside_keeps::<O>(m1, ar, k);
            assert(point::<O>(m1, k) == point::<O>(
                m0,
                k,
            ));
        }
        assert forall|f: spec_fn(<O::V as View>::V) -> bool| lasting::<O>(f) implies
            #[trigger] total(m2, f) == total(m0, f) by {
            lemma_total_joined_outside::<O>(m1, ar, f);
            assert(total(m1, f) == total(m0, f));
        }
    }
}

/// The segments after they were cut at the bounds of `r`, and those within it were
/// given other values.
pub open spec fn revalued<O: SetOperations>(
    m: Segments<<O::V as View>::V>,
    r: AddrRange,
    f: spec_fn(<O::V as View>::V) -> <O::V as View>::V,
) -> Segments<<O::V as View>::V> {
    let c = carved::<O>(m, r);
    Segments {
        ks: c.ks,
        vs: Seq::new(
            c.vs.len(),
            |j: int|
                if below(c.ks, r.start) <= j < below(c.ks, r.end) {
                    f(c.vs[j])
                } else {
                    c.vs[j]
                },
        ),
    }
}

/// An area with other permissions.
pub open spec fn vma_with_perms(perms: AccessType) -> spec_fn(Vma) -> Vma {
    |v: Vma| Vma { real_perms: perms, effective_perms: perms.granted(), ..v }
}

/// An area whose memory is placed otherwise.
pub open spec fn vma_with_numa(policy: NumaPolicy, nodemask: u64) -> spec_fn(Vma) -> Vma {
    |v: Vma| Vma { numa_policy: policy, numa_nodemask: nodemask, ..v }
}

/// Memory behind addresses whose permissions have become `perms`.
pub open spec fn pma_with_perms(perms: AccessType) -> spec_fn(PmaView) -> PmaView {
    |p: PmaView|
        PmaView {
            effective_perms: if p.need_cow {
                AccessType { write: true, ..perms.meet(p.translate_perms) }
            } else {
                perms.meet(p.translate_perms)
            },
            ..p
        }
}

/// The memory after that behind each of `n` areas, from index `a` on, was brought
/// to permissions `perms`.
pub open spec fn re_permitted_behind(
    m: Segments<PmaView>,
    areas: Seq<Range>,
    a: int,
    n: int,
    perms: AccessType,
) -> Segments<PmaView>
    decreases n,
{
    if n <= 0 {
        m
    } else {
        revalued::<PmaSetOperations>(
            re_permitted_behind(m, areas, a, n - 1, perms),
            areas[a + n - 1],
            pma_with_perms(perms),
        )
    }
}

/// Address `k` lies in one of the areas at the indices from `a` up to `h`.
spec fn behind(areas: Seq<Range>, a: int, h: int, k: int) -> bool {
    exists|j: int| a <= j < h && (#[trigger] areas[j]).has(k)
}

/// What an application sees once it has other permissions.
pub open spec fn with_perms(p: Option<VmaPoint>, perms: AccessType) -> Option<VmaPoint> {
    match p {
        Some(p) => Some(VmaPoint { real_perms: perms, ..p }),
        None => None,
    }
}

/// The memory behind an address whose permissions have become `perms`.
pub open spec fn re_permitted(p: Option<PmaPoint>, perms: AccessType) -> Option<PmaPoint> {
    match p {
        Some(p) => Some(
            PmaPoint {
                effective_perms: if p.need_cow {
                    AccessType { write: true, ..perms.meet(p.translate_perms) }
                } else {
                    perms.meet(p.translate_perms)
                },
                ..p
            },
        ),
        None => None,
    }
}

/// The memory behind an address has more permissions than `perms`.
pub open spec fn exceeds(p: Option<PmaPoint>, perms: AccessType) -> bool {
    p is Some && !perms.includes(p->Some_0.effective_perms)
}

/// Somewhere in `r` memory has more permissions than `perms`.
pub open spec fn any_exceeds(m: Segments<PmaView>, r: AddrRange, perms: AccessType) -> bool {
    exists|k: int| r.has(k) && exceeds(#[trigger] pma_at(m, k), perms)
}

/// What an application sees once its memory is placed otherwise.
pub open spec fn with_numa(
    p: Option<VmaPoint>,
    policy: NumaPolicy,
    nodemask: u64,
) -> Option<VmaPoint> {
    match p {
        Some(p) => Some(VmaPoint { numa_policy: policy, numa_nodemask: nodemask, ..p }),
        None => None,
    }
}

/// Gives the areas in `r` other permissions. `data` counts private data.
fn protect_vmas(vmas: &mut VmaSet, r: AddrRange, perms: AccessType, data: u64) -> (d: u64)
    requires
        old(vmas).wf(),
        bounded(old(vmas).ranges(), page_bound()),
        whole_pages(r),
        r.start <= r.end,
        data == total(old(vmas).model(), data_vma()),
    ensures
        final(vmas).wf(),
        bounded(final(vmas).ranges(), page_bound()),
        d == total(final(vmas).model(), data_vma()),
        final(vmas).model() == revalued::<VmaSetOperations>(
            old(vmas).model(),
            r,
            vma_with_perms(perms),
        ),
        total(final(vmas).model(), any_vma()) == total(old(vmas).model(), any_vma()),
        total(final(vmas).model(), locked_vma()) == total(old(vmas).model(), locked_vma()),
        forall|k: int| #[trigger]
            vma_at(final(vmas).model(), k) == (if r.has(k) {
                with_perms(vma_at(old(vmas).model(), k), perms)
            } else {
                vma_at(old(vmas).model(), k)
            }),
{
    let ghost m0 = vmas.model();
    let (a, b) = vmas.carve(r);
    let ghost c = vmas.model();
    proof {
        lemma_vma_properties_last();
        lemma_total_carved::<VmaSetOperations>(m0, r, any_vma());
        lemma_total_carved::<VmaSetOperations>(m0, r, data_vma());
        lemma_total_carved::<VmaSetOperations>(m0, r, locked_vma());
        lemma_bounded_carved::<VmaSetOperations>(m0, r, page_bound());
    }
    let mut d = data;
    let mut h = a;
    while h < b
        invariant
            a <= h <= b <= c.ks.len(),
            c.ks.len() == c.vs.len(),
            vmas.wf(),
            vmas.ranges() == c.ks,
            vmas.values().len() == c.vs.len(),
            d == total(vmas.model(), data_vma()),
            total(vmas.model(), any_vma()) == total(c, any_vma()),
            total(vmas.model(), locked_vma()) == total(c, locked_vma()),
            forall|j: int|
                0 <= j < c.ks.len() ==> (#[trigger] vmas.values()[j]) == (if a <= j < h {
                    Vma {
                        real_perms: perms,
                        effective_perms: perms.granted(),
                        ..c.vs[j]
                    }
                } else {
                    c.vs[j]
                }),
        decreases b - h,
    {
        let ghost before = vmas.model();
        let k = vmas.range_of(h);
        let n = k.end - k.start;
        let v = *vmas.value_of(h);
        let mut w = v;
        w.real_perms = perms;
        w.effective_perms = perms.effective();
        proof {
            assert(VmaSetOperations::fits(before.ks[h as int], before.vs[h as int]));
            lemma_total_set_value(before, h as int, w, any_vma());
            lemma_total_set_value(before, h as int, w, data_vma());
            lemma_total_set_value(before, h as int, w, locked_vma());
        }
        vmas.set_value_of(h, w);
        proof {
            lemma_total_bound(before, data_vma());
            lemma_total_bound(vmas.model(), data_vma());
        }
        if v.is_private_data() && !w.is_private_data() {
            d = d - n;
        }
        if w.is_private_data() && !v.is_private_data() {
            d = d + n;
        }
        h = h + 1;
    }
    proof {
        let m = vmas.model();
        assert(m =~= revalued::<VmaSetOperations>(m0, r, vma_with_perms(perms)));
        assert forall|k: int| #[trigger]
            vma_at(m, k) == (if r.has(k) {
                with_perms(vma_at(m0, k), perms)
            } else {
                vma_at(m0, k)
            }) by {
            carving_keeps::<VmaSetOperations>(m0, r, k);
            let j = same_speaker::<VmaSetOperations>(c, m, r, a as int, b as int, k);
        }
    }
    d
}

/// Brings the memory behind the addresses in `r` to permissions `perms`, and
/// tells whether any of it had more.
fn protect_pmas(pmas: &mut PmaSet, r: AddrRange, perms: AccessType) -> (weakened: bool)
    requires
        old(pmas).wf(),
        bounded(old(pmas).ranges(), page_bound()),
        whole_pages(r),
        r.start <= r.end,
    ensures
        final(pmas).wf(),
        bounded(final(pmas).ranges(), page_bound()),
        total(final(pmas).model(), any_pma()) == total(old(pmas).model(), any_pma()),
        final(pmas).model() == revalued::<PmaSetOperations>(
            old(pmas).model(),
            r,
            pma_with_perms(perms),
        ),
        forall|k: int| #[trigger]
            pma_at(final(pmas).model(), k) == (if r.has(k) {
                re_permitted(pma_at(old(pmas).model(), k), perms)
            } else {
                pma_at(old(pmas).model(), k)
            }),
        weakened == any_exceeds(old(pmas).model(), r, perms),
{
    let ghost m0 = pmas.model();
    let (a, b) = pmas.carve(r);
    let ghost c = pmas.model();
    proof {
        lemma_pma_properties_last();
        lemma_total_carved::<PmaSetOperations>(m0, r, any_pma());
        lemma_bounded_carved::<PmaSetOperations>(m0, r, page_bound());
    }
    let mut weakened = false;
    let mut h = a;
    while h < b
        invariant
            a <= h <= b <= c.ks.len(),
            c.ks.len() == c.vs.len(),
            pmas.wf(),
            pmas.ranges() == c.ks,
            pmas.values().len() == c.vs.len(),
            total(pmas.model(), any_pma()) == total(c, any_pma()),
            forall|j: int|
                0 <= j < c.ks.len() ==> (#[trigger] pmas.values()[j]) == (if a <= j < h {
                    PmaView {
                        effective_perms: if c.vs[j].need_cow {
                            AccessType { write: true, ..perms.meet(c.vs[j].translate_perms) }
                        } else {
                            perms.meet(c.vs[j].translate_perms)
                        },
                        ..c.vs[j]
                    }
                } else {
                    c.vs[j]
                }),
            weakened == exists|j: int|
                a <= j < h && !perms.includes((#[trigger] c.vs[j]).effective_perms),
        decreases b - h,
    {
        let ghost before = pmas.model();
        let mut p = pmas.value_of(h).duplicate();
        if !perms.is_superset_of(p.effective_perms) {
            assert(!perms.includes(c.vs[h as int].effective_perms));
            weakened = true;
        }
        p.effective_perms = perms.intersect(p.translate_perms);
        if p.need_cow {
            p.effective_perms.write = true;
        }
        proof {
            assert(PmaSetOperations::fits(before.ks[h as int], before.vs[h as int]));
            lemma_total_set_value(before, h as int, p@, any_pma());
        }
        pmas.set_value_of(h, p);
        h = h + 1;
    }
    proof {
        let m = pmas.model();
        assert(m =~= revalued::<PmaSetOperations>(m0, r, pma_with_perms(perms)));
        assert forall|k: int| #[trigger]
            pma_at(m, k) == (if r.has(k) {
                re_permitted(pma_at(m0, k), perms)
            } else {
                pma_at(m0, k)
            }) by {
            carving_keeps::<PmaSetOperations>(m0, r, k);
            let j = same_speaker::<PmaSetOperations>(c, m, r, a as int, b as int, k);
        }
        if weakened {
            let j = choose|j: int|
                a <= j < b && !perms.includes((#[trigger] c.vs[j]).effective_perms);
            let k = c.ks[j].start as int;
            assert(r.covers(c.ks[j]));
            assert(held_at(c.ks, k, j));
            lemma_point_held::<PmaSetOperations>(c, k, j);
            carving_keeps::<PmaSetOperations>(m0, r, k);
            assert(exceeds(pma_at(m0, k), perms));
        }
        if any_exceeds(m0, r, perms) {
            let k = choose|k: int| r.has(k) && exceeds(#[trigger] pma_at(m0, k), perms);
            carving_keeps::<PmaSetOperations>(m0, r, k);
            let j = same_speaker::<PmaSetOperations>(c, m, r, a as int, b as int, k);
            assert(!perms.includes(c.vs[j].effective_perms));
        }
    }
    weakened
}

/// Has the memory of the areas in `r` placed otherwise.
fn place_vmas(vmas: &mut VmaSet, r: AddrRange, policy: NumaPolicy, nodemask: u64)
    requires
        old(vmas).wf(),
        bounded(old(vmas).ranges(), page_bound()),
        whole_pages(r),
        r.start <= r.end,
    ensures
        final(vmas).wf(),
        bounded(final(vmas).ranges(), page_bound()),
        total(final(vmas).model(), data_vma()) == total(old(vmas).model(), data_vma()),
        total(final(vmas).model(), any_vma()) == total(old(vmas).model(), any_vma()),
        total(final(vmas).model(), locked_vma()) == total(old(vmas).model(), locked_vma()),
        final(vmas).model() == revalued::<VmaSetOperations>(
            old(vmas).model(),
            r,
            vma_with_numa(policy, nodemask),
        ),
        forall|k: int| #[trigger]
            vma_at(final(vmas).model(), k) == (if r.has(k) {
                with_numa(vma_at(old(vmas).model(), k), policy, nodemask)
            } else {
                vma_at(old(vmas).model(), k)
            }),
{
    let ghost m0 = vmas.model();
    let (a, b) = vmas.carve(r);
    let ghost c = vmas.model();
    proof {
        lemma_vma_properties_last();
        lemma_total_carved::<VmaSetOperations>(m0, r, any_vma());
        lemma_total_carved::<VmaSetOperations>(m0, r, data_vma());
        lemma_total_carved::<VmaSetOperations>(m0, r, locked_vma());
        lemma_bounded_carved::<VmaSetOperations>(m0, r, page_bound());
    }
    let mut h = a;
    while h < b
        invariant
            a <= h <= b <= c.ks.len(),
            c.ks.len() == c.vs.len(),
            vmas.wf(),
            vmas.ranges() == c.ks,
            vmas.values().len() == c.vs.len(),
            total(vmas.model(), data_vma()) == total(c, data_vma()),
            total(vmas.model(), any_vma()) == total(c, any_vma()),
            total(vmas.model(), locked_vma()) == total(c, locked_vma()),
            forall|j: int|
                0 <= j < c.ks.len() ==> (#[trigger] vmas.values()[j]) == (if a <= j < h {
                    Vma { numa_policy: policy, numa_nodemask: nodemask, ..c.vs[j] }
                } else {
                    c.vs[j]
                }),
        decreases b - h,
    {
        let ghost before = vmas.model();
        let mut w = *vmas.value_of(h);
        w.numa_policy = policy;
        w.numa_nodemask = nodemask;
        proof {
            assert(VmaSetOperations::fits(before.ks[h as int], before.vs[h as int]));
            lemma_total_set_value(before, h as int, w, any_vma());
            lemma_total_set_value(before, h as int, w, data_vma());
            lemma_total_set_value(before, h as int, w, locked_vma());
        }
        vmas.set_value_of(h, w);
        h = h + 1;
    }
    proof {
        let m = vmas.model();
        assert(m =~= revalued::<VmaSetOperations>(m0, r, vma_with_numa(policy, nodemask)));
        assert forall|k: int| #[trigger]
            vma_at(m, k) == (if r.has(k) {
                with_numa(vma_at(m0, k), policy, nodemask)
            } else {
                vma_at(m0, k)
            }) by {
            carving_keeps::<VmaSetOperations>(m0, r, k);
            let j = same_speaker::<VmaSetOperations>(c, m, r, a as int, b as int, k);
        }
    }
}

/// Where a change of permissions starts: where it was asked to, or, for an area
/// that grows down, where the area does.
pub open spec fn protect_start(m: Segments<Vma>, ar: AddrRange, grows_down: bool) -> Result<
    u64,
    i32,
> {
    let i = first_past(m.ks, ar.start as int);
    if i == m.ks.len() {
        Err(ENOMEM)
    } else if grows_down {
        if !m.vs[i].grows_down {
            Err(EINVAL)
        } else if ar.end <= m.ks[i].start {
            Err(ENOMEM)
        } else {
            Ok(m.ks[i].start)
        }
    } else if ar.start < m.ks[i].start {
        Err(ENOMEM)
    } else {
        Ok(ar.start)
    }
}

/// The permissions have changed from the start of `ar` up to `x`.
pub open spec fn protected(
    a: MemoryManager,
    b: MemoryManager,
    ar: AddrRange,
    x: u64,
    perms: AccessType,
) -> bool {
    let r = Range { start: ar.start, end: x };
    let eff = perms.granted();
    let vm = a.vmas.model();
    let areas = carved::<VmaSetOperations>(vm, r).ks;
    let first = below(areas, r.start);
    &&& if r.start < r.end {
        &&& tidied::<VmaSetOperations>(
            revalued::<VmaSetOperations>(vm, r, vma_with_perms(perms)),
            ar,
            b.vmas.model(),
        )
        &&& tidied::<PmaSetOperations>(
            re_permitted_behind(
                a.pmas.model(),
                areas,
                first,
                below(areas, r.end) - first,
                eff,
            ),
            ar,
            b.pmas.model(),
        )
    } else {
        &&& tidied::<VmaSetOperations>(vm, ar, b.vmas.model())
        &&& tidied::<PmaSetOperations>(a.pmas.model(), ar, b.pmas.model())
    }
    &&& forall|k: int| #[trigger]
        vma_at(b.vmas.model(), k) == (if r.has(k) {
            with_perms(vma_at(a.vmas.model(), k), perms)
        } else {
            vma_at(a.vmas.model(), k)
        })
    &&& forall|k: int| #[trigger]
        pma_at(b.pmas.model(), k) == (if r.has(k) {
            re_permitted(pma_at(a.pmas.model(), k), eff)
        } else {
            pma_at(a.pmas.model(), k)
        })
    &&& places_kept(a.pmas.model(), b.pmas.model())
    &&& b.outbox@ == (if any_exceeds(a.pmas.model(), r, eff) {
        a.outbox@.unmapping(ar.common(a.layout.application()))
    } else {
        a.outbox@
    })
    &&& b.cur_rss == a.cur_rss
    &&& b.usage_address_space == a.usage_address_space
    &&& b.locked_as == a.locked_as
    &&& b.locked_drift() == a.locked_drift()
}

/// What a change of permissions comes to that got up to `x`.
pub open spec fn protect_result(m: Segments<Vma>, ar: AddrRange, x: u64) -> SysResult<()> {
    if x == ar.end {
        Ok(())
    } else if vma_at(m, x as int) is None {
        Err(sys(ENOMEM))
    } else {
        Err(sys(EACCES))
    }
}

/// What comes of asking for the permissions of pages to be changed.
pub open spec fn mprotects(
    a: MemoryManager,
    b: MemoryManager,
    addr: Addr,
    length: u64,
    real_perms: AccessType,
    grows_down: bool,
    res: SysResult<()>,
) -> bool {
    let len = Addr(length).page_above();
    let m = a.vmas.model();
    if !addr.page_aligned() {
        res == Err::<(), SysError>(sys(EINVAL)) && b == a
    } else if length == 0 {
        res == Ok::<(), SysError>(()) && b == a
    } else if addr.0 + len > u64::MAX {
        res == Err::<(), SysError>(sys(ENOMEM)) && b == a
    } else {
        let ar = Range { start: addr.0, end: (addr.0 + len) as u64 };
        match protect_start(m, ar, grows_down) {
            Err(code) => res == Err::<(), SysError>(sys(code)) && b == a,
            Ok(start) => {
                let ar = Range { start, end: ar.end };
                exists|x: u64|
                    {
                        &&& #[trigger] reaches(m, ar, real_perms.granted(), true, x)
                        &&& protected(a, b, ar, x, real_perms)
                        &&& res == protect_result(m, ar, x)
                    }
            },
        }
    }
}

/// What comes of having the memory of whole pages from `addr` on placed otherwise.
pub open spec fn sets_numa(
    a: MemoryManager,
    b: MemoryManager,
    addr: Addr,
    length: u64,
    policy: NumaPolicy,
    nodemask: u64,
    res: SysResult<()>,
) -> bool {
    let len = Addr(length).page_above();
    let m = a.vmas.model();
    if !addr.page_aligned() || addr.0 + len > u64::MAX {
        res == Err::<(), SysError>(sys(EINVAL)) && b == a
    } else if length == 0 {
        res == Ok::<(), SysError>(()) && b == a
    } else {
        let ar = Range { start: addr.0, end: (addr.0 + len) as u64 };
        exists|x: u64|
            {
                &&& #[trigger] reaches(m, ar, AccessType::none(), true, x)
                &&& ({
                    let r = Range { start: ar.start, end: x };
                    let n = if r.start < r.end {
                        revalued::<VmaSetOperations>(
                            m,
                            r,
                            vma_with_numa(policy, nodemask),
                        )
                    } else {
                        m
                    };
                    if x == ar.end || (x == ar.start && first_past(m.ks, x as int)
                        < m.ks.len()) {
                        tidied::<VmaSetOperations>(n, ar, b.vmas.model())
                    } else {
                        b.vmas.model() == n
                    }
                })
                &&& forall|k: int| #[trigger]
                    vma_at(b.vmas.model(), k) == (if ar.start <= k < x {
                        with_numa(vma_at(m, k), policy, nodemask)
                    } else {
                        vma_at(m, k)
                    })
                &&& res == (if x == ar.end {
                    Ok::<(), SysError>(())
                } else if x == ar.start && first_past(m.ks, x as int) < m.ks.len() {
                    Err(sys(EFAULT))
                } else {
                    Err(sys(EINVAL))
                })
            }
    }
}

impl MemoryManager {
    /// Changes the permissions of whole pages from `addr` on, as far as all is
    /// mapped that may have them.
    pub fn mprotect(
        &mut self,
        addr: Addr,
        length: u64,
        real_perms: AccessType,
        grows_down: bool,
    ) -> (res: SysResult<()>)
        requires
            old(self).wf(),
        ensures
            final(self).wf(),
            final(self).same_settings(old(self)),
            final(self).brk == old(self).brk,
            final(self).max_rss == old(self).max_rss,
            mprotects(*old(self), *final(self), addr, length, real_perms, grows_down, res),
    {
        if addr.page_offset() != 0 {
            return Err(SysError::new(EINVAL));
        }
        if length == 0 {
            return Ok(());
        }
        let rlength = match Addr(length).round_up() {
            Some(l) => l,
            None => return Err(SysError::new(ENOMEM)),
        };
        let mut ar = match addr.to_range(rlength.0) {
            Some(ar) => ar,
            None => return Err(SysError::new(ENOMEM)),
        };
        let effective_perms = real_perms.effective();
        let ghost m0 = self.vmas.model();
        let i = self.vmas.index_past(ar.start);
        if i >= self.vmas.count_segments() {
            return Err(SysError::new(ENOMEM));
        }
        let first = self.vmas.range_of(i);
        if grows_down {
            if !self.vmas.value_of(i).grows_down {
                return Err(SysError::new(EINVAL));
            }
            if ar.end <= first.start {
                return Err(SysError::new(ENOMEM));
            }
            assert(page_bound()(m0.ks[i as int].start));
            ar.start = first.start;
        } else if ar.start < first.start {
            return Err(SysError::new(ENOMEM));
        }
        let x = self.reach(ar, effective_perms, true);
        proof {
            assert(reaches(m0, ar, effective_perms, true, x));
        }
        self.protect_up_to(ar, x, real_perms);
        if x >= ar.end {
            return Ok(());
        }
        let mapped = self.vmas.index_holding(x).is_some();
        proof {
            lemma_holds(self.vmas.model(), x);
            assert(vma_at(self.vmas.model(), x as int) == vma_at(m0, x as int));
        }
        if mapped {
            Err(SysError::new(EACCES))
        } else {
            Err(SysError::new(ENOMEM))
        }
    }

    /// Brings the memory behind each area in `r` to permissions `perms`, and tells
    /// whether any of it had more. Before, the areas were `vm`, not yet cut at the
    /// bounds of `r`.
    fn protect_memory(&mut self, r: AddrRange, perms: AccessType, vm: Ghost<Segments<Vma>>) -> (
    weakened: bool)
        requires
            old(self).vmas.wf(),
            old(self).pmas.wf(),
            bounded(old(self).vmas.ranges(), page_bound()),
            bounded(old(self).pmas.ranges(), page_bound()),
            wf_segments::<VmaSetOperations>(vm@),
            backed(vm@, old(self).pmas.model()),
            r.start < r.end,
            old(self).vmas.ranges() == carved::<VmaSetOperations>(vm@, r).ks,
        ensures
            *final(self) == (MemoryManager { pmas: final(self).pmas, ..*old(self) }),
            final(self).pmas.wf(),
            bounded(final(self).pmas.ranges(), page_bound()),
            total(final(self).pmas.model(), any_pma()) == total(
                old(self).pmas.model(),
                any_pma(),
            ),
            ({
                let areas = old(self).vmas.ranges();
                let a = below(areas, r.start);
                final(self).pmas.model() == re_permitted_behind(
                    old(self).pmas.model(),
                    areas,
                    a,
                    below(areas, r.end) - a,
                    perms,
                )
            }),
            forall|k: int| #[trigger]
                pma_at(final(self).pmas.model(), k) == (if r.has(k) {
                    re_permitted(pma_at(old(self).pmas.model(), k), perms)
                } else {
                    pma_at(old(self).pmas.model(), k)
                }),
            weakened == any_exceeds(old(self).pmas.model(), r, perms),
    {
        let ghost mm0 = *self;
        let ghost areas = self.vmas.ranges();
        let ghost m0 = self.pmas.model();
        proof {
            carving_keeps::<VmaSetOperations>(vm@, r, 0);
            lemma_cut_is_sorted(vm@, r);
            lemma_carved_parts::<VmaSetOperations>(vm@, r);
        }
        let a = self.vmas.rank_before(Range { start: r.start, end: r.start });
        let b = self.vmas.rank_before(Range { start: r.end, end: r.end });
        let mut weakened = false;
        let mut h = a;
        while h < b
            invariant
                a <= h <= b <= areas.len(),
                sorted(areas),
                bounded(areas, page_bound()),
                *self == (MemoryManager { pmas: self.pmas, ..mm0 }),
                areas == mm0.vmas.ranges(),
                self.vmas.wf(),
                self.pmas.wf(),
                bounded(self.pmas.ranges(), page_bound()),
                total(self.pmas.model(), any_pma()) == total(m0, any_pma()),
                self.pmas.model() == re_permitted_behind(m0, areas, a as int, h - a, perms),
                forall|k: int| #[trigger]
                    pma_at(self.pmas.model(), k) == (if behind(areas, a as int, h as int, k) {
                        re_permitted(pma_at(m0, k), perms)
                    } else {
                        pma_at(m0, k)
                    }),
                weakened == exists|k: int|
                    behind(areas, a as int, h as int, k) && exceeds(
                        #[trigger] pma_at(m0, k),
                        perms,
                    ),
            decreases b - h,
        {
            let ghost before = self.pmas.model();
            let vr = self.vmas.range_of(h);
            proof {
                assert(page_bound()(areas[h as int].start) && page_bound()(areas[h as int].end));
                assert(areas[h as int].start < areas[h as int].end);
            }
            let more = protect_pmas(&mut self.pmas, vr, perms);
            proof {
                lemma_behind_next(m0, before, self.pmas.model(), areas, a as int, h as int, perms);
            }
            weakened = weakened || more;
            h = h + 1;
        }
        proof {
            let m = self.pmas.model();
            assert forall|k: int| r.has(k) && pma_at(m0, k) is Some implies behind(
                areas,
                a as int,
                b as int,
                k,
            ) by {
                lemma_behind_all(vm@, m0, r, k);
            }
            assert forall|k: int| behind(areas, a as int, b as int, k) implies r.has(k) by {
                let j = choose|j: int| a <= j < b && (#[trigger] areas[j]).has(k);
                assert(r.covers(areas[j]));
            }
            assert forall|k: int| #[trigger]
                pma_at(m, k) == (if r.has(k) {
                    re_permitted(pma_at(m0, k), perms)
                } else {
                    pma_at(m0, k)
                }) by {
                assert(behind(areas, a as int, b as int, k) ==> r.has(k));
                assert(r.has(k) && pma_at(m0, k) is Some ==> behind(
                    areas,
                    a as int,
                    b as int,
                    k,
                ));
            }
            if any_exceeds(m0, r, perms) {
                let k = choose|k: int| r.has(k) && exceeds(#[trigger] pma_at(m0, k), perms);
                assert(behind(areas, a as int, b as int, k));
            }
        }
        weakened
    }

    /// Changes the permissions from the start of `ar` up to `x`.
    fn protect_up_to(&mut self, ar: AddrRange, x: u64, real_perms: AccessType)
        requires
            old(self).wf(),
            whole_pages(ar),
            ar.start < ar.end,
            ar.start <= x <= ar.end,
            Addr(x).page_aligned(),
        ensures
            final(self).wf(),
            final(self).same_settings(old(self)),
            final(self).brk == old(self).brk,
            final(self).max_rss == old(self).max_rss,
            protected(*old(self), *final(self), ar, x, real_perms),
    {
        let ghost mm0 = *self;
        let ghost vm0 = self.vmas.model();
        let ghost pm0 = self.pmas.model();
        let r = Range { start: ar.start, end: x };
        let eff = real_perms.effective();
        if ar.start < x {
            self.data_address_space = protect_vmas(
                &mut self.vmas,
                r,
                real_perms,
                self.data_address_space,
            );
            if self.protect_memory(r, eff, Ghost(vm0)) {
                self.unmap_address_space(ar);
            }
        }
        let ghost vm1 = self.vmas.model();
        let ghost pm1 = self.pmas.model();
        tidy(&mut self.vmas, ar);
        tidy(&mut self.pmas, ar);
        proof {
            lemma_vma_properties_last();
            lemma_pma_properties_last();
            let vm = self.vmas.model();
            let pm = self.pmas.model();
            if ar.start < x {
                let areas = carved::<VmaSetOperations>(vm0, r).ks;
                let a = below(areas, r.start);
                lemma_protected_places(pm0, areas, a, below(areas, r.end) - a, eff, ar, pm);
            } else {
                lemma_tidied_places(pm0, ar, pm);
            }
            assert(total(vm, data_vma()) == total(vm1, data_vma()));
            assert(total(vm, any_vma()) == total(vm1, any_vma()));
            assert(total(vm, locked_vma()) == total(vm1, locked_vma()));
            assert(total(pm, any_pma()) == total(pm1, any_pma()));
            assert forall|k: int| #[trigger]
                vma_at(vm, k) == (if r.has(k) {
                    with_perms(vma_at(vm0, k), real_perms)
                } else {
                    vma_at(vm0, k)
                }) by {
                assert(vma_at(vm, k) == vma_at(vm1, k));
            }
            assert forall|k: int| #[trigger]
                pma_at(pm, k) == (if r.has(k) {
                    re_permitted(pma_at(pm0, k), eff)
                } else {
                    pma_at(pm0, k)
                }) by {
                assert(pma_at(pm, k) == pma_at(pm1, k));
            }
            assert forall|k: int| backs(vma_at(vm, k), #[trigger] pma_at(pm, k)) by {
                assert(backs(vma_at(vm0, k), pma_at(pm0, k)));
            }
        }
    }

    /// Has the memory of whole pages from `addr` on placed otherwise, as far as
    /// all is mapped.
    pub fn set_numa_policy(
        &mut self,
        addr: Addr,
        length: u64,
        policy: NumaPolicy,
        nodemask: u64,
    ) -> (res: SysResult<()>)
        requires
            old(self).wf(),
        ensures
            final(self).wf(),
            final(self).same_settings(old(self)),
            final(self).brk == old(self).brk,
            final(self).max_rss == old(self).max_rss,
            final(self).pmas == old(self).pmas,
            final(self).outbox == old(self).outbox,
            final(self).locked_drift() == old(self).locked_drift(),
            sets_numa(*old(self), *final(self), addr, length, policy, nodemask, res),
    {
        if addr.page_offset() != 0 {
            return Err(SysError::new(EINVAL));
        }
        let la = match Addr(length).round_up() {
            Some(la) => la,
            None => return Err(SysError::new(EINVAL)),
        };
        let ar = match addr.to_range(la.0) {
            Some(ar) => ar,
            None => return Err(SysError::new(EINVAL)),
        };
        if ar.is_empty() {
            return Ok(());
        }
        let ghost mm0 = *self;
        let ghost m0 = self.vmas.model();
        let x = self.reach(ar, AccessType::no_access(), true);
        let any = self.vmas.index_past(ar.start) < self.vmas.count_segments();
        if ar.start < x {
            place_vmas(&mut self.vmas, Range { start: ar.start, end: x }, policy, nodemask);
        }
        let ghost m1 = self.vmas.model();
        let res = if x >= ar.end {
            Ok(())
        } else if x == ar.start && any {
            Err(SysError::new(EFAULT))
        } else {
            Err(SysError::new(EINVAL))
        };
        if x >= ar.end || (x == ar.start && any) {
            tidy(&mut self.vmas, ar);
        }
        proof {
            lemma_vma_properties_last();
            let m = self.vmas.model();
            assert(total(m, data_vma()) == total(m1, data_vma()));
            assert(total(m, any_vma()) == total(m1, any_vma()));
            assert(total(m, locked_vma()) == total(m1, locked_vma()));
            assert forall|k: int| #[trigger]
                vma_at(m, k) == (if ar.start <= k < x {
                    with_numa(vma_at(m0, k), policy, nodemask)
                } else {
                    vma_at(m0, k)
                }) by {
                assert(vma_at(m, k) == vma_at(m1, k));
            }
            assert forall|k: int| backs(
                vma_at(m, k),
                #[trigger] pma_at(self.pmas.model(), k),
            ) by {
                assert(backs(vma_at(m0, k), pma_at(mm0.pmas.model(), k)));
            }
            assert(reaches(m0, ar, AccessType::none(), true, x));
        }
        res
    }
}

/// A cut leaves areas sorted.
proof fn lemma_cut_is_sorted(vm: Segments<Vma>, r: AddrRange)
    requires
        wf_segments::<VmaSetOperations>(vm),
    ensures
        sorted(cut_at_key::<VmaSetOperations>(vm, r.start).ks),
{
    cutting_at_key_keeps::<VmaSetOperations>(vm, r.start, 0);
}

/// The memory behind one area more was brought to other permissions.
proof fn lemma_behind_next(
    m0: Segments<PmaView>,
    before: Segments<PmaView>,
    m: Segments<PmaView>,
    areas: Seq<Range>,
    a: int,
    h: int,
    perms: AccessType,
)
    requires
        sorted(areas),
        0 <= a <= h < areas.len(),
        forall|k: int| #[trigger]
            pma_at(before, k) == (if behind(areas, a, h, k) {
                re_permitted(pma_at(m0, k), perms)
            } else {
                pma_at(m0, k)
            }),
        forall|k: int| #[trigger]
            pma_at(m, k) == (if areas[h].has(k) {
                re_permitted(pma_at(before, k), perms)
            } else {
                pma_at(before, k)
            }),
    ensures
        forall|k: int| #[trigger]
            pma_at(m, k) == (if behind(areas, a, h + 1, k) {
                re_permitted(pma_at(m0, k), perms)
            } else {
                pma_at(m0, k)
            }),
        (exists|k: int|
            behind(areas, a, h + 1, k) && exceeds(#[trigger] pma_at(m0, k), perms)) == ((exists|
            k: int,
        |
            behind(areas, a, h, k) && exceeds(#[trigger] pma_at(m0, k), perms)) || any_exceeds(
            before,
            areas[h],
            perms,
        )),
{
    assert forall|k: int| #[trigger] behind(areas, a, h + 1, k) == (behind(areas, a, h, k)
        || areas[h].has(k)) by {
        if behind(areas, a, h + 1, k) {
            let j = choose|j: int| a <= j < h + 1 && (#[trigger] areas[j]).has(k);
            assert(areas[j].has(k));
        }
        if behind(areas, a, h, k) {
            let j = choose|j: int| a <= j < h && (#[trigger] areas[j]).has(k);
            assert(areas[j].has(k));
        }
    }
    assert forall|k: int| areas[h].has(k) implies !#[trigger] behind(areas, a, h, k) by {
        if behind(areas, a, h, k) {
            let j = choose|j: int| a <= j < h && (#[trigger] areas[j]).has(k);
            assert(areas[j].end <= areas[h].start);
        }
    }
    assert forall|k: int| #[trigger]
        pma_at(m, k) == (if behind(areas, a, h + 1, k) {
            re_permitted(pma_at(m0, k), perms)
        } else {
            pma_at(m0, k)
        }) by {
        assert(pma_at(before, k) == pma_at(before, k));
    }
    if exists|k: int| behind(areas, a, h + 1, k) && exceeds(#[trigger] pma_at(m0, k), perms) {
        let k = choose|k: int|
            behind(areas, a, h + 1, k) && exceeds(#[trigger] pma_at(m0, k), perms);
        if areas[h].has(k) {
            assert(exceeds(pma_at(before, k), perms));
        }
    }
    if any_exceeds(before, areas[h], perms) {
        let k = choose|k: int| areas[h].has(k) && exceeds(#[trigger] pma_at(before, k), perms);
        assert(behind(areas, a, h + 1, k) && exceeds(pma_at(m0, k), perms));
    }
    if exists|k: int| behind(areas, a, h, k) && exceeds(#[trigger] pma_at(m0, k), perms) {
        let k = choose|k: int|
            behind(areas, a, h, k) && exceeds(#[trigger] pma_at(m0, k), perms);
        assert(behind(areas, a, h + 1, k));
    }
}

/// All memory in a range is behind the areas there.
proof fn lemma_behind_all(vm: Segments<Vma>, m: Segments<PmaView>, r: AddrRange, k: int)
    requires
        wf_segments::<VmaSetOperations>(vm),
        backed(vm, m),
        r.start < r.end,
        r.has(k),
        pma_at(m, k) is Some,
    ensures
        ({
            let areas = carved::<VmaSetOperations>(vm, r).ks;
            behind(areas, below(areas, r.start), below(areas, r.end), k)
        }),
{
    let c = carved::<VmaSetOperations>(vm, r);
    carving_keeps::<VmaSetOperations>(vm, r, k);
    lemma_cut_is_sorted(vm, r);
    lemma_carved_parts::<VmaSetOperations>(vm, r);
    assert(backs(vma_at(vm, k), pma_at(m, k)));
    if forall|i: int| !held_at(c.ks, k, i) {
        lemma_point_free::<VmaSetOperations>(c, k);
    }
    let i = choose|i: int| held_at(c.ks, k, i);
    assert(c.ks[i].has(k));
    if i < below(c.ks, r.start) {
        assert(c.ks[i].end <= r.start);
    }
    if i >= below(c.ks, r.end) {
        assert(r.end <= c.ks[i].start);
    }
}

/// Something is mapped exactly where an area holds the address.
proof fn lemma_holds(m: Segments<Vma>, x: u64)
    requires
        sorted(m.ks),
    ensures
        (vma_at(m, x as int) is Some) == exists|i: int| held_at(m.ks, x as int, i),
{
    if exists|i: int| held_at(m.ks, x as int, i) {
        let i = choose|i: int| held_at(m.ks, x as int, i);
        lemma_point_held::<VmaSetOperations>(m, x as int, i);
    } else {
        lemma_point_free::<VmaSetOperations>(m, x as int);
    }
}

} // verus!
