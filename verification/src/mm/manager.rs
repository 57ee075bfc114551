use vstd::prelude::*;

use crate::access::AccessType;
use crate::addr::{up_to, Addr, PAGE_SIZE};
use crate::memmap::MLockMode;
use crate::mm::layout::{MmapDirection, MmapLayout};
use crate::mm::pma::{any_pma, PmaPoint, PmaSet, PmaSetOperations, PmaView};
use crate::mm::refs::PrivateRefs;
use crate::mm::vma::{
    any_vma, data_vma, locked_vma, Vma, VmaPoint, VmaSet, VmaSetOperations,
};
use crate::range::{AddrRange, Range};
use crate::segment::bounds::bounded;
use crate::segment::model::Segments;
use crate::segment::point::{lemma_point_free, point};
use crate::segment::total::total;
use crate::segment::SegmentSet;

verus! {

/// Something that has to be done outside the memory manager.
#[derive(Debug, Clone, Copy, PartialEq, Eq, Structural)]
pub enum Effect {
    /// Unmap addresses in the address space of the application.
    Unmap(AddrRange),
    /// Tell an object that it is no longer mapped at a range of addresses.
    RemoveMapping { mappable: u64, ar: AddrRange, off: u64, writable: bool },
}

/// What is left to be done outside, in order. While there is no address space
/// it is only noted that one has to be unmapped as a whole.
#[derive(Debug)]
pub struct Outbox {
    pub active: bool,
    pub unmap_all_on_active: bool,
    pub effects: Vec<Effect>,
}

#[verifier::ext_equal]
pub ghost struct OutboxView {
    pub active: bool,
    pub unmap_all_on_active: bool,
    pub effects: Seq<Effect>,
}

impl View for Outbox {
    type V = OutboxView;

    open spec fn view(&self) -> OutboxView {
        OutboxView {
            active: self.active,
            unmap_all_on_active: self.unmap_all_on_active,
            effects: self.effects@,
        }
    }
}

impl OutboxView {
    /// After addresses were to be unmapped.
    pub open spec fn unmapping(self, r: AddrRange) -> OutboxView {
        if self.active {
            OutboxView { effects: self.effects.push(Effect::Unmap(r)), ..self }
        } else {
            OutboxView { unmap_all_on_active: true, ..self }
        }
    }

    /// After further effects.
    pub open spec fn followed_by(self, es: Seq<Effect>) -> OutboxView {
        OutboxView { effects: self.effects + es, ..self }
    }
}

/// The limits and privileges that apply to an application.
#[derive(Debug, Clone, Copy, PartialEq, Eq, Structural)]
pub struct Env {
    pub limit_as: u64,
    pub limit_mlock: u64,
    pub limit_data: u64,
    pub limit_stack: u64,
    /// The application may lock memory without limit.
    pub ipc_lock: bool,
}

/// The memory of an application.
pub struct MemoryManager {
    pub layout: MmapLayout,
    pub pmas: PmaSet,
    pub vmas: VmaSet,
    pub brk: AddrRange,
    pub usage_address_space: u64,
    pub locked_as: u64,
    pub data_address_space: u64,
    pub cur_rss: u64,
    pub max_rss: u64,
    pub private_refs: PrivateRefs,
    pub outbox: Outbox,
    pub capture_invalidations: bool,
    pub def_mlock_mode: MLockMode,
    pub argv: AddrRange,
    pub envv: AddrRange,
    pub auxv: Vec<(u64, Addr)>,
}

/// Keys at which a page may start.
pub open spec fn page_bound() -> spec_fn(u64) -> bool {
    |k: u64| Addr(k).page_aligned()
}

/// Both bounds are page bounds.
pub open spec fn whole_pages(r: Range) -> bool {
    Addr(r.start).page_aligned() && Addr(r.end).page_aligned()
}

/// What an application sees at address `k`.
pub open spec fn vma_at(m: Segments<Vma>, k: int) -> Option<VmaPoint> {
    point::<VmaSetOperations>(m, k)
}

/// The memory behind address `k`.
pub open spec fn pma_at(m: Segments<PmaView>, k: int) -> Option<PmaPoint> {
    point::<PmaSetOperations>(m, k)
}

/// The memory behind an address fits what the application sees there: private
/// memory that belongs to no object can be used in any way.
pub open spec fn backs(v: Option<VmaPoint>, p: Option<PmaPoint>) -> bool {
    match (v, p) {
        (_, None) => true,
        (None, Some(p)) => false,
        (Some(v), Some(p)) => v.mappable is None ==> p.translate_perms == AccessType::all(),
    }
}

/// There is memory only behind mapped addresses.
pub open spec fn backed(vm: Segments<Vma>, pm: Segments<PmaView>) -> bool {
    forall|k: int| backs(vma_at(vm, k), #[trigger] pma_at(pm, k))
}

/// 2 to the 64th power.
pub open spec fn word() -> int {
    0x1_0000_0000_0000_0000
}

impl MemoryManager {
    /// The memory of an application that is mapped in whole pages.
    pub open spec fn wf(&self) -> bool {
        &&& self.accounted()
        &&& bounded(self.vmas.ranges(), page_bound())
        &&& bounded(self.pmas.ranges(), page_bound())
    }

    /// All that is mapped is counted, and there is memory only behind it.
    pub open spec fn accounted(&self) -> bool {
        &&& self.layout.wf()
        &&& self.vmas.wf()
        &&& self.pmas.wf()
        &&& self.private_refs.refs.wf()
        &&& self.usage_address_space == total(self.vmas.model(), any_vma())
        &&& self.data_address_space == total(self.vmas.model(), data_vma())
        &&& self.cur_rss == total(self.pmas.model(), any_pma())
        &&& self.cur_rss <= self.max_rss
        &&& backed(self.vmas.model(), self.pmas.model())
        &&& !self.capture_invalidations
        &&& self.brk.start <= self.brk.end
        &&& up_to(self.brk.end as int, PAGE_SIZE as int) <= u64::MAX
    }

    /// How far the count of locked memory is off.
    pub open spec fn locked_drift(&self) -> int {
        (self.locked_as - total(self.vmas.model(), locked_vma())) % word()
    }

    /// The settings that most operations leave alone.
    pub open spec fn same_settings(&self, other: &MemoryManager) -> bool {
        &&& self.layout == other.layout
        &&& self.private_refs == other.private_refs
        &&& self.capture_invalidations == other.capture_invalidations
        &&& self.def_mlock_mode == other.def_mlock_mode
        &&& self.argv == other.argv
        &&& self.envv == other.envv
        &&& self.auxv == other.auxv
    }

    pub fn new() -> (mm: Self)
        ensures
            mm.wf(),
            mm.layout == (MmapLayout {
                min_addr: Addr(0),
                max_addr: Addr(0),
                bottom_up_base: Addr(0),
                top_down_base: Addr(0),
                default_direction: MmapDirection::MmapBottomUp,
                max_stack_rand: 0,
            }),
            mm.vmas.ranges() == Seq::<Range>::empty(),
            mm.pmas.ranges() == Seq::<Range>::empty(),
            mm.brk == (Range { start: 0, end: 0 }),
            mm.usage_address_space == 0,
            mm.data_address_space == 0,
            mm.locked_as == 0,
            mm.cur_rss == 0,
            mm.max_rss == 0,
            mm.outbox@ == (OutboxView {
                active: false,
                unmap_all_on_active: false,
                effects: Seq::empty(),
            }),
            !mm.capture_invalidations,
            mm.def_mlock_mode == MLockMode::None_,
    {
        let empty = Range { start: 0, end: 0 };
        let mm = MemoryManager {
            layout: MmapLayout::default(),
            pmas: SegmentSet::new(PmaSetOperations),
            vmas: SegmentSet::new(VmaSetOperations),
            brk: empty,
            usage_address_space: 0,
            locked_as: 0,
            data_address_space: 0,
            cur_rss: 0,
            max_rss: 0,
            private_refs: PrivateRefs::new(),
            outbox: Outbox { active: false, unmap_all_on_active: false, effects: Vec::new() },
            capture_invalidations: false,
            def_mlock_mode: MLockMode::None_,
            argv: empty,
            envv: empty,
            auxv: Vec::new(),
        };
        assert forall|k: int| backs(
            vma_at(mm.vmas.model(), k),
            #[trigger] pma_at(mm.pmas.model(), k),
        ) by {
            lemma_point_free::<PmaSetOperations>(mm.pmas.model(), k);
        }
        assert(mm.outbox@.effects =~= Seq::empty());
        mm
    }

    pub fn set_envv_start(&mut self, a: Addr)
        ensures
            *final(self) == (MemoryManager {
                envv: Range { start: a.0, end: old(self).envv.end },
                ..*old(self)
            }),
    {
        self.envv.start = a.0;
    }

    pub fn set_envv_end(&mut self, a: Addr)
        ensures
            *final(self) == (MemoryManager {
                envv: Range { start: old(self).envv.start, end: a.0 },
                ..*old(self)
            }),
    {
        self.envv.end = a.0;
    }

    pub fn set_argv_start(&mut self, a: Addr)
        ensures
            *final(self) == (MemoryManager {
                argv: Range { start: a.0, end: old(self).argv.end },
                ..*old(self)
            }),
    {
        self.argv.start = a.0;
    }

    pub fn set_argv_end(&mut self, a: Addr)
        ensures
            *final(self) == (MemoryManager {
                argv: Range { start: old(self).argv.start, end: a.0 },
                ..*old(self)
            }),
    {
        self.argv.end = a.0;
    }

    pub fn set_mmap_layout(&mut self, layout: MmapLayout) -> (l: MmapLayout)
        ensures
            *final(self) == (MemoryManager { layout, ..*old(self) }),
            l == layout,
    {
        self.layout = layout;
        layout
    }

    /// Notes whether there is an address space to work on.
    pub fn set_address_space(&mut self, active: bool)
        ensures
            *final(self) == (MemoryManager {
                outbox: Outbox { active, ..old(self).outbox },
                ..*old(self)
            }),
    {
        self.outbox.active = active;
    }

    pub fn set_auxv(&mut self, auxv: Vec<(u64, Addr)>)
        ensures
            *final(self) == (MemoryManager { auxv, ..*old(self) }),
    {
        self.auxv = auxv;
    }

    /// Hands out what is left to be done outside.
    pub fn take_effects(&mut self) -> (es: Vec<Effect>)
        ensures
            es@ == old(self).outbox.effects@,
            final(self).outbox@ == (OutboxView { effects: Seq::empty(), ..old(self).outbox@ }),
            final(self).same_settings(old(self)),
            final(self).vmas == old(self).vmas,
            final(self).pmas == old(self).pmas,
            final(self).brk == old(self).brk,
            final(self).usage_address_space == old(self).usage_address_space,
            final(self).data_address_space == old(self).data_address_space,
            final(self).locked_as == old(self).locked_as,
            final(self).cur_rss == old(self).cur_rss,
            final(self).max_rss == old(self).max_rss,
    {
        let mut es: Vec<Effect> = Vec::new();
        std::mem::swap(&mut es, &mut self.outbox.effects);
        assert(self.outbox@.effects =~= Seq::empty());
        es
    }

    /// The range of `length` bytes at `addr`, if the application may use it.
    pub fn check_io_range(&self, addr: Addr, length: i64) -> (r: Option<AddrRange>)
        ensures
            match r {
                Some(r) => r.start == addr.0 && r.end == addr.0 + (length as u64) && r.end
                    <= self.layout.max_addr.0,
                None => addr.0 + (length as u64) > u64::MAX || addr.0 + (length as u64)
                    > self.layout.max_addr.0,
            },
    {
        match addr.to_range(length as u64) {
            Some(r) => if r.end <= self.layout.max_addr.0 {
                Some(r)
            } else {
                None
            },
            None => None,
        }
    }

    /// Whether the application may use all of the ranges.
    pub fn check_io_vec(&self, ars: &Vec<AddrRange>) -> (ok: bool)
        requires
            forall|i: int| 0 <= i < ars@.len() ==> (#[trigger] ars@[i]).well_formed(),
        ensures
            ok == forall|i: int|
                0 <= i < ars@.len() ==> (#[trigger] ars@[i]).end <= self.layout.max_addr.0,
    {
        let mut i: usize = 0;
        while i < ars.len()
            invariant
                i <= ars@.len(),
                forall|j: int| 0 <= j < ars@.len() ==> (#[trigger] ars@[j]).well_formed(),
                forall|j: int|
                    0 <= j < i ==> (#[trigger] ars@[j]).end <= self.layout.max_addr.0,
            decreases ars@.len() - i,
        {
            if ars[i].end > self.layout.max_addr.0 {
                assert(ars@[i as int].end > self.layout.max_addr.0);
                return false;
            }
            i = i + 1;
        }
        true
    }

    pub fn application_addr_range(&self) -> (r: AddrRange)
        ensures
            r == self.layout.application(),
    {
        Range { start: self.layout.min_addr.0, end: self.layout.max_addr.0 }
    }

    /// Has addresses unmapped in the address space.
    pub(crate) fn unmap_address_space(&mut self, ar: AddrRange)
        requires
            ar.well_formed(),
            old(self).layout.wf(),
        ensures
            final(self).outbox@ == old(self).outbox@.unmapping(
                ar.common(old(self).layout.application()),
            ),
            *final(self) == (MemoryManager { outbox: final(self).outbox, ..*old(self) }),
    {
        let r = ar.intersect(&self.application_addr_range());
        if self.outbox.active {
            self.outbox.effects.push(Effect::Unmap(r));
        } else {
            self.outbox.unmap_all_on_active = true;
        }
    }
}

} // verus!
