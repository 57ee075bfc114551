use vstd::prelude::*;

use crate::addr::Addr;
use crate::loader::elf::{first_load, in_order, loadable, ElfView, ProgramHeader};
use crate::loader::place::{fits, layout_of, loads, steps_of, LoadStep};

verus! {

/// The step that maps part of a file maps the byte at `off` to the address `x`.
pub open spec fn maps_byte(step: LoadStep, x: int, off: int) -> bool {
    match step {
        LoadStep::MapFile(o) => o.addr.0 <= x < o.addr.0 + o.length && o.offset + (x - o.addr.0)
            == off,
        _ => false,
    }
}

/// The step has zeros at the address `x`.
pub open spec fn clears(step: LoadStep, x: int) -> bool {
    match step {
        LoadStep::MapFile(_) => false,
        LoadStep::Zero { addr, length } => addr.0 <= x < addr.0 + length,
        LoadStep::MapAnonymous(o) => o.mappable is None && o.addr.0 <= x < o.addr.0 + o.length,
    }
}

/// The step has to do with the address `x`.
pub open spec fn touches(step: LoadStep, x: int) -> bool {
    match step {
        LoadStep::MapFile(o) => o.addr.0 <= x < o.addr.0 + o.length,
        LoadStep::Zero { addr, length } => addr.0 <= x < addr.0 + length,
        LoadStep::MapAnonymous(o) => o.addr.0 <= x < o.addr.0 + o.length,
    }
}

/// Each byte of the file that a segment holds comes to lie at its address, and nothing
/// that is done afterwards changes it.
pub proof fn segment_holds_its_file(ph: ProgramHeader, offset: Addr, j: int)
    requires
        fits(ph, offset),
        0 <= j < ph.p_filesz,
    ensures
        ({
            let steps = steps_of(ph, layout_of(ph, offset));
            let x = offset.0 + ph.p_vaddr + j;
            exists|p: int|
                {
                    &&& 0 <= p < steps.len()
                    &&& maps_byte(#[trigger] steps[p], x, ph.p_offset + j)
                    &&& forall|q: int|
                        p < q < steps.len() ==> !touches(#[trigger] steps[q], x)
                }
        }),
{
    let l = layout_of(ph, offset);
    let steps = steps_of(ph, l);
    let x = offset.0 + ph.p_vaddr + j;
    assert(l.map_size >= l.file_size > 0);
    assert(steps[0] is MapFile);
    assert(maps_byte(steps[0], x, ph.p_offset + j));
    assert forall|q: int| 0 < q < steps.len() implies !touches(#[trigger] steps[q], x) by {
        if l.map_size > l.file_size && q == 1 {
            assert(steps[q] is Zero);
        } else {
            assert(steps[q] is MapAnonymous);
        }
    }
}

/// The memory of a segment past its part of the file holds zeros, whatever the file
/// holds there.
pub proof fn segment_ends_in_zeros(ph: ProgramHeader, offset: Addr, j: int)
    requires
        fits(ph, offset),
        ph.p_filesz <= j < ph.p_memsz,
    ensures
        ({
            let steps = steps_of(ph, layout_of(ph, offset));
            let x = offset.0 + ph.p_vaddr + j;
            exists|p: int|
                {
                    &&& 0 <= p < steps.len()
                    &&& clears(#[trigger] steps[p], x)
                    &&& forall|q: int|
                        p < q < steps.len() ==> !touches(#[trigger] steps[q], x)
                }
        }),
{
    let l = layout_of(ph, offset);
    let steps = steps_of(ph, l);
    let x = offset.0 + ph.p_vaddr + j;
    let zeros = l.map_size > l.file_size;
    if x < l.addr + l.map_size {
        assert(steps[1] is Zero);
        assert(clears(steps[1], x));
        assert forall|q: int| 1 < q < steps.len() implies !touches(#[trigger] steps[q], x) by {
            assert(steps[q] is MapAnonymous);
        }
    } else {
        let p = steps.len() - 1;
        assert(steps[p] is MapAnonymous);
        assert(clears(steps[p], x));
    }
}

/// What a segment maps it maps for itself, at the addresses that it names and in whole
/// pages, no more of them than it takes. Its file may be accessed as its flags say. What
/// does not come from the file can be read and written, and executed if its flags say so.
pub proof fn segment_is_mapped_as_flagged(ph: ProgramHeader, offset: Addr, p: int)
    requires
        fits(ph, offset),
        offset.0 % 4096 == 0,
        0 <= p < steps_of(ph, layout_of(ph, offset)).len(),
    ensures
        ({
            let x = offset.0 + ph.p_vaddr;
            match steps_of(ph, layout_of(ph, offset))[p] {
                LoadStep::MapFile(o) => {
                    &&& o.private && o.fixed && o.unmap && !o.grows_down && !o.precommit
                    &&& !o.map32bit && !o.force
                    &&& o.perms.read == (ph.p_flags & 4 == 4)
                    &&& o.perms.write == (ph.p_flags & 2 == 2)
                    &&& o.perms.execute == (ph.p_flags & 1 == 1)
                    &&& o.max_perms.read && o.max_perms.write && o.max_perms.execute
                    &&& o.addr.0 % 4096 == 0 && o.length % 4096 == 0
                    &&& o.addr.0 <= x < o.addr.0 + 4096
                    &&& x + ph.p_filesz <= o.addr.0 + o.length < x + ph.p_filesz + 4096
                },
                LoadStep::Zero { addr, length } => {
                    &&& addr.0 == x + ph.p_filesz
                    &&& 0 < length < 4096
                    &&& (addr.0 + length) % 4096 == 0
                    &&& p > 0 && steps_of(ph, layout_of(ph, offset))[p - 1] is MapFile
                },
                LoadStep::MapAnonymous(o) => {
                    &&& o.mappable is None
                    &&& o.private && o.fixed && !o.unmap && !o.grows_down && !o.precommit
                    &&& !o.map32bit && !o.force
                    &&& o.perms.read && o.perms.write
                    &&& o.perms.execute == (ph.p_flags & 1 == 1)
                    &&& o.max_perms.read && o.max_perms.write && o.max_perms.execute
                    &&& o.addr.0 % 4096 == 0 && o.length % 4096 == 0
                    &&& x + ph.p_memsz <= o.addr.0 + o.length < x + ph.p_memsz + 4096
                    &&& o.addr.0 + 4096 > x + ph.p_filesz
                },
            }
        }),
{
    let l = layout_of(ph, offset);
    let steps = steps_of(ph, l);
    assert(l.addr % 4096 == 0);
    let zeros = l.map_size > l.file_size;
    if p == 0 && l.map_size > 0 {
        assert(steps[p] is MapFile);
    } else if p == 1 && zeros {
        assert(steps[p] is Zero);
        assert(steps[0] is MapFile);
    } else {
        assert(steps[p] is MapAnonymous);
    }
}

/// A segment that is refused has an address or a size that no memory has, or starts in
/// its file before the page that holds it could.
pub proof fn segment_is_refused(ph: ProgramHeader, offset: Addr)
    requires
        !fits(ph, offset),
        offset.0 % 4096 == 0,
    ensures
        offset.0 + ph.p_vaddr + ph.p_filesz > u64::MAX - 8192 || offset.0 + ph.p_vaddr + ph.p_memsz
            > u64::MAX - 8192 || ph.p_offset < ph.p_vaddr % 4096,
{
}

proof fn lemma_in_order(phs: Seq<ProgramHeader>, after: u64, end: u64)
    requires
        in_order(phs, after, end),
    ensures
        after <= end,
        forall|i: int|
            0 <= i < phs.len() && (#[trigger] phs[i]).p_type == 1 ==> after <= phs[i].p_vaddr
                && phs[i].p_vaddr + phs[i].p_memsz <= end,
        forall|i: int, j: int|
            0 <= i < j < phs.len() && (#[trigger] phs[i]).p_type == 1 && (#[trigger] phs[j]).p_type
                == 1 ==> phs[i].p_vaddr + phs[i].p_memsz <= phs[j].p_vaddr,
        after < end ==> exists|i: int|
            0 <= i < phs.len() && (#[trigger] phs[i]).p_type == 1 && phs[i].p_vaddr + phs[i].p_memsz
                == end,
    decreases phs.len(),
{
    if phs.len() > 0 {
        let t = phs.skip(1);
        let next = if phs[0].p_type == 1 {
            (phs[0].p_vaddr + phs[0].p_memsz) as u64
        } else {
            after
        };
        lemma_in_order(t, next, end);
        assert forall|i: int| 0 < i < phs.len() implies #[trigger] phs[i] == t[i - 1] by {}
        if next < end {
            let i = choose|i: int|
                0 <= i < t.len() && (#[trigger] t[i]).p_type == 1 && t[i].p_vaddr + t[i].p_memsz
                    == end;
            assert(phs[i + 1] == t[i]);
        } else if after < end {
            assert(phs[0].p_vaddr + phs[0].p_memsz == end);
        }
    }
}

proof fn lemma_first_load(phs: Seq<ProgramHeader>, start: u64) -> (i: int)
    requires
        first_load(phs) == Some(start),
    ensures
        0 <= i < phs.len(),
        phs[i].p_type == 1,
        phs[i].p_vaddr == start,
        forall|j: int| 0 <= j < i ==> (#[trigger] phs[j]).p_type != 1,
    decreases phs.len(),
{
    if phs[0].p_type == 1 {
        0
    } else {
        let t = phs.skip(1);
        let i = lemma_first_load(t, start);
        assert(phs[i + 1] == t[i]);
        assert forall|j: int| 0 <= j < i + 1 implies (#[trigger] phs[j]).p_type != 1 by {
            if j > 0 {
                assert(phs[j] == t[j - 1]);
            }
        }
        i + 1
    }
}

/// All segments that are loaded lie between the bounds of the program, and none of them
/// overlap. The bounds are no wider than that. A program that names an interpreter has
/// one.
pub proof fn bounds_hold_the_segments(e: ElfView, start: u64, end: u64)
    requires
        loadable(e, start, end),
    ensures
        forall|i: int|
            0 <= i < e.program_headers.len() && (#[trigger] e.program_headers[i]).p_type == 1
                ==> start <= e.program_headers[i].p_vaddr && e.program_headers[i].p_vaddr
                + e.program_headers[i].p_memsz <= end,
        forall|i: int, j: int|
            0 <= i < j < e.program_headers.len() && (#[trigger] e.program_headers[i]).p_type == 1
                && (#[trigger] e.program_headers[j]).p_type == 1 ==> e.program_headers[i].p_vaddr
                + e.program_headers[i].p_memsz <= e.program_headers[j].p_vaddr,
        exists|i: int|
            0 <= i < e.program_headers.len() && (#[trigger] e.program_headers[i]).p_type == 1
                && e.program_headers[i].p_vaddr == start,
        exists|i: int|
            0 <= i < e.program_headers.len() && (#[trigger] e.program_headers[i]).p_type == 1
                && e.program_headers[i].p_vaddr + e.program_headers[i].p_memsz == end,
        (exists|i: int|
            0 <= i < e.program_headers.len() && (#[trigger] e.program_headers[i]).p_type == 3)
            ==> e.interpreter is Some,
        forall|i: int|
            0 <= i < e.program_headers.len() && (#[trigger] e.program_headers[i]).p_type == 3 ==> 2
                <= e.program_headers[i].p_filesz <= 4096,
{
    let phs = e.program_headers;
    lemma_in_order(phs, 0, end);
    let i = lemma_first_load(phs, start);
    assert forall|j: int| 0 <= j < phs.len() && (#[trigger] phs[j]).p_type == 1 implies start
        <= phs[j].p_vaddr by {
        if j > i {
            assert(phs[i].p_vaddr + phs[i].p_memsz <= phs[j].p_vaddr);
        }
    }
    if end == 0 {
        assert(phs[i].p_vaddr + phs[i].p_memsz == end);
    }
}

/// A program whose segments follow each other without overlap, and that has an
/// interpreter if it names one, can be loaded.
pub proof fn ordered_program_is_loadable(e: ElfView)
    requires
        exists|i: int|
            0 <= i < e.program_headers.len() && (#[trigger] e.program_headers[i]).p_type == 1,
        forall|i: int|
            0 <= i < e.program_headers.len() && (#[trigger] e.program_headers[i]).p_type == 1
                ==> e.program_headers[i].p_vaddr + e.program_headers[i].p_memsz <= u64::MAX,
        forall|i: int, j: int|
            0 <= i < j < e.program_headers.len() && (#[trigger] e.program_headers[i]).p_type == 1
                && (#[trigger] e.program_headers[j]).p_type == 1 ==> e.program_headers[i].p_vaddr
                + e.program_headers[i].p_memsz <= e.program_headers[j].p_vaddr,
        forall|i: int|
            0 <= i < e.program_headers.len() && (#[trigger] e.program_headers[i]).p_type == 3 ==> 2
                <= e.program_headers[i].p_filesz <= 4096 && e.interpreter is Some,
    ensures
        exists|start: u64, end: u64| #[trigger] loadable(e, start, end),
{
    let phs = e.program_headers;
    let end = lemma_in_order_made(phs, 0);
    let i = choose|i: int| 0 <= i < phs.len() && (#[trigger] phs[i]).p_type == 1;
    lemma_has_first(phs, i);
    assert(loadable(e, first_load(phs)->Some_0, end));
}

proof fn lemma_has_first(phs: Seq<ProgramHeader>, i: int)
    requires
        0 <= i < phs.len(),
        phs[i].p_type == 1,
    ensures
        first_load(phs) is Some,
    decreases phs.len(),
{
    if phs[0].p_type != 1 {
        assert(phs.skip(1)[i - 1] == phs[i]);
        lemma_has_first(phs.skip(1), i - 1);
    }
}

proof fn lemma_in_order_made(phs: Seq<ProgramHeader>, after: u64) -> (end: u64)
    requires
        forall|i: int|
            0 <= i < phs.len() && (#[trigger] phs[i]).p_type == 1 ==> after <= phs[i].p_vaddr
                && phs[i].p_vaddr + phs[i].p_memsz <= u64::MAX,
        forall|i: int, j: int|
            0 <= i < j < phs.len() && (#[trigger] phs[i]).p_type == 1 && (#[trigger] phs[j]).p_type
                == 1 ==> phs[i].p_vaddr + phs[i].p_memsz <= phs[j].p_vaddr,
    ensures
        in_order(phs, after, end),
    decreases phs.len(),
{
    if phs.len() == 0 {
        after
    } else {
        let t = phs.skip(1);
        let next = if phs[0].p_type == 1 {
            (phs[0].p_vaddr + phs[0].p_memsz) as u64
        } else {
            after
        };
        assert forall|i: int| 0 <= i < t.len() implies #[trigger] t[i] == phs[i + 1] by {}
        assert forall|i: int| 0 <= i < t.len() && (#[trigger] t[i]).p_type == 1 implies next
            <= t[i].p_vaddr && t[i].p_vaddr + t[i].p_memsz <= u64::MAX by {
            if phs[0].p_type == 1 {
                assert(phs[0].p_vaddr + phs[0].p_memsz <= phs[i + 1].p_vaddr);
            }
        }
        assert forall|i: int, j: int|
            0 <= i < j < t.len() && (#[trigger] t[i]).p_type == 1 && (#[trigger] t[j]).p_type
                == 1 implies t[i].p_vaddr + t[i].p_memsz <= t[j].p_vaddr by {
            assert(phs[i + 1].p_vaddr + phs[i + 1].p_memsz <= phs[j + 1].p_vaddr);
        }
        lemma_in_order_made(t, next)
    }
}

/// A segment is loaded if it is meant to be and takes up memory, and no other is.
pub proof fn segments_are_loaded(phs: Seq<ProgramHeader>, ph: ProgramHeader)
    ensures
        loads(phs).contains(ph) == (phs.contains(ph) && ph.p_type == 1 && ph.p_memsz != 0),
    decreases phs.len(),
{
    reveal(Seq::filter);
    if phs.len() > 0 {
        let t = phs.drop_last();
        segments_are_loaded(t, ph);
        let x = phs.last();
        assert(phs =~= t.push(x));
        if phs.contains(ph) && ph != x {
            let i = choose|i: int| 0 <= i < phs.len() && phs[i] == ph;
            assert(t[i] == ph);
        }
        if t.contains(ph) {
            let i = choose|i: int| 0 <= i < t.len() && t[i] == ph;
            assert(phs[i] == ph);
        }
        assert(phs[phs.len() - 1] == x);
        let before = loads(t);
        if x.p_type == 1 && x.p_memsz != 0 {
            assert(loads(phs) == before.push(x));
            assert(before.push(x)[before.len() as int] == x);
            if before.contains(ph) {
                let i = choose|i: int| 0 <= i < before.len() && before[i] == ph;
                assert(before.push(x)[i] == ph);
            }
            if before.push(x).contains(ph) && ph != x {
                let i = choose|i: int| 0 <= i < before.push(x).len() && before.push(x)[i] == ph;
                assert(before[i] == ph);
            }
        }
    }
}

} // verus!
