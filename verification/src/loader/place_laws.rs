use vstd::prelude::*;

use crate::addr::{up_to, Addr, PAGE_SIZE};
use crate::errno::{SysError, SysResult};
use crate::loader::elf::{ElfImage, ElfView, ProgramHeader};
use crate::loader::laws::{maps_byte, segment_holds_its_file};
use crate::loader::place::{
    fits, layout_of, loaded_at, moved_base, places_program, room_opts, steps_of, Base,
    LoadedElf,
};
use crate::mm::area_laws::mapping_is_as_asked;
use crate::mm::change_laws::unmapping_takes_the_pages;
use crate::mm::manager::{vma_at, Env, MemoryManager};
use crate::mm::mmap::mmaps;
use crate::mm::unmap::munmaps;

verus! {

/// A program is moved as a whole: its entry and its bounds by the same distance. One that
/// has a place of its own is not moved. For any other that distance is a number of pages
/// at which nothing is mapped for as long as the program is. Looking for it changes
/// nothing that is mapped.
#[verifier::spinoff_prover]
#[verifier::rlimit(60)]
pub proof fn program_is_moved_as_a_whole(
    a: MemoryManager,
    b: MemoryManager,
    e: ElfView,
    bounds: (Addr, Addr),
    hint: Addr,
    env: Env,
    base: Base,
)
    requires
        a.wf(),
        bounds.0.0 <= bounds.1.0,
        places_program(a, b, e, bounds, hint, env, Ok(base)),
    ensures
        base.entry == e.entry + base.offset.0,
        base.start.0 == bounds.0.0 + base.offset.0,
        base.end.0 == bounds.1.0 + base.offset.0,
        !e.is_lib ==> base.offset.0 == 0,
        e.is_lib ==> base.offset.0 % 4096 == 0,
        e.is_lib ==> forall|k: int|
            base.offset.0 <= k < base.offset.0 + (bounds.1.0 - bounds.0.0)
                ==> #[trigger] vma_at(a.vmas.model(), k) is None,
        forall|k: int| #[trigger] vma_at(b.vmas.model(), k) == vma_at(a.vmas.model(), k),
{
    if e.is_lib {
        let total = up_to(bounds.1.0 - bounds.0.0, PAGE_SIZE as int) as u64;
        let (mid, x) = choose|mid: MemoryManager, x: SysResult<(Addr, Option<bool>)>|
            {
                &&& #[trigger] mmaps(a, mid, room_opts(total, hint), env, Ok(()), x)
                &&& match x {
                    Err(err) => b == mid && Ok::<Base, SysError>(base) == Err::<Base, SysError>(err),
                    Ok((offset, _)) => exists|y: SysResult<()>|
                        {
                            &&& #[trigger] munmaps(mid, b, offset, total, y)
                            &&& Ok::<Base, SysError>(base) == (match y {
                                Ok(_) => moved_base(e.entry, bounds.0, bounds.1, offset),
                                Err(err) => Err(err),
                            })
                        },
                }
            };
        let offset = x->Ok_0.0;
        let y = choose|y: SysResult<()>|
            {
                &&& #[trigger] munmaps(mid, b, offset, total, y)
                &&& Ok::<Base, SysError>(base) == (match y {
                    Ok(_) => moved_base(e.entry, bounds.0, bounds.1, offset),
                    Err(err) => Err(err),
                })
            };
        mapping_is_as_asked(a, mid, room_opts(total, hint), env, Ok(()), offset, x->Ok_0.1);
        unmapping_takes_the_pages(mid, b, offset, total, y);
        assert forall|k: int| #[trigger] vma_at(b.vmas.model(), k) == vma_at(a.vmas.model(), k) by {
            assert(vma_at(mid.vmas.model(), k) == vma_at(mid.vmas.model(), k));
            assert(vma_at(a.vmas.model(), k) == vma_at(a.vmas.model(), k));
        }
    }
}

/// A program whose first segment starts with its file is told where its program headers
/// are: the byte of the file at which they start is mapped there.
pub proof fn headers_are_where_they_are_told(
    l: LoadedElf,
    elf: ElfImage,
    base: Base,
    ph: ProgramHeader,
)
    requires
        loaded_at(l, elf, base),
        fits(ph, base.offset),
        ph.p_offset == 0,
        base.start.0 == base.offset.0 + ph.p_vaddr,
        elf.phoff < ph.p_filesz,
        base.start.0 + ph.p_filesz <= u64::MAX,
    ensures
        exists|p: int|
            0 <= p < steps_of(ph, layout_of(ph, base.offset)).len() && maps_byte(
                #[trigger] steps_of(ph, layout_of(ph, base.offset))[p],
                l.phdr_addr.0 as int,
                elf.phoff as int,
            ),
        l.entry == base.entry,
        l.start == base.start,
        l.end == base.end,
        l.phdr_num == elf.phnum,
        l.phdr_size == elf.phentsize,
        l.interpreter == elf.interpreter,
{
    segment_holds_its_file(ph, base.offset, elf.phoff as int);
}

} // verus!
