use vstd::prelude::*;

use crate::kernel::epoll::{idle_before, thinned, PollEntry};
use crate::kernel::fd_table::{
    count, fd_end, first_free, lemma_opened, opened, stdio, too_few, Descriptor, FdFlags,
};
use crate::kernel::iovec::{entry_range, shortened, shortened_is_bounded, total_length};
use crate::kernel::pipe::{readable, room_for, write_result};
use crate::kernel::task::with_segments;
use crate::mm::MemoryManager;
use crate::platform::UserRegs;
use crate::range::AddrRange;

verus! {

/// A pipe takes all that there is room for. Up to 4096 bytes it takes as a whole or not
/// at all, and it asks to be tried again only if it is full or has to split them. Without
/// a writer it takes nothing.
pub proof fn pipe_takes_what_fits(has_writer: bool, size: int, max: int, n: int)
    requires
        0 <= size <= max <= 1048576,
        0 <= n <= usize::MAX,
    ensures
        match room_for(has_writer, size, max, n) {
            Ok(room) => {
                &&& has_writer
                &&& size + room.count <= max
                &&& room.count < n ==> size + room.count == max && n > 4096
                &&& room.count <= n
                &&& n <= 4096 ==> room.count == n
                &&& room.short == (room.count < n)
            },
            Err(e) => if has_writer {
                e.code == 11 && (size == max || (n <= 4096 && size + n > max))
            } else {
                e.code == 29
            },
        },
{
}

/// Where a pipe has taken all that was to be written, that is what is told. Where it
/// could take only a part, the writer is asked to try again, and otherwise is told how
/// much was taken.
pub proof fn pipe_tells_what_it_took(size: int, max: int, n: int, done: int)
    requires
        0 <= size <= max <= 1048576,
        0 <= n <= usize::MAX,
        room_for(true, size, max, n) is Ok,
        0 <= done <= room_for(true, size, max, n)->Ok_0.count,
    ensures
        match write_result(room_for(true, size, max, n)->Ok_0, done) {
            Ok(k) => k == done && (done == n || size + done < max),
            Err(e) => e.code == 11 && size + done == max && done < n,
        },
{
}

/// What is read is what was written first, as much of it as is there and is asked for.
/// A pipe that is empty tells that there will be nothing more only without a writer.
pub proof fn pipe_gives_the_first_bytes(has_writer: bool, c: Seq<u8>, n: int)
    requires
        0 <= n,
    ensures
        match readable(has_writer, c, n) {
            Ok(s) => {
                &&& s.len() <= n && s.len() <= c.len()
                &&& s.len() == n || s.len() == c.len()
                &&& forall|i: int| 0 <= i < s.len() ==> #[trigger] s[i] == c[i]
                &&& n > 0 ==> s.len() > 0
            },
            Err(e) => n > 0 && c.len() == 0 && e.code == (if has_writer {
                11i32
            } else {
                -1i32
            }),
        },
{
}

/// Files that are opened together are each at the descriptor that was given out for it,
/// with the flags that were asked for, and no other descriptor changes.
pub proof fn opened_files_are_found(
    t: Map<i32, Descriptor>,
    start: i32,
    fds: Seq<i32>,
    files: Seq<u64>,
    flags: FdFlags,
)
    requires
        first_free(t, start, fds),
        fds.len() == files.len(),
    ensures
        forall|i: int|
            0 <= i < fds.len() ==> {
                &&& opened(t, fds, files, flags).contains_key(#[trigger] fds[i])
                &&& opened(t, fds, files, flags)[fds[i]].file == files[i]
                &&& opened(t, fds, files, flags)[fds[i]].flags.close_on_exec == flags.close_on_exec
                &&& !t.contains_key(fds[i])
                &&& fds[i] >= start
            },
        forall|k: i32| #[trigger]
            t.contains_key(k) ==> opened(t, fds, files, flags).contains_key(k) && opened(
                t,
                fds,
                files,
                flags,
            )[k] == t[k],
        forall|k: i32| #[trigger]
            opened(t, fds, files, flags).contains_key(k) ==> t.contains_key(k) || fds.contains(k),
{
    assert forall|i: int| 0 <= i < fds.len() implies {
        &&& opened(t, fds, files, flags).contains_key(#[trigger] fds[i])
        &&& opened(t, fds, files, flags)[fds[i]] == (Descriptor { file: files[i], flags })
    } by {
        lemma_opened(t, fds, files, flags, fds[i]);
        assert(fds.contains(fds[i]));
    }
    assert forall|k: i32| #[trigger] t.contains_key(k) implies opened(
        t,
        fds,
        files,
        flags,
    ).contains_key(k) && opened(t, fds, files, flags)[k] == t[k] by {
        lemma_opened(t, fds, files, flags, k);
        if fds.contains(k) {
            let i = choose|i: int| 0 <= i < fds.len() && fds[i] == k;
            assert(!t.contains_key(fds[i]));
        }
    }
    assert forall|k: i32| #[trigger]
        opened(t, fds, files, flags).contains_key(k) implies t.contains_key(k) || fds.contains(
        k,
    ) by {
        lemma_opened(t, fds, files, flags, k);
    }
}

/// Descriptors are denied for their number only if there are not as many free ones.
pub proof fn denied_descriptors_are_not_there(
    t: Map<i32, Descriptor>,
    start: i32,
    end: i32,
    n: nat,
    fds: Seq<i32>,
)
    requires
        too_few(t, start, end, n),
        fds.no_duplicates(),
        forall|i: int|
            0 <= i < fds.len() ==> start <= #[trigger] fds[i] < end && !t.contains_key(fds[i]),
    ensures
        fds.len() < n,
{
    let got = choose|got: Seq<i32>|
        {
            &&& #[trigger] first_free(t, start, got)
            &&& got.len() < n
            &&& forall|i: int| 0 <= i < got.len() ==> #[trigger] got[i] < end
            &&& forall|k: i32| start <= k < end ==> #[trigger] t.contains_key(k) || got.contains(k)
        };
    assert forall|k: i32| #[trigger] fds.to_set().contains(k) implies got.to_set().contains(k) by {
        let i = choose|i: int| 0 <= i < fds.len() && fds[i] == k;
        assert(!t.contains_key(fds[i]));
        assert(got.contains(k));
    }
    fds.unique_seq_to_set();
    got.lemma_cardinality_of_set();
    vstd::set_lib::lemma_len_subset(fds.to_set(), got.to_set());
}

/// No descriptor is given out at or past the limit on their number.
pub proof fn limit_on_descriptors_holds(lim: u64, fd: i32)
    requires
        0 <= fd < fd_end(lim),
        lim <= 0x7fff_ffff || lim == u64::MAX,
    ensures
        fd < lim,
{
}

/// Any descriptor below the limit can be given out.
pub proof fn limit_on_descriptors_is_reached(lim: u64, fd: i32)
    requires
        0 <= fd < lim,
        lim <= 0x7fff_ffff || lim == u64::MAX,
        fd < 0x7fff_ffff,
    ensures
        fd < fd_end(lim),
{
}

/// The count of descriptors is right as long as it can be.
pub proof fn descriptors_are_counted(n: int)
    requires
        -0x8000_0000 - 0x1_0000_0000 <= n <= 0x7fff_ffff + 0x1_0000_0000,
    ensures
        -0x8000_0000 <= count(n) <= 0x7fff_ffff,
        (count(n) - n) % 0x1_0000_0000 == 0,
{
}

/// Standard files stay open when a program is run.
pub proof fn standard_files_stay_open(file: u64)
    ensures
        stdio(file).file == file,
        !stdio(file).flags.close_on_exec,
{
}

/// Each range that was cut short is the first part of what it was. It is cut short only
/// where the ranges up to its end would hold more than 0x7ffff000 bytes, and then by no
/// more than that takes.
pub proof fn ranges_are_cut_at_their_end(ars: Seq<AddrRange>, i: int)
    requires
        forall|i: int| 0 <= i < ars.len() ==> (#[trigger] ars[i]).well_formed(),
        0 <= i < ars.len(),
    ensures
        shortened(ars).len() == ars.len(),
        shortened(ars)[i].start == ars[i].start,
        shortened(ars)[i].start <= shortened(ars)[i].end <= ars[i].end,
        total_length(ars.take(i)) + ars[i].length() <= 0x7fff_f000 ==> shortened(ars)[i] == ars[i],
        total_length(ars.take(i)) >= 0x7fff_f000 ==> shortened(ars)[i].length() == 0,
        total_length(ars.take(i)) < 0x7fff_f000 < total_length(ars.take(i)) + ars[i].length()
            ==> total_length(ars.take(i)) + shortened(ars)[i].length() == 0x7fff_f000,
{
    assert(ars[i].well_formed());
    let t = ars.take(i);
    assert forall|j: int| 0 <= j < t.len() implies (#[trigger] t[j]).well_formed() by {
        assert(ars[j].well_formed());
    }
    shortened_is_bounded(t);
}

/// An entry stands for the bytes that it names, or is refused, which it is only if some
/// of them are not addresses of the application or if there are too many.
pub proof fn entries_name_their_ranges(mm: MemoryManager, base: u64, length: u64)
    ensures
        match entry_range(mm, base, length) {
            Ok(ar) => {
                &&& ar.start == base
                &&& ar.end == base + length
                &&& ar.end <= mm.layout.max_addr.0
                &&& length <= 0x7fff_ffff_ffff_ffff
            },
            Err(e) => e.code == 22 && (base + length > mm.layout.max_addr.0 || length
                > 0x7fff_ffff_ffff_ffff),
        },
{
}

/// The files that are passed over have no event, and the one after them has.
pub proof fn files_without_events_are_passed_over(ready: Seq<u64>)
    ensures
        idle_before(ready) <= ready.len(),
        forall|i: int| 0 <= i < idle_before(ready) ==> #[trigger] ready[i] == 0,
        idle_before(ready) < ready.len() ==> ready[idle_before(ready) as int] != 0,
        idle_before(ready) == ready.len() <==> forall|i: int|
            0 <= i < ready.len() ==> #[trigger] ready[i] == 0,
    decreases ready.len(),
{
    if ready.len() > 0 && ready[0] == 0 {
        let t = ready.skip(1);
        files_without_events_are_passed_over(t);
        assert forall|i: int| 0 <= i < idle_before(ready) implies #[trigger] ready[i] == 0 by {
            if i > 0 {
                assert(ready[i] == t[i - 1]);
            }
        }
        if forall|i: int| 0 <= i < ready.len() ==> #[trigger] ready[i] == 0 {
            assert forall|i: int| 0 <= i < t.len() implies #[trigger] t[i] == 0 by {
                assert(t[i] == ready[i + 1]);
            }
        }
    }
}

/// Where `n` files are passed over, every other one of the first ones leaves the queue:
/// the first, the third, and so on, `n` of them as far as there are so many. The others
/// stay in their order.
pub proof fn every_other_entry_leaves(q: Seq<PollEntry>, n: nat)
    ensures
        ({
            let out = if 2 * n <= q.len() + 1 {
                n as int
            } else {
                (q.len() as int + 1) / 2
            };
            let left = thinned(q, n);
            &&& left.len() == q.len() - out
            &&& forall|i: int|
                0 <= i < left.len() ==> #[trigger] left[i] == (if i < out {
                    q[2 * i + 1]
                } else {
                    q[i + out]
                })
        }),
    decreases n,
{
    if n > 0 {
        every_other_entry_leaves(q, (n - 1) as nat);
    }
}

/// A task whose segment registers are brought back keeps all of its other registers.
pub proof fn only_segments_are_brought_back(regs: UserRegs, init: UserRegs)
    ensures
        ({
            let r = with_segments(regs, init);
            &&& r.cs == init.cs && r.ss == init.ss && r.ds == init.ds
            &&& r.es == init.es && r.fs == init.fs && r.gs == init.gs
            &&& r.rip == regs.rip && r.rsp == regs.rsp && r.rbp == regs.rbp
            &&& r.rax == regs.rax && r.rbx == regs.rbx && r.rcx == regs.rcx && r.rdx == regs.rdx
            &&& r.rsi == regs.rsi && r.rdi == regs.rdi && r.orig_rax == regs.orig_rax
            &&& r.r8 == regs.r8 && r.r9 == regs.r9 && r.r10 == regs.r10 && r.r11 == regs.r11
            &&& r.r12 == regs.r12 && r.r13 == regs.r13 && r.r14 == regs.r14 && r.r15 == regs.r15
            &&& r.eflags == regs.eflags && r.fs_base == regs.fs_base && r.gs_base == regs.gs_base
        }),
{
}

} // verus!
