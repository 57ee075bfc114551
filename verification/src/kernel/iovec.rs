use vstd::prelude::*;

use crate::addr::Addr;
use crate::bytes::{from_le, le_value};
use crate::errno::{sys, SysError, SysResult, EFAULT, EINVAL};
use crate::mm::MemoryManager;
use crate::range::{AddrRange, Range};

verus! {

/// The most bytes that one call reads or writes.
pub const MAX_RW_COUNT: u64 = 0x7fff_f000;

/// The size of the entry for one range.
pub const IOVEC_SIZE: usize = 16;

/// The most ranges that one call takes.
pub const UIO_MAXIOV: i32 = 1024;

/// The number of bytes in the ranges.
pub open spec fn total_length(ars: Seq<AddrRange>) -> int
    decreases ars.len(),
{
    if ars.len() == 0 {
        0
    } else {
        total_length(ars.drop_last()) + ars.last().length()
    }
}

/// The first `n` bytes of a range.
pub open spec fn first_bytes(ar: AddrRange, n: int) -> AddrRange {
    if n >= ar.length() {
        ar
    } else if n <= 0 {
        Range { start: ar.start, end: ar.start }
    } else {
        Range { start: ar.start, end: (ar.start + n) as u64 }
    }
}

/// The ranges, cut short so that they hold no more bytes than one call may
/// handle.
pub open spec fn shortened(ars: Seq<AddrRange>) -> Seq<AddrRange> {
    Seq::new(ars.len(), |i: int| first_bytes(ars[i], MAX_RW_COUNT - total_length(ars.take(i))))
}

/// The range that an entry stands for.
pub open spec fn entry_range(mm: MemoryManager, base: u64, length: u64) -> SysResult<AddrRange> {
    if length > i64::MAX || base + length > u64::MAX || base + length > mm.layout.max_addr.0 {
        Err(sys(EINVAL))
    } else {
        Ok(Range { start: base, end: (base + length) as u64 })
    }
}

/// Checks where the entries for `n` ranges at `addr` lie.
pub fn check_iovecs(addr: Addr, n: i32) -> (r: SysResult<usize>)
    ensures
        r == (if n < 0 || n > UIO_MAXIOV {
            Err::<usize, SysError>(sys(EINVAL))
        } else if addr.0 + n * IOVEC_SIZE > u64::MAX {
            Err::<usize, SysError>(sys(EFAULT))
        } else {
            Ok::<usize, SysError>(n as usize)
        }),
{
    if n < 0 || n > UIO_MAXIOV {
        return Err(SysError::new(EINVAL));
    }
    match addr.add_length(n as u64 * IOVEC_SIZE as u64) {
        Some(_) => Ok(n as usize),
        None => Err(SysError::new(EFAULT)),
    }
}

/// Takes in the entry for one range.
pub fn take_iovec(mm: &MemoryManager, entry: &[u8; 16]) -> (r: SysResult<AddrRange>)
    ensures
        r == entry_range(
            *mm,
            le_value(entry@.subrange(0, 8)) as u64,
            le_value(entry@.subrange(8, 16)) as u64,
        ),
        r matches Ok(ar) ==> ar.well_formed(),
{
    let base = from_le(entry.as_slice(), 0, 8);
    let length = from_le(entry.as_slice(), 8, 8);
    if length > 0x7fff_ffff_ffff_ffff {
        return Err(SysError::new(EINVAL));
    }
    assert(length <= 0x7fff_ffff_ffff_ffff ==> (length as i64) as u64 == length) by (bit_vector);
    match mm.check_io_range(Addr(base), length as i64) {
        Some(ar) => Ok(ar),
        None => Err(SysError::new(EINVAL)),
    }
}

/// Cuts ranges short so that they hold no more bytes than one call may handle.
pub fn shorten_iovecs(ars: &Vec<AddrRange>) -> (r: Vec<AddrRange>)
    requires
        forall|i: int| 0 <= i < ars@.len() ==> (#[trigger] ars@[i]).well_formed(),
    ensures
        r@ == shortened(ars@),
{
    let mut r: Vec<AddrRange> = Vec::new();
    let mut left: u64 = MAX_RW_COUNT;
    let mut i: usize = 0;
    assert(ars@.take(0) =~= Seq::<AddrRange>::empty());
    while i < ars.len()
        invariant
            i <= ars@.len(),
            forall|i: int| 0 <= i < ars@.len() ==> (#[trigger] ars@[i]).well_formed(),
            r@ == shortened(ars@).take(i as int),
            left == (if total_length(ars@.take(i as int)) <= MAX_RW_COUNT {
                MAX_RW_COUNT - total_length(ars@.take(i as int))
            } else {
                0
            }),
            left <= MAX_RW_COUNT,
            0 <= total_length(ars@.take(i as int)),
        decreases ars@.len() - i,
    {
        let d = ars[i];
        assert(ars@[i as int].well_formed());
        let mut len = d.len();
        let mut nxt = d;
        if left < len {
            nxt.end = d.start + left;
            len = left;
        }
        r.push(nxt);
        proof {
            assert(ars@.take(i + 1).drop_last() =~= ars@.take(i as int));
            assert(nxt == shortened(ars@)[i as int]);
            assert(shortened(ars@).take(i + 1) =~= shortened(ars@).take(i as int).push(nxt));
        }
        left = left - len;
        i = i + 1;
    }
    assert(shortened(ars@).take(i as int) =~= shortened(ars@));
    r
}

/// Ranges that were cut short hold no more bytes than one call may handle, and
/// all that they held where that is not too much.
pub proof fn shortened_is_bounded(ars: Seq<AddrRange>)
    requires
        forall|i: int| 0 <= i < ars.len() ==> (#[trigger] ars[i]).well_formed(),
    ensures
        total_length(shortened(ars)) == (if total_length(ars) <= MAX_RW_COUNT {
            total_length(ars)
        } else {
            MAX_RW_COUNT as int
        }),
        total_length(ars) <= MAX_RW_COUNT ==> shortened(ars) == ars,
        0 <= total_length(ars),
    decreases ars.len(),
{
    if ars.len() > 0 {
        let rest = ars.drop_last();
        assert forall|i: int| 0 <= i < rest.len() implies (#[trigger] rest[i]).well_formed() by {
            assert(ars[i].well_formed());
        }
        shortened_is_bounded(rest);
        assert forall|i: int| 0 <= i < rest.len() implies shortened(ars)[i] == shortened(rest)[i] by {
            assert(ars.take(i) =~= rest.take(i));
        }
        assert(shortened(ars).drop_last() =~= shortened(rest));
        assert(ars.take(ars.len() - 1) =~= rest);
        assert(ars[ars.len() - 1].well_formed());
        if total_length(ars) <= MAX_RW_COUNT {
            assert(shortened(ars) =~= ars);
        }
    } else {
        assert(shortened(ars) =~= ars);
    }
}

/// The range for reading or writing `length` bytes at `addr` in one call.
pub fn single_io_sequence(mm: &MemoryManager, addr: Addr, length: i32) -> (r: SysResult<AddrRange>)
    ensures
        ({
            let n = (if length <= MAX_RW_COUNT {
                length
            } else {
                MAX_RW_COUNT as i32
            }) as i64 as u64;
            r == (if addr.0 + n > u64::MAX || addr.0 + n > mm.layout.max_addr.0 {
                Err::<AddrRange, SysError>(sys(EFAULT))
            } else {
                Ok::<AddrRange, SysError>(Range { start: addr.0, end: (addr.0 + n) as u64 })
            })
        }),
{
    let n = if length <= MAX_RW_COUNT as i32 {
        length
    } else {
        MAX_RW_COUNT as i32
    };
    match mm.check_io_range(addr, n as i64) {
        Some(ar) => Ok(ar),
        None => Err(SysError::new(EFAULT)),
    }
}

} // verus!
