use vstd::prelude::*;

use crate::access::AccessType;
use crate::addr::Addr;
use crate::errno::{sys, SysError, SysResult, EFAULT, EINVAL};
use crate::memmap::Translation;
use crate::mm::walk::MEMORY_FILE;
use crate::pgalloc::{AllocOpts, Direction, MemoryFile, MemoryKind};
use crate::range::{FileRange, MappableRange, Range};

verus! {

/// A mappable object that is part of the file of anonymous memory.
#[derive(Debug)]
pub struct SpecialMappable {
    pub file_range: FileRange,
    pub name: String,
}

/// How anonymous memory is allocated for an object.
pub open spec fn anonymous() -> AllocOpts {
    AllocOpts { kind: MemoryKind::Anonymous, dir: Direction::BottomUp }
}

impl SpecialMappable {
    pub open spec fn wf(&self) -> bool {
        self.file_range.well_formed()
    }

    /// The part of the object that `optional` asks for.
    pub open spec fn available(&self, optional: MappableRange) -> MappableRange {
        optional.common(Range { start: 0, end: self.file_range.length() as u64 })
    }

    /// What the object tells of where it has its parts.
    pub open spec fn translates(
        &self,
        required: MappableRange,
        optional: MappableRange,
        ts: Seq<Translation>,
        res: SysResult<()>,
    ) -> bool {
        let source = self.available(optional);
        &&& res == (if required.end > self.file_range.length() {
            Err(SysError { code: EFAULT, bus_error: true })
        } else {
            Ok(())
        })
        &&& if source.start == source.end {
            ts.len() == 0
        } else {
            ts == seq![
                Translation {
                    source,
                    file: MEMORY_FILE,
                    offset: (self.file_range.start + source.start) as u64,
                    perm: AccessType::all(),
                },
            ]
        }
    }

    pub fn new(name: String, file_range: FileRange) -> (m: SpecialMappable)
        ensures
            m.file_range == file_range,
            m.name == name,
    {
        SpecialMappable { file_range, name }
    }

    /// An object with `length` bytes of new anonymous memory, in whole pages.
    /// `grown` tells whether the file could be brought to the size that it needs.
    pub fn new_anon(mf: &mut MemoryFile, length: u64, grown: SysResult<()>) -> (r: SysResult<Self>)
        requires
            old(mf).wf(),
            !old(mf).opts.manual_zeroing,
        ensures
            final(mf).wf(),
            final(mf).opts == old(mf).opts,
            if length == 0 || Addr(length).page_above() > u64::MAX {
                r == Err::<Self, SysError>(sys(EINVAL)) && *final(mf) == *old(mf)
            } else {
                old(mf).allocates(
                    *final(mf),
                    Addr(length).page_above() as u64,
                    anonymous(),
                    grown,
                    match r {
                        Ok(m) => Ok(m.file_range),
                        Err(e) => Err(e),
                    },
                )
            },
            r matches Ok(m) ==> m.name@ == "/dev/zero (deleted)"@,
    {
        if length == 0 {
            return Err(SysError::new(EINVAL));
        }
        let aligned = match Addr(length).round_up() {
            Some(a) => a.0,
            None => return Err(SysError::new(EINVAL)),
        };
        let opts = AllocOpts { kind: MemoryKind::Anonymous, dir: Direction::BottomUp };
        match mf.allocate(aligned, opts, grown) {
            Ok(fr) => Ok(Self::new("/dev/zero (deleted)".to_string(), fr)),
            Err(e) => Err(e),
        }
    }

    pub fn len(&self) -> (n: u64)
        requires
            self.wf(),
        ensures
            n == self.file_range.length(),
    {
        self.file_range.len()
    }

    /// Where the part `optional` of the object is in the file, as far as the
    /// object has it. If it lacks part of `required`, that is a bus error.
    pub fn translate(&self, required: MappableRange, optional: MappableRange) -> (r: (
        Vec<Translation>,
        SysResult<()>,
    ))
        requires
            self.wf(),
        ensures
            self.translates(required, optional, r.0@, r.1),
            forall|i: int| 0 <= i < r.0@.len() ==> (#[trigger] r.0@[i]).wf(),
    {
        let len = self.file_range.len();
        let res = if required.end > len {
            Err(SysError::new_bus_error(EFAULT))
        } else {
            Ok(())
        };
        let source = optional.intersect(&Range { start: 0, end: len });
        let mut ts: Vec<Translation> = Vec::new();
        if !source.is_empty() {
            ts.push(
                Translation::new(
                    source,
                    MEMORY_FILE,
                    self.file_range.start + source.start,
                    AccessType::any_access(),
                ),
            );
        }
        (ts, res)
    }
}

/// An object tells of each of its bytes that it is asked for, which may be used in any
/// way, where it is in the file: as far from the start of the part of the file that it
/// takes up as from its own start. It tells of no others, and that there is an error if
/// it lacks one that is required.
pub proof fn object_is_told_from_its_start(
    m: SpecialMappable,
    required: MappableRange,
    optional: MappableRange,
    ts: Seq<Translation>,
    res: SysResult<()>,
    k: int,
)
    requires
        m.wf(),
        m.translates(required, optional, ts, res),
    ensures
        (exists|i: int| 0 <= i < ts.len() && (#[trigger] ts[i]).source.has(k)) == (optional.start
            <= k < optional.end && 0 <= k < m.file_range.end - m.file_range.start),
        forall|i: int|
            0 <= i < ts.len() && (#[trigger] ts[i]).source.has(k) ==> {
                &&& ts[i].file == 0
                &&& ts[i].offset + (k - ts[i].source.start) == m.file_range.start + k
                &&& ts[i].perm.read && ts[i].perm.write && ts[i].perm.execute
            },
        res is Err == (required.end > m.file_range.end - m.file_range.start),
        res matches Err(e) ==> e.code == 14 && e.bus_error,
{
    if ts.len() > 0 && optional.start <= k < optional.end && 0 <= k < m.file_range.length() {
        assert(ts[0].source.has(k));
    }
}

} // verus!
