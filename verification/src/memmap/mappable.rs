use vstd::prelude::*;

use crate::access::AccessType;
use crate::range::{FileRange, MappableRange, Range};

verus! {

#[derive(Debug, Clone, Copy, PartialEq, Eq, Structural)]
pub struct InvalidateOpts {
    pub invalidate_private: bool,
}

/// Part of a mappable object, and the part of a file that holds it. The file
/// goes by its number.
#[derive(Debug, Clone, Copy, PartialEq, Eq, Structural)]
pub struct Translation {
    pub source: MappableRange,
    pub file: u64,
    pub offset: u64,
    pub perm: AccessType,
}

impl Translation {
    /// The part of the file.
    pub open spec fn target(self) -> FileRange {
        Range { start: self.offset, end: (self.offset + self.source.length()) as u64 }
    }

    pub open spec fn wf(self) -> bool {
        self.source.well_formed() && self.offset + self.source.length() <= u64::MAX
    }

    pub fn new(source: MappableRange, file: u64, offset: u64, perm: AccessType) -> (t: Self)
        ensures
            t == (Translation { source, file, offset, perm }),
    {
        Translation { source, file, offset, perm }
    }

    pub fn source(&self) -> (r: MappableRange)
        ensures
            r == self.source,
    {
        self.source
    }

    pub fn file(&self) -> (f: u64)
        ensures
            f == self.file,
    {
        self.file
    }

    pub fn perms(&self) -> (p: AccessType)
        ensures
            p == self.perm,
    {
        self.perm
    }

    pub fn offset(&self) -> (o: u64)
        ensures
            o == self.offset,
    {
        self.offset
    }

    pub fn file_range(&self) -> (r: FileRange)
        requires
            self.wf(),
        ensures
            r == self.target(),
            r.start == self.offset,
            r.length() == self.source.length(),
    {
        Range { start: self.offset, end: self.offset + self.source.len() }
    }
}

} // verus!
