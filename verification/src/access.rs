use vstd::prelude::*;

verus! {

pub const PROT_READ: i32 = 1;

pub const PROT_WRITE: i32 = 2;

pub const PROT_EXEC: i32 = 4;

/// Flag of an ELF program header: the segment may be executed.
pub const PF_X: u32 = 1;

/// Flag of an ELF program header: the segment may be written.
pub const PF_W: u32 = 2;

/// Flag of an ELF program header: the segment may be read.
pub const PF_R: u32 = 4;

/// The ways in which memory may be accessed.
#[derive(Debug, Clone, Copy, PartialEq, Eq, Structural, Hash)]
pub struct AccessType {
    pub read: bool,
    pub write: bool,
    pub execute: bool,
}

impl AccessType {
    pub open spec fn none() -> AccessType {
        AccessType { read: false, write: false, execute: false }
    }

    pub open spec fn all() -> AccessType {
        AccessType { read: true, write: true, execute: true }
    }

    pub open spec fn includes(self, other: AccessType) -> bool {
        (other.read ==> self.read) && (other.write ==> self.write) && (other.execute
            ==> self.execute)
    }

    pub open spec fn meet(self, other: AccessType) -> AccessType {
        AccessType {
            read: self.read && other.read,
            write: self.write && other.write,
            execute: self.execute && other.execute,
        }
    }

    pub open spec fn join(self, other: AccessType) -> AccessType {
        AccessType {
            read: self.read || other.read,
            write: self.write || other.write,
            execute: self.execute || other.execute,
        }
    }

    /// What the hardware grants: memory that can be written or executed can be
    /// read.
    pub open spec fn granted(self) -> AccessType {
        AccessType { read: self.read || self.write || self.execute, ..self }
    }

    pub open spec fn some(self) -> bool {
        self.read || self.write || self.execute
    }

    pub fn no_access() -> (a: AccessType)
        ensures
            a == Self::none(),
    {
        AccessType { read: false, write: false, execute: false }
    }

    pub fn any_access() -> (a: AccessType)
        ensures
            a == Self::all(),
    {
        AccessType { read: true, write: true, execute: true }
    }

    pub fn read() -> (a: AccessType)
        ensures
            a == (AccessType { read: true, write: false, execute: false }),
    {
        AccessType { read: true, write: false, execute: false }
    }

    pub fn write() -> (a: AccessType)
        ensures
            a == (AccessType { read: false, write: true, execute: false }),
    {
        AccessType { read: false, write: true, execute: false }
    }

    pub fn read_write() -> (a: AccessType)
        ensures
            a == (AccessType { read: true, write: true, execute: false }),
    {
        AccessType { read: true, write: true, execute: false }
    }

    pub fn any(&self) -> (b: bool)
        ensures
            b == self.some(),
    {
        self.read || self.write || self.execute
    }

    pub fn is_superset_of(&self, other: AccessType) -> (b: bool)
        ensures
            b == self.includes(other),
    {
        (!other.read || self.read) && (!other.write || self.write) && (!other.execute
            || self.execute)
    }

    pub fn intersect(&self, other: AccessType) -> (a: AccessType)
        ensures
            a == self.meet(other),
    {
        AccessType {
            read: self.read && other.read,
            write: self.write && other.write,
            execute: self.execute && other.execute,
        }
    }

    pub fn union(&self, other: AccessType) -> (a: AccessType)
        ensures
            a == self.join(other),
    {
        AccessType {
            read: self.read || other.read,
            write: self.write || other.write,
            execute: self.execute || other.execute,
        }
    }

    pub fn effective(&self) -> (a: AccessType)
        ensures
            a == self.granted(),
    {
        AccessType {
            read: self.read || self.write || self.execute,
            write: self.write,
            execute: self.execute,
        }
    }

    /// The protection flags that `mmap` takes.
    pub fn as_prot(&self) -> (p: i32)
        ensures
            p == (if self.read { PROT_READ } else { 0 }) + (if self.write { PROT_WRITE } else { 0 })
                + (if self.execute { PROT_EXEC } else { 0 }),
    {
        let r: i32 = if self.read { PROT_READ } else { 0 };
        let w: i32 = if self.write { PROT_WRITE } else { 0 };
        let x: i32 = if self.execute { PROT_EXEC } else { 0 };
        r + w + x
    }

    /// The access that the flags of an ELF program header ask for.
    pub fn from_elf_prog_flags(flags: u32) -> (a: AccessType)
        ensures
            a.read == (flags & PF_R == PF_R),
            a.write == (flags & PF_W == PF_W),
            a.execute == (flags & PF_X == PF_X),
    {
        AccessType {
            read: flags & PF_R == PF_R,
            write: flags & PF_W == PF_W,
            execute: flags & PF_X == PF_X,
        }
    }
}

impl Default for AccessType {
    fn default() -> (a: AccessType)
        ensures
            a == AccessType::none(),
    {
        AccessType { read: false, write: false, execute: false }
    }
}

/// Access that is granted asks for nothing more to be granted.
pub proof fn granted_is_idempotent(a: AccessType)
    ensures
        a.granted().granted() == a.granted(),
        a.granted().includes(a),
{
}

} // verus!
