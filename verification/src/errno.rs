use vstd::prelude::*;

verus! {

pub const EPERM: i32 = 1;

pub const ENOEXEC: i32 = 8;

pub const EBADF: i32 = 9;

pub const EAGAIN: i32 = 11;

pub const EWOULDBLOCK: i32 = 11;

pub const ENOMEM: i32 = 12;

pub const EACCES: i32 = 13;

pub const EFAULT: i32 = 14;

pub const ENODEV: i32 = 19;

pub const ENOTDIR: i32 = 20;

pub const EINVAL: i32 = 22;

pub const EMFILE: i32 = 24;

pub const ENOTTY: i32 = 25;

pub const ESPIPE: i32 = 29;

pub const EDOM: i32 = 33;

pub const ENOSYS: i32 = 38;

pub const ELOOP: i32 = 40;

pub const ENOLINK: i32 = 67;

pub const ENOPROTOOPT: i32 = 92;

pub const EOPNOTSUPP: i32 = 95;

/// The code that a read from an exhausted pipe without writers fails with.
pub const EOF: i32 = -1;

/// A failed system call: its error number, and whether the failure is to be
/// delivered as a bus error.
#[derive(Debug, Clone, Copy, PartialEq, Eq, Structural)]
pub struct SysError {
    pub code: i32,
    pub bus_error: bool,
}

pub type SysResult<T> = Result<T, SysError>;

/// The plain error with number `code`.
pub open spec fn sys(code: i32) -> SysError {
    SysError { code, bus_error: false }
}

impl SysError {
    pub fn new(code: i32) -> (e: SysError)
        ensures
            e == sys(code),
    {
        SysError { code, bus_error: false }
    }

    pub fn new_bus_error(code: i32) -> (e: SysError)
        ensures
            e == (SysError { code, bus_error: true }),
    {
        SysError { code, bus_error: true }
    }

    pub fn code(&self) -> (c: i32)
        ensures
            c == self.code,
    {
        self.code
    }
}

} // verus!
