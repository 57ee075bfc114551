use vstd::prelude::*;

use crate::kernel::version::KernelVersion;
use crate::loader::vdso::Vdso;
use crate::pgalloc::MemoryFile;
use crate::platform::Platform;

verus! {

/// What all tasks share.
pub struct Kernel {
    pub platform: Platform,
    pub memory_file: MemoryFile,
    pub vdso: Vdso,
    pub version: KernelVersion,
}

impl Kernel {
    pub fn load(memory_file: MemoryFile, vdso: Vdso) -> (k: Self)
        ensures
            k.platform == Platform::Ptrace,
            k.memory_file == memory_file,
            k.vdso == vdso,
            k.version.sysname@ == "Linux"@,
            k.version.release@ == "4.4.0"@,
            k.version.version@ == "#1 SMP Sun Jan 10 15:06:54 PST 2016"@,
    {
        Kernel { platform: Platform::Ptrace, memory_file, vdso, version: KernelVersion::init() }
    }

    pub fn platform(&self) -> (p: Platform)
        ensures
            p == self.platform,
    {
        self.platform
    }

    pub fn vdso(&self) -> (v: &Vdso)
        ensures
            *v == self.vdso,
    {
        &self.vdso
    }

    pub fn version(&self) -> (v: &KernelVersion)
        ensures
            *v == self.version,
    {
        &self.version
    }
}

} // verus!
