use vstd::prelude::*;

use crate::mm::manager::Outbox;
use crate::mm::MemoryManager;

verus! {

pub enum MemoryManagerState {
    Empty,
    Loaded(MemoryManager),
}

/// The program that a task runs.
pub struct TaskImage {
    pub memory_manager: MemoryManagerState,
}

impl TaskImage {
    /// A task without a program.
    pub fn new() -> (i: Self)
        ensures
            i.memory_manager is Empty,
    {
        TaskImage { memory_manager: MemoryManagerState::Empty }
    }

    /// The memory of the program, once there is one.
    pub open spec fn memory(&self) -> MemoryManager
        recommends
            self.memory_manager is Loaded,
    {
        self.memory_manager->Loaded_0
    }

    /// Takes in the memory of a program that was loaded.
    pub fn load(&mut self, mm: MemoryManager)
        ensures
            final(self).memory_manager == MemoryManagerState::Loaded(mm),
    {
        self.memory_manager = MemoryManagerState::Loaded(mm);
    }

    /// Notes that there is an address space for the program.
    pub fn set_address_space(&mut self)
        requires
            old(self).memory_manager is Loaded,
        ensures
            final(self).memory_manager is Loaded,
            final(self).memory() == (MemoryManager {
                outbox: Outbox { active: true, ..old(self).memory().outbox },
                ..old(self).memory()
            }),
    {
        match &mut self.memory_manager {
            MemoryManagerState::Loaded(mm) => mm.set_address_space(true),
            MemoryManagerState::Empty => {},
        }
    }
}

} // verus!
