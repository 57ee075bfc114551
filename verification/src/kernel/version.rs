use vstd::prelude::*;

verus! {

/// What the kernel says of itself.
#[derive(Debug)]
pub struct KernelVersion {
    pub sysname: String,
    pub release: String,
    pub version: String,
}

impl KernelVersion {
    pub fn init() -> (v: Self)
        ensures
            v.sysname@ == "Linux"@,
            v.release@ == "4.4.0"@,
            v.version@ == "#1 SMP Sun Jan 10 15:06:54 PST 2016"@,
    {
        KernelVersion {
            sysname: "Linux".to_string(),
            release: "4.4.0".to_string(),
            version: "#1 SMP Sun Jan 10 15:06:54 PST 2016".to_string(),
        }
    }
}

} // verus!
