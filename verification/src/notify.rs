use vstd::prelude::*;

verus! {

/// The sending end of a notification socket, by the path of the socket.
#[derive(Debug)]
pub struct NotifySender {
    path: String,
}

impl NotifySender {
    pub closed spec fn target(&self) -> Seq<char> {
        self.path@
    }

    pub fn new(path: String) -> (s: Self)
        ensures
            s.target() == path@,
    {
        NotifySender { path }
    }

    pub fn path(&self) -> (p: &String)
        ensures
            p@ == self.target(),
    {
        &self.path
    }
}

} // verus!
