use vstd::prelude::*;

verus! {

/// The names that a task sees for its host and its domain.
#[derive(Debug)]
pub struct UtsNameSpace {
    host_name: String,
    domain_name: String,
}

impl UtsNameSpace {
    pub closed spec fn host(&self) -> Seq<char> {
        self.host_name@
    }

    pub closed spec fn domain(&self) -> Seq<char> {
        self.domain_name@
    }

    pub fn new(host_name: String, domain_name: String) -> (ns: Self)
        ensures
            ns.host() == host_name@,
            ns.domain() == domain_name@,
    {
        UtsNameSpace { host_name, domain_name }
    }

    pub fn host_name(&self) -> (s: &String)
        ensures
            s@ == self.host(),
    {
        &self.host_name
    }

    pub fn domain_name(&self) -> (s: &String)
        ensures
            s@ == self.domain(),
    {
        &self.domain_name
    }
}

} // verus!
