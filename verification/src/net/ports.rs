use std::collections::HashSet;

use vstd::prelude::*;

use crate::random::random_number;

verus! {

broadcast use vstd::std_specs::hash::group_hash_axioms;

/// The first port that is given out to connections.
pub const FIRST_LOCAL_PORT: u16 = 49152;

/// The number of ports that are given out to connections.
pub const LOCAL_PORTS: u16 = 16384;

/// The ports that connections use.
#[derive(Debug)]
pub struct LocalPorts {
    pub used_ports: HashSet<u16>,
}

/// A port that can be given out to connections.
pub open spec fn local(p: u16) -> bool {
    p >= FIRST_LOCAL_PORT
}

/// The port at place `i` is taken, if it was not used.
pub open spec fn takes(before: Set<u16>, after: Set<u16>, i: u16, p: Option<u16>) -> bool {
    &&& p == (if before.contains((FIRST_LOCAL_PORT + i) as u16) {
        None
    } else {
        Some((FIRST_LOCAL_PORT + i) as u16)
    })
    &&& after == before.insert((FIRST_LOCAL_PORT + i) as u16)
}

/// A port is given out only while it is not used, and is used from then on. Each place
/// has a port of its own, and the ports are the last of all. No other port is touched.
pub proof fn port_is_given_once(
    s: Set<u16>,
    t: Set<u16>,
    u: Set<u16>,
    i: u16,
    j: u16,
    p: Option<u16>,
    q: Option<u16>,
    x: u16,
)
    requires
        i < LOCAL_PORTS,
        j < LOCAL_PORTS,
        takes(s, t, i, p),
        takes(t, u, j, q),
    ensures
        i == j ==> q is None,
        i != j && p is Some && q is Some ==> p != q,
        p matches Some(n) ==> n == 49152 + i && !s.contains(n) && t.contains(n),
        p is None ==> s.contains((49152 + i) as u16),
        x != 49152 + i ==> t.contains(x) == s.contains(x),
{
}

impl LocalPorts {
    pub fn new() -> (p: LocalPorts)
        ensures
            p.used_ports@ == Set::<u16>::empty(),
    {
        LocalPorts { used_ports: HashSet::new() }
    }

    /// Some port is left.
    pub open spec fn any_left(&self) -> bool {
        exists|p: u16| local(p) && !#[trigger] self.used_ports@.contains(p)
    }

    /// Takes the port at place `i`, if it is not used.
    pub fn take_port(&mut self, i: u16) -> (p: Option<u16>)
        requires
            i < LOCAL_PORTS,
        ensures
            takes(old(self).used_ports@, final(self).used_ports@, i, p),
    {
        let p = FIRST_LOCAL_PORT + i;
        if self.used_ports.contains(&p) {
            assert(self.used_ports@.insert(p) =~= self.used_ports@);
            return None;
        }
        self.used_ports.insert(p);
        Some(p)
    }

    /// Takes a port that is not used, which one is left to chance.
    pub fn gen_local_port(&mut self) -> (p: u16)
        requires
            old(self).any_left(),
        ensures
            local(p),
            !old(self).used_ports@.contains(p),
            final(self).used_ports@ == old(self).used_ports@.insert(p),
    {
        let ghost used = self.used_ports@;
        let mut tries: u16 = LOCAL_PORTS;
        while tries > 0
            invariant
                self.used_ports@ == used,
                used == old(self).used_ports@,
            decreases tries,
        {
            let i = random_number() % LOCAL_PORTS;
            if let Some(p) = self.take_port(i) {
                return p;
            }
            assert(self.used_ports@ =~= used);
            tries = tries - 1;
        }
        let mut i: u16 = 0;
        while i < LOCAL_PORTS
            invariant
                i <= LOCAL_PORTS,
                self.used_ports@ == used,
                used == old(self).used_ports@,
                forall|p: u16|
                    FIRST_LOCAL_PORT <= p < FIRST_LOCAL_PORT + i ==> #[trigger] used.contains(p),
            decreases LOCAL_PORTS - i,
        {
            if let Some(p) = self.take_port(i) {
                return p;
            }
            assert(self.used_ports@ =~= used);
            i = i + 1;
        }
        proof {
            let p = choose|p: u16| local(p) && !#[trigger] used.contains(p);
            assert(used.contains(p));
        }
        0
    }

    /// Gives a port back. Tells whether it was used.
    pub fn remove_local_port(&mut self, p: u16) -> (found: bool)
        ensures
            found == old(self).used_ports@.contains(p),
            final(self).used_ports@ == old(self).used_ports@.remove(p),
    {
        self.used_ports.remove(&p)
    }
}

} // verus!
