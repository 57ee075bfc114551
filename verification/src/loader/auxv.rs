use vstd::prelude::*;

use crate::addr::{Addr, PAGE_SIZE};
use crate::loader::place::LoadedElf;

verus! {

pub const AT_PHDR: u64 = 3;

pub const AT_PHENT: u64 = 4;

pub const AT_PHNUM: u64 = 5;

pub const AT_PAGESZ: u64 = 6;

pub const AT_BASE: u64 = 7;

pub const AT_ENTRY: u64 = 9;

pub const AT_UID: u64 = 11;

pub const AT_EUID: u64 = 12;

pub const AT_GID: u64 = 13;

pub const AT_EGID: u64 = 14;

pub const AT_CLKTCK: u64 = 17;

pub const AT_SECURE: u64 = 23;

pub const AT_RANDOM: u64 = 25;

pub const AT_EXECFN: u64 = 31;

pub const AT_SYSINFO_EHDR: u64 = 33;

/// What a program is told of its surroundings.
#[derive(Debug)]
pub struct Auxv {
    pub entries: Vec<(u64, Addr)>,
}

/// No key occurs twice.
pub open spec fn keys_distinct(s: Seq<(u64, Addr)>) -> bool {
    forall|i: int, j: int| 0 <= i < j < s.len() ==> (#[trigger] s[i]).0 != (#[trigger] s[j]).0
}

/// The entries as a map.
pub open spec fn entry_map(s: Seq<(u64, Addr)>) -> Map<u64, Addr>
    decreases s.len(),
{
    if s.len() == 0 {
        Map::empty()
    } else {
        entry_map(s.drop_last()).insert(s.last().0, s.last().1)
    }
}

proof fn lemma_entry_map(s: Seq<(u64, Addr)>, k: u64)
    requires
        keys_distinct(s),
    ensures
        entry_map(s).contains_key(k) == exists|i: int| 0 <= i < s.len() && (#[trigger] s[i]).0 == k,
        forall|i: int| 0 <= i < s.len() ==> entry_map(s)[(#[trigger] s[i]).0] == s[i].1,
    decreases s.len(),
{
    if s.len() > 0 {
        let t = s.drop_last();
        assert forall|i: int, j: int| 0 <= i < j < t.len() implies (#[trigger] t[i]).0 != (
        #[trigger] t[j]).0 by {
            assert(s[i].0 != s[j].0);
        }
        lemma_entry_map(t, k);
        if entry_map(t).contains_key(k) {
            let i = choose|i: int| 0 <= i < t.len() && (#[trigger] t[i]).0 == k;
            assert(s[i].0 == k);
        }
        if exists|i: int| 0 <= i < s.len() && (#[trigger] s[i]).0 == k {
            let i = choose|i: int| 0 <= i < s.len() && (#[trigger] s[i]).0 == k;
            if i < t.len() {
                assert(t[i].0 == k);
            }
        }
        assert(s[s.len() - 1] == s.last());
        assert forall|i: int| 0 <= i < s.len() implies entry_map(s)[(#[trigger] s[i]).0] == s[i].1 by {
            if i < t.len() {
                assert(t[i] == s[i]);
                assert(s[i].0 != s[s.len() - 1].0);
            }
        }
    }
}

impl Auxv {
    pub open spec fn wf(&self) -> bool {
        keys_distinct(self.entries@)
    }

    pub open spec fn map(&self) -> Map<u64, Addr> {
        entry_map(self.entries@)
    }

    pub fn new() -> (a: Auxv)
        ensures
            a.wf(),
            a.map() == Map::<u64, Addr>::empty(),
    {
        Auxv { entries: Vec::new() }
    }

    /// The value of a key.
    pub fn get(&self, k: u64) -> (a: Option<Addr>)
        requires
            self.wf(),
        ensures
            a == (if self.map().contains_key(k) {
                Some(self.map()[k])
            } else {
                None
            }),
    {
        proof {
            lemma_entry_map(self.entries@, k);
        }
        let mut i: usize = 0;
        while i < self.entries.len()
            invariant
                i <= self.entries@.len(),
                self.wf(),
                forall|j: int| 0 <= j < i ==> (#[trigger] self.entries@[j]).0 != k,
                forall|j: int|
                    0 <= j < self.entries@.len() ==> self.map()[(#[trigger] self.entries@[j]).0]
                        == self.entries@[j].1,
                self.map().contains_key(k) == exists|j: int|
                    0 <= j < self.entries@.len() && (#[trigger] self.entries@[j]).0 == k,
            decreases self.entries@.len() - i,
        {
            if self.entries[i].0 == k {
                assert(self.entries@[i as int].0 == k);
                return Some(self.entries[i].1);
            }
            i = i + 1;
        }
        None
    }

    /// Gives a key a value, in place of the one that it had.
    pub fn insert(&mut self, k: u64, v: Addr)
        requires
            old(self).wf(),
        ensures
            final(self).wf(),
            final(self).map() == old(self).map().insert(k, v),
    {
        let ghost s0 = self.entries@;
        let ghost m0 = self.map();
        let mut i: usize = 0;
        while i < self.entries.len()
            invariant
                i <= self.entries@.len(),
                self.entries@ == s0,
                keys_distinct(s0),
                m0 == entry_map(s0),
                m0 == old(self).map(),
                forall|j: int| 0 <= j < i ==> (#[trigger] s0[j]).0 != k,
            decreases s0.len() - i,
        {
            if self.entries[i].0 == k {
                self.entries.set(i, (k, v));
                proof {
                    let s = self.entries@;
                    assert(s == s0.update(i as int, (k, v)));
                    assert forall|a: int, b: int| 0 <= a < b < s.len() implies (#[trigger] s[a]).0
                        != (#[trigger] s[b]).0 by {
                        assert(s[a].0 == s0[a].0 && s[b].0 == s0[b].0);
                    }
                    lemma_same_map(s0, s, i as int, k, v);
                }
                return;
            }
            i = i + 1;
        }
        self.entries.push((k, v));
        proof {
            let s = self.entries@;
            assert(s.drop_last() =~= s0);
            assert forall|a: int, b: int| 0 <= a < b < s.len() implies (#[trigger] s[a]).0 != (
            #[trigger] s[b]).0 by {
                assert(s0[a].0 != k);
                if b < s0.len() {
                    assert(s0[a].0 != s0[b].0);
                }
            }
        }
    }
}

proof fn lemma_same_map(s0: Seq<(u64, Addr)>, s: Seq<(u64, Addr)>, i: int, k: u64, v: Addr)
    requires
        keys_distinct(s0),
        keys_distinct(s),
        0 <= i < s0.len(),
        s0[i].0 == k,
        s == s0.update(i, (k, v)),
    ensures
        entry_map(s) == entry_map(s0).insert(k, v),
{
    assert forall|x: u64| #[trigger] entry_map(s).contains_key(x) == entry_map(s0).insert(
        k,
        v,
    ).contains_key(x) by {
        lemma_entry_map(s, x);
        lemma_entry_map(s0, x);
        if exists|j: int| 0 <= j < s.len() && (#[trigger] s[j]).0 == x {
            let j = choose|j: int| 0 <= j < s.len() && (#[trigger] s[j]).0 == x;
            assert(s0[j].0 == x);
        }
        if exists|j: int| 0 <= j < s0.len() && (#[trigger] s0[j]).0 == x {
            let j = choose|j: int| 0 <= j < s0.len() && (#[trigger] s0[j]).0 == x;
            assert(s[j].0 == x);
        }
        if x == k {
            assert(s[i].0 == k);
        }
    }
    assert forall|x: u64| entry_map(s).contains_key(x) implies #[trigger] entry_map(s)[x]
        == entry_map(s0).insert(k, v)[x] by {
        lemma_entry_map(s, x);
        lemma_entry_map(s0, x);
        let j = choose|j: int| 0 <= j < s.len() && (#[trigger] s[j]).0 == x;
        assert(s0[j].0 == x);
        if j != i {
            assert(s[j] == s0[j]);
        }
    }
    assert(entry_map(s) =~= entry_map(s0).insert(k, v));
}

/// What a program is told of itself and of its interpreter.
pub open spec fn program_auxv(bin: LoadedElf, base: Addr) -> Map<u64, Addr> {
    Map::empty().insert(AT_PHDR, bin.phdr_addr).insert(AT_PHENT, Addr(bin.phdr_size as u64)).insert(
        AT_PHNUM,
        Addr(bin.phdr_num as u64),
    ).insert(AT_ENTRY, Addr(bin.entry)).insert(AT_BASE, base)
}

/// A program starts to run at `entry`, and is told `m` of itself.
pub open spec fn starts_with(
    bin: LoadedElf,
    interp: Option<LoadedElf>,
    entry: u64,
    m: Map<u64, Addr>,
) -> bool {
    match interp {
        Some(i) => entry == i.entry && m == program_auxv(bin, i.start),
        None => entry == bin.entry && m == program_auxv(bin, Addr(0)),
    }
}

/// Where a program starts to run, and what it is told of itself. With an
/// interpreter, that is what runs first.
pub fn load_elf(bin: &LoadedElf, interp: Option<&LoadedElf>) -> (r: (u64, Auxv))
    requires
        interp matches Some(i) ==> i.interpreter is None,
    ensures
        r.1.wf(),
        starts_with(
            *bin,
            match interp {
                Some(i) => Some(*i),
                None => None,
            },
            r.0,
            r.1.map(),
        ),
{
    let mut auxv = Auxv::new();
    auxv.insert(AT_PHDR, bin.phdr_addr);
    auxv.insert(AT_PHENT, Addr(bin.phdr_size as u64));
    auxv.insert(AT_PHNUM, Addr(bin.phdr_num as u64));
    auxv.insert(AT_ENTRY, Addr(bin.entry));
    match interp {
        Some(i) => {
            auxv.insert(AT_BASE, i.start);
            (i.entry, auxv)
        },
        None => {
            auxv.insert(AT_BASE, Addr(0));
            (bin.entry, auxv)
        },
    }
}

/// Who runs a program and where its parts are.
#[derive(Debug, Clone, Copy, PartialEq, Eq, Structural)]
pub struct Surroundings {
    pub uid: u32,
    pub euid: u32,
    pub gid: u32,
    pub egid: u32,
    pub execfn: Addr,
    pub random: Addr,
    pub vdso: Addr,
}

/// What a program is told of its surroundings too.
pub open spec fn with_surroundings(m: Map<u64, Addr>, s: Surroundings) -> Map<u64, Addr> {
    m.insert(AT_UID, Addr(s.uid as u64)).insert(AT_EUID, Addr(s.euid as u64)).insert(
        AT_GID,
        Addr(s.gid as u64),
    ).insert(AT_EGID, Addr(s.egid as u64)).insert(AT_SECURE, Addr(0)).insert(
        AT_CLKTCK,
        Addr(100),
    ).insert(AT_EXECFN, s.execfn).insert(AT_RANDOM, s.random).insert(
        AT_PAGESZ,
        Addr(PAGE_SIZE),
    ).insert(AT_SYSINFO_EHDR, s.vdso)
}

/// Map `m` with further entries, the last of which count.
pub open spec fn extended(m: Map<u64, Addr>, extra: Seq<(u64, Addr)>) -> Map<u64, Addr>
    decreases extra.len(),
{
    if extra.len() == 0 {
        m
    } else {
        extended(m, extra.drop_last()).insert(extra.last().0, extra.last().1)
    }
}

impl Auxv {
    /// Adds what a program is told of its surroundings, and then what else it is
    /// told.
    pub fn complete(&mut self, s: &Surroundings, extra: &Vec<(u64, Addr)>)
        requires
            old(self).wf(),
        ensures
            final(self).wf(),
            final(self).map() == extended(with_surroundings(old(self).map(), *s), extra@),
    {
        self.insert(AT_UID, Addr(s.uid as u64));
        self.insert(AT_EUID, Addr(s.euid as u64));
        self.insert(AT_GID, Addr(s.gid as u64));
        self.insert(AT_EGID, Addr(s.egid as u64));
        self.insert(AT_SECURE, Addr(0));
        self.insert(AT_CLKTCK, Addr(100));
        self.insert(AT_EXECFN, s.execfn);
        self.insert(AT_RANDOM, s.random);
        self.insert(AT_PAGESZ, Addr(PAGE_SIZE));
        self.insert(AT_SYSINFO_EHDR, s.vdso);
        let ghost m = self.map();
        let mut i: usize = 0;
        assert(extra@.take(0) =~= Seq::<(u64, Addr)>::empty());
        while i < extra.len()
            invariant
                i <= extra@.len(),
                self.wf(),
                self.map() == extended(m, extra@.take(i as int)),
            decreases extra@.len() - i,
        {
            let (k, v) = extra[i];
            self.insert(k, v);
            assert(extra@.take(i + 1).drop_last() =~= extra@.take(i as int));
            i = i + 1;
        }
        assert(extra@.take(i as int) =~= extra@);
    }
}

} // verus!
