use vstd::prelude::*;

use crate::addr::Addr;
use crate::errno::{sys, SysError, SysResult, ENOEXEC};

verus! {

/// A segment that is to be loaded.
pub const PT_LOAD: u32 = 1;

/// The path of the interpreter.
pub const PT_INTERP: u32 = 3;

/// The longest path.
pub const PATH_MAX: u64 = 4096;

/// What a program file says of one of its segments.
#[derive(Debug, Clone, Copy, PartialEq, Eq, Structural)]
pub struct ProgramHeader {
    pub p_type: u32,
    pub p_flags: u32,
    pub p_offset: u64,
    pub p_vaddr: u64,
    pub p_filesz: u64,
    pub p_memsz: u64,
}

/// What is read of a program file.
#[derive(Debug)]
pub struct ElfImage {
    /// The program can be loaded anywhere.
    pub is_lib: bool,
    pub entry: u64,
    pub interpreter: Option<String>,
    pub phoff: u64,
    pub phentsize: u16,
    pub phnum: u16,
    pub program_headers: Vec<ProgramHeader>,
}

#[verifier::ext_equal]
pub ghost struct ElfView {
    pub is_lib: bool,
    pub entry: u64,
    pub interpreter: Option<Seq<char>>,
    pub phoff: u64,
    pub phentsize: u16,
    pub phnum: u16,
    pub program_headers: Seq<ProgramHeader>,
}

impl View for ElfImage {
    type V = ElfView;

    open spec fn view(&self) -> ElfView {
        ElfView {
            is_lib: self.is_lib,
            entry: self.entry,
            interpreter: match self.interpreter {
                Some(s) => Some(s@),
                None => None,
            },
            phoff: self.phoff,
            phentsize: self.phentsize,
            phnum: self.phnum,
            program_headers: self.program_headers@,
        }
    }
}

/// What `goblin::elf::Elf::parse` reads from the bytes of a program file, or
/// nothing where it finds them malformed.
pub uninterp spec fn parsed(bytes: Seq<u8>) -> Option<ElfView>;

/// Reads a program file by `goblin::elf::Elf::parse`. What it finds depends on
/// the bytes alone, and is not said here in any other way.
#[verifier::external_body]
pub(crate) fn parse_elf(bytes: &[u8]) -> (r: Option<ElfImage>)
    ensures
        (match r {
            Some(e) => Some(e@),
            None => None,
        }) == parsed(bytes@),
{
    let e = goblin::elf::Elf::parse(bytes).ok()?;
    let phs = e.program_headers.iter().map(|p| {
        let (p_type, p_flags, p_offset) = (p.p_type, p.p_flags, p.p_offset);
        let (p_vaddr, p_filesz, p_memsz) = (p.p_vaddr, p.p_filesz, p.p_memsz);
        ProgramHeader { p_type, p_flags, p_offset, p_vaddr, p_filesz, p_memsz }
    });
    let (is_lib, entry, phoff) = (e.is_lib, e.entry, e.header.e_phoff);
    let (phentsize, phnum) = (e.header.e_phentsize, e.header.e_phnum);
    let interpreter = e.interpreter.map(|s| s.to_string());
    let program_headers = phs.collect();
    Some(ElfImage { is_lib, entry, interpreter, phoff, phentsize, phnum, program_headers })
}

/// The segments that are loaded follow each other, each within the addresses,
/// and the last ends at `end`. `after` is the end of those before.
pub open spec fn in_order(phs: Seq<ProgramHeader>, after: u64, end: u64) -> bool
    decreases phs.len(),
{
    if phs.len() == 0 {
        after == end
    } else if phs[0].p_type == PT_LOAD {
        &&& phs[0].p_vaddr >= after
        &&& phs[0].p_vaddr + phs[0].p_memsz <= u64::MAX
        &&& in_order(phs.skip(1), (phs[0].p_vaddr + phs[0].p_memsz) as u64, end)
    } else {
        in_order(phs.skip(1), after, end)
    }
}

/// The address of the first segment that is loaded.
pub open spec fn first_load(phs: Seq<ProgramHeader>) -> Option<u64>
    decreases phs.len(),
{
    if phs.len() == 0 {
        None
    } else if phs[0].p_type == PT_LOAD {
        Some(phs[0].p_vaddr)
    } else {
        first_load(phs.skip(1))
    }
}

/// A path of an interpreter has a size that a path can have, and is there.
pub open spec fn interpreter_ok(e: ElfView) -> bool {
    forall|i: int|
        0 <= i < e.program_headers.len() && (#[trigger] e.program_headers[i]).p_type == PT_INTERP
            ==> 2 <= e.program_headers[i].p_filesz <= PATH_MAX && e.interpreter is Some
}

/// The program can be loaded, between the addresses `start` and `end`.
pub open spec fn loadable(e: ElfView, start: u64, end: u64) -> bool {
    &&& in_order(e.program_headers, 0, end)
    &&& first_load(e.program_headers) == Some(start)
    &&& interpreter_ok(e)
}

proof fn lemma_in_order_determined(phs: Seq<ProgramHeader>, after: u64, x: u64, y: u64)
    requires
        in_order(phs, after, x),
        in_order(phs, after, y),
    ensures
        x == y,
    decreases phs.len(),
{
    if phs.len() > 0 {
        if phs[0].p_type == PT_LOAD {
            lemma_in_order_determined(
                phs.skip(1),
                (phs[0].p_vaddr + phs[0].p_memsz) as u64,
                x,
                y,
            );
        } else {
            lemma_in_order_determined(phs.skip(1), after, x, y);
        }
    }
}

/// The addresses between which a program is loaded are determined.
pub proof fn bounds_are_determined(e: ElfView, s: u64, t: u64, x: u64, y: u64)
    requires
        loadable(e, s, x),
        loadable(e, t, y),
    ensures
        s == t,
        x == y,
{
    lemma_in_order_determined(e.program_headers, 0, x, y);
}

/// The end of a program that is loaded does not lie before its start.
pub proof fn load_bounds_are_ordered(phs: Seq<ProgramHeader>, after: u64, end: u64)
    requires
        in_order(phs, after, end),
    ensures
        after <= end,
        first_load(phs) matches Some(s) ==> s <= end,
    decreases phs.len(),
{
    if phs.len() > 0 {
        if phs[0].p_type == PT_LOAD {
            load_bounds_are_ordered(
                phs.skip(1),
                (phs[0].p_vaddr + phs[0].p_memsz) as u64,
                end,
            );
        } else {
            load_bounds_are_ordered(phs.skip(1), after, end);
        }
    }
}

/// The first segments, in order up to `end`, leave the rest to be in order.
proof fn lemma_in_order_split(phs: Seq<ProgramHeader>, i: int, after: u64, mid: u64, end: u64)
    requires
        0 <= i <= phs.len(),
        in_order(phs.take(i), after, mid),
    ensures
        in_order(phs, after, end) == in_order(phs.skip(i), mid, end),
    decreases i,
{
    if i == 0 {
        assert(phs.skip(0) =~= phs);
    } else {
        let t = phs.take(i);
        assert(t[0] == phs[0]);
        assert(t.skip(1) =~= phs.skip(1).take(i - 1));
        assert(phs.skip(1).skip(i - 1) =~= phs.skip(i));
        if phs[0].p_type == PT_LOAD {
            lemma_in_order_split(
                phs.skip(1),
                i - 1,
                (phs[0].p_vaddr + phs[0].p_memsz) as u64,
                mid,
                end,
            );
        } else {
            lemma_in_order_split(phs.skip(1), i - 1, after, mid, end);
        }
    }
}

proof fn lemma_first_load_split(phs: Seq<ProgramHeader>, i: int)
    requires
        0 <= i <= phs.len(),
    ensures
        first_load(phs) == (match first_load(phs.take(i)) {
            Some(s) => Some(s),
            None => first_load(phs.skip(i)),
        }),
    decreases i,
{
    if i == 0 {
        assert(phs.skip(0) =~= phs);
    } else {
        let t = phs.take(i);
        assert(t[0] == phs[0]);
        assert(t.skip(1) =~= phs.skip(1).take(i - 1));
        assert(phs.skip(1).skip(i - 1) =~= phs.skip(i));
        lemma_first_load_split(phs.skip(1), i - 1);
    }
}

/// One segment more keeps the order.
proof fn lemma_in_order_step(phs: Seq<ProgramHeader>, i: int, mid: u64)
    requires
        0 <= i < phs.len(),
        in_order(phs.take(i), 0, mid),
    ensures
        phs[i].p_type != PT_LOAD ==> in_order(phs.take(i + 1), 0, mid),
        phs[i].p_type == PT_LOAD && phs[i].p_vaddr >= mid && phs[i].p_vaddr + phs[i].p_memsz
            <= u64::MAX ==> in_order(
            phs.take(i + 1),
            0,
            (phs[i].p_vaddr + phs[i].p_memsz) as u64,
        ),
        phs[i].p_type == PT_LOAD && (phs[i].p_vaddr < mid || phs[i].p_vaddr + phs[i].p_memsz
            > u64::MAX) ==> forall|end: u64| !#[trigger] in_order(phs, 0, end),
{
    reveal_with_fuel(in_order, 3);
    let t = phs.take(i + 1);
    assert(t.take(i) =~= phs.take(i));
    assert(t.skip(i) =~= seq![phs[i]]);
    assert(t.skip(i).skip(1) =~= Seq::<ProgramHeader>::empty());
    let e = (phs[i].p_vaddr + phs[i].p_memsz) as u64;
    lemma_in_order_split(t, i, 0, mid, mid);
    lemma_in_order_split(t, i, 0, mid, e);
    assert forall|end: u64|
        phs[i].p_type == PT_LOAD && (phs[i].p_vaddr < mid || phs[i].p_vaddr + phs[i].p_memsz
            > u64::MAX) implies !#[trigger] in_order(phs, 0, end) by {
        lemma_in_order_split(phs, i, 0, mid, end);
        assert(phs.skip(i)[0] == phs[i]);
    }
}

proof fn lemma_first_load_step(phs: Seq<ProgramHeader>, i: int)
    requires
        0 <= i < phs.len(),
    ensures
        first_load(phs.take(i + 1)) == (match first_load(phs.take(i)) {
            Some(s) => Some(s),
            None => if phs[i].p_type == PT_LOAD {
                Some(phs[i].p_vaddr)
            } else {
                None
            },
        }),
{
    let t = phs.take(i + 1);
    assert(t.take(i) =~= phs.take(i));
    assert(t.skip(i) =~= seq![phs[i]]);
    assert(t.skip(i).skip(1) =~= Seq::<ProgramHeader>::empty());
    lemma_first_load_split(t, i);
    reveal_with_fuel(first_load, 3);
}

impl ElfImage {
    /// The addresses between which the program is loaded.
    pub fn load_bounds(&self) -> (r: SysResult<(Addr, Addr)>)
        ensures
            match r {
                Ok((start, end)) => loadable(self@, start.0, end.0),
                Err(e) => e == sys(ENOEXEC) && forall|start: u64, end: u64|
                    !#[trigger] loadable(self@, start, end),
            },
    {
        let ghost phs = self.program_headers@;
        let mut start: Option<u64> = None;
        let mut end: u64 = 0;
        let mut i: usize = 0;
        assert(phs.take(0) =~= Seq::<ProgramHeader>::empty());
        while i < self.program_headers.len()
            invariant
                phs == self.program_headers@,
                i <= phs.len(),
                in_order(phs.take(i as int), 0, end),
                first_load(phs.take(i as int)) == start,
                forall|j: int|
                    0 <= j < i && (#[trigger] phs[j]).p_type == PT_INTERP ==> 2 <= phs[j].p_filesz
                        <= PATH_MAX && self.interpreter is Some,
            decreases phs.len() - i,
        {
            let ph = self.program_headers[i];
            proof {
                lemma_in_order_step(phs, i as int, end);
                lemma_first_load_step(phs, i as int);
            }
            if ph.p_type == PT_LOAD {
                if start.is_none() {
                    start = Some(ph.p_vaddr);
                }
                if ph.p_vaddr < end {
                    return Err(SysError::new(ENOEXEC));
                }
                end = match ph.p_vaddr.checked_add(ph.p_memsz) {
                    Some(e) => e,
                    None => return Err(SysError::new(ENOEXEC)),
                };
            } else if ph.p_type == PT_INTERP {
                if ph.p_filesz < 2 || ph.p_filesz > PATH_MAX || self.interpreter.is_none() {
                    assert(self@.program_headers[i as int].p_type == PT_INTERP);
                    return Err(SysError::new(ENOEXEC));
                }
            }
            i = i + 1;
        }
        assert(phs.take(i as int) =~= phs);
        match start {
            Some(s) => Ok((Addr(s), Addr(end))),
            None => Err(SysError::new(ENOEXEC)),
        }
    }
}

} // verus!
