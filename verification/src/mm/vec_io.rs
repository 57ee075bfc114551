use vstd::prelude::*;

use crate::access::AccessType;
use crate::block::{flat, BlockSeq};
use crate::errno::{sys, SysError, SysResult, EFAULT};
use crate::mm::io::{
    access_end, access_result, all_hosts, known, ready, translate_io_error,
};
use crate::mm::manager::MemoryManager;
use crate::mm::protect::reaches;
use crate::mm::transfer::{all_ready, page_range, pages_of};
use crate::range::{AddrRange, Range};

verus! {

/// No range is empty.
pub open spec fn none_empty(ars: Seq<AddrRange>) -> bool {
    forall|i: int| 0 <= i < ars.len() ==> (#[trigger] ars[i]).start < ars[i].end
}

/// The ranges before the one at index `j`, and that one up to `end`.
pub open spec fn cut_short(ars: Seq<AddrRange>, j: int, end: u64) -> Seq<AddrRange> {
    if end <= ars[j].start {
        ars.take(j)
    } else {
        ars.take(j).push(Range { start: ars[j].start, end })
    }
}

/// The ranges before the one at index `j`, and that one up to `end`.
pub fn truncated_addr_range_seq(ars: &Vec<AddrRange>, j: usize, end: u64) -> (r: Vec<AddrRange>)
    requires
        j < ars@.len(),
        end <= ars@[j as int].end,
    ensures
        r@ == cut_short(ars@, j as int, end),
        none_empty(ars@) ==> none_empty(r@),
{
    let mut r: Vec<AddrRange> = Vec::new();
    let mut i: usize = 0;
    while i < j
        invariant
            i <= j < ars@.len(),
            r@ == ars@.take(i as int),
        decreases j - i,
    {
        r.push(ars[i]);
        assert(ars@.take(i + 1) =~= ars@.take(i as int).push(ars@[i as int]));
        i = i + 1;
    }
    let start = ars[j].start;
    if end > start {
        r.push(Range { start, end });
    }
    r
}

/// The first `n` bytes of several ranges.
pub open spec fn first_bytes(ars: Seq<AddrRange>, n: int) -> Seq<AddrRange>
    decreases ars.len(),
{
    if ars.len() == 0 || n <= 0 {
        Seq::empty()
    } else if ars[0].length() <= n {
        seq![ars[0]] + first_bytes(ars.skip(1), n - ars[0].length())
    } else {
        seq![Range { start: ars[0].start, end: (ars[0].start + n) as u64 }]
    }
}

/// What is left of several ranges when memory could be had for those before index
/// `j`, and from the start of that one up to `end`.
pub open spec fn had_up_to(ars: Seq<AddrRange>, j: int, end: u64) -> Seq<AddrRange> {
    ars.take(j) + first_bytes(ars.skip(j), end - ars[j].start)
}

/// Sees what follows once the way to the memory for the range at index `j` has come
/// to `end` with `res`. Tells what is left of all the ranges, and why, if they are
/// not gone on with: there is no memory, or the range cannot be rounded to whole
/// pages.
pub fn pmas_left(ars: &Vec<AddrRange>, j: usize, end: u64, res: SysResult<()>) -> (r: Option<
    (Vec<AddrRange>, SysResult<()>),
>)
    requires
        j < ars@.len(),
        forall|i: int| 0 <= i < ars@.len() ==> (#[trigger] ars@[i]).well_formed(),
    ensures
        match r {
            None => res is Ok && pages_of(ars@[j as int]).1 is Ok,
            Some((left, e)) => {
                &&& left@ == had_up_to(ars@, j as int, end)
                &&& e is Err
                &&& e == (if res is Err {
                    res
                } else {
                    pages_of(ars@[j as int]).1
                })
            },
        },
{
    let res = match res {
        Err(e) => Err(e),
        Ok(_) => page_range(ars[j]).1,
    };
    mappings_left(ars, j, end, res)
}

/// Sees what follows once the memory for the range at index `j` could be mapped up to
/// `end`, with `res`. Tells what is left of all the ranges, and why, if they are not
/// gone on with.
pub fn mappings_left(ars: &Vec<AddrRange>, j: usize, end: u64, res: SysResult<()>) -> (r: Option<
    (Vec<AddrRange>, SysResult<()>),
>)
    requires
        j < ars@.len(),
        forall|i: int| 0 <= i < ars@.len() ==> (#[trigger] ars@[i]).well_formed(),
    ensures
        match r {
            None => res is Ok,
            Some((left, e)) => left@ == had_up_to(ars@, j as int, end) && e == res && e is Err,
        },
{
    let e = match res {
        Err(e) => e,
        Ok(_) => return None,
    };
    let mut left: Vec<AddrRange> = Vec::new();
    let mut i: usize = 0;
    while i < j
        invariant
            i <= j < ars@.len(),
            left@ == ars@.take(i as int),
        decreases j - i,
    {
        left.push(ars[i]);
        assert(ars@.take(i + 1) =~= ars@.take(i as int).push(ars@[i as int]));
        i = i + 1;
    }
    let mut n: u64 = if end > ars[j].start {
        end - ars[j].start
    } else {
        0
    };
    let ghost all = had_up_to(ars@, j as int, end);
    proof {
        assert(left@ + first_bytes(ars@.skip(i as int), n as int) =~= all);
    }
    while i < ars.len() && n > 0
        invariant
            i <= ars@.len(),
            forall|i: int| 0 <= i < ars@.len() ==> (#[trigger] ars@[i]).well_formed(),
            left@ + first_bytes(ars@.skip(i as int), n as int) == all,
        decreases ars@.len() - i,
    {
        let ghost rest = ars@.skip(i as int);
        let r = ars[i];
        assert(r.well_formed());
        let ghost before = left@;
        let len = r.end - r.start;
        assert(rest[0] == r);
        assert(rest.skip(1) =~= ars@.skip(i + 1));
        if len <= n {
            left.push(r);
            n = n - len;
            proof {
                assert(left@ + first_bytes(ars@.skip(i + 1), n as int) =~= before + (seq![r]
                    + first_bytes(ars@.skip(i + 1), n as int)));
            }
        } else {
            let part = Range { start: r.start, end: r.start + n };
            left.push(part);
            n = 0;
            proof {
                assert(left@ + first_bytes(ars@.skip(i + 1), 0) =~= before + seq![part]);
            }
        }
        i = i + 1;
    }
    assert(left@ =~= all);
    Some((left, Err(e)))
}

/// The ranges hold no bytes.
pub open spec fn all_empty(ars: Seq<AddrRange>) -> bool {
    forall|i: int| 0 <= i < ars.len() ==> (#[trigger] ars[i]).start == ars[i].end
}

/// What an access to several ranges comes to when nothing is left of them, for the
/// reason `res`.
pub fn vec_limit(left: &Vec<AddrRange>, res: SysResult<()>) -> (r: Option<SysResult<usize>>)
    ensures
        r == (if all_empty(left@) {
            Some(
                if res is Ok {
                    Ok::<usize, SysError>(0)
                } else {
                    Err::<usize, SysError>(sys(EFAULT))
                },
            )
        } else {
            None
        }),
{
    let mut i: usize = 0;
    while i < left.len()
        invariant
            i <= left@.len(),
            forall|j: int| 0 <= j < i ==> (#[trigger] left@[j]).start == left@[j].end,
        decreases left@.len() - i,
    {
        if left[i].start != left[i].end {
            assert(left@[i as int].start != left@[i as int].end);
            return None;
        }
        i = i + 1;
    }
    match res {
        Ok(_) => Some(Ok(0)),
        Err(e) => Some(Err(translate_io_error(e))),
    }
}

/// How an access to several ranges starts.
#[derive(Debug)]
pub enum VecIoStart {
    /// It is an access to one range only.
    Single(AddrRange),
    /// All memory is at hand, at these places of the host.
    Ready(BlockSeq),
    /// There is nothing to be done.
    Stop(SysResult<usize>),
    /// Memory has to be had for these ranges first.
    Walk { ars: Vec<AddrRange>, res: SysResult<()> },
}

impl MemoryManager {
    /// The access is possible to the ranges before index `j`, and to that one up
    /// to `x`.
    pub open spec fn vec_reaches(
        &self,
        ars: Seq<AddrRange>,
        need: AccessType,
        max: bool,
        j: int,
        x: u64,
    ) -> bool {
        &&& 0 <= j <= ars.len()
        &&& forall|i: int|
            0 <= i < j ==> reaches(
                self.vmas.model(),
                #[trigger] ars[i],
                need,
                max,
                ars[i].end,
            )
        &&& j < ars.len() ==> x < ars[j].end && reaches(self.vmas.model(), ars[j], need, max, x)
    }

    /// What is left of several ranges when the access is possible to those
    /// before index `j`, and to that one up to `x`.
    pub open spec fn vec_accessible(&self, ars: Seq<AddrRange>, j: int, x: u64) -> (
        Seq<AddrRange>,
        SysResult<()>,
    ) {
        if j == ars.len() {
            (ars, Ok(()))
        } else {
            (
                cut_short(ars, j, access_end(self.vmas.ranges(), ars[j], x)),
                access_result(self.vmas.model(), ars[j], x),
            )
        }
    }

    /// Sees how much of several ranges is mapped for the access `at`.
    pub fn get_vec_vmas(&self, ars: &Vec<AddrRange>, at: AccessType, ignore_permissions: bool) -> (r:
        (Vec<AddrRange>, SysResult<()>))
        requires
            self.wf(),
            none_empty(ars@),
        ensures
            exists|j: int, x: u64|
                {
                    &&& #[trigger] self.vec_reaches(ars@, at, ignore_permissions, j, x)
                    &&& (r.0@, r.1) == self.vec_accessible(ars@, j, x)
                },
            none_empty(r.0@),
    {
        let ghost m = self.vmas.model();
        let mut j: usize = 0;
        while j < ars.len()
            invariant
                self.wf(),
                m == self.vmas.model(),
                none_empty(ars@),
                j <= ars@.len(),
                forall|i: int|
                    0 <= i < j ==> reaches(
                        m,
                        #[trigger] ars@[i],
                        at,
                        ignore_permissions,
                        ars@[i].end,
                    ),
            decreases ars@.len() - j,
        {
            let ar = ars[j];
            assert(ars@[j as int].start < ars@[j as int].end);
            let (end, res) = self.get_vmas(ar, at, ignore_permissions);
            let ghost x = choose|x: u64|
                {
                    &&& #[trigger] reaches(m, ar, at, ignore_permissions, x)
                    &&& end == access_end(m.ks, ar, x)
                    &&& res == access_result(m, ar, x)
                };
            proof {
                self.lemma_access_end(ar, at, ignore_permissions, x);
            }
            if res.is_err() {
                assert(self.vec_reaches(ars@, at, ignore_permissions, j as int, x));
                return (truncated_addr_range_seq(ars, j, end), res);
            }
            j = j + 1;
        }
        let mut all: Vec<AddrRange> = Vec::new();
        let mut i: usize = 0;
        while i < ars.len()
            invariant
                i <= ars@.len(),
                all@ == ars@.take(i as int),
            decreases ars@.len() - i,
        {
            all.push(ars[i]);
            assert(ars@.take(i + 1) =~= ars@.take(i as int).push(ars@[i as int]));
            i = i + 1;
        }
        assert(ars@.take(i as int) =~= ars@);
        assert(self.vec_reaches(ars@, at, ignore_permissions, j as int, 0));
        (all, Ok(()))
    }

    /// Whether memory for the access is at hand behind all of the ranges.
    pub fn existing_vec_pmas(
        &self,
        ars: &Vec<AddrRange>,
        at: AccessType,
        ignore_permissions: bool,
        need_internal_mappings: bool,
    ) -> (ok: bool)
        requires
            self.wf(),
            forall|i: int| 0 <= i < ars@.len() ==> (#[trigger] ars@[i]).well_formed(),
        ensures
            ok == forall|i: int, k: int|
                #![trigger ars@[i].has(k)]
                0 <= i < ars@.len() && ars@[i].has(k) ==> ready(
                    self.pmas.model(),
                    k,
                    at,
                    ignore_permissions,
                    need_internal_mappings,
                ),
    {
        let ghost m = self.pmas.model();
        let mut j: usize = 0;
        while j < ars.len()
            invariant
                self.wf(),
                m == self.pmas.model(),
                j <= ars@.len(),
                forall|i: int| 0 <= i < ars@.len() ==> (#[trigger] ars@[i]).well_formed(),
                forall|i: int, k: int|
                    #![trigger ars@[i].has(k)]
                    0 <= i < j && ars@[i].has(k) ==> ready(
                        m,
                        k,
                        at,
                        ignore_permissions,
                        need_internal_mappings,
                    ),
            decreases ars@.len() - j,
        {
            let ar = ars[j];
            assert(ars@[j as int].well_formed());
            if !ar.is_empty() && self.existing_pmas(
                ar,
                at,
                ignore_permissions,
                need_internal_mappings,
            ).is_none() {
                proof {
                    let k = choose|k: int|
                        ar.has(k) && !#[trigger] ready(
                            m,
                            k,
                            at,
                            ignore_permissions,
                            need_internal_mappings,
                        );
                    assert(ars@[j as int].has(k));
                }
                return false;
            }
            j = j + 1;
        }
        true
    }

    /// How an access to several ranges starts.
    pub open spec fn vec_starts(
        &self,
        ars: Seq<AddrRange>,
        need: AccessType,
        max: bool,
        s: VecIoStart,
    ) -> bool {
        if exists|i: int| 0 <= i < ars.len() && (#[trigger] ars[i]).end > self.layout.max_addr.0 {
            s == VecIoStart::Stop(Err(sys(EFAULT)))
        } else if ars.len() == 0 {
            s == VecIoStart::Stop(Ok(0))
        } else if ars.len() == 1 {
            s == VecIoStart::Single(ars[0])
        } else if forall|i: int|
            0 <= i < ars.len() ==> all_ready(self.pmas.model(), #[trigger] ars[i], need, max) {
            match s {
                VecIoStart::Ready(b) => flat(b@) == all_hosts(self.pmas.model(), ars),
                _ => false,
            }
        } else {
            exists|j: int, x: u64|
                {
                    let (left, res) = self.vec_accessible(ars, j, x);
                    &&& #[trigger] self.vec_reaches(ars, need, max, j, x)
                    &&& if left.len() == 0 {
                        s == VecIoStart::Stop(
                            if res is Ok {
                                Ok(0)
                            } else {
                                Err(sys(EFAULT))
                            },
                        )
                    } else {
                        match s {
                            VecIoStart::Walk { ars: a, res: r } => a@ == left && r == res,
                            _ => false,
                        }
                    }
                }
        }
    }

    /// Starts an access to several ranges.
    pub fn begin_vec_io(&self, ars: &Vec<AddrRange>, at: AccessType, ignore_permissions: bool) -> (s:
        VecIoStart)
        requires
            self.wf(),
            none_empty(ars@),
        ensures
            self.vec_starts(ars@, at, ignore_permissions, s),
            s matches VecIoStart::Walk { ars: a, .. } ==> none_empty(a@),
    {
        let ghost pm = self.pmas.model();
        assert forall|i: int| 0 <= i < ars@.len() implies (#[trigger] ars@[i]).well_formed() by {
            assert(ars@[i].start < ars@[i].end);
        }
        if !self.check_io_vec(ars) {
            return VecIoStart::Stop(Err(SysError::new(EFAULT)));
        }
        if ars.len() == 0 {
            return VecIoStart::Stop(Ok(0));
        }
        if ars.len() == 1 {
            return VecIoStart::Single(ars[0]);
        }
        let ok = self.existing_vec_pmas(ars, at, ignore_permissions, true);
        if ok {
            assert forall|i: int| 0 <= i < ars@.len() implies all_ready(
                pm,
                #[trigger] ars@[i],
                at,
                ignore_permissions,
            ) by {
                assert forall|k: int| ars@[i].has(k) implies #[trigger] ready(
                    pm,
                    k,
                    at,
                    ignore_permissions,
                    true,
                ) by {}
            }
            assert forall|i: int, k: int|
                #![trigger ars@[i], known(pm, k)]
                0 <= i < ars@.len() && ars@[i].has(k) implies known(pm, k) by {
                assert(ready(pm, k, at, ignore_permissions, true));
            }
            return VecIoStart::Ready(self.vec_internal_mappings(ars));
        }
        proof {
            let (i, k) = choose|i: int, k: int|
                #![trigger ars@[i].has(k)]
                0 <= i < ars@.len() && ars@[i].has(k) && !ready(
                    pm,
                    k,
                    at,
                    ignore_permissions,
                    true,
                );
            assert(!all_ready(pm, ars@[i], at, ignore_permissions));
        }
        let (left, res) = self.get_vec_vmas(ars, at, ignore_permissions);
        if left.len() == 0 {
            return match res {
                Ok(_) => VecIoStart::Stop(Ok(0)),
                Err(e) => VecIoStart::Stop(Err(translate_io_error(e))),
            };
        }
        VecIoStart::Walk { ars: left, res }
    }
}

/// What an access to several ranges comes to that handled `n` bytes.
pub fn vec_io_result(
    n: SysResult<usize>,
    imres: SysResult<()>,
    pres: SysResult<()>,
    vres: SysResult<()>,
) -> (r: SysResult<usize>)
    ensures
        r == (if n is Err || imres is Err || pres is Err || vres is Err {
            Err::<usize, SysError>(sys(EFAULT))
        } else {
            n
        }),
{
    let n = match n {
        Ok(n) => Ok(n),
        Err(e) => Err(translate_io_error(e)),
    };
    crate::mm::io::io_result(n, imres, pres, vres)
}

} // verus!
