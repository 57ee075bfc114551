use std::collections::HashMap;

use vstd::prelude::*;

use crate::errno::{sys, SysError, SysResult, EBADF, EINVAL, EMFILE};

verus! {

broadcast use vstd::std_specs::hash::group_hash_axioms;

/// A limit that does not limit.
pub const INFINITY: u64 = u64::MAX;

#[derive(Debug, Clone, Copy, PartialEq, Eq, Structural)]
pub struct FdFlags {
    pub close_on_exec: bool,
}

impl Default for FdFlags {
    fn default() -> (f: FdFlags)
        ensures
            !f.close_on_exec,
    {
        FdFlags { close_on_exec: false }
    }
}

/// An open file, by its number, and how the descriptor of it is treated.
#[derive(Debug, Clone, Copy, PartialEq, Eq, Structural)]
pub struct Descriptor {
    pub file: u64,
    pub flags: FdFlags,
}

/// The open files of a task.
#[derive(Debug)]
pub struct FdTable {
    /// Where the search for a free descriptor starts.
    pub next: i32,
    pub descriptor_table: HashMap<i32, Descriptor>,
    pub used: i32,
}

/// The end of the descriptors that may be given out.
pub open spec fn fd_end(lim: u64) -> i32 {
    if lim != INFINITY {
        lim as i32
    } else {
        i32::MAX
    }
}

/// A count of descriptors, which starts anew past its greatest value.
pub open spec fn count(n: int) -> int {
    if n > i32::MAX {
        n - 0x1_0000_0000
    } else if n < i32::MIN {
        n + 0x1_0000_0000
    } else {
        n
    }
}

/// `fds` are the first descriptors from `start` on that are free in `t`.
pub open spec fn first_free(t: Map<i32, Descriptor>, start: i32, fds: Seq<i32>) -> bool {
    &&& forall|i: int| 0 <= i < fds.len() ==> start <= #[trigger] fds[i] && !t.contains_key(fds[i])
    &&& forall|i: int, j: int| 0 <= i < j < fds.len() ==> #[trigger] fds[i] < #[trigger] fds[j]
    &&& forall|k: i32|
        fds.len() > 0 && start <= k < fds.last() ==> #[trigger] t.contains_key(k) || fds.contains(k)
}

/// Table `t` with the files at the descriptors `fds`.
pub open spec fn opened(
    t: Map<i32, Descriptor>,
    fds: Seq<i32>,
    files: Seq<u64>,
    flags: FdFlags,
) -> Map<i32, Descriptor>
    decreases fds.len(),
{
    if fds.len() == 0 {
        t
    } else {
        opened(t, fds.drop_last(), files, flags).insert(
            fds.last(),
            Descriptor { file: files[fds.len() - 1], flags },
        )
    }
}

/// There are not `n` free descriptors in `t` from `start` on and before `end`.
pub open spec fn too_few(t: Map<i32, Descriptor>, start: i32, end: i32, n: nat) -> bool {
    exists|fds: Seq<i32>|
        {
            &&& #[trigger] first_free(t, start, fds)
            &&& fds.len() < n
            &&& forall|i: int| 0 <= i < fds.len() ==> #[trigger] fds[i] < end
            &&& forall|k: i32| start <= k < end ==> #[trigger] t.contains_key(k) || fds.contains(k)
        }
}

pub proof fn lemma_opened(
    t: Map<i32, Descriptor>,
    fds: Seq<i32>,
    files: Seq<u64>,
    flags: FdFlags,
    k: i32,
)
    requires
        fds.len() <= files.len(),
        fds.no_duplicates(),
    ensures
        opened(t, fds, files, flags).contains_key(k) == (t.contains_key(k) || fds.contains(k)),
        !fds.contains(k) && t.contains_key(k) ==> opened(t, fds, files, flags)[k] == t[k],
        forall|i: int|
            0 <= i < fds.len() ==> opened(t, fds, files, flags)[#[trigger] fds[i]] == (
            Descriptor { file: files[i], flags }),
    decreases fds.len(),
{
    if fds.len() > 0 {
        let rest = fds.drop_last();
        lemma_opened(t, rest, files, flags, k);
        assert(fds.contains(k) == (rest.contains(k) || k == fds.last())) by {
            if fds.contains(k) {
                let i = choose|i: int| 0 <= i < fds.len() && fds[i] == k;
                if i < rest.len() {
                    assert(rest[i] == k);
                }
            }
            if rest.contains(k) {
                let i = choose|i: int| 0 <= i < rest.len() && rest[i] == k;
                assert(fds[i] == k);
            }
            assert(fds[fds.len() - 1] == fds.last());
        }
        assert forall|i: int| 0 <= i < fds.len() implies opened(t, fds, files, flags)[#[trigger] fds[i]]
            == (Descriptor { file: files[i], flags }) by {
            if i < rest.len() {
                assert(rest[i] == fds[i]);
                assert(fds[i] != fds.last());
            }
        }
    }
}

/// Which descriptors are given out is determined: the first free ones.
pub proof fn first_free_is_unique(t: Map<i32, Descriptor>, start: i32, a: Seq<i32>, b: Seq<i32>)
    requires
        first_free(t, start, a),
        first_free(t, start, b),
        a.len() == b.len(),
    ensures
        a == b,
{
    assert forall|i: int| 0 <= i < a.len() implies a[i] == b[i] by {
        lemma_first_free_agree(t, start, a, b, i);
    }
}

proof fn lemma_first_free_agree(
    t: Map<i32, Descriptor>,
    start: i32,
    a: Seq<i32>,
    b: Seq<i32>,
    i: int,
)
    requires
        first_free(t, start, a),
        first_free(t, start, b),
        a.len() == b.len(),
        0 <= i < a.len(),
    ensures
        a[i] == b[i],
    decreases i,
{
    assert forall|j: int| 0 <= j < i implies a[j] == b[j] by {
        lemma_first_free_agree(t, start, a, b, j);
    }
    if a[i] < b[i] {
        lemma_not_skipped(t, start, b, a[i], i);
        let j = choose|j: int| 0 <= j < i && b[j] == a[i];
        assert(a[j] < a[i]);
    } else if b[i] < a[i] {
        lemma_not_skipped(t, start, a, b[i], i);
        let j = choose|j: int| 0 <= j < i && a[j] == b[i];
        assert(b[j] < b[i]);
    }
}

proof fn lemma_not_skipped(t: Map<i32, Descriptor>, start: i32, b: Seq<i32>, k: i32, i: int)
    requires
        first_free(t, start, b),
        0 <= i < b.len(),
        start <= k < b[i],
        !t.contains_key(k),
    ensures
        exists|j: int| 0 <= j < i && b[j] == k,
{
    if i < b.len() - 1 {
        assert(b[i] < b[b.len() - 1]);
    }
    assert(t.contains_key(k) || b.contains(k));
    let j = choose|j: int| 0 <= j < b.len() && b[j] == k;
    if j >= i {
        if i < j {
            assert(b[i] < b[j]);
        }
    }
}

/// The file and the flags of descriptor `fd`, if it is there.
pub open spec fn found_at(t: Map<i32, Descriptor>, fd: i32) -> Option<(u64, FdFlags)> {
    if t.contains_key(fd) {
        Some((t[fd].file, t[fd].flags))
    } else {
        None
    }
}

/// Descriptor `fd` is made, or made anew.
pub open spec fn puts_at(
    a: Map<i32, Descriptor>,
    b: Map<i32, Descriptor>,
    fd: i32,
    file: u64,
    flags: FdFlags,
    lim: u64,
    r: SysResult<()>,
) -> bool {
    &&& r == (if fd < 0 {
        Err::<(), SysError>(sys(EBADF))
    } else if lim != INFINITY && fd as u64 >= lim {
        Err::<(), SysError>(sys(EMFILE))
    } else {
        Ok::<(), SysError>(())
    })
    &&& b == (if r is Ok {
        a.insert(fd, Descriptor { file, flags })
    } else {
        a
    })
}

/// Descriptor `fd` is taken out, which was for `file`.
pub open spec fn takes_out(
    a: Map<i32, Descriptor>,
    b: Map<i32, Descriptor>,
    fd: i32,
    file: Option<u64>,
) -> bool {
    &&& file == (if fd >= 0 && a.contains_key(fd) {
        Some(a[fd].file)
    } else {
        None
    })
    &&& b == (if fd >= 0 {
        a.remove(fd)
    } else {
        a
    })
}

/// Descriptor `fd` is given other flags.
pub open spec fn reflags(
    a: Map<i32, Descriptor>,
    b: Map<i32, Descriptor>,
    fd: i32,
    flags: FdFlags,
    r: SysResult<()>,
) -> bool {
    &&& r == (if fd >= 0 && a.contains_key(fd) {
        Ok::<(), SysError>(())
    } else {
        Err::<(), SysError>(sys(EBADF))
    })
    &&& b == (if r is Ok {
        a.insert(fd, Descriptor { file: a[fd].file, flags })
    } else {
        a
    })
}

impl FdTable {
    /// No descriptor below the place where the search starts is free.
    pub open spec fn packed(&self) -> bool {
        forall|k: i32| 0 <= k < self.next ==> #[trigger] self.descriptor_table@.contains_key(k)
    }

    /// The descriptors as a map.
    pub open spec fn table(&self) -> Map<i32, Descriptor> {
        self.descriptor_table@
    }

    pub fn init() -> (t: Self)
        ensures
            t.table() == Map::<i32, Descriptor>::empty(),
            t.next == 0,
            t.used == 0,
            t.packed(),
    {
        FdTable { next: 0, descriptor_table: HashMap::new(), used: 0 }
    }

    /// Opens the three standard files.
    pub fn set_stdio_files(&mut self, stdin: u64, stdout: u64, stderr: u64)
        ensures
            final(self).table() == old(self).table().insert(0, stdio(stdin)).insert(
                1,
                stdio(stdout),
            ).insert(2, stdio(stderr)),
            final(self).next == old(self).next,
            final(self).used == old(self).used,
            old(self).packed() ==> final(self).packed(),
    {
        let flags = FdFlags { close_on_exec: false };
        self.descriptor_table.insert(0, Descriptor { file: stdin, flags });
        self.descriptor_table.insert(1, Descriptor { file: stdout, flags });
        self.descriptor_table.insert(2, Descriptor { file: stderr, flags });
    }

    pub fn get(&self, fd: i32) -> (d: Option<(u64, FdFlags)>)
        ensures
            d == found_at(self.table(), fd),
    {
        match self.descriptor_table.get(&fd) {
            Some(d) => Some((d.file, d.flags)),
            None => None,
        }
    }

    /// Puts a file at a descriptor, or closes the descriptor. Tells the file
    /// that was there before if it is closed or stays.
    pub fn set(&mut self, fd: i32, file: Option<u64>, flags: FdFlags) -> (orig: Option<u64>)
        ensures
            final(self).table() == (match file {
                Some(f) => old(self).table().insert(fd, Descriptor { file: f, flags }),
                None => old(self).table().remove(fd),
            }),
            final(self).next == old(self).next,
            final(self).used == count(
                old(self).used + (if file is Some {
                    1int
                } else {
                    0
                }) - (if old(self).table().contains_key(fd) {
                    1int
                } else {
                    0
                }),
            ),
            orig == (if old(self).table().contains_key(fd) && (file is None || file == Some(
                old(self).table()[fd].file,
            )) {
                Some(old(self).table()[fd].file)
            } else {
                None
            }),
    {
        let orig = match file {
            Some(f) => self.descriptor_table.insert(fd, Descriptor { file: f, flags }),
            None => self.descriptor_table.remove(&fd),
        };
        if orig.is_none() && file.is_some() {
            self.used = self.used.wrapping_add(1);
        } else if orig.is_some() && file.is_none() {
            self.used = self.used.wrapping_sub(1);
        }
        match (orig, file) {
            (Some(o), None) => Some(o.file),
            (Some(o), Some(f)) => if o.file == f {
                Some(o.file)
            } else {
                None
            },
            _ => None,
        }
    }

    /// Gives out descriptors from `fd` on for new files, up to the limit `lim`
    /// on their number.
    pub fn new_fds(&mut self, fd: i32, files: &Vec<u64>, flags: FdFlags, lim: u64) -> (r: SysResult<
        Vec<i32>,
    >)
        requires
            files@.len() > 0 || fd < 0 || fd > old(self).next || fd > fd_end(lim),
            fd + files@.len() <= i32::MAX,
        ensures
            old(self).packed() ==> final(self).packed(),
            match r {
                Ok(fds) => {
                    let start = if fd >= old(self).next {
                        fd
                    } else {
                        old(self).next
                    };
                    &&& fd >= 0
                    &&& fd + files@.len() <= fd_end(lim)
                    &&& fds@.len() == files@.len()
                    &&& first_free(old(self).table(), start, fds@)
                    &&& old(self).packed() ==> first_free(old(self).table(), fd, fds@)
                    &&& fds@.len() > 0 ==> fds@.last() < fd_end(lim)
                    &&& final(self).table() == opened(old(self).table(), fds@, files@, flags)
                    &&& final(self).used == count(old(self).used + files@.len())
                    &&& final(self).next == (if start == old(self).next {
                        fds@.last() + 1
                    } else {
                        old(self).next as int
                    })
                },
                Err(e) => {
                    let start = if fd >= old(self).next {
                        fd
                    } else {
                        old(self).next
                    };
                    &&& if fd < 0 {
                        e == sys(EINVAL)
                    } else {
                        e == sys(EMFILE) && (fd + files@.len() > fd_end(lim) || too_few(
                            old(self).table(),
                            start,
                            fd_end(lim),
                            files@.len(),
                        ))
                    }
                    &&& final(self).table() == old(self).table()
                    &&& final(self).next == old(self).next
                    &&& final(self).used == old(self).used
                },
            },
    {
        if fd < 0 {
            return Err(SysError::new(EINVAL));
        }
        let end = if lim != INFINITY {
            lim as i32
        } else {
            i32::MAX
        };
        let n = files.len();
        if fd + n as i32 > end {
            return Err(SysError::new(EMFILE));
        }
        let start = if fd >= self.next {
            fd
        } else {
            self.next
        };
        let ghost t = self.table();
        let ghost used = self.used;
        let ghost next = self.next;
        let mut fds: Vec<i32> = Vec::new();
        let mut i = start;
        while i < end && fds.len() < n
            invariant
                n == files@.len(),
                start <= i,
                i <= end || i == start,
                fds@.len() <= n,
                n <= i32::MAX,
                self.next == next,
                self.used == count(used + fds@.len()),
                self.table() == opened(t, fds@, files@, flags),
                first_free(t, start, fds@),
                forall|j: int| 0 <= j < fds@.len() ==> #[trigger] fds@[j] < i,
                forall|j: int| 0 <= j < fds@.len() ==> #[trigger] fds@[j] < end,
                forall|k: i32|
                    start <= k < i ==> #[trigger] t.contains_key(k) || fds@.contains(k),
            decreases end - i,
        {
            proof {
                lemma_opened(t, fds@, files@, flags, i);
                assert(!fds@.contains(i));
            }
            if self.get(i).is_none() {
                let j = fds.len();
                self.set(i, Some(files[j]), flags);
                let ghost before = fds@;
                fds.push(i);
                proof {
                    assert(fds@.drop_last() =~= before);
                    assert forall|k: i32| start <= k <= i implies #[trigger] t.contains_key(k)
                        || fds@.contains(k) by {
                        if k < i {
                            if before.contains(k) {
                                let j = choose|j: int| 0 <= j < before.len() && before[j] == k;
                                assert(fds@[j] == k);
                            }
                        } else {
                            assert(fds@[before.len() as int] == i);
                        }
                    }
                }
            }
            i = i + 1;
        }
        if fds.len() < n {
            let ghost got = fds@;
            proof {
                assert(too_few(t, start, end, n as nat));
                assert(got.take(got.len() as int) =~= got);
            }
            let mut j = fds.len();
            while j > 0
                invariant
                    j <= fds@.len(),
                    got == fds@,
                    fds@.len() < n,
                    n == files@.len(),
                    n <= i32::MAX,
                    first_free(t, start, got),
                    self.next == next,
                    self.used == count(used + j),
                    self.table() == opened(t, got.take(j as int), files@, flags),
                decreases j,
            {
                j = j - 1;
                let ghost rest = got.take(j as int);
                proof {
                    assert(got.take(j + 1).drop_last() =~= rest);
                    assert(got.take(j + 1).last() == got[j as int]);
                    lemma_opened(t, rest, files@, flags, got[j as int]);
                    assert(!rest.contains(got[j as int]));
                }
                self.set(fds[j], None, FdFlags { close_on_exec: false });
                assert(self.table() =~= opened(t, rest, files@, flags));
            }
            proof {
                assert(self.table() == t);
            }
            return Err(SysError::new(EMFILE));
        }
        if n == 0 {
            assert(self.table() =~= t);
            return Ok(fds);
        }
        let last = fds[n - 1];
        if start == self.next {
            self.next = last + 1;
        }
        proof {
            if old(self).packed() {
                assert forall|k: i32|
                    0 <= k < self.next implies #[trigger] self.descriptor_table@.contains_key(k) by {
                    lemma_opened(t, fds@, files@, flags, k);
                    if k >= next {
                        if k < last {
                            assert(t.contains_key(k) || fds@.contains(k));
                        } else {
                            assert(fds@[n - 1] == k);
                            assert(fds@.contains(k));
                        }
                    } else {
                        assert(old(self).descriptor_table@.contains_key(k));
                    }
                }
            }
        }
        Ok(fds)
    }

    /// Puts a file at a given descriptor.
    pub fn new_fd_at(&mut self, fd: i32, file: u64, flags: FdFlags, lim: u64) -> (r: SysResult<()>)
        ensures
            puts_at(old(self).table(), final(self).table(), fd, file, flags, lim, r),
            final(self).next == old(self).next,
            final(self).used == count(
                old(self).used + (if r is Ok && !old(self).table().contains_key(fd) {
                    1int
                } else {
                    0
                }),
            ),
            old(self).packed() ==> final(self).packed(),
    {
        if fd < 0 {
            return Err(SysError::new(EBADF));
        }
        if lim != INFINITY && fd as u64 >= lim {
            return Err(SysError::new(EMFILE));
        }
        self.set(fd, Some(file), flags);
        Ok(())
    }

    /// Closes a descriptor.
    pub fn remove(&mut self, fd: i32) -> (file: Option<u64>)
        ensures
            takes_out(old(self).table(), final(self).table(), fd, file),
            final(self).next == (if 0 <= fd < old(self).next {
                fd
            } else {
                old(self).next
            }),
            final(self).used == count(
                old(self).used - (if file is Some {
                    1int
                } else {
                    0
                }),
            ),
            old(self).packed() ==> final(self).packed(),
    {
        if fd < 0 {
            return None;
        }
        if fd < self.next {
            self.next = fd;
        }
        match self.get(fd) {
            None => {
                assert(self.table() =~= self.table().remove(fd));
                None
            },
            Some((file, _)) => {
                self.set(fd, None, FdFlags { close_on_exec: false });
                Some(file)
            },
        }
    }

    /// Changes the flags of a descriptor.
    pub fn set_flags(&mut self, fd: i32, flags: FdFlags) -> (r: SysResult<()>)
        ensures
            reflags(old(self).table(), final(self).table(), fd, flags, r),
            final(self).next == old(self).next,
            final(self).used == old(self).used,
            old(self).packed() ==> final(self).packed(),
    {
        if fd < 0 {
            return Err(SysError::new(EBADF));
        }
        match self.get(fd) {
            None => Err(SysError::new(EBADF)),
            Some((file, _)) => {
                self.set(fd, Some(file), flags);
                Ok(())
            },
        }
    }
}

/// A standard file.
pub open spec fn stdio(file: u64) -> Descriptor {
    Descriptor { file, flags: FdFlags { close_on_exec: false } }
}

/// A descriptor that was closed is the next one to be given out, as long as no
/// lower one is free.
pub proof fn closed_descriptor_is_reused(t: FdTable, after: FdTable, fd: i32, fds: Seq<i32>)
    requires
        t.packed(),
        0 <= fd < t.next,
        after.table() == t.table().remove(fd),
        after.next == fd,
        fds.len() == 1,
        first_free(after.table(), after.next, fds),
    ensures
        fds == seq![fd],
{
    assert(fds[0] >= fd);
    if fds[0] > fd {
        assert(after.table().contains_key(fd) || fds.contains(fd));
    }
    assert(fds =~= seq![fd]);
}

} // verus!
