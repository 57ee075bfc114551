use vstd::prelude::*;

use crate::errno::{sys, SysError, SysResult, ENOTTY, EOF, ESPIPE, EWOULDBLOCK};

verus! {

pub const MIN_PIPE_SIZE: usize = 4096;

pub const MAX_PIPE_SIZE: usize = 1048576;

/// Writes up to this size are done as a whole or not at all.
pub const ATOMIC_IO_BYTES: usize = 4096;

pub const DEFAULT_PIPE_SIZE: usize = 65536;

/// The request to tell how many bytes can be read.
pub const FIONREAD: u64 = 0x541b;

/// A pipe: a ring of bytes that grows as needed, up to a limit.
#[derive(Debug)]
pub struct Pipe {
    buf: Vec<u8>,
    offset: usize,
    size: usize,
    max: usize,
    has_reader: bool,
    has_writer: bool,
}

/// How much can be written at once.
#[derive(Debug, Clone, Copy, PartialEq, Eq, Structural)]
pub struct WriteRoom {
    pub count: usize,
    /// Not all that was asked for can be written.
    pub short: bool,
}

/// Place `i` in a ring of `n` bytes that starts at `offset`.
pub open spec fn ring(offset: int, i: int, n: int) -> int {
    if offset + i >= n {
        offset + i - n
    } else {
        offset + i
    }
}

/// How much of `count` bytes can be written to a pipe for `max` bytes that holds
/// `size`.
pub open spec fn room_for(has_writer: bool, size: int, max: int, count: int) -> SysResult<
    WriteRoom,
> {
    let available = max - size;
    if !has_writer {
        Err(sys(ESPIPE))
    } else if available == 0 {
        Err(sys(EWOULDBLOCK))
    } else if count <= available {
        Ok(WriteRoom { count: count as usize, short: false })
    } else if count <= ATOMIC_IO_BYTES {
        Err(sys(EWOULDBLOCK))
    } else {
        Ok(WriteRoom { count: available as usize, short: true })
    }
}

/// What writing comes to when `done` bytes of those that there was room for
/// could be copied.
pub open spec fn write_result(room: WriteRoom, done: int) -> SysResult<usize> {
    if done == room.count && room.short {
        Err(sys(EWOULDBLOCK))
    } else {
        Ok(done as usize)
    }
}

/// What reading `count` bytes comes to when the pipe holds `c`.
pub open spec fn readable(has_writer: bool, c: Seq<u8>, count: int) -> SysResult<Seq<u8>> {
    if count == 0 {
        Ok(Seq::empty())
    } else if c.len() == 0 {
        if has_writer {
            Err(sys(EWOULDBLOCK))
        } else {
            Err(sys(EOF))
        }
    } else if count <= c.len() {
        Ok(c.take(count))
    } else {
        Ok(c)
    }
}

impl View for Pipe {
    type V = Seq<u8>;

    /// The bytes that were written and not yet read, in order.
    closed spec fn view(&self) -> Seq<u8> {
        Seq::new(
            self.size as nat,
            |i: int| self.buf@[ring(self.offset as int, i, self.buf@.len() as int)],
        )
    }
}

impl Pipe {
    #[verifier::type_invariant]
    closed spec fn inv(&self) -> bool {
        &&& self.size <= self.buf@.len() <= self.max
        &&& self.offset < self.buf@.len() || (self.offset == 0 && self.buf@.len() == 0)
        &&& MIN_PIPE_SIZE <= self.max <= MAX_PIPE_SIZE
    }

    /// The most bytes that the pipe can hold.
    pub closed spec fn limit(&self) -> int {
        self.max as int
    }

    pub closed spec fn readers(&self) -> bool {
        self.has_reader
    }

    pub closed spec fn writers(&self) -> bool {
        self.has_writer
    }

    /// A pipe for `max` bytes, within the limits on the size of pipes.
    pub fn new(max: usize) -> (p: Self)
        ensures
            p@ == Seq::<u8>::empty(),
            p.limit() == pipe_size(max),
            !p.readers(),
            !p.writers(),
    {
        let max = if max <= MAX_PIPE_SIZE {
            max
        } else {
            MAX_PIPE_SIZE
        };
        let max = if max >= MIN_PIPE_SIZE {
            max
        } else {
            MIN_PIPE_SIZE
        };
        let p = Pipe {
            buf: Vec::new(),
            offset: 0,
            size: 0,
            max,
            has_reader: false,
            has_writer: false,
        };
        assert(p@ =~= Seq::<u8>::empty());
        p
    }

    /// Opens one end of the pipe, or both.
    pub fn open(&mut self, read: bool, write: bool)
        requires
            read || write,
        ensures
            final(self)@ == old(self)@,
            final(self).limit() == old(self).limit(),
            final(self).readers() == (old(self).readers() || read),
            final(self).writers() == (old(self).writers() || write),
    {
        proof {
            use_type_invariant(&*self);
        }
        if read {
            self.has_reader = true;
        }
        if write {
            self.has_writer = true;
        }
        assert(self@ =~= old(self)@);
    }

    /// Opens both ends.
    pub fn connect(&mut self)
        ensures
            final(self)@ == old(self)@,
            final(self).limit() == old(self).limit(),
            final(self).readers(),
            final(self).writers(),
    {
        self.open(true, false);
        self.open(false, true);
    }

    /// The number of bytes that can be read.
    pub fn len(&self) -> (n: usize)
        ensures
            n == self@.len(),
            n <= self.limit(),
    {
        proof {
            use_type_invariant(self);
        }
        self.size
    }

    /// How much of `count` bytes can be written.
    pub fn room(&self, count: usize) -> (r: SysResult<WriteRoom>)
        ensures
            r == room_for(self.writers(), self@.len() as int, self.limit(), count as int),
            r matches Ok(room) ==> room.count <= count && room.count + self@.len() <= self.limit(),
    {
        proof {
            use_type_invariant(self);
        }
        if !self.has_writer {
            return Err(SysError::new(ESPIPE));
        }
        let available = self.max - self.size;
        if available == 0 {
            return Err(SysError::new(EWOULDBLOCK));
        }
        if count > available {
            if count <= ATOMIC_IO_BYTES {
                return Err(SysError::new(EWOULDBLOCK));
            }
            return Ok(WriteRoom { count: available, short: true });
        }
        Ok(WriteRoom { count, short: false })
    }

    /// Makes the ring large enough for `new_len` bytes.
    fn grow(&mut self, new_len: usize)
        requires
            old(self)@.len() <= new_len <= old(self).limit(),
        ensures
            final(self)@ == old(self)@,
            final(self).limit() == old(self).limit(),
            final(self).readers() == old(self).readers(),
            final(self).writers() == old(self).writers(),
            new_len <= final(self).buf@.len(),
    {
        proof {
            use_type_invariant(&*self);
        }
        let ghost c = self@;
        let old_cap = self.buf.len();
        if new_len <= old_cap {
            return;
        }
        let mut new_cap: usize = if old_cap == 0 {
            8
        } else {
            old_cap * 2
        };
        let max = self.max;
        while new_len > new_cap
            invariant
                0 < new_cap,
                new_cap <= 2 * MAX_PIPE_SIZE,
                new_len <= max <= MAX_PIPE_SIZE,
            decreases 2 * MAX_PIPE_SIZE - new_cap,
        {
            new_cap = new_cap * 2;
        }
        if new_cap > max {
            new_cap = max;
        }
        let mut new_buf: Vec<u8> = Vec::new();
        let size = self.size;
        let offset = self.offset;
        let mut i: usize = 0;
        while i < size
            invariant
                i <= size,
                size == c.len(),
                size == self.size,
                offset == self.offset,
                old_cap == self.buf@.len(),
                size <= old_cap,
                old_cap <= MAX_PIPE_SIZE,
                offset < old_cap || size == 0,
                c == self@,
                new_buf@ == c.take(i as int),
            decreases size - i,
        {
            let at = offset + i;
            let b = if at >= old_cap {
                self.buf[at - old_cap]
            } else {
                self.buf[at]
            };
            new_buf.push(b);
            assert(c.take(i + 1) =~= c.take(i as int).push(c[i as int]));
            i = i + 1;
        }
        let ghost kept = new_buf@;
        assert(kept =~= c);
        new_buf.resize(new_cap, 0);
        assert forall|j: int| 0 <= j < size implies #[trigger] new_buf@[j] == c[j] by {
            assert(kept[j] == new_buf@[j]);
        }
        let (r, w) = (self.has_reader, self.has_writer);
        *self = Pipe { buf: new_buf, offset: 0, size, max, has_reader: r, has_writer: w };
        assert(self@ =~= c);
    }

    /// Writes bytes for which there is room.
    fn put(&mut self, data: &Vec<u8>)
        requires
            old(self)@.len() + data@.len() <= old(self).limit(),
        ensures
            final(self)@ == old(self)@ + data@,
            final(self).limit() == old(self).limit(),
            final(self).readers() == old(self).readers(),
            final(self).writers() == old(self).writers(),
    {
        let ghost c = self@;
        proof {
            use_type_invariant(&*self);
        }
        let done = data.len();
        self.grow(self.size + done);
        let ghost grown = *self;
        proof {
            use_type_invariant(&*self);
        }
        let (offset, size, max) = (self.offset, self.size, self.max);
        let (r, w) = (self.has_reader, self.has_writer);
        let cap = self.buf.len();
        let mut was = Pipe::new(max);
        std::mem::swap(&mut was, self);
        let mut buf = was.buf;
        let mut i: usize = 0;
        while i < done
            invariant
                i <= done,
                done == data@.len(),
                size == c.len(),
                size + done <= cap,
                cap == buf@.len(),
                cap <= MAX_PIPE_SIZE,
                offset < cap || done == 0,
                forall|j: int|
                    0 <= j < size ==> #[trigger] buf@[ring(offset as int, j, cap as int)] == c[j],
                forall|j: int|
                    size <= j < size + i ==> #[trigger] buf@[ring(offset as int, j, cap as int)]
                        == data@[j - size],
            decreases done - i,
        {
            let at = offset + size + i;
            let at = if at >= cap {
                at - cap
            } else {
                at
            };
            assert(at == ring(offset as int, size + i, cap as int));
            buf.set(at, data[i]);
            i = i + 1;
        }
        *self = Pipe { buf, offset, size: size + done, max, has_reader: r, has_writer: w };
        assert forall|j: int| 0 <= j < self@.len() implies #[trigger] self@[j] == (c + data@)[j] by {
            assert(self@[j] == self.buf@[ring(offset as int, j, cap as int)]);
        }
        assert(self@ =~= c + data@);
    }

    /// Writes what could be copied of those bytes that there was room for.
    pub fn write_impl(&mut self, room: WriteRoom, data: &Vec<u8>) -> (r: SysResult<usize>)
        requires
            data@.len() <= room.count,
            old(self)@.len() + room.count <= old(self).limit(),
        ensures
            final(self)@ == old(self)@ + data@,
            final(self).limit() == old(self).limit(),
            final(self).readers() == old(self).readers(),
            final(self).writers() == old(self).writers(),
            r == write_result(room, data@.len() as int),
    {
        self.put(data);
        let done = data.len();
        if done < room.count {
            Ok(done)
        } else if room.short {
            Err(SysError::new(EWOULDBLOCK))
        } else {
            Ok(done)
        }
    }

    /// Writes bytes, as far as there is room.
    pub fn write(&mut self, src: &Vec<u8>) -> (r: SysResult<usize>)
        ensures
            final(self).limit() == old(self).limit(),
            final(self).readers() == old(self).readers(),
            final(self).writers() == old(self).writers(),
            match room_for(
                old(self).writers(),
                old(self)@.len() as int,
                old(self).limit(),
                src@.len() as int,
            ) {
                Ok(room) => {
                    &&& final(self)@ == old(self)@ + src@.take(room.count as int)
                    &&& r == write_result(room, room.count as int)
                },
                Err(e) => r == Err::<usize, SysError>(e) && final(self)@ == old(self)@,
            },
    {
        let room = match self.room(src.len()) {
            Ok(room) => room,
            Err(e) => return Err(e),
        };
        let mut data: Vec<u8> = Vec::new();
        let mut i: usize = 0;
        while i < room.count
            invariant
                i <= room.count <= src@.len(),
                data@ == src@.take(i as int),
            decreases room.count - i,
        {
            data.push(src[i]);
            assert(src@.take(i + 1) =~= src@.take(i as int).push(src@[i as int]));
            i = i + 1;
        }
        self.write_impl(room, &data)
    }

    /// The bytes that reading `count` bytes would give.
    pub fn peek(&self, count: usize) -> (r: SysResult<Vec<u8>>)
        ensures
            match (r, readable(self.writers(), self@, count as int)) {
                (Ok(v), Ok(s)) => v@ == s,
                (Err(a), Err(b)) => a == b,
                _ => false,
            },
    {
        proof {
            use_type_invariant(self);
        }
        let mut out: Vec<u8> = Vec::new();
        if count == 0 {
            return Ok(out);
        }
        if self.size == 0 {
            if self.has_writer {
                return Err(SysError::new(EWOULDBLOCK));
            } else {
                return Err(SysError::new(EOF));
            }
        }
        let n = if count > self.size {
            self.size
        } else {
            count
        };
        let cap = self.buf.len();
        let ghost c = self@;
        let mut i: usize = 0;
        while i < n
            invariant
                i <= n <= self.size,
                self.size == c.len(),
                c == self@,
                cap == self.buf@.len(),
                self.size <= cap <= MAX_PIPE_SIZE,
                self.offset < cap,
                out@ == c.take(i as int),
            decreases n - i,
        {
            let at = self.offset + i;
            let b = if at >= cap {
                self.buf[at - cap]
            } else {
                self.buf[at]
            };
            out.push(b);
            assert(c.take(i + 1) =~= c.take(i as int).push(c[i as int]));
            i = i + 1;
        }
        assert(n == c.len() ==> c.take(n as int) =~= c);
        Ok(out)
    }

    /// Drops the first `n` bytes.
    pub fn consume(&mut self, n: usize)
        requires
            n <= old(self)@.len(),
        ensures
            final(self)@ == old(self)@.skip(n as int),
            final(self).limit() == old(self).limit(),
            final(self).readers() == old(self).readers(),
            final(self).writers() == old(self).writers(),
    {
        proof {
            use_type_invariant(&*self);
        }
        let ghost c = self@;
        let cap = self.buf.len();
        let (offset0, size, max) = (self.offset, self.size, self.max);
        let (r, w) = (self.has_reader, self.has_writer);
        let offset = offset0 + n;
        let offset = if offset >= cap {
            offset - cap
        } else {
            offset
        };
        let mut was = Pipe::new(max);
        std::mem::swap(&mut was, self);
        let buf = was.buf;
        *self = Pipe { buf, offset, size: size - n, max, has_reader: r, has_writer: w };
        assert(self@ =~= c.skip(n as int));
    }

    /// Reads up to `count` bytes.
    pub fn read(&mut self, count: usize) -> (r: SysResult<Vec<u8>>)
        ensures
            final(self).limit() == old(self).limit(),
            final(self).readers() == old(self).readers(),
            final(self).writers() == old(self).writers(),
            match (r, readable(old(self).writers(), old(self)@, count as int)) {
                (Ok(v), Ok(s)) => v@ == s && final(self)@ == old(self)@.skip(s.len() as int),
                (Err(a), Err(b)) => a == b && final(self)@ == old(self)@,
                _ => false,
            },
    {
        match self.peek(count) {
            Ok(out) => {
                let n = out.len();
                if n > 0 {
                    self.consume(n);
                } else {
                    assert(self@.skip(0) =~= self@);
                }
                Ok(out)
            },
            Err(e) => Err(e),
        }
    }

    /// Answers a control request with the bytes that go to the caller.
    pub fn ioctl(&self, request: u64) -> (r: SysResult<[u8; 4]>)
        ensures
            match r {
                Ok(b) => request == FIONREAD && b[0] + 256 * b[1] + 65536 * b[2] + 16777216 * b[3]
                    == self@.len(),
                Err(e) => request != FIONREAD && e == sys(ENOTTY),
            },
    {
        if request != FIONREAD {
            return Err(SysError::new(ENOTTY));
        }
        let n = self.len();
        proof {
            use_type_invariant(self);
        }
        let n = n as u32;
        Ok([(n % 256) as u8, (n / 256 % 256) as u8, (n / 65536 % 256) as u8, (n / 16777216) as u8])
    }
}

/// The size of a pipe that is to be for `max` bytes.
pub open spec fn pipe_size(max: usize) -> usize {
    if max < MIN_PIPE_SIZE {
        MIN_PIPE_SIZE
    } else if max > MAX_PIPE_SIZE {
        MAX_PIPE_SIZE
    } else {
        max
    }
}

/// A pipe is as large as it is asked to be, but has room for a page at least and for one
/// megabyte at most.
pub proof fn size_of_pipe_is_bounded(max: usize)
    ensures
        4096 <= pipe_size(max) <= 1048576,
        4096 <= max <= 1048576 ==> pipe_size(max) == max,
        max < 4096 ==> pipe_size(max) == 4096,
        max > 1048576 ==> pipe_size(max) == 1048576,
{
}

/// What is read from a pipe is what was written to it, in the same order:
/// after writing `data` to a pipe that held `c`, reading as much as it then
/// holds gives `c` and then `data`.
pub proof fn reading_gives_back_writing(c: Seq<u8>, data: Seq<u8>, max: int, has_writer: bool)
    requires
        data.len() > 0,
        c.len() + data.len() <= max,
    ensures
        room_for(true, c.len() as int, max, data.len() as int) == Ok::<WriteRoom, SysError>(
            WriteRoom { count: data.len() as usize, short: false },
        ),
        readable(has_writer, c + data, (c + data).len() as int) == Ok::<Seq<u8>, SysError>(c + data),
        (c + data).skip((c + data).len() as int) == Seq::<u8>::empty(),
{
    assert((c + data).take((c + data).len() as int) =~= c + data);
}

/// Bytes are read in the order in which they were written, however the reads
/// are divided.
pub proof fn reading_in_parts(c: Seq<u8>, n: int, m: int)
    requires
        0 <= n,
        0 <= m,
        n + m <= c.len(),
    ensures
        c.take(n) + c.skip(n).take(m) == c.take(n + m),
        c.skip(n).skip(m) == c.skip(n + m),
{
    assert(c.take(n) + c.skip(n).take(m) =~= c.take(n + m));
    assert(c.skip(n).skip(m) =~= c.skip(n + m));
}

} // verus!
