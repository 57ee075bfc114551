use vstd::prelude::*;

verus! {

/// The events that tell that a file can be read.
pub const POLL_READABLE_EVENTS: u64 = 0x41;

/// A file that is watched, by its number, and the events it is watched for.
#[derive(Debug, Clone, Copy, PartialEq, Eq, Structural)]
pub struct PollEntry {
    pub file: u64,
    pub mask: u64,
}

/// A set of files that are watched.
#[derive(Debug)]
pub struct EventPoll {
    pub ready_queue: Vec<PollEntry>,
    pub waiting_queue: Vec<PollEntry>,
}

/// The number of files before the first that has an event.
pub open spec fn idle_before(ready: Seq<u64>) -> nat
    decreases ready.len(),
{
    if ready.len() == 0 || ready[0] != 0 {
        0
    } else {
        1 + idle_before(ready.skip(1))
    }
}

/// What is left of a queue when the entries at places 0, 1, and so on to
/// `n - 1` are taken out one after the other, as far as there are such places.
pub open spec fn thinned(q: Seq<PollEntry>, n: nat) -> Seq<PollEntry>
    decreases n,
{
    if n == 0 {
        q
    } else {
        let before = thinned(q, (n - 1) as nat);
        if n - 1 < before.len() {
            before.remove(n - 1)
        } else {
            before
        }
    }
}

proof fn lemma_idle(ready: Seq<u64>, i: int)
    requires
        0 <= i <= ready.len(),
        forall|j: int| 0 <= j < i ==> ready[j] == 0,
    ensures
        idle_before(ready) == i + idle_before(ready.skip(i)),
    decreases i,
{
    if i == 0 {
        assert(ready.skip(0) =~= ready);
    } else {
        assert forall|j: int| 0 <= j < i - 1 implies ready.skip(1)[j] == 0 by {
            assert(ready[j + 1] == 0);
        }
        lemma_idle(ready.skip(1), i - 1);
        assert(ready.skip(1).skip(i - 1) =~= ready.skip(i));
        assert(ready[0] == 0);
    }
}

impl EventPoll {
    /// A set without files.
    pub fn new_event_poll() -> (p: EventPoll)
        ensures
            p.ready_queue@.len() == 0,
            p.waiting_queue@.len() == 0,
    {
        EventPoll { ready_queue: Vec::new(), waiting_queue: Vec::new() }
    }

    /// Whether one of the files that should be ready is. `ready` tells for each
    /// of them which of its events have come. The files before the first that is
    /// ready wait again. For each of them one entry goes from the queue, that at
    /// the place the file had at first, as far as there still is one.
    pub fn events_available(&mut self, ready: &Vec<u64>) -> (found: bool)
        requires
            ready@.len() == old(self).ready_queue@.len(),
        ensures
            found == (idle_before(ready@) < ready@.len()),
            final(self).ready_queue@ == thinned(old(self).ready_queue@, idle_before(ready@)),
            final(self).waiting_queue@ == old(self).waiting_queue@ + old(self).ready_queue@.take(
                idle_before(ready@) as int,
            ),
    {
        let ghost q0 = self.ready_queue@;
        let ghost w0 = self.waiting_queue@;
        let mut q: Vec<PollEntry> = Vec::new();
        let mut i: usize = 0;
        while i < self.ready_queue.len()
            invariant
                i <= q0.len(),
                self.ready_queue@ == q0,
                self.waiting_queue@ == w0,
                q@ == q0.take(i as int),
            decreases q0.len() - i,
        {
            q.push(self.ready_queue[i]);
            assert(q0.take(i + 1) =~= q0.take(i as int).push(q0[i as int]));
            i = i + 1;
        }
        assert(q@ =~= q0);
        let mut i: usize = 0;
        assert(w0 + q0.take(0) =~= w0);
        while i < q.len()
            invariant
                i <= q@.len(),
                q@ == q0,
                q0 == old(self).ready_queue@,
                w0 == old(self).waiting_queue@,
                ready@.len() == q0.len(),
                self.ready_queue@ == thinned(q0, i as nat),
                self.waiting_queue@ == w0 + q0.take(i as int),
                forall|j: int| 0 <= j < i ==> ready@[j] == 0,
            decreases q@.len() - i,
        {
            if ready[i] != 0 {
                proof {
                    lemma_idle(ready@, i as int);
                    assert(ready@.skip(i as int)[0] == ready@[i as int]);
                }
                return true;
            }
            if i < self.ready_queue.len() {
                self.ready_queue.remove(i);
            }
            self.waiting_queue.push(q[i]);
            assert(q0.take(i + 1) =~= q0.take(i as int).push(q0[i as int]));
            assert(self.waiting_queue@ =~= w0 + q0.take(i + 1));
            i = i + 1;
        }
        proof {
            lemma_idle(ready@, i as int);
            assert(ready@.skip(i as int).len() == 0);
        }
        false
    }

    /// The events of the set itself: it can be read when one of its files is
    /// ready.
    pub fn readiness(&mut self, mask: u64, ready: &Vec<u64>) -> (events: u64)
        requires
            ready@.len() == old(self).ready_queue@.len(),
        ensures
            events == (if mask & POLL_READABLE_EVENTS != 0 && idle_before(ready@) < ready@.len() {
                POLL_READABLE_EVENTS
            } else {
                0
            }),
            mask & POLL_READABLE_EVENTS == 0 ==> *final(self) == *old(self),
            mask & POLL_READABLE_EVENTS != 0 ==> final(self).ready_queue@ == thinned(
                old(self).ready_queue@,
                idle_before(ready@),
            ) && final(self).waiting_queue@ == old(self).waiting_queue@
                + old(self).ready_queue@.take(idle_before(ready@) as int),
    {
        if mask & POLL_READABLE_EVENTS != 0 && self.events_available(ready) {
            POLL_READABLE_EVENTS
        } else {
            0
        }
    }
}

} // verus!
