//! The backend that keeps its entries in a double-ended queue.
use std::collections::VecDeque;
use vstd::prelude::*;

use crate::clock::{instant_now, nanos_since};
use crate::model::{
    Op,
    Reply,
    count_live,
    expired_prefix,
    lemma_refreshed_is_live,
    lemma_step,
    refreshed,
    run,
    stamp,
    step,
    time_ordered,
};

verus! {

/// A queue that drops its content a given time after it was pushed, backed by a
/// double-ended queue of (timestamp, value) pairs in push order.
pub struct DequeTtlQueue<T> {
    ttl: u128,
    origin: std::time::Instant,
    queue: VecDeque<(u128, T)>,
}

impl<T> View for DequeTtlQueue<T> {
    type V = Seq<(u128, T)>;

    /// The entries from front (oldest) to back (newest).
    closed spec fn view(&self) -> Seq<(u128, T)> {
        self.queue@
    }
}

impl<T> DequeTtlQueue<T> {
    /// The time-to-live, in nanoseconds, fixed at construction.
    pub closed spec fn ttl(&self) -> u128 {
        self.ttl
    }

    /// The entries are in time order.
    pub closed spec fn well_formed(&self) -> bool {
        time_ordered(self.queue@)
    }

    /// Creates an empty queue whose entries live `ttl` nanoseconds.
    pub fn new(ttl: u128) -> (r: Self)
        ensures
            r.well_formed(),
            r@ == Seq::<(u128, T)>::empty(),
            r.ttl() == ttl,
    {
        DequeTtlQueue { ttl, origin: instant_now(), queue: VecDeque::new() }
    }

    /// Creates an empty queue with room for at least `capacity` entries.
    pub fn with_capacity(ttl: u128, capacity: usize) -> (r: Self)
        ensures
            r.well_formed(),
            r@ == Seq::<(u128, T)>::empty(),
            r.ttl() == ttl,
    {
        DequeTtlQueue { ttl, origin: instant_now(), queue: VecDeque::with_capacity(capacity) }
    }

    /// Nanoseconds on this queue's clock.
    fn now(&self) -> (r: u128) {
        nanos_since(&self.origin)
    }

    /// Pushes `element` at the back, stamped `now` (or with the newest stamp held,
    /// if `now` is earlier).
    pub fn push_back_at(&mut self, element: T, now: u128)
        requires
            old(self).well_formed(),
        ensures
            final(self).well_formed(),
            final(self).ttl() == old(self).ttl(),
            final(self)@ == old(self)@.push((stamp(old(self)@, now), element)),
    {
        let n = self.queue.len();
        let mut ts = now;
        if n > 0 {
            let last = self.queue[n - 1].0;
            if now < last {
                ts = last;
            }
        }
        self.queue.push_back((ts, element));
    }

    /// Pushes `element` at the back, stamped with the clock's reading.
    pub fn push_back(&mut self, element: T)
        requires
            old(self).well_formed(),
        ensures
            final(self).well_formed(),
            final(self).ttl() == old(self).ttl(),
            exists|now: u128|
                final(self)@ == old(self)@.push((#[trigger] stamp(old(self)@, now), element)),
    {
        let now = self.now();
        self.push_back_at(element, now);
    }

    /// Refreshes at `now`, then pushes `element` stamped `now`; returns the number
    /// of live entries, the new one included.
    pub fn refresh_and_push_back_at(&mut self, element: T, now: u128) -> (r: usize)
        requires
            old(self).well_formed(),
        ensures
            final(self).well_formed(),
            final(self).ttl() == old(self).ttl(),
            final(self)@ == refreshed(old(self)@, now, old(self).ttl()).push(
                (stamp(refreshed(old(self)@, now, old(self).ttl()), now), element),
            ),
            r == count_live(old(self)@, now, old(self).ttl()) + 1,
            r == final(self)@.len(),
    {
        self.refresh_at(now);
        self.push_back_at(element, now);
        self.queue.len()
    }

    /// Refreshes at the clock's reading, then pushes `element` stamped with it;
    /// returns the number of live entries, the new one included.
    pub fn refresh_and_push_back(&mut self, element: T) -> (r: usize)
        requires
            old(self).well_formed(),
        ensures
            final(self).well_formed(),
            final(self).ttl() == old(self).ttl(),
            exists|now: u128|
                {
                    &&& final(self)@ == #[trigger] refreshed(old(self)@, now, old(self).ttl()).push(
                        (stamp(refreshed(old(self)@, now, old(self).ttl()), now), element),
                    )
                    &&& r == count_live(old(self)@, now, old(self).ttl()) + 1
                },
            r == final(self)@.len(),
    {
        let now = self.now();
        self.refresh_and_push_back_at(element, now)
    }

    /// Removes and returns the front entry, expired or not.
    pub fn pop_front(&mut self) -> (r: Option<(u128, T)>)
        requires
            old(self).well_formed(),
        ensures
            final(self).well_formed(),
            final(self).ttl() == old(self).ttl(),
            old(self)@.len() == 0 ==> r is None && final(self)@ == old(self)@,
            old(self)@.len() > 0 ==> r == Some(old(self)@[0])
                && final(self)@ == old(self)@.drop_first(),
    {
        let r = self.queue.pop_front();
        proof {
            if old(self)@.len() > 0 {
                assert(self.queue@ =~= old(self)@.drop_first());
            }
        }
        r
    }

    /// Removes and returns the back entry, expired or not.
    pub fn pop_back(&mut self) -> (r: Option<(u128, T)>)
        requires
            old(self).well_formed(),
        ensures
            final(self).well_formed(),
            final(self).ttl() == old(self).ttl(),
            old(self)@.len() == 0 ==> r is None && final(self)@ == old(self)@,
            old(self)@.len() > 0 ==> r == Some(old(self)@.last())
                && final(self)@ == old(self)@.drop_last(),
    {
        let r = self.queue.pop_back();
        proof {
            if old(self)@.len() > 0 {
                assert(self.queue@ =~= old(self)@.drop_last());
            }
        }
        r
    }

    /// The front entry, expired or not, left in place.
    pub fn peek_front(&self) -> (r: Option<&(u128, T)>)
        ensures
            self@.len() == 0 ==> r is None,
            self@.len() > 0 ==> r == Some(&self@[0]),
    {
        if self.queue.len() == 0 {
            None
        } else {
            Some(&self.queue[0])
        }
    }

    /// The number of entries held, including expired ones not yet dropped.
    pub fn len(&self) -> (r: usize)
        ensures
            r == self@.len(),
    {
        self.queue.len()
    }

    /// Whether no entry is held, expired or not.
    pub fn is_empty(&self) -> (r: bool)
        ensures
            r == (self@.len() == 0),
    {
        self.queue.len() == 0
    }

    /// Drops the expired entries at the front, as of `now`, and returns the number
    /// of entries left, which are exactly the live ones.
    pub fn refresh_at(&mut self, now: u128) -> (r: usize)
        requires
            old(self).well_formed(),
        ensures
            final(self).well_formed(),
            final(self).ttl() == old(self).ttl(),
            final(self)@ == refreshed(old(self)@, now, old(self).ttl()),
            r == final(self)@.len(),
            r == count_live(old(self)@, now, old(self).ttl()),
            r <= old(self)@.len(),
    {
        let ghost s0 = self.queue@;
        let ghost mut k: int = 0;
        let ttl = self.ttl;
        while self.queue.len() > 0
            invariant
                self.ttl == ttl,
                ttl == old(self).ttl,
                s0 == old(self).queue@,
                0 <= k <= s0.len(),
                self.queue@ == s0.skip(k),
                expired_prefix(s0, now, ttl) == k + expired_prefix(self.queue@, now, ttl),
            ensures
                self.queue@ == s0.skip(k),
                expired_prefix(s0, now, ttl) == k,
            decreases self.queue@.len(),
        {
            let ts = self.queue[0].0;
            let age: u128 = if ts <= now {
                now - ts
            } else {
                0
            };
            if age < ttl {
                break;
            }
            let ghost q = self.queue@;
            self.queue.pop_front();
            proof {
                assert(self.queue@ =~= q.drop_first());
                assert(self.queue@ =~= s0.skip(k + 1));
                k = k + 1;
            }
        }
        proof {
            lemma_refreshed_is_live(s0, now, ttl);
        }
        self.queue.len()
    }

    /// Drops the expired entries at the front, as of the clock's reading, and
    /// returns the number of entries left, which are exactly the live ones.
    pub fn refresh(&mut self) -> (r: usize)
        requires
            old(self).well_formed(),
        ensures
            final(self).well_formed(),
            final(self).ttl() == old(self).ttl(),
            exists|now: u128|
                {
                    &&& final(self)@ == #[trigger] refreshed(old(self)@, now, old(self).ttl())
                    &&& r == count_live(old(self)@, now, old(self).ttl())
                },
            r == final(self)@.len(),
            r <= old(self)@.len(),
    {
        let now = self.now();
        let r = self.refresh_at(now);
        proof {
            lemma_refreshed_is_live(old(self)@, now, old(self).ttl());
        }
        r
    }

    /// The entries from front to back.
    pub fn iter(&self) -> (r: Vec<&(u128, T)>)
        ensures
            r@.len() == self@.len(),
            forall|i: int| 0 <= i < r@.len() ==> *#[trigger] r@[i] == self@[i],
    {
        let mut r: Vec<&(u128, T)> = Vec::new();
        let n = self.queue.len();
        let mut i: usize = 0;
        while i < n
            invariant
                n == self@.len(),
                i <= n,
                r@.len() == i,
                forall|j: int| 0 <= j < i ==> *#[trigger] r@[j] == self@[j],
            decreases n - i,
        {
            r.push(&self.queue[i]);
            i = i + 1;
        }
        r
    }

    /// Applies one operation; the clock readings come with it.
    pub fn apply(&mut self, op: Op<T>) -> (r: Reply<T>)
        requires
            old(self).well_formed(),
        ensures
            final(self).well_formed(),
            final(self).ttl() == old(self).ttl(),
            (final(self)@, r) == step(old(self)@, old(self).ttl(), op),
    {
        match op {
            Op::PushBack { value, now } => {
                self.push_back_at(value, now);
                Reply::Pushed
            },
            Op::PopFront => Reply::Popped(self.pop_front()),
            Op::Refresh { now } => Reply::Count(self.refresh_at(now)),
        }
    }

    /// Applies `ops` in order and returns the replies, one for each operation.
    pub fn replay(&mut self, ops: Vec<Op<T>>) -> (r: Vec<Reply<T>>)
        requires
            old(self).well_formed(),
        ensures
            final(self).well_formed(),
            final(self).ttl() == old(self).ttl(),
            (final(self)@, r@) == run(old(self)@, old(self).ttl(), ops@),
    {
        let ghost all = ops@;
        let ghost s0 = self@;
        let mut ops = ops;
        let mut pending: Vec<Op<T>> = Vec::new();
        while ops.len() > 0
            invariant
                ops@ + pending@.reverse() == all,
            decreases ops@.len(),
        {
            let ghost a = ops@;
            let ghost b = pending@;
            match ops.pop() {
                Some(op) => {
                    pending.push(op);
                    proof {
                        assert(pending@.reverse() =~= seq![op] + b.reverse());
                        assert(ops@ + pending@.reverse() =~= a + b.reverse());
                    }
                },
                None => {},
            }
        }
        assert(pending@.reverse() =~= all.skip(0));
        assert(all.take(0) =~= Seq::<Op<T>>::empty());
        let mut replies: Vec<Reply<T>> = Vec::new();
        let ghost mut i: int = 0;
        while pending.len() > 0
            invariant
                self.well_formed(),
                self.ttl() == old(self).ttl(),
                s0 == old(self)@,
                0 <= i <= all.len(),
                pending@.reverse() == all.skip(i),
                (self@, replies@) == run(s0, self.ttl(), all.take(i)),
            decreases pending@.len(),
        {
            let ghost b = pending@;
            match pending.pop() {
                Some(op) => {
                    proof {
                        assert(b.reverse() =~= seq![op] + pending@.reverse());
                        assert(all.skip(i)[0] == all[i]);
                        lemma_step(self@, self.ttl(), op);
                    }
                    let reply = self.apply(op);
                    replies.push(reply);
                    proof {
                        assert(all.take(i + 1).drop_last() =~= all.take(i));
                        assert(all.skip(i + 1) =~= all.skip(i).drop_first());
                        i = i + 1;
                    }
                },
                None => {},
            }
        }
        assert(all.take(i) =~= all);
        replies
    }

    /// Gives up the queue, handing out its entries from front to back.
    pub fn into_vec(self) -> (r: Vec<(u128, T)>)
        ensures
            r@ == self@,
    {
        let mut q = self.queue;
        let ghost s0 = q@;
        let mut r: Vec<(u128, T)> = Vec::new();
        while q.len() > 0
            invariant
                r@ + q@ == s0,
            decreases q@.len(),
        {
            let ghost q0 = q@;
            let e = q.pop_front();
            match e {
                Some(e) => {
                    r.push(e);
                    proof {
                        assert(q0 == seq![e] + q@);
                        assert(r@ + q@ =~= s0);
                    }
                },
                None => {},
            }
        }
        assert(r@ =~= s0);
        r
    }
}

} // verus!
