//! The backend that keeps its entries in two stacks.
//!
//! New entries go onto the inbox. The outbox holds older entries with the oldest
//! on top; when it runs empty, the whole inbox is poured onto it, which reverses
//! its order. Read from the outbox's top down and then from the inbox's base up,
//! the entries stand in push order.
use vstd::prelude::*;

use crate::clock::{instant_now, nanos_since};
use crate::model::{
    Op,
    Reply,
    count_live,
    expired_prefix,
    lemma_refreshed_is_live,
    lemma_step,
    refreshed,
    run,
    stamp,
    step,
    time_ordered,
};

verus! {

/// A queue that drops its content a given time after it was pushed, backed by
/// two stacks of (timestamp, value) pairs.
pub struct TtlQueue<T> {
    ttl: u128,
    origin: std::time::Instant,
    inbox: Vec<(u128, T)>,
    outbox: Vec<(u128, T)>,
    pushes: Ghost<nat>,
    moves: Ghost<nat>,
}

impl<T> View for TtlQueue<T> {
    type V = Seq<(u128, T)>;

    /// The entries from front (oldest) to back (newest).
    closed spec fn view(&self) -> Seq<(u128, T)> {
        self.outbox@.reverse() + self.inbox@
    }
}

impl<T> TtlQueue<T> {
    /// The time-to-live, in nanoseconds, fixed at construction.
    pub closed spec fn ttl(&self) -> u128 {
        self.ttl
    }

    /// The number of entries on the inbox.
    pub closed spec fn inbox_len(&self) -> nat {
        self.inbox@.len()
    }

    /// The number of entries on the outbox.
    pub closed spec fn outbox_len(&self) -> nat {
        self.outbox@.len()
    }

    /// How many entries were ever pushed.
    pub closed spec fn pushes(&self) -> nat {
        self.pushes@
    }

    /// How many times an entry was moved from the inbox to the outbox.
    pub closed spec fn moves(&self) -> nat {
        self.moves@
    }

    /// The entries are in time order, their count fits a `usize`, and every entry
    /// pushed is on the inbox or was moved off it once.
    pub closed spec fn well_formed(&self) -> bool {
        &&& time_ordered(self@)
        &&& self.inbox@.len() + self.outbox@.len() <= usize::MAX
        &&& self.moves@ + self.inbox@.len() == self.pushes@
    }

    /// Each entry crosses from the inbox to the outbox at most once: the moves made
    /// so far plus the entries still on the inbox are the entries ever pushed, so a
    /// queue that was pushed `n` times has made at most `n` moves.
    pub proof fn lemma_moves_at_most_pushes(&self)
        requires
            self.well_formed(),
        ensures
            self.moves() + self.inbox_len() == self.pushes(),
            self.moves() <= self.pushes(),
    {
    }

    /// Creates an empty queue whose entries live `ttl` nanoseconds.
    pub fn new(ttl: u128) -> (r: Self)
        ensures
            r.well_formed(),
            r@ == Seq::<(u128, T)>::empty(),
            r.ttl() == ttl,
            r.pushes() == 0,
    {
        let r = TtlQueue {
            ttl,
            origin: instant_now(),
            inbox: Vec::new(),
            outbox: Vec::new(),
            pushes: Ghost(0),
            moves: Ghost(0),
        };
        assert(r@ =~= Seq::<(u128, T)>::empty());
        r
    }

    /// Creates an empty queue with room for at least `capacity` entries on each stack.
    pub fn with_capacity(ttl: u128, capacity: usize) -> (r: Self)
        ensures
            r.well_formed(),
            r@ == Seq::<(u128, T)>::empty(),
            r.ttl() == ttl,
            r.pushes() == 0,
    {
        let r = TtlQueue {
            ttl,
            origin: instant_now(),
            inbox: Vec::with_capacity(capacity),
            outbox: Vec::with_capacity(capacity),
            pushes: Ghost(0),
            moves: Ghost(0),
        };
        assert(r@ =~= Seq::<(u128, T)>::empty());
        r
    }

    /// Nanoseconds on this queue's clock.
    fn now(&self) -> (r: u128) {
        nanos_since(&self.origin)
    }

    /// Where entry `i` of the view stands on the two stacks.
    proof fn lemma_view_index(&self, i: int)
        requires
            0 <= i < self@.len(),
        ensures
            self@.len() == self.outbox@.len() + self.inbox@.len(),
            i < self.outbox@.len() ==> self@[i] == self.outbox@[self.outbox@.len() - 1 - i],
            i >= self.outbox@.len() ==> self@[i] == self.inbox@[i - self.outbox@.len()],
    {
    }

    /// Pushes `element` at the back, stamped `now` (or with the newest stamp held,
    /// if `now` is earlier).
    pub fn push_back_at(&mut self, element: T, now: u128)
        requires
            old(self).well_formed(),
            old(self)@.len() < usize::MAX,
        ensures
            final(self).well_formed(),
            final(self).ttl() == old(self).ttl(),
            final(self)@ == old(self)@.push((stamp(old(self)@, now), element)),
            final(self).pushes() == old(self).pushes() + 1,
            final(self).moves() == old(self).moves(),
    {
        let ghost s0 = self@;
        let mut ts = now;
        let ni = self.inbox.len();
        let no = self.outbox.len();
        if ni > 0 {
            let last = self.inbox[ni - 1].0;
            if now < last {
                ts = last;
            }
        } else if no > 0 {
            let last = self.outbox[0].0;
            if now < last {
                ts = last;
            }
        }
        proof {
            if s0.len() > 0 {
                self.lemma_view_index(s0.len() - 1);
            }
        }
        self.inbox.push((ts, element));
        self.pushes = Ghost(self.pushes@ + 1);
        proof {
            assert(self@ =~= s0.push((ts, element)));
            assert forall|i: int, j: int| 0 <= i <= j < self@.len() implies #[trigger] self@[i].0
                <= #[trigger] self@[j].0 by {
                if j < s0.len() {
                    assert(self@[i] == s0[i] && self@[j] == s0[j]);
                } else if i < s0.len() {
                    assert(s0[i].0 <= s0[s0.len() - 1].0);
                }
            }
        }
    }

    /// Pushes `element` at the back, stamped with the clock's reading.
    pub fn push_back(&mut self, element: T)
        requires
            old(self).well_formed(),
            old(self)@.len() < usize::MAX,
        ensures
            final(self).well_formed(),
            final(self).ttl() == old(self).ttl(),
            exists|now: u128|
                final(self)@ == old(self)@.push((#[trigger] stamp(old(self)@, now), element)),
            final(self).pushes() == old(self).pushes() + 1,
            final(self).moves() == old(self).moves(),
    {
        let now = self.now();
        self.push_back_at(element, now);
    }

    /// Pours the inbox onto the outbox if the outbox is empty; the entries and
    /// their order stay as they were.
    pub fn ensure_stack_full(&mut self)
        requires
            old(self).well_formed(),
        ensures
            final(self).well_formed(),
            final(self).ttl() == old(self).ttl(),
            final(self)@ == old(self)@,
            final(self).pushes() == old(self).pushes(),
            old(self).outbox_len() == 0 ==> final(self).inbox_len() == 0 && final(self).moves()
                == old(self).moves() + old(self).inbox_len(),
            old(self).outbox_len() > 0 ==> final(self).inbox_len() == old(self).inbox_len()
                && final(self).moves() == old(self).moves(),
    {
        if self.outbox.len() > 0 {
            return;
        }
        let ghost s0 = self@;
        assert(self.outbox@.reverse() =~= Seq::<(u128, T)>::empty());
        assert(s0 =~= self.inbox@);
        while self.inbox.len() > 0
            invariant
                self.inbox@ + self.outbox@.reverse() == s0,
                self.inbox@.len() + self.outbox@.len() == s0.len(),
                s0.len() <= usize::MAX,
                self.moves@ + self.inbox@.len() == self.pushes@,
                self.pushes@ == old(self).pushes@,
                self.ttl == old(self).ttl,
                s0 == old(self)@,
            decreases self.inbox@.len(),
        {
            let ghost a = self.inbox@;
            let ghost b = self.outbox@;
            let item = self.inbox.pop();
            match item {
                Some(item) => {
                    self.outbox.push(item);
                    self.moves = Ghost(self.moves@ + 1);
                    proof {
                        assert(a == self.inbox@.push(item));
                        assert(self.outbox@.reverse() =~= seq![item] + b.reverse());
                        assert(self.inbox@ + self.outbox@.reverse() =~= a + b.reverse());
                    }
                },
                None => {},
            }
        }
        assert(self.inbox@ + self.outbox@.reverse() =~= self@);
    }

    /// Removes and returns the front entry, expired or not.
    pub fn pop_front(&mut self) -> (r: Option<(u128, T)>)
        requires
            old(self).well_formed(),
        ensures
            final(self).well_formed(),
            final(self).ttl() == old(self).ttl(),
            old(self)@.len() == 0 ==> r is None && final(self)@ == old(self)@,
            old(self)@.len() > 0 ==> r == Some(old(self)@[0])
                && final(self)@ == old(self)@.drop_first(),
            final(self).pushes() == old(self).pushes(),
    {
        self.ensure_stack_full();
        let ghost s0 = self@;
        let ghost b = self.outbox@;
        let r = self.outbox.pop();
        proof {
            if s0.len() > 0 {
                assert(b.reverse() =~= seq![b.last()] + self.outbox@.reverse());
                assert(self@ =~= s0.drop_first());
            }
        }
        r
    }

    /// The front entry, expired or not, left in place; the stacks may be rearranged.
    pub fn peek_front(&mut self) -> (r: Option<&(u128, T)>)
        requires
            old(self).well_formed(),
        ensures
            final(self).well_formed(),
            final(self).ttl() == old(self).ttl(),
            final(self)@ == old(self)@,
            final(self).pushes() == old(self).pushes(),
            old(self)@.len() == 0 ==> r is None,
            old(self)@.len() > 0 ==> r == Some(&old(self)@[0]),
    {
        self.ensure_stack_full();
        let n = self.outbox.len();
        if n == 0 {
            None
        } else {
            Some(&self.outbox[n - 1])
        }
    }

    /// The number of entries held, including expired ones not yet dropped.
    pub fn len(&self) -> (r: usize)
        requires
            self.well_formed(),
        ensures
            r == self@.len(),
    {
        self.inbox.len() + self.outbox.len()
    }

    /// Whether no entry is held, expired or not.
    pub fn is_empty(&self) -> (r: bool)
        ensures
            r == (self@.len() == 0),
    {
        self.inbox.len() == 0 && self.outbox.len() == 0
    }

    /// Pops expired entries off the outbox's top, as of `now`, up to the first live
    /// one or until the outbox is empty.
    #[verifier::rlimit(30)]
    fn drop_expired_outbox(&mut self, now: u128)
        requires
            old(self).well_formed(),
        ensures
            final(self).well_formed(),
            final(self).ttl() == old(self).ttl(),
            final(self).pushes() == old(self).pushes(),
            final(self).moves() == old(self).moves(),
            final(self).inbox@ == old(self).inbox@,
            final(self)@ == old(self)@.skip(old(self).outbox@.len() - final(self).outbox@.len()),
            expired_prefix(old(self)@, now, old(self).ttl) == old(self).outbox@.len()
                - final(self).outbox@.len() + expired_prefix(final(self)@, now, old(self).ttl),
            final(self).outbox@.len() > 0 ==> expired_prefix(final(self)@, now, old(self).ttl)
                == 0,
    {
        let ghost s0 = self@;
        let ghost n0 = self.outbox@.len();
        let ttl = self.ttl;
        while self.outbox.len() > 0
            invariant
                self.ttl == ttl,
                ttl == old(self).ttl,
                s0 == old(self)@,
                n0 == old(self).outbox@.len(),
                self.inbox@ == old(self).inbox@,
                self.pushes == old(self).pushes,
                self.moves == old(self).moves,
                self.outbox@.len() <= n0,
                self@ == s0.skip(n0 - self.outbox@.len()),
                expired_prefix(s0, now, ttl) == n0 - self.outbox@.len() + expired_prefix(
                    self@,
                    now,
                    ttl,
                ),
            ensures
                self@ == s0.skip(n0 - self.outbox@.len()),
                expired_prefix(s0, now, ttl) == n0 - self.outbox@.len() + expired_prefix(
                    self@,
                    now,
                    ttl,
                ),
                self.outbox@.len() > 0 ==> expired_prefix(self@, now, ttl) == 0,
            decreases self.outbox@.len(),
        {
            let n = self.outbox.len();
            let ts = self.outbox[n - 1].0;
            proof {
                self.lemma_view_index(0);
            }
            let age: u128 = if ts <= now {
                now - ts
            } else {
                0
            };
            if age < ttl {
                break;
            }
            let ghost v = self@;
            let ghost b = self.outbox@;
            self.outbox.pop();
            proof {
                assert(b.reverse() =~= seq![b.last()] + self.outbox@.reverse());
                assert(self@ =~= v.drop_first());
                assert(self@ =~= s0.skip(n0 - self.outbox@.len()));
            }
        }
        proof {
            let k = n0 - self.outbox@.len();
            assert forall|i: int, j: int| 0 <= i <= j < self@.len() implies #[trigger] self@[i].0
                <= #[trigger] self@[j].0 by {
                assert(self@[i] == s0[k + i] && self@[j] == s0[k + j]);
            }
        }
    }

    /// Drops the expired entries at the front, as of `now`, and returns the number
    /// of entries left, which are exactly the live ones.
    ///
    /// The outbox is scanned from its top first. If a live entry stays there, every
    /// entry on the inbox is newer and so live too, and the inbox is not touched.
    /// Only when the outbox has run empty and the inbox's base entry has expired is
    /// the inbox poured over and scanned in turn; each entry is poured over once.
    pub fn refresh_at(&mut self, now: u128) -> (r: usize)
        requires
            old(self).well_formed(),
        ensures
            final(self).well_formed(),
            final(self).ttl() == old(self).ttl(),
            final(self).pushes() == old(self).pushes(),
            final(self)@ == refreshed(old(self)@, now, old(self).ttl()),
            r == final(self)@.len(),
            r == count_live(old(self)@, now, old(self).ttl()),
            r <= old(self)@.len(),
    {
        let ghost s0 = self@;
        let ttl = self.ttl;
        self.drop_expired_outbox(now);
        if self.outbox.len() == 0 && self.inbox.len() > 0 {
            let ts = self.inbox[0].0;
            proof {
                self.lemma_view_index(0);
            }
            let age: u128 = if ts <= now {
                now - ts
            } else {
                0
            };
            if age >= ttl {
                self.ensure_stack_full();
                self.drop_expired_outbox(now);
            }
        }
        proof {
            lemma_refreshed_is_live(s0, now, ttl);
            if self@.len() > 0 && self.outbox@.len() == 0 {
                self.lemma_view_index(0);
            }
        }
        self.len()
    }

    /// Drops the expired entries at the front, as of the clock's reading, and
    /// returns the number of entries left, which are exactly the live ones.
    pub fn refresh(&mut self) -> (r: usize)
        requires
            old(self).well_formed(),
        ensures
            final(self).well_formed(),
            final(self).ttl() == old(self).ttl(),
            final(self).pushes() == old(self).pushes(),
            exists|now: u128|
                {
                    &&& final(self)@ == #[trigger] refreshed(old(self)@, now, old(self).ttl())
                    &&& r == count_live(old(self)@, now, old(self).ttl())
                },
            r == final(self)@.len(),
            r <= old(self)@.len(),
    {
        let now = self.now();
        let r = self.refresh_at(now);
        proof {
            lemma_refreshed_is_live(old(self)@, now, old(self).ttl());
        }
        r
    }

    /// Refreshes at `now`, then pushes `element` stamped `now`; returns the number
    /// of live entries, the new one included.
    pub fn refresh_and_push_back_at(&mut self, element: T, now: u128) -> (r: usize)
        requires
            old(self).well_formed(),
            count_live(old(self)@, now, old(self).ttl()) < usize::MAX,
        ensures
            final(self).well_formed(),
            final(self).ttl() == old(self).ttl(),
            final(self).pushes() == old(self).pushes() + 1,
            final(self)@ == refreshed(old(self)@, now, old(self).ttl()).push(
                (stamp(refreshed(old(self)@, now, old(self).ttl()), now), element),
            ),
            r == count_live(old(self)@, now, old(self).ttl()) + 1,
            r == final(self)@.len(),
    {
        let count = self.refresh_at(now);
        self.push_back_at(element, now);
        count + 1
    }

    /// Refreshes at the clock's reading, then pushes `element` stamped with it;
    /// returns the number of live entries, the new one included.
    pub fn refresh_and_push_back(&mut self, element: T) -> (r: usize)
        requires
            old(self).well_formed(),
            old(self)@.len() < usize::MAX,
        ensures
            final(self).well_formed(),
            final(self).ttl() == old(self).ttl(),
            final(self).pushes() == old(self).pushes() + 1,
            exists|now: u128|
                {
                    &&& final(self)@ == #[trigger] refreshed(old(self)@, now, old(self).ttl()).push(
                        (stamp(refreshed(old(self)@, now, old(self).ttl()), now), element),
                    )
                    &&& r == count_live(old(self)@, now, old(self).ttl()) + 1
                },
            r == final(self)@.len(),
    {
        let now = self.now();
        proof {
            lemma_refreshed_is_live(old(self)@, now, old(self).ttl());
        }
        self.refresh_and_push_back_at(element, now)
    }

    /// Entry `i` of the queue, counted from the front.
    pub fn get(&self, i: usize) -> (r: &(u128, T))
        requires
            self.well_formed(),
            i < self@.len(),
        ensures
            *r == self@[i as int],
    {
        proof {
            self.lemma_view_index(i as int);
        }
        let no = self.outbox.len();
        if i < no {
            &self.outbox[no - 1 - i]
        } else {
            &self.inbox[i - no]
        }
    }

    /// A cursor over the entries from front to back.
    pub fn iter(&self) -> (r: DoubleStackIterator<'_, T>)
        requires
            self.well_formed(),
        ensures
            r.queue() == self,
            r.position() == 0,
    {
        DoubleStackIterator::new(self)
    }

    /// Applies one operation; the clock readings come with it.
    pub fn apply(&mut self, op: Op<T>) -> (r: Reply<T>)
        requires
            old(self).well_formed(),
            op is PushBack ==> old(self)@.len() < usize::MAX,
        ensures
            final(self).well_formed(),
            final(self).ttl() == old(self).ttl(),
            (final(self)@, r) == step(old(self)@, old(self).ttl(), op),
    {
        match op {
            Op::PushBack { value, now } => {
                self.push_back_at(value, now);
                Reply::Pushed
            },
            Op::PopFront => Reply::Popped(self.pop_front()),
            Op::Refresh { now } => Reply::Count(self.refresh_at(now)),
        }
    }

    /// Applies `ops` in order and returns the replies, one for each operation.
    pub fn replay(&mut self, ops: Vec<Op<T>>) -> (r: Vec<Reply<T>>)
        requires
            old(self).well_formed(),
            old(self)@.len() + ops@.len() <= usize::MAX,
        ensures
            final(self).well_formed(),
            final(self).ttl() == old(self).ttl(),
            (final(self)@, r@) == run(old(self)@, old(self).ttl(), ops@),
    {
        let ghost all = ops@;
        let ghost s0 = self@;
        let mut ops = ops;
        let mut pending: Vec<Op<T>> = Vec::new();
        while ops.len() > 0
            invariant
                ops@ + pending@.reverse() == all,
            decreases ops@.len(),
        {
            let ghost a = ops@;
            let ghost b = pending@;
            match ops.pop() {
                Some(op) => {
                    pending.push(op);
                    proof {
                        assert(pending@.reverse() =~= seq![op] + b.reverse());
                        assert(ops@ + pending@.reverse() =~= a + b.reverse());
                    }
                },
                None => {},
            }
        }
        assert(pending@.reverse() =~= all.skip(0));
        assert(all.take(0) =~= Seq::<Op<T>>::empty());
        let mut replies: Vec<Reply<T>> = Vec::new();
        let ghost mut i: int = 0;
        while pending.len() > 0
            invariant
                self.well_formed(),
                self.ttl() == old(self).ttl(),
                s0 == old(self)@,
                0 <= i <= all.len(),
                self@.len() <= s0.len() + i,
                s0.len() + all.len() <= usize::MAX,
                pending@.reverse() == all.skip(i),
                (self@, replies@) == run(s0, self.ttl(), all.take(i)),
            decreases pending@.len(),
        {
            let ghost b = pending@;
            match pending.pop() {
                Some(op) => {
                    proof {
                        assert(b.reverse() =~= seq![op] + pending@.reverse());
                        assert(all.skip(i)[0] == all[i]);
                        lemma_step(self@, self.ttl(), op);
                    }
                    let reply = self.apply(op);
                    replies.push(reply);
                    proof {
                        assert(all.take(i + 1).drop_last() =~= all.take(i));
                        assert(all.skip(i + 1) =~= all.skip(i).drop_first());
                        i = i + 1;
                    }
                },
                None => {},
            }
        }
        assert(all.take(i) =~= all);
        replies
    }

    /// Gives up the queue, handing out its entries from front to back.
    pub fn into_vec(self) -> (r: Vec<(u128, T)>)
        ensures
            r@ == self@,
    {
        let ghost s0 = self@;
        let mut outbox = self.outbox;
        let inbox = self.inbox;
        let mut r: Vec<(u128, T)> = Vec::new();
        while outbox.len() > 0
            invariant
                r@ + outbox@.reverse() + inbox@ == s0,
            decreases outbox@.len(),
        {
            let ghost b = outbox@;
            let e = outbox.pop();
            match e {
                Some(e) => {
                    r.push(e);
                    proof {
                        assert(b.reverse() =~= seq![e] + outbox@.reverse());
                        assert(r@ + outbox@.reverse() + inbox@ =~= s0);
                    }
                },
                None => {},
            }
        }
        assert(outbox@.reverse() =~= Seq::<(u128, T)>::empty());
        let mut rest = inbox;
        let ghost r0 = r@;
        r.append(&mut rest);
        assert(r@ =~= s0);
        r
    }
}

/// A cursor over a [`TtlQueue`] from front to back.
pub struct DoubleStackIterator<'a, T> {
    queue: &'a TtlQueue<T>,
    position: usize,
}

impl<'a, T> DoubleStackIterator<'a, T> {
    /// The queue walked over.
    pub closed spec fn queue(&self) -> &'a TtlQueue<T> {
        self.queue
    }

    /// The number of entries already handed out.
    pub closed spec fn position(&self) -> nat {
        self.position as nat
    }

    /// A cursor at the front of `queue`.
    pub fn new(queue: &'a TtlQueue<T>) -> (r: Self)
        requires
            queue.well_formed(),
        ensures
            r.queue() == queue,
            r.position() == 0,
    {
        DoubleStackIterator { queue, position: 0 }
    }

    /// The next entry, or `None` once every entry has been handed out.
    pub fn next(&mut self) -> (r: Option<&'a (u128, T)>)
        requires
            old(self).queue().well_formed(),
            old(self).position() <= old(self).queue()@.len(),
        ensures
            final(self).queue() == old(self).queue(),
            old(self).position() < old(self).queue()@.len() ==> r == Some(
                &old(self).queue()@[old(self).position() as int],
            ) && final(self).position() == old(self).position() + 1,
            old(self).position() == old(self).queue()@.len() ==> r is None
                && final(self).position() == old(self).position(),
    {
        if self.position < self.queue.len() {
            let e = self.queue.get(self.position);
            self.position = self.position + 1;
            Some(e)
        } else {
            None
        }
    }
}

} // verus!
