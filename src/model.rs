//! The mathematical model shared by both backends.
//!
//! A queue is seen as the sequence of its entries from front (oldest) to back
//! (newest); an entry is a pair of its timestamp, in nanoseconds, and its value.
use vstd::prelude::*;

verus! {

/// The age of an entry stamped `ts` at instant `now`; a stamp later than `now`
/// counts as age zero.
pub open spec fn age(ts: u128, now: u128) -> int {
    if ts <= now {
        now - ts
    } else {
        0
    }
}

/// An entry is live while its age is below the time-to-live.
pub open spec fn is_live(ts: u128, now: u128, ttl: u128) -> bool {
    age(ts, now) < ttl
}

/// Timestamps never decrease from front to back.
pub open spec fn time_ordered<T>(s: Seq<(u128, T)>) -> bool {
    forall|i: int, j: int| 0 <= i <= j < s.len() ==> #[trigger] s[i].0 <= #[trigger] s[j].0
}

/// The number of expired entries at the front of `s`, up to its first live entry.
pub open spec fn expired_prefix<T>(s: Seq<(u128, T)>, now: u128, ttl: u128) -> nat
    decreases s.len(),
{
    if s.len() == 0 {
        0
    } else if is_live(s[0].0, now, ttl) {
        0
    } else {
        1 + expired_prefix(s.drop_first(), now, ttl)
    }
}

/// The number of live entries in `s`, wherever they stand.
pub open spec fn count_live<T>(s: Seq<(u128, T)>, now: u128, ttl: u128) -> nat
    decreases s.len(),
{
    if s.len() == 0 {
        0
    } else {
        (if is_live(s[0].0, now, ttl) {
            1nat
        } else {
            0nat
        }) + count_live(s.drop_first(), now, ttl)
    }
}

/// What a refresh at `now` leaves: `s` without its expired front.
pub open spec fn refreshed<T>(s: Seq<(u128, T)>, now: u128, ttl: u128) -> Seq<(u128, T)> {
    s.skip(expired_prefix(s, now, ttl) as int)
}

/// The stamp that a push at `now` gives: the reading itself, or the newest stamp
/// already held if the reading is earlier, so that time order is kept.
pub open spec fn stamp<T>(s: Seq<(u128, T)>, now: u128) -> u128 {
    if s.len() > 0 && now < s.last().0 {
        s.last().0
    } else {
        now
    }
}

/// The values of `s`, front to back.
pub open spec fn values<T>(s: Seq<(u128, T)>) -> Seq<T> {
    s.map_values(|e: (u128, T)| e.1)
}

/// One operation on a queue; the ones that read the clock carry the reading.
pub enum Op<T> {
    PushBack { value: T, now: u128 },
    PopFront,
    Refresh { now: u128 },
}

/// What a queue answers to an [`Op`].
pub enum Reply<T> {
    Pushed,
    Popped(Option<(u128, T)>),
    Count(usize),
}

/// The entries and the reply after applying `op` to entries `s` under `ttl`.
pub open spec fn step<T>(s: Seq<(u128, T)>, ttl: u128, op: Op<T>) -> (Seq<(u128, T)>, Reply<T>) {
    match op {
        Op::PushBack { value, now } => (s.push((stamp(s, now), value)), Reply::Pushed),
        Op::PopFront => if s.len() == 0 {
            (s, Reply::Popped(None))
        } else {
            (s.drop_first(), Reply::Popped(Some(s[0])))
        },
        Op::Refresh { now } => (
            refreshed(s, now, ttl),
            Reply::Count(count_live(s, now, ttl) as usize),
        ),
    }
}

/// The entries and the replies after applying `ops` in order to entries `s` under `ttl`.
pub open spec fn run<T>(s: Seq<(u128, T)>, ttl: u128, ops: Seq<Op<T>>) -> (
    Seq<(u128, T)>,
    Seq<Reply<T>>,
)
    decreases ops.len(),
{
    if ops.len() == 0 {
        (s, Seq::empty())
    } else {
        let (s1, rs) = run(s, ttl, ops.drop_last());
        let (s2, r) = step(s1, ttl, ops.last());
        (s2, rs.push(r))
    }
}

/// The entries after pushing `vals` in order onto `s`, the i-th with the clock
/// reading `nows[i]`.
pub open spec fn push_all<T>(s: Seq<(u128, T)>, nows: Seq<u128>, vals: Seq<T>) -> Seq<(u128, T)>
    decreases vals.len(),
{
    if vals.len() == 0 || nows.len() == 0 {
        s
    } else {
        let p = push_all(s, nows.drop_last(), vals.drop_last());
        p.push((stamp(p, nows.last()), vals.last()))
    }
}

/// Pushing with the stamp that [`stamp`] gives keeps time order.
pub proof fn lemma_push_keeps_order<T>(s: Seq<(u128, T)>, now: u128, value: T)
    requires
        time_ordered(s),
    ensures
        time_ordered(s.push((stamp(s, now), value))),
{
    let t = s.push((stamp(s, now), value));
    assert forall|i: int, j: int| 0 <= i <= j < t.len() implies #[trigger] t[i].0
        <= #[trigger] t[j].0 by {
        if j < s.len() {
            assert(t[i] == s[i] && t[j] == s[j]);
        } else if i < s.len() {
            assert(s[i].0 <= s[s.len() - 1].0);
        }
    }
}

/// One step keeps time order, and grows the entries by one at most.
pub proof fn lemma_step<T>(s: Seq<(u128, T)>, ttl: u128, op: Op<T>)
    requires
        time_ordered(s),
    ensures
        time_ordered(step(s, ttl, op).0),
        step(s, ttl, op).0.len() <= s.len() + 1,
{
    match op {
        Op::PushBack { value, now } => lemma_push_keeps_order(s, now, value),
        Op::PopFront => if s.len() > 0 {
            let t = s.drop_first();
            assert forall|i: int, j: int| 0 <= i <= j < t.len() implies #[trigger] t[i].0
                <= #[trigger] t[j].0 by {
                assert(t[i] == s[i + 1] && t[j] == s[j + 1]);
            }
        },
        Op::Refresh { now } => lemma_refreshed_is_live(s, now, ttl),
    }
}

/// The expired front of `s` is made of expired entries, and ends at a live one.
pub proof fn lemma_expired_prefix<T>(s: Seq<(u128, T)>, now: u128, ttl: u128)
    ensures
        expired_prefix(s, now, ttl) <= s.len(),
        forall|i: int|
            0 <= i < expired_prefix(s, now, ttl) ==> !is_live(#[trigger] s[i].0, now, ttl),
        expired_prefix(s, now, ttl) < s.len() ==> is_live(
            s[expired_prefix(s, now, ttl) as int].0,
            now,
            ttl,
        ),
    decreases s.len(),
{
    if s.len() > 0 && !is_live(s[0].0, now, ttl) {
        let t = s.drop_first();
        lemma_expired_prefix(t, now, ttl);
        assert forall|i: int| 0 <= i < expired_prefix(s, now, ttl) implies !is_live(
            #[trigger] s[i].0,
            now,
            ttl,
        ) by {
            if i > 0 {
                assert(s[i] == t[i - 1]);
            }
        }
    }
}

/// A sequence whose entries are all live counts every entry as live.
proof fn lemma_count_all_live<T>(s: Seq<(u128, T)>, now: u128, ttl: u128)
    requires
        forall|i: int| 0 <= i < s.len() ==> is_live(#[trigger] s[i].0, now, ttl),
    ensures
        count_live(s, now, ttl) == s.len(),
    decreases s.len(),
{
    if s.len() > 0 {
        let t = s.drop_first();
        assert forall|i: int| 0 <= i < t.len() implies is_live(#[trigger] t[i].0, now, ttl) by {
            assert(t[i] == s[i + 1]);
        }
        lemma_count_all_live(t, now, ttl);
    }
}

/// In time order, everything behind the expired front is live, so the live entries
/// are exactly those that a refresh keeps.
pub proof fn lemma_refreshed_is_live<T>(s: Seq<(u128, T)>, now: u128, ttl: u128)
    requires
        time_ordered(s),
    ensures
        expired_prefix(s, now, ttl) <= s.len(),
        count_live(s, now, ttl) == s.len() - expired_prefix(s, now, ttl),
        forall|i: int|
            0 <= i < refreshed(s, now, ttl).len() ==> is_live(
                #[trigger] refreshed(s, now, ttl)[i].0,
                now,
                ttl,
            ),
        time_ordered(refreshed(s, now, ttl)),
    decreases s.len(),
{
    lemma_expired_prefix(s, now, ttl);
    let k = expired_prefix(s, now, ttl) as int;
    let r = refreshed(s, now, ttl);
    if k < s.len() {
        assert forall|i: int| 0 <= i < r.len() implies is_live(#[trigger] r[i].0, now, ttl) by {
            assert(r[i] == s[k + i]);
            assert(s[k].0 <= s[k + i].0);
        }
    }
    if s.len() > 0 {
        let t = s.drop_first();
        assert(time_ordered(t)) by {
            assert forall|i: int, j: int| 0 <= i <= j < t.len() implies #[trigger] t[i].0
                <= #[trigger] t[j].0 by {
                assert(t[i] == s[i + 1] && t[j] == s[j + 1]);
            }
        }
        if is_live(s[0].0, now, ttl) {
            assert(r =~= s);
            lemma_count_all_live(s, now, ttl);
        } else {
            lemma_refreshed_is_live(t, now, ttl);
            assert(refreshed(t, now, ttl) =~= r);
        }
    }
    assert forall|i: int, j: int| 0 <= i <= j < r.len() implies #[trigger] r[i].0
        <= #[trigger] r[j].0 by {
        assert(r[i] == s[k + i] && r[j] == s[k + j]);
    }
}

} // verus!
