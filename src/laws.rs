//! Properties that hold of every queue and every sequence of operations.
use vstd::prelude::*;

use crate::deque::DequeTtlQueue;
use crate::double_stack::TtlQueue;
use crate::model::{
    Op,
    age,
    count_live,
    expired_prefix,
    lemma_expired_prefix,
    lemma_push_keeps_order,
    lemma_refreshed_is_live,
    push_all,
    refreshed,
    run,
    time_ordered,
    values,
};

verus! {

/// Pushes with no removal in between keep push order: the values of the entries,
/// front to back, are the old ones followed by the pushed ones in the order pushed,
/// and the stamps stay in time order.
pub proof fn lemma_pushes_keep_order<T>(s: Seq<(u128, T)>, nows: Seq<u128>, vals: Seq<T>)
    requires
        time_ordered(s),
        nows.len() == vals.len(),
    ensures
        values(push_all(s, nows, vals)) == values(s) + vals,
        time_ordered(push_all(s, nows, vals)),
    decreases vals.len(),
{
    if vals.len() > 0 {
        let p = push_all(s, nows.drop_last(), vals.drop_last());
        lemma_pushes_keep_order(s, nows.drop_last(), vals.drop_last());
        lemma_push_keeps_order(p, nows.last(), vals.last());
        assert(values(push_all(s, nows, vals)) =~= values(p).push(vals.last()));
        assert(vals =~= vals.drop_last().push(vals.last()));
        assert(values(s) + vals =~= (values(s) + vals.drop_last()).push(vals.last()));
    } else {
        assert(vals =~= Seq::<T>::empty());
        assert(values(s) + vals =~= values(s));
    }
}

/// A refresh at `now` removes an entry exactly when its age is at least the TTL,
/// and keeps it, in its place among the others, exactly when its age is below it.
pub proof fn lemma_expiry_exact<T>(s: Seq<(u128, T)>, now: u128, ttl: u128, i: int)
    requires
        time_ordered(s),
        0 <= i < s.len(),
    ensures
        (i < expired_prefix(s, now, ttl)) == (age(s[i].0, now) >= ttl),
        age(s[i].0, now) < ttl ==> refreshed(s, now, ttl)[i - expired_prefix(s, now, ttl)]
            == s[i],
{
    lemma_expired_prefix(s, now, ttl);
    lemma_refreshed_is_live(s, now, ttl);
    let k = expired_prefix(s, now, ttl) as int;
    if i >= k {
        assert(refreshed(s, now, ttl)[i - k] == s[i]);
    }
}

/// A TTL of zero expires every entry; a TTL beyond the clock reading expires none.
pub proof fn lemma_ttl_extremes<T>(s: Seq<(u128, T)>, now: u128)
    requires
        time_ordered(s),
    ensures
        refreshed(s, now, 0) == Seq::<(u128, T)>::empty(),
        count_live(s, now, 0) == 0,
        forall|ttl: u128| now < ttl ==> #[trigger] refreshed(s, now, ttl) == s,
        forall|ttl: u128| now < ttl ==> #[trigger] count_live(s, now, ttl) == s.len(),
{
    lemma_refreshed_is_live(s, now, 0);
    lemma_expired_prefix(s, now, 0);
    if expired_prefix(s, now, 0) < s.len() {
        let k = expired_prefix(s, now, 0) as int;
        assert(age(s[k].0, now) < 0);
    }
    assert(refreshed(s, now, 0) =~= Seq::<(u128, T)>::empty());
    assert forall|ttl: u128| now < ttl implies #[trigger] refreshed(s, now, ttl) == s by {
        lemma_expired_prefix(s, now, ttl);
        if expired_prefix(s, now, ttl) > 0 {
            assert(age(s[0].0, now) >= ttl);
        }
        assert(refreshed(s, now, ttl) =~= s);
    }
    assert forall|ttl: u128| now < ttl implies #[trigger] count_live(s, now, ttl) == s.len() by {
        lemma_refreshed_is_live(s, now, ttl);
        lemma_expired_prefix(s, now, ttl);
        if expired_prefix(s, now, ttl) > 0 {
            assert(age(s[0].0, now) >= ttl);
        }
    }
}

/// The live count never exceeds the number of entries held, so `len` bounds the
/// count that a refresh returns.
pub proof fn lemma_live_count_within_len<T>(s: Seq<(u128, T)>, now: u128, ttl: u128)
    ensures
        count_live(s, now, ttl) <= s.len(),
    decreases s.len(),
{
    if s.len() > 0 {
        lemma_live_count_within_len(s.drop_first(), now, ttl);
    }
}

/// The two backends agree: from the same entries under the same TTL, one list of
/// operations, with the same clock readings, leaves both with the same entries and
/// draws the same replies from both.
pub proof fn lemma_backends_agree<T>(d: &DequeTtlQueue<T>, q: &TtlQueue<T>, ops: Seq<Op<T>>)
    requires
        d@ == q@,
        d.ttl() == q.ttl(),
    ensures
        run(d@, d.ttl(), ops) == run(q@, q.ttl(), ops),
{
}

} // verus!
