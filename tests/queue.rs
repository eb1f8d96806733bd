use std::time::{Duration, Instant};

use ttl_queue::{DequeTtlQueue, Op, Reply, TtlQueue};

fn wait(d: Duration) {
    let start = Instant::now();
    while start.elapsed() < d {}
}

#[test]
fn it_works() {
    let mut queue = TtlQueue::new(Duration::from_millis(50).as_nanos());
    queue.push_back(10);
    queue.push_back(20);
    queue.push_back(30);
    assert_eq!(queue.refresh(), 3);

    let value = queue.pop_front().unwrap();
    assert_eq!(value.1, 10);

    assert_eq!(queue.refresh(), 2);

    wait(Duration::from_millis(50));
    assert_eq!(queue.refresh(), 0);
}

#[test]
fn it_works_on_deque() {
    let mut queue = DequeTtlQueue::new(Duration::from_millis(50).as_nanos());
    queue.push_back(10);
    queue.push_back(20);
    queue.push_back(30);
    assert_eq!(queue.refresh(), 3);

    let value = queue.pop_front().unwrap();
    assert_eq!(value.1, 10);

    assert_eq!(queue.refresh(), 2);

    wait(Duration::from_millis(50));
    assert_eq!(queue.refresh(), 0);
}

#[test]
fn iter_works() {
    let mut queue = TtlQueue::new(Duration::MAX.as_nanos());
    for i in 0..1000 {
        queue.push_back((i * 10) as usize);

        // Ensure data is both in the inbox and the outbox
        if i == 500 {
            queue.ensure_stack_full();
        }
    }

    let mut it = queue.iter();
    let mut i: usize = 0;
    while let Some((_instant, value)) = it.next() {
        assert_eq!(*value, i * 10);
        i += 1;
    }
    assert_eq!(i, 1000);
}

#[test]
fn into_iter_works() {
    let mut queue = TtlQueue::new(Duration::MAX.as_nanos());
    for i in 0..100 {
        queue.push_back((i * 10) as usize);

        // Ensure data is both in the inbox and the outbox
        if i == 50 {
            queue.ensure_stack_full();
        }
    }

    for (i, (_instant, value)) in queue.into_vec().into_iter().enumerate() {
        assert_eq!(value, i * 10);
    }
}

#[test]
fn deque_iter_keeps_push_order() {
    let mut queue = DequeTtlQueue::new(Duration::MAX.as_nanos());
    for i in 0..1000 {
        queue.push_back((i * 10) as usize);
    }
    let entries = queue.iter();
    assert_eq!(entries.len(), 1000);
    for (i, (_instant, value)) in entries.into_iter().enumerate() {
        assert_eq!(*value, i * 10);
    }
    let owned = queue.into_vec();
    assert_eq!(owned.len(), 1000);
    assert_eq!(owned[999].1, 9990);
}

#[test]
fn scenario_with_given_readings_on_both_backends() {
    let ttl = Duration::from_millis(50).as_nanos();
    let ms = |n: u128| n * 1_000_000;

    let mut d = DequeTtlQueue::new(ttl);
    let mut q = TtlQueue::new(ttl);
    for v in [10u32, 20, 30] {
        d.push_back_at(v, 0);
        q.push_back_at(v, 0);
    }
    assert_eq!(d.refresh_at(ms(1)), 3);
    assert_eq!(q.refresh_at(ms(1)), 3);
    assert_eq!(d.pop_front(), Some((0, 10)));
    assert_eq!(q.pop_front(), Some((0, 10)));
    assert_eq!(d.refresh_at(ms(2)), 2);
    assert_eq!(q.refresh_at(ms(2)), 2);
    assert_eq!(d.peek_front(), Some(&(0, 20)));
    assert_eq!(q.peek_front(), Some(&(0, 20)));
    assert_eq!(d.refresh_at(ms(52)), 0);
    assert_eq!(q.refresh_at(ms(52)), 0);
    assert!(d.is_empty());
    assert!(q.is_empty());
}

#[test]
fn expiry_boundary_is_exact() {
    // An entry whose age equals the TTL is expired; one nanosecond younger is live.
    let mut q = TtlQueue::new(100);
    q.push_back_at('a', 1000);
    q.push_back_at('b', 1001);
    assert_eq!(q.refresh_at(1100), 1);
    assert_eq!(q.pop_front(), Some((1001, 'b')));

    let mut d = DequeTtlQueue::new(100);
    d.push_back_at('a', 1000);
    d.push_back_at('b', 1001);
    assert_eq!(d.refresh_at(1100), 1);
    assert_eq!(d.pop_front(), Some((1001, 'b')));
}

#[test]
fn zero_ttl_expires_at_once() {
    let mut q = TtlQueue::new(0);
    q.push_back(7u8);
    assert_eq!(q.refresh(), 0);
    let mut d = DequeTtlQueue::new(0);
    d.push_back(7u8);
    assert_eq!(d.refresh(), 0);

    let mut q = TtlQueue::new(0);
    q.push_back_at(7u8, 500);
    assert_eq!(q.len(), 1);
    assert_eq!(q.refresh_at(500), 0);
    assert_eq!(q.len(), 0);
}

#[test]
fn unbounded_ttl_keeps_everything() {
    let mut q = TtlQueue::new(Duration::MAX.as_nanos());
    let mut d = DequeTtlQueue::new(Duration::MAX.as_nanos());
    for i in 0..10u128 {
        q.push_back_at(i, i);
        d.push_back_at(i, i);
    }
    assert_eq!(q.refresh_at(u64::MAX as u128), 10);
    assert_eq!(d.refresh_at(u64::MAX as u128), 10);
}

#[test]
fn len_counts_expired_entries_until_refresh() {
    let mut q = TtlQueue::new(10);
    let mut d = DequeTtlQueue::new(10);
    for t in [0u128, 5, 20] {
        q.push_back_at(t, t);
        d.push_back_at(t, t);
    }
    assert_eq!(q.len(), 3);
    assert_eq!(d.len(), 3);
    assert_eq!(q.refresh_at(25), 1);
    assert_eq!(d.refresh_at(25), 1);
    assert_eq!(q.len(), 1);
    assert_eq!(d.len(), 1);
    assert!(!q.is_empty());
    assert!(!d.is_empty());
}

#[test]
fn refresh_and_push_back_counts_the_new_entry() {
    let mut q = TtlQueue::new(10);
    let mut d = DequeTtlQueue::new(10);
    assert_eq!(q.refresh_and_push_back_at(1, 0), 1);
    assert_eq!(d.refresh_and_push_back_at(1, 0), 1);
    assert_eq!(q.refresh_and_push_back_at(2, 5), 2);
    assert_eq!(d.refresh_and_push_back_at(2, 5), 2);
    assert_eq!(q.refresh_and_push_back_at(3, 12), 2);
    assert_eq!(d.refresh_and_push_back_at(3, 12), 2);
    assert_eq!(q.into_vec(), vec![(5, 2), (12, 3)]);
    assert_eq!(d.into_vec(), vec![(5, 2), (12, 3)]);

    let mut q = TtlQueue::new(Duration::from_secs(60).as_nanos());
    assert_eq!(q.refresh_and_push_back(()), 1);
    assert_eq!(q.refresh_and_push_back(()), 2);
    let mut d = DequeTtlQueue::new(Duration::from_secs(60).as_nanos());
    assert_eq!(d.refresh_and_push_back(()), 1);
    assert_eq!(d.refresh_and_push_back(()), 2);
}

#[test]
fn earlier_reading_takes_newest_stamp() {
    let mut q = TtlQueue::new(100);
    q.push_back_at("x", 50);
    q.push_back_at("y", 40);
    assert_eq!(q.into_vec(), vec![(50, "x"), (50, "y")]);

    let mut q = TtlQueue::new(100);
    q.push_back_at("x", 50);
    q.ensure_stack_full();
    q.push_back_at("y", 40);
    assert_eq!(q.into_vec(), vec![(50, "x"), (50, "y")]);

    let mut d = DequeTtlQueue::new(100);
    d.push_back_at("x", 50);
    d.push_back_at("y", 40);
    assert_eq!(d.into_vec(), vec![(50, "x"), (50, "y")]);
}

#[test]
fn empty_queues_report_no_element() {
    let mut q: TtlQueue<i32> = TtlQueue::with_capacity(10, 4);
    let mut d: DequeTtlQueue<i32> = DequeTtlQueue::with_capacity(10, 4);
    assert!(q.is_empty());
    assert!(d.is_empty());
    assert_eq!(q.pop_front(), None);
    assert_eq!(d.pop_front(), None);
    assert_eq!(d.pop_back(), None);
    assert_eq!(q.peek_front(), None);
    assert_eq!(d.peek_front(), None);
    assert_eq!(q.refresh_at(0), 0);
    assert_eq!(d.refresh_at(0), 0);
}

#[test]
fn pop_back_takes_newest() {
    let mut d = DequeTtlQueue::new(10);
    d.push_back_at(1, 0);
    d.push_back_at(2, 1);
    assert_eq!(d.pop_back(), Some((1, 2)));
    assert_eq!(d.pop_back(), Some((0, 1)));
    assert_eq!(d.pop_back(), None);
}

#[test]
fn refresh_scans_inbox_after_outbox_drains() {
    let mut q = TtlQueue::new(10);
    q.push_back_at(1, 0);
    q.push_back_at(2, 1);
    q.ensure_stack_full();
    q.push_back_at(3, 8);
    q.push_back_at(4, 9);
    q.push_back_at(5, 30);
    // At 18 the outbox empties and the inbox still holds two expired entries.
    assert_eq!(q.refresh_at(18), 2);
    assert_eq!(q.get(0), &(9, 4));
    assert_eq!(q.get(1), &(30, 5));
    assert_eq!(q.pop_front(), Some((9, 4)));
    assert_eq!(q.pop_front(), Some((30, 5)));
    assert_eq!(q.pop_front(), None);
}

#[test]
fn backends_replay_alike() {
    let ops = || {
        vec![
            Op::PushBack { value: 1u32, now: 0 },
            Op::PushBack { value: 2, now: 3 },
            Op::PopFront,
            Op::PushBack { value: 3, now: 7 },
            Op::Refresh { now: 12 },
            Op::PushBack { value: 4, now: 14 },
            Op::Refresh { now: 18 },
            Op::PopFront,
            Op::PopFront,
            Op::PopFront,
        ]
    };
    let mut d = DequeTtlQueue::new(10);
    let mut q = TtlQueue::new(10);
    let rd = d.replay(ops());
    let rq = q.replay(ops());
    let show = |r: &Reply<u32>| match r {
        Reply::Pushed => (0, None, 0),
        Reply::Popped(p) => (1, *p, 0),
        Reply::Count(n) => (2, None, *n),
    };
    let sd: Vec<_> = rd.iter().map(show).collect();
    let sq: Vec<_> = rq.iter().map(show).collect();
    assert_eq!(sd, sq);
    assert_eq!(
        sd,
        vec![
            (0, None, 0),
            (0, None, 0),
            (1, Some((0, 1)), 0),
            (0, None, 0),
            (2, None, 2),
            (0, None, 0),
            (2, None, 1),
            (1, Some((14, 4)), 0),
            (1, None, 0),
            (1, None, 0),
        ]
    );
    assert!(d.is_empty());
    assert!(q.is_empty());
}

#[test]
fn apply_answers_one_operation() {
    let mut q = TtlQueue::new(5);
    assert!(matches!(q.apply(Op::PushBack { value: 'z', now: 1 }), Reply::Pushed));
    assert!(matches!(q.apply(Op::Refresh { now: 3 }), Reply::Count(1)));
    assert!(matches!(q.apply(Op::PopFront), Reply::Popped(Some((1, 'z')))));
    let mut d = DequeTtlQueue::new(5);
    assert!(matches!(d.apply(Op::PushBack { value: 'z', now: 1 }), Reply::Pushed));
    assert!(matches!(d.apply(Op::Refresh { now: 6 }), Reply::Count(0)));
    assert!(matches!(d.apply(Op::PopFront), Reply::Popped(None)));
}
