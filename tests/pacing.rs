use ctf_bot::delivery::{Disposition, Pacer, Step, LIMIT_RATE_PER_ALL, LIMIT_RATE_PER_CHAT};

#[test]
fn quota_allows_thirty_per_interval() {
    let mut p = Pacer::new();
    let mut taken = 0;
    while p.try_acquire() {
        taken += 1;
    }
    assert_eq!(taken, LIMIT_RATE_PER_ALL);
    assert_eq!(taken, 30);
    assert!(!p.try_acquire());
    p.replenish();
    assert_eq!(p.quota_left(), 30);
    assert!(p.try_acquire());
    assert_eq!(p.quota_left(), 29);
}

#[test]
fn spacing_defers_second_message() {
    let mut p = Pacer::new();
    assert!(matches!(p.plan(10, 5_000), Step::Send));
    assert!(matches!(p.after_attempt(10, 5_000, true), Disposition::Delivered));
    match p.plan(10, 5_400) {
        Step::Defer(w) => assert_eq!(w, 600),
        Step::Send => panic!("must wait"),
    }
    assert!(matches!(p.plan(10, 6_000), Step::Send));
    assert!(matches!(p.plan(11, 5_400), Step::Send));
    assert!(matches!(p.plan(10, 4_000), Step::Send));
    assert_eq!(LIMIT_RATE_PER_CHAT, 1000);
}

#[test]
fn failed_attempt_requeues_without_pacing() {
    let mut p = Pacer::new();
    assert!(matches!(p.after_attempt(3, 100, false), Disposition::Requeue));
    assert!(matches!(p.plan(3, 150), Step::Send));
}

/// Drives the decisions of the delivery loop over a simulated clock: a queue
/// of (destination, remaining failures) items, 100 ms per quota poll, the
/// quota replenished every 1000 ms.
fn simulate(mut queue: std::collections::VecDeque<(i64, u32)>) -> (Vec<(i64, u64)>, u64) {
    let mut p = Pacer::new();
    let mut now: u64 = 0;
    let mut next_refill: u64 = 1000;
    let mut sent = Vec::new();
    while let Some((dest, fails)) = queue.pop_front() {
        loop {
            if now >= next_refill {
                p.replenish();
                next_refill += 1000;
            }
            if p.try_acquire() {
                break;
            }
            now += 100;
        }
        match p.plan(dest, now) {
            Step::Defer(_) => {
                queue.push_back((dest, fails));
                now += 1;
                continue;
            }
            Step::Send => {}
        }
        let accepted = fails == 0;
        match p.after_attempt(dest, now, accepted) {
            Disposition::Delivered => sent.push((dest, now)),
            Disposition::Requeue => queue.push_back((dest, fails - 1)),
        }
        now += 1;
    }
    (sent, now)
}

#[test]
fn hundred_messages_to_one_destination() {
    let queue = (0..100).map(|_| (77i64, 0u32)).collect();
    let (sent, _) = simulate(queue);
    assert_eq!(sent.len(), 100);
    for w in sent.windows(2) {
        assert!(w[1].1 >= w[0].1 + 1000);
    }
    assert!(sent[99].1 - sent[0].1 >= 99_000);
}

#[test]
fn failing_transport_delivers_exactly_once() {
    let queue = vec![(5i64, 3u32)].into_iter().collect();
    let (sent, _) = simulate(queue);
    assert_eq!(sent.len(), 1);
    assert_eq!(sent[0].0, 5);
}
