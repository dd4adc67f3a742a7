use vstd::prelude::*;
use std::collections::HashMap;

verus! {

broadcast use vstd::std_specs::hash::group_hash_axioms;

/// Minimum spacing between two notifications to one destination, in ms.
pub const LIMIT_RATE_PER_CHAT: u64 = 1000;

/// Notifications that may leave per replenishment interval, all destinations
/// together.
pub const LIMIT_RATE_PER_ALL: u64 = 30;

/// What to do with a dequeued notification once a quota unit is held.
pub enum Step {
    /// Hand it to the transport now.
    Send,
    /// Too soon after the last one to this destination: requeue it, or wait
    /// this many ms where requeueing cannot proceed.
    Defer(u64),
}

/// What becomes of a notification after a transport attempt.
pub enum Disposition {
    /// The transport accepted it; it leaves the queue.
    Delivered,
    /// The transport failed; it goes back to the queue's tail.
    Requeue,
}

/// The step for a notification to `dest` at time `now` (ms), given the last
/// accepted send time of each destination. A clock that reads earlier than the
/// last send does not hold a notification back.
pub open spec fn step_for(last_sent: Map<i64, u64>, dest: i64, now: u64) -> Step {
    if last_sent.contains_key(dest) && last_sent[dest] <= now && now - last_sent[dest]
        < LIMIT_RATE_PER_CHAT {
        Step::Defer((LIMIT_RATE_PER_CHAT - (now - last_sent[dest])) as u64)
    } else {
        Step::Send
    }
}

/// The disposition after an attempt that the transport accepted or not.
pub open spec fn disposition_for(accepted: bool) -> Disposition {
    if accepted {
        Disposition::Delivered
    } else {
        Disposition::Requeue
    }
}

/// The global quota and the per-destination pacing of the delivery loop.
pub struct Pacer {
    quota: u64,
    last_sent: HashMap<i64, u64>,
}

impl Pacer {
    /// Quota units left in the current interval.
    pub closed spec fn quota(&self) -> u64 {
        self.quota
    }

    /// The last accepted send time of each destination.
    pub closed spec fn last_sent(&self) -> Map<i64, u64> {
        self.last_sent@
    }

    pub open spec fn wf(&self) -> bool {
        self.quota() <= LIMIT_RATE_PER_ALL
    }

    /// A full quota and no destination served yet.
    pub fn new() -> (r: Pacer)
        ensures
            r.wf(),
            r.quota() == LIMIT_RATE_PER_ALL,
            r.last_sent() == Map::<i64, u64>::empty(),
    {
        Pacer { quota: LIMIT_RATE_PER_ALL, last_sent: HashMap::new() }
    }

    pub fn quota_left(&self) -> (r: u64)
        ensures
            r == self.quota(),
    {
        self.quota
    }

    /// The start of a new interval: the quota is full again.
    pub fn replenish(&mut self)
        ensures
            final(self).wf(),
            final(self).quota() == LIMIT_RATE_PER_ALL,
            final(self).last_sent() == old(self).last_sent(),
    {
        self.quota = LIMIT_RATE_PER_ALL;
    }

    /// Takes one unit of the quota if one is left; the caller polls again later
    /// when none is.
    pub fn try_acquire(&mut self) -> (r: bool)
        ensures
            r == (old(self).quota() >= 1),
            r ==> final(self).quota() == old(self).quota() - 1,
            !r ==> final(self).quota() == old(self).quota(),
            final(self).last_sent() == old(self).last_sent(),
            old(self).wf() ==> final(self).wf(),
    {
        if self.quota >= 1 {
            self.quota = self.quota - 1;
            true
        } else {
            false
        }
    }

    /// The step for a notification to `dest` at time `now` (ms).
    pub fn plan(&self, dest: i64, now: u64) -> (r: Step)
        ensures
            r == step_for(self.last_sent(), dest, now),
    {
        match self.last_sent.get(&dest) {
            Some(t) => {
                let t = *t;
                if t <= now && now - t < LIMIT_RATE_PER_CHAT {
                    Step::Defer(LIMIT_RATE_PER_CHAT - (now - t))
                } else {
                    Step::Send
                }
            },
            None => Step::Send,
        }
    }

    /// Settles an attempt made at time `now` (ms) to `dest`: an accepted one
    /// is remembered as the destination's last send; a failed one goes back to
    /// the queue and changes nothing else.
    pub fn after_attempt(&mut self, dest: i64, now: u64, accepted: bool) -> (r: Disposition)
        ensures
            r == disposition_for(accepted),
            accepted ==> final(self).last_sent() == old(self).last_sent().insert(dest, now),
            !accepted ==> final(self).last_sent() == old(self).last_sent(),
            final(self).quota() == old(self).quota(),
    {
        if accepted {
            self.last_sent.insert(dest, now);
            Disposition::Delivered
        } else {
            Disposition::Requeue
        }
    }
}

/// Once a send to `dest` is accepted at `t`, the next one to that destination
/// is sent no earlier than `t` plus the spacing, on a clock that does not run
/// backwards.
pub proof fn lemma_spacing_kept(last_sent: Map<i64, u64>, dest: i64, t: u64, now: u64)
    requires
        t <= now,
    ensures
        step_for(last_sent.insert(dest, t), dest, now) is Send ==> now >= t
            + LIMIT_RATE_PER_CHAT,
{
}

/// Send times to one destination, each let through after the one before, span
/// at least the spacing times their number less one: a hundred take 99 s.
pub proof fn lemma_spacing_total(last_sent: Map<i64, u64>, dest: i64, times: Seq<u64>)
    requires
        times.len() >= 1,
        forall|k: int|
            0 <= k < times.len() - 1 ==> times[k] <= times[k + 1] && (#[trigger] step_for(
                last_sent.insert(dest, times[k]),
                dest,
                times[k + 1],
            )) is Send,
    ensures
        times.last() >= times[0] + LIMIT_RATE_PER_CHAT * (times.len() - 1),
    decreases times.len(),
{
    if times.len() > 1 {
        let d = times.drop_last();
        assert forall|k: int| 0 <= k < d.len() - 1 implies d[k] <= d[k + 1] && (#[trigger] step_for(
            last_sent.insert(dest, d[k]),
            dest,
            d[k + 1],
        )) is Send by {
            assert(d[k] == times[k] && d[k + 1] == times[k + 1]);
        }
        lemma_spacing_total(last_sent, dest, d);
        let k = times.len() - 2;
        assert(step_for(last_sent.insert(dest, times[k]), dest, times[k + 1]) is Send);
        lemma_spacing_kept(last_sent, dest, times[k], times[k + 1]);
    }
}

/// Deliveries of one notification over successive transport outcomes, and
/// whether it is still queued after them: a failure requeues it, an
/// acceptance delivers it, and nothing is attempted once it has left.
pub open spec fn attempts(outcomes: Seq<bool>) -> (nat, bool)
    decreases outcomes.len(),
{
    if outcomes.len() == 0 {
        (0, true)
    } else {
        let (delivered, queued) = attempts(outcomes.drop_last());
        if !queued {
            (delivered, queued)
        } else {
            match disposition_for(outcomes.last()) {
                Disposition::Delivered => (delivered + 1, false),
                Disposition::Requeue => (delivered, true),
            }
        }
    }
}

/// `k` failed attempts.
pub open spec fn failures(k: nat) -> Seq<bool> {
    Seq::new(k, |i: int| false)
}

/// A transport that fails `n` times and then accepts yields exactly one
/// delivery, and the notification stays queued through every failure.
pub proof fn lemma_retry_delivers_once(n: nat)
    ensures
        attempts(failures(n).push(true)) == (1nat, false),
        forall|k: nat| k <= n ==> #[trigger] attempts(failures(k)) == (0nat, true),
{
    assert forall|k: nat| k <= n implies #[trigger] attempts(failures(k)) == (0nat, true) by {
        lemma_failures_keep_queued(k);
    }
    lemma_failures_keep_queued(n);
    assert(failures(n).push(true).drop_last() =~= failures(n));
}

proof fn lemma_failures_keep_queued(k: nat)
    ensures
        attempts(failures(k)) == (0nat, true),
    decreases k,
{
    if k > 0 {
        lemma_failures_keep_queued((k - 1) as nat);
        assert(failures(k).drop_last() =~= failures((k - 1) as nat));
    }
}

/// One step of the consumer on a queue of notifications (head first) and
/// the list of those delivered: the head is requeued at the tail when the
/// pacer defers it or the transport fails, and delivered otherwise.
pub open spec fn consume<T>(queue: Seq<T>, delivered: Seq<T>, step: Step, accepted: bool) -> (
    Seq<T>,
    Seq<T>,
) {
    let m = queue[0];
    let rest = queue.drop_first();
    match step {
        Step::Defer(_) => (rest.push(m), delivered),
        Step::Send => match disposition_for(accepted) {
            Disposition::Delivered => (rest, delivered.push(m)),
            Disposition::Requeue => (rest.push(m), delivered),
        },
    }
}

/// A consumer step neither loses nor duplicates a notification: what is
/// queued and what is delivered together stay the same, and a notification
/// that the pacer lets through to an accepting transport is delivered.
pub proof fn lemma_consume_conserves<T>(queue: Seq<T>, delivered: Seq<T>, step: Step, accepted: bool)
    requires
        queue.len() > 0,
    ensures
        ({
            let (q, d) = consume(queue, delivered, step, accepted);
            (q + d).to_multiset() == (queue + delivered).to_multiset()
        }),
        step is Send && accepted ==> consume(queue, delivered, step, accepted).1 == delivered.push(
            queue[0],
        ),
{
    broadcast use vstd::seq_lib::group_to_multiset_ensures;

    let m = queue[0];
    let rest = queue.drop_first();
    assert(queue =~= seq![m] + rest);
    vstd::seq_lib::lemma_multiset_commutative(seq![m] + rest, delivered);
    vstd::seq_lib::lemma_multiset_commutative(seq![m], rest);
    vstd::seq_lib::lemma_multiset_commutative(rest, delivered);
    vstd::seq_lib::lemma_multiset_commutative(rest.push(m), delivered);
    vstd::seq_lib::lemma_multiset_commutative(rest, delivered.push(m));
    assert(rest.push(m) =~= rest + seq![m]);
    assert(delivered.push(m) =~= delivered + seq![m]);
    vstd::seq_lib::lemma_multiset_commutative(delivered, seq![m]);
    vstd::seq_lib::lemma_multiset_commutative(rest, seq![m]);
}

} // verus!
