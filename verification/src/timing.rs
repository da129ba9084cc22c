//! When the tuner and the load balancer run.
use vstd::prelude::*;

verus! {

/// The deadlines of the tuner and of the load balancer. All times are in
/// nanoseconds from the same origin.
#[derive(Clone, Copy, Debug)]
pub struct Deadlines {
    pub tune_interval: u128,
    pub sched_interval: u128,
    pub next_tune_at: u128,
    pub next_sched_at: u128,
}

/// The deadline after the one that has been met: an interval later, or an
/// interval from now where that has passed too.
pub open spec fn next_deadline(deadline: u128, interval: u128, now: u128) -> int {
    if deadline + interval < now {
        now + interval
    } else {
        deadline + interval
    }
}

fn advance(deadline: u128, interval: u128, now: u128) -> (res: u128)
    requires
        deadline + interval <= u128::MAX,
        now + interval <= u128::MAX,
    ensures
        res == next_deadline(deadline, interval, now),
{
    let next: u128 = deadline + interval;
    if next < now {
        now + interval
    } else {
        next
    }
}

impl Deadlines {
    /// The first deadlines, an interval from now.
    pub fn new(now: u128, tune_interval: u128, sched_interval: u128) -> (res: Deadlines)
        requires
            now + tune_interval <= u128::MAX,
            now + sched_interval <= u128::MAX,
        ensures
            res.tune_interval == tune_interval,
            res.sched_interval == sched_interval,
            res.next_tune_at == now + tune_interval,
            res.next_sched_at == now + sched_interval,
    {
        Deadlines {
            tune_interval,
            sched_interval,
            next_tune_at: now + tune_interval,
            next_sched_at: now + sched_interval,
        }
    }

    /// Whether the tuner is to run.
    pub fn tune_due(&self, now: u128) -> (res: bool)
        ensures
            res <==> self.next_tune_at <= now,
    {
        now >= self.next_tune_at
    }

    /// Whether the load balancer is to run.
    pub fn sched_due(&self, now: u128) -> (res: bool)
        ensures
            res <==> self.next_sched_at <= now,
    {
        now >= self.next_sched_at
    }

    /// The tuner has run.
    pub fn tuned(&mut self, now: u128)
        requires
            old(self).next_tune_at + old(self).tune_interval <= u128::MAX,
            now + old(self).tune_interval <= u128::MAX,
        ensures
            final(self).next_tune_at == next_deadline(
                old(self).next_tune_at,
                old(self).tune_interval,
                now,
            ),
            final(self).next_sched_at == old(self).next_sched_at,
            final(self).tune_interval == old(self).tune_interval,
            final(self).sched_interval == old(self).sched_interval,
    {
        self.next_tune_at = advance(self.next_tune_at, self.tune_interval, now);
    }

    /// The load balancer has run.
    pub fn balanced(&mut self, now: u128)
        requires
            old(self).next_sched_at + old(self).sched_interval <= u128::MAX,
            now + old(self).sched_interval <= u128::MAX,
        ensures
            final(self).next_sched_at == next_deadline(
                old(self).next_sched_at,
                old(self).sched_interval,
                now,
            ),
            final(self).next_tune_at == old(self).next_tune_at,
            final(self).tune_interval == old(self).tune_interval,
            final(self).sched_interval == old(self).sched_interval,
    {
        self.next_sched_at = advance(self.next_sched_at, self.sched_interval, now);
    }

    /// How long to sleep: until the earlier deadline, and not at all where that
    /// has passed.
    pub fn sleep_for(&self, now: u128) -> (res: u128)
        ensures
            res == ({
                let wake = if self.next_sched_at <= self.next_tune_at {
                    self.next_sched_at
                } else {
                    self.next_tune_at
                };
                if wake >= now {
                    wake - now
                } else {
                    0
                }
            }),
    {
        let wake: u128 = if self.next_sched_at <= self.next_tune_at {
            self.next_sched_at
        } else {
            self.next_tune_at
        };
        if wake >= now {
            wake - now
        } else {
            0
        }
    }
}

/// A deadline that is met late does not pile up others: the next one is not in
/// the past, and no more than an interval away. Deadlines that are met in time
/// follow each other at the interval, and so do those that are still to come.
pub proof fn law_no_backlog(deadline: u128, interval: u128, now: u128)
    ensures
        deadline <= now ==> now <= next_deadline(deadline, interval, now) <= now + interval,
        now - deadline <= interval ==> next_deadline(deadline, interval, now) - deadline == interval,
        now - deadline > interval ==> next_deadline(deadline, interval, now) - now == interval,
{
}

/// A time of the monotonic clock in nanoseconds.
pub fn timespec_ns(tv_sec: i64, tv_nsec: i64) -> (res: u64)
    requires
        0 <= tv_sec,
        0 <= tv_nsec,
        tv_sec * 1_000_000_000 + tv_nsec <= u64::MAX,
    ensures
        res == tv_sec * 1_000_000_000 + tv_nsec,
{
    tv_sec as u64 * 1_000_000_000 + tv_nsec as u64
}

} // verus!
