//! Debouncing of filesystem events.
//!
//! Raw change notifications arrive in bursts — an editor may write a file
//! several times in a moment. The watcher coalesces a burst into a single
//! trigger: every event re-arms a deadline one quiet interval away, and a
//! poll fires only once the deadline has passed, disarming it. However
//! many raw events fall inside one quiet period, at most one trigger comes
//! out of it: see [`lemma_at_most_one_trigger`].

use vstd::prelude::*;

verus! {

/// The debouncing watcher state: the quiet interval and, while a burst is
/// pending, the deadline at which the trigger fires. Times are ticks of
/// the caller's clock.
pub struct Debouncer {
    pub quiet: u64,
    pub deadline: Option<u64>,
}

/// A poll at `now` fires exactly when an armed deadline has passed.
pub open spec fn would_fire(s: Debouncer, now: u64) -> bool {
    s.deadline matches Some(d) && now >= d
}

/// The state after a poll: firing disarms the deadline.
pub open spec fn after_poll(s: Debouncer, now: u64) -> Debouncer {
    if would_fire(s, now) {
        Debouncer { quiet: s.quiet, deadline: None }
    } else {
        s
    }
}

/// How many of the polls, taken in order with no events in between, fire.
pub open spec fn fire_count(s: Debouncer, polls: Seq<u64>) -> nat
    decreases polls.len(),
{
    if polls.len() == 0 {
        0
    } else {
        (if would_fire(s, polls[0]) {
            1nat
        } else {
            0nat
        }) + fire_count(after_poll(s, polls[0]), polls.skip(1))
    }
}

proof fn lemma_disarmed_never_fires(s: Debouncer, polls: Seq<u64>)
    requires
        s.deadline is None,
    ensures
        fire_count(s, polls) == 0,
    decreases polls.len(),
{
    if polls.len() > 0 {
        lemma_disarmed_never_fires(s, polls.skip(1));
    }
}

/// At most one trigger is delivered per quiet period: with no further
/// events, any run of polls fires at most once, since the first firing
/// poll disarms the deadline.
pub proof fn lemma_at_most_one_trigger(s: Debouncer, polls: Seq<u64>)
    ensures
        fire_count(s, polls) <= 1,
    decreases polls.len(),
{
    if polls.len() > 0 {
        if would_fire(s, polls[0]) {
            lemma_disarmed_never_fires(after_poll(s, polls[0]), polls.skip(1));
        } else {
            lemma_at_most_one_trigger(s, polls.skip(1));
        }
    }
}

impl Debouncer {
    /// A watcher with the given quiet interval and no pending burst.
    pub fn new(quiet: u64) -> (r: Debouncer)
        ensures
            r.quiet == quiet,
            r.deadline is None,
    {
        Debouncer { quiet, deadline: None }
    }

    /// A raw event at `now`: the quiet interval restarts, coalescing this
    /// event with any pending burst.
    pub fn note_event(&mut self, now: u64)
        requires
            now + old(self).quiet <= u64::MAX,
        ensures
            final(self).quiet == old(self).quiet,
            final(self).deadline == Some((now + old(self).quiet) as u64),
    {
        self.deadline = Some(now + self.quiet);
    }

    /// A poll at `now`: fires once the armed deadline has passed, and
    /// disarms it, so the burst yields exactly one trigger.
    pub fn poll(&mut self, now: u64) -> (fired: bool)
        ensures
            fired == would_fire(*old(self), now),
            *final(self) == after_poll(*old(self), now),
    {
        match self.deadline {
            Some(d) => {
                if now >= d {
                    self.deadline = None;
                    true
                } else {
                    false
                }
            },
            None => false,
        }
    }
}

} // verus!
