//! Lamport clocks for causal ordering across agents.

use vstd::prelude::*;

verus! {

/// Lamport clock for causal ordering across agents.
#[derive(Debug, Clone)]
pub struct LamportClock {
    time: u64,
}

/// The time after merging the remote timestamp `remote` into local time `t`:
/// one past the later of the two.
pub open spec fn merged_time(t: nat, remote: nat) -> nat {
    (if t >= remote { t } else { remote }) + 1
}

/// Lamport clocks only move forward: a tick passes the local time, and a
/// merge passes both the local time and the remote timestamp, so every event
/// is ordered after everything it has heard of.
pub proof fn law_clock_moves_forward(t: nat, remote: nat)
    ensures
        t < t + 1,
        t < merged_time(t, remote),
        remote < merged_time(t, remote),
{
}

impl View for LamportClock {
    type V = nat;

    /// The logical time currently held by the clock.
    closed spec fn view(&self) -> nat {
        self.time as nat
    }
}

impl LamportClock {
    /// A clock at logical time zero.
    pub fn new() -> (c: Self)
        ensures
            c@ == 0,
    {
        Self { time: 0 }
    }

    /// Advance the clock by one local event and return the new time.
    pub fn tick(&mut self) -> (t: u64)
        requires
            old(self)@ < u64::MAX,
        ensures
            final(self)@ == old(self)@ + 1,
            t == final(self)@,
    {
        self.time = self.time + 1;
        self.time
    }

    /// Merge a remote timestamp: the clock moves past both its own time and
    /// the remote one. Returns the new time.
    pub fn merge(&mut self, remote: u64) -> (t: u64)
        requires
            old(self)@ < u64::MAX,
            remote < u64::MAX,
        ensures
            final(self)@ == merged_time(old(self)@, remote as nat),
            t == final(self)@,
    {
        let m = if self.time >= remote { self.time } else { remote };
        self.time = m + 1;
        self.time
    }

    /// The current logical time.
    pub fn now(&self) -> (t: u64)
        ensures
            t == self@,
    {
        self.time
    }
}

} // verus!
