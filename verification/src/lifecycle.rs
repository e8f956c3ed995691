//! The three-state start/stop lifecycle shared by broker and client:
//! Uninitialized, Running, Stopped.
//!
//! `start` reports whether the caller must spawn the worker loops on
//! this transition; starting while already running is a no-op, and
//! `stop` merely raises the stop flag the loops poll.

use vstd::prelude::*;

verus! {

#[derive(Clone, Copy, Debug, PartialEq, Eq, Structural)]
pub struct Lifecycle {
    pub initialized: bool,
    pub stopped: bool,
}

/// What `start` does: the next state, and whether loops are spawned.
/// Uninitialized and Stopped both transition to Running; starting while
/// already running changes nothing.
pub open spec fn spec_start(s: Lifecycle) -> (Lifecycle, bool) {
    if !s.initialized || s.stopped {
        (Lifecycle { initialized: true, stopped: false }, true)
    } else {
        (s, false)
    }
}

/// What `stop` does: raise the stop flag.
pub open spec fn spec_stop(s: Lifecycle) -> Lifecycle {
    Lifecycle { initialized: s.initialized, stopped: true }
}

impl Lifecycle {
    /// Running: started, and not since asked to stop.
    pub open spec fn spec_is_running(self) -> bool {
        self.initialized && !self.stopped
    }

    pub fn new() -> (r: Self)
        ensures
            r == (Lifecycle { initialized: false, stopped: false }),
    {
        Lifecycle { initialized: false, stopped: false }
    }

    /// Take the start transition. Returns whether the worker loops must
    /// be spawned now; when already running this is a no-op.
    pub fn start(&mut self) -> (spawn: bool)
        ensures
            (*final(self), spawn) == spec_start(*old(self)),
    {
        if !self.initialized || self.stopped {
            self.initialized = true;
            self.stopped = false;
            true
        } else {
            false
        }
    }

    /// Raise the stop flag; the loops exit at their next poll.
    pub fn stop(&mut self)
        ensures
            *final(self) == spec_stop(*old(self)),
    {
        self.stopped = true;
    }

    pub fn is_running(&self) -> (r: bool)
        ensures
            r == self.spec_is_running(),
    {
        self.initialized && !self.stopped
    }
}

/// Law: `stop` is idempotent — stopping an already-stopped lifecycle
/// changes nothing.
pub proof fn lemma_stop_idempotent(s: Lifecycle)
    ensures
        spec_stop(spec_stop(s)) == spec_stop(s),
{
}

/// Law: `start` twice without an intervening `stop` spawns the loops
/// only once — after any start the lifecycle is running, and the second
/// start is a no-op.
pub proof fn lemma_start_twice_spawns_once(s: Lifecycle)
    ensures
        spec_start(s).0.spec_is_running(),
        !spec_start(spec_start(s).0).1,
{
}

/// Law: `stop` then `start` spawns the loops again, and `start` from a
/// fresh lifecycle spawns them.
pub proof fn lemma_start_spawns_when_not_running(s: Lifecycle)
    requires
        !s.spec_is_running(),
    ensures
        spec_start(s).1,
        spec_start(s).0.initialized,
{
}

} // verus!
