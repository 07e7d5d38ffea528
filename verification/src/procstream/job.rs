//! Deciding how to bring a process tree down.
use vstd::prelude::*;

verus! {

/// A signal to deliver to a whole process tree.
///
/// On Unix these map to `SIGINT`/`SIGTERM`/`SIGKILL`. On Windows there is no
/// portable graceful signal for a job tree, so only [`Signal::Kill`] does
/// anything (it terminates the Job). The others are a no-op.
#[derive(Clone, Copy, PartialEq, Eq, Structural, Debug)]
pub enum Signal {
    /// Asks the tree to stop what it does.
    Interrupt,
    /// Asks the tree to end.
    Terminate,
    /// Ends the tree.
    Kill,
}

impl Signal {
    /// Whether the signal is delivered at all.
    pub fn is_delivered(&self, windows: bool) -> (r: bool)
        ensures
            r == (!windows || *self == Signal::Kill),
    {
        !windows || matches!(self, Signal::Kill)
    }

    /// Whether a tree counts as terminated once the signal was sent.
    pub fn terminates(&self, windows: bool) -> (r: bool)
        ensures
            r == (*self == Signal::Kill || (!windows && *self == Signal::Terminate)),
    {
        match self {
            Signal::Kill => true,
            Signal::Terminate => !windows,
            Signal::Interrupt => false,
        }
    }
}

/// How long a tree is given to end by itself, in nanoseconds. Where a graceful
/// signal does nothing, no time is spent waiting for it.
pub fn grace_for(windows: bool, signal: Signal, grace: u128) -> (r: u128)
    ensures
        r == (if windows && signal != Signal::Kill {
            0
        } else {
            grace
        }),
{
    if windows && !matches!(signal, Signal::Kill) {
        0
    } else {
        grace
    }
}

/// What to do next while a tree is given time to end by itself.
#[derive(Clone, Copy, PartialEq, Eq, Structural, Debug)]
pub enum ShutdownStep {
    /// The leader has exited: kill what is left of the tree.
    Exited,
    /// The time is over: kill the tree and wait for the leader.
    Escalate,
    /// Wait a little and look again.
    Wait,
}

/// What to do next, given whether the leader has exited. The tree is killed in
/// the end in any case: descendants that outlive the leader would otherwise
/// hold the output open.
pub fn shutdown_step(exited: bool, now: u128, deadline: u128) -> (r: ShutdownStep)
    ensures
        r == (if exited {
            ShutdownStep::Exited
        } else if now >= deadline {
            ShutdownStep::Escalate
        } else {
            ShutdownStep::Wait
        }),
{
    if exited {
        ShutdownStep::Exited
    } else if now >= deadline {
        ShutdownStep::Escalate
    } else {
        ShutdownStep::Wait
    }
}

} // verus!
