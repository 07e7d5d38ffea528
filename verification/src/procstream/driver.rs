//! The state of the driver that captures one child.
//!
//! The driver reads the child's streams and reaps the child. It is done once
//! every stream is closed and the exit is delivered: then the queue closes.
use vstd::prelude::*;

verus! {

/// The longest that a single poll blocks, in nanoseconds. A longer wait is cut
/// to this and the caller polls again.
pub const MAX_WAIT: u128 = 3600000000000;

/// The per-child capture state.
pub struct DriverState {
    closed: Vec<bool>,
    open: usize,
    exit_reaped: bool,
    done: bool,
}

/// The mathematical value of a [`DriverState`].
pub struct DriverView {
    /// For each stream whether it is closed.
    pub closed: Seq<bool>,
    /// Whether the exit was delivered.
    pub exit_reaped: bool,
    /// Whether there is nothing left to do.
    pub done: bool,
}

/// The number of streams that are open.
pub open spec fn open_count(closed: Seq<bool>) -> nat
    decreases closed.len(),
{
    if closed.len() == 0 {
        0
    } else {
        open_count(closed.drop_last()) + if closed.last() {
            0nat
        } else {
            1
        }
    }
}

/// The state with streams let go if there is nothing left to do.
pub open spec fn finalized(closed: Seq<bool>, exit_reaped: bool) -> DriverView {
    if open_count(closed) == 0 && exit_reaped {
        DriverView { closed: Seq::empty(), exit_reaped, done: true }
    } else {
        DriverView { closed, exit_reaped, done: false }
    }
}

/// The state in which there is nothing left to do.
pub open spec fn finished() -> DriverView {
    DriverView { closed: Seq::empty(), exit_reaped: true, done: true }
}

proof fn lemma_open_count_push(closed: Seq<bool>, c: bool)
    ensures
        open_count(closed.push(c)) == open_count(closed) + if c {
            0nat
        } else {
            1
        },
{
    assert(closed.push(c).drop_last() =~= closed);
}

proof fn lemma_open_count_close(closed: Seq<bool>, k: int)
    requires
        0 <= k < closed.len(),
        !closed[k],
    ensures
        open_count(closed) == open_count(closed.update(k, true)) + 1,
    decreases closed.len(),
{
    let after = closed.update(k, true);
    if k == closed.len() - 1 {
        assert(after.drop_last() =~= closed.drop_last());
    } else {
        lemma_open_count_close(closed.drop_last(), k);
        assert(after.drop_last() =~= closed.drop_last().update(k, true));
        assert(after.last() == closed.last());
    }
}

proof fn lemma_open_count_bound(closed: Seq<bool>)
    ensures
        open_count(closed) <= closed.len(),
    decreases closed.len(),
{
    if closed.len() > 0 {
        lemma_open_count_bound(closed.drop_last());
    }
}

impl DriverState {
    /// The open streams are counted, and the driver is done exactly when no
    /// stream is open and the exit was delivered.
    #[verifier::type_invariant]
    spec fn consistent(self) -> bool {
        &&& self.open == open_count(self.closed@)
        &&& self.done == (self.open == 0 && self.exit_reaped)
        &&& self.done ==> self.closed@.len() == 0
    }

    /// The mathematical value of the state.
    pub closed spec fn state(&self) -> DriverView {
        DriverView { closed: self.closed@, exit_reaped: self.exit_reaped, done: self.done }
    }

    /// A driver with no streams yet.
    pub fn new() -> (r: Self)
        ensures
            r.state() == (DriverView { closed: Seq::empty(), exit_reaped: false, done: false }),
    {
        DriverState { closed: Vec::new(), open: 0, exit_reaped: false, done: false }
    }

    /// Adds a stream. One that could not be registered is never read, and
    /// counts as closed from the start.
    pub fn add_stream(&mut self, registered: bool)
        requires
            !old(self).state().exit_reaped,
        ensures
            final(self).state() == (DriverView {
                closed: old(self).state().closed.push(!registered),
                ..old(self).state()
            }),
    {
        proof {
            use_type_invariant(&*self);
            lemma_open_count_push(self.closed@, !registered);
            lemma_open_count_bound(self.closed@);
        }
        let mut taken = DriverState::new();
        std::mem::swap(self, &mut taken);
        let mut open: usize = taken.open;
        let mut closed: Vec<bool> = taken.closed;
        closed.push(!registered);
        let n: usize = closed.len();
        assert(open < n);
        if registered {
            open += 1;
        }
        *self = DriverState { closed, open, exit_reaped: false, done: false };
    }

    /// Whether there is nothing left to do: every stream is closed and the exit
    /// was delivered.
    pub fn is_done(&self) -> (r: bool)
        ensures
            r == self.state().done,
            r == (open_count(self.state().closed) == 0 && self.state().exit_reaped),
    {
        proof {
            use_type_invariant(self);
        }
        self.done
    }

    /// Whether a stream that can be read is to be read: it is known and open.
    pub fn wants_read(&self, stream: usize) -> (r: bool)
        ensures
            r == (stream < self.state().closed.len() && !self.state().closed[stream as int]),
    {
        stream < self.closed.len() && !self.closed[stream]
    }

    /// Notes that a stream has ended.
    pub fn close_stream(&mut self, stream: usize)
        requires
            stream < old(self).state().closed.len(),
        ensures
            final(self).state() == (if old(self).state().closed[stream as int] {
                old(self).state()
            } else {
                finalized(
                    old(self).state().closed.update(stream as int, true),
                    old(self).state().exit_reaped,
                )
            }),
    {
        if self.closed[stream] {
            return ;
        }
        proof {
            use_type_invariant(&*self);
            lemma_open_count_close(self.closed@, stream as int);
        }
        let mut taken = DriverState::new();
        std::mem::swap(self, &mut taken);
        let open: usize = taken.open - 1;
        let exit_reaped = taken.exit_reaped;
        let mut closed: Vec<bool> = taken.closed;
        closed.set(stream, true);
        let done = open == 0 && exit_reaped;
        if done {
            closed.clear();
        }
        proof {
            if done {
                assert(closed@ =~= Seq::empty());
            }
        }
        *self = DriverState { closed, open, exit_reaped, done };
    }

    /// Notes that the child was reaped, and tells whether its exit is to be
    /// delivered. That is done once.
    pub fn reap(&mut self) -> (r: bool)
        ensures
            r == !old(self).state().exit_reaped,
            final(self).state() == (if r {
                finalized(old(self).state().closed, true)
            } else {
                old(self).state()
            }),
    {
        if self.exit_reaped {
            return false;
        }
        proof {
            use_type_invariant(&*self);
        }
        let mut taken = DriverState::new();
        std::mem::swap(self, &mut taken);
        let open: usize = taken.open;
        let mut closed: Vec<bool> = taken.closed;
        let done = open == 0;
        if done {
            closed.clear();
        }
        proof {
            if done {
                assert(closed@ =~= Seq::empty());
            }
        }
        *self = DriverState { closed, open, exit_reaped: true, done };
        true
    }

    /// Gives up after a failure, so that no consumer waits forever, and tells
    /// whether the failure is to be delivered in place of the exit.
    pub fn abort(&mut self) -> (r: bool)
        ensures
            r == !old(self).state().exit_reaped,
            final(self).state() == finished(),
    {
        let first = !self.exit_reaped;
        *self = DriverState { closed: Vec::new(), open: 0, exit_reaped: true, done: true };
        proof {
            assert(self.closed@ =~= Seq::empty());
        }
        first
    }
}

/// How long a poll may block, given how long the caller would wait.
pub fn poll_wait(timeout: Option<u128>) -> (r: Option<u128>)
    ensures
        r == (match timeout {
            Some(t) => Some(
                if t < MAX_WAIT {
                    t
                } else {
                    MAX_WAIT
                },
            ),
            None => None,
        }),
{
    match timeout {
        Some(t) => Some(
            if t < MAX_WAIT {
                t
            } else {
                MAX_WAIT
            },
        ),
        None => None,
    }
}

/// What registering the exit of a child came to.
#[derive(Clone, Copy, PartialEq, Eq, Structural, Debug)]
pub enum ExitSource {
    /// It was registered.
    Registered,
    /// The child is already gone.
    Gone,
    /// It failed.
    Failed,
}

/// What to do with a child whose streams were registered.
#[derive(Clone, Copy, PartialEq, Eq, Structural, Debug)]
pub enum StartStep {
    /// Wait for what it does.
    Run,
    /// Reap it at once.
    Reap,
    /// Kill it, and give up.
    GiveUp,
}

/// What to do with a child whose streams were registered. One that already
/// exited may not report its exit, so it is probed once.
pub fn start_step(source: ExitSource, probe_still_running: bool) -> (r: StartStep)
    ensures
        r == (match source {
            ExitSource::Registered => if probe_still_running {
                StartStep::Run
            } else {
                StartStep::Reap
            },
            ExitSource::Gone => StartStep::Reap,
            ExitSource::Failed => StartStep::GiveUp,
        }),
{
    match source {
        ExitSource::Registered => {
            if probe_still_running {
                StartStep::Run
            } else {
                StartStep::Reap
            }
        },
        ExitSource::Gone => StartStep::Reap,
        ExitSource::Failed => StartStep::GiveUp,
    }
}

} // verus!
