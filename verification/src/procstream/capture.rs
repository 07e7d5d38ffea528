//! Capturing a child's streams and delivering them as transformed items.
//!
//! [`Capture`] describes how each of the three standard streams is wired. Its
//! transform sets the type of the items: `Vec<u8>` for raw byte runs,
//! [`Line`](crate::procstream::framer::Line) for framed lines, or any framer's
//! item.
use crate::procstream::framer::{items_view, Framer};
use crate::procstream::transform::{
    framer_fed, stages_drained, stages_fed, ByteStage, LineRecipe, MakeFramer, Pipeline,
    RawRecipe, StageState, Transform,
};
use vstd::prelude::*;

verus! {

/// A stream that a child writes.
#[derive(Clone, Copy, PartialEq, Eq, Structural, Debug)]
pub enum Stream {
    /// The standard output.
    Stdout,
    /// The standard error.
    Stderr,
}

/// One unit of captured output, tagged with the stream it came from.
#[derive(Clone, Debug)]
pub struct Chunk<T> {
    /// The stream.
    pub stream: Stream,
    /// The unit.
    pub item: T,
}

/// What happens to a child.
#[derive(Clone, Debug)]
pub enum Event<T> {
    /// It wrote something.
    Chunk(Chunk<T>),
    /// Leader exited (and has been reaped), with a status or because of a
    /// signal. Not end-of-stream and not ordered last: trailing chunks can
    /// still arrive. Drain until the queue closes.
    Exit(Option<i32>),
}

/// Why no event was received.
#[derive(Clone, Copy, PartialEq, Eq, Structural, Debug)]
pub enum RecvTimeout {
    /// None came in time.
    Timeout,
    /// None will come any more.
    Closed,
}

/// What becomes of a stream that a child writes.
pub enum Sink<M: MakeFramer> {
    /// It is discarded.
    Null,
    /// It goes where the parent's goes.
    Inherit,
    /// It is captured.
    Piped(Transform<M>),
}

/// Where a child reads from.
#[derive(Clone, Copy, PartialEq, Eq, Structural, Debug)]
pub enum Stdin {
    /// From nothing.
    Null,
    /// From where the parent reads.
    Inherit,
    /// From a pipe.
    Piped,
}

/// How the standard streams of a child are wired.
pub struct Capture<M: MakeFramer> {
    /// The standard output.
    pub stdout: Sink<M>,
    /// The standard error.
    pub stderr: Sink<M>,
    /// The standard input.
    pub stdin: Stdin,
}

/// Whether a stream is captured with the given recipe.
pub open spec fn captures<M: MakeFramer>(sink: Sink<M>, stages: Seq<ByteStage>, framer: M) -> bool {
    sink matches Sink::Piped(t) && t.stages@ == stages && t.framer == framer
}

impl<M: MakeFramer + Copy> Transform<M> {
    /// A copy of the recipe.
    pub fn copied(&self) -> (r: Self)
        ensures
            r.stages@ == self.stages@,
            r.framer == self.framer,
    {
        let mut stages: Vec<ByteStage> = Vec::new();
        let mut i: usize = 0;
        while i < self.stages.len()
            invariant
                i <= self.stages@.len(),
                stages@ == self.stages@.take(i as int),
            decreases self.stages@.len() - i,
        {
            stages.push(self.stages[i]);
            i += 1;
            proof {
                assert(self.stages@.take(i as int) =~= self.stages@.take(i - 1).push(
                    self.stages@[i - 1],
                ));
            }
        }
        proof {
            assert(self.stages@.take(i as int) =~= self.stages@);
        }
        Transform { stages, framer: self.framer }
    }
}

impl<M: MakeFramer + Copy> Capture<M> {
    /// Captures both streams with one recipe. The child reads from nothing.
    pub fn piped(transform: Transform<M>) -> (r: Self)
        ensures
            captures(r.stdout, transform.stages@, transform.framer),
            captures(r.stderr, transform.stages@, transform.framer),
            r.stdin == Stdin::Null,
    {
        Capture {
            stdout: Sink::Piped(transform.copied()),
            stderr: Sink::Piped(transform),
            stdin: Stdin::Null,
        }
    }
}

impl<M: MakeFramer> Capture<M> {
    /// A builder that captures nothing yet.
    pub fn builder() -> (r: CaptureBuilder<M>)
        ensures
            r.capture.stdout == Sink::<M>::Null,
            r.capture.stderr == Sink::<M>::Null,
            r.capture.stdin == Stdin::Null,
    {
        CaptureBuilder {
            capture: Capture { stdout: Sink::Null, stderr: Sink::Null, stdin: Stdin::Null },
        }
    }
}

impl Capture<LineRecipe> {
    /// Captures the lines of both streams.
    pub fn lines() -> (r: Self)
        ensures
            ({
                let framer = LineRecipe {
                    max: crate::procstream::transform::DEFAULT_MAX_LINE,
                    policy: crate::procstream::framer::Overlong::Truncate,
                };
                &&& captures(r.stdout, Seq::<ByteStage>::empty(), framer)
                &&& captures(r.stderr, Seq::<ByteStage>::empty(), framer)
                &&& r.stdin == Stdin::Null
            }),
    {
        let transform = Transform::builder().lines();
        proof {
            assert(transform.stages@ =~= Seq::<ByteStage>::empty());
        }
        Capture::piped(transform)
    }
}

impl Capture<RawRecipe> {
    /// Captures both streams as they come.
    pub fn raw() -> (r: Self)
        ensures
            captures(r.stdout, Seq::<ByteStage>::empty(), RawRecipe),
            captures(r.stderr, Seq::<ByteStage>::empty(), RawRecipe),
            r.stdin == Stdin::Null,
    {
        Capture::piped(Transform::raw())
    }
}

/// Builder for [`Capture`].
pub struct CaptureBuilder<M: MakeFramer> {
    /// What was set so far.
    pub capture: Capture<M>,
}

impl<M: MakeFramer> CaptureBuilder<M> {
    /// Captures the standard output.
    pub fn stdout(self, transform: Transform<M>) -> (r: Self)
        ensures
            r.capture == (Capture { stdout: Sink::Piped(transform), ..self.capture }),
    {
        CaptureBuilder {
            capture: Capture {
                stdout: Sink::Piped(transform),
                stderr: self.capture.stderr,
                stdin: self.capture.stdin,
            },
        }
    }

    /// Captures the standard error.
    pub fn stderr(self, transform: Transform<M>) -> (r: Self)
        ensures
            r.capture == (Capture { stderr: Sink::Piped(transform), ..self.capture }),
    {
        CaptureBuilder {
            capture: Capture {
                stdout: self.capture.stdout,
                stderr: Sink::Piped(transform),
                stdin: self.capture.stdin,
            },
        }
    }

    /// Discards the standard output.
    pub fn stdout_null(self) -> (r: Self)
        ensures
            r.capture == (Capture { stdout: Sink::Null, ..self.capture }),
    {
        CaptureBuilder {
            capture: Capture {
                stdout: Sink::Null,
                stderr: self.capture.stderr,
                stdin: self.capture.stdin,
            },
        }
    }

    /// Discards the standard error.
    pub fn stderr_null(self) -> (r: Self)
        ensures
            r.capture == (Capture { stderr: Sink::Null, ..self.capture }),
    {
        CaptureBuilder {
            capture: Capture {
                stdout: self.capture.stdout,
                stderr: Sink::Null,
                stdin: self.capture.stdin,
            },
        }
    }

    /// Lets the child read from nothing.
    pub fn stdin_null(self) -> (r: Self)
        ensures
            r.capture == (Capture { stdin: Stdin::Null, ..self.capture }),
    {
        CaptureBuilder {
            capture: Capture {
                stdout: self.capture.stdout,
                stderr: self.capture.stderr,
                stdin: Stdin::Null,
            },
        }
    }

    /// Lets the child read from a pipe.
    pub fn stdin_piped(self) -> (r: Self)
        ensures
            r.capture == (Capture { stdin: Stdin::Piped, ..self.capture }),
    {
        CaptureBuilder {
            capture: Capture {
                stdout: self.capture.stdout,
                stderr: self.capture.stderr,
                stdin: Stdin::Piped,
            },
        }
    }

    /// What was set.
    pub fn build(self) -> (r: Capture<M>)
        ensures
            r == self.capture,
    {
        self.capture
    }
}

/// Whether events are the items of a stream, in order.
pub open spec fn events_of<T>(events: Seq<Event<T>>, stream: Stream, items: Seq<T>) -> bool {
    &&& events.len() == items.len()
    &&& forall|i: int|
        0 <= i < events.len() ==> #[trigger] events[i] == Event::Chunk(
            Chunk { stream, item: items[i] },
        )
}

/// Tags items with the stream that they came from.
pub fn tag_items<T>(stream: Stream, items: Vec<T>) -> (r: Vec<Event<T>>)
    ensures
        events_of(r@, stream, items@),
{
    let ghost all = items@;
    let mut reversed: Vec<T> = Vec::new();
    let mut source = items;
    while source.len() > 0
        invariant
            source@.len() + reversed@.len() == all.len(),
            forall|i: int| 0 <= i < source@.len() ==> #[trigger] source@[i] == all[i],
            forall|i: int|
                0 <= i < reversed@.len() ==> #[trigger] reversed@[i] == all[all.len() - 1 - i],
        decreases source@.len(),
    {
        if let Some(item) = source.pop() {
            reversed.push(item);
        }
    }
    let mut out: Vec<Event<T>> = Vec::new();
    while reversed.len() > 0
        invariant
            out@.len() + reversed@.len() == all.len(),
            forall|i: int|
                0 <= i < reversed@.len() ==> #[trigger] reversed@[i] == all[all.len() - 1 - i],
            forall|i: int|
                0 <= i < out@.len() ==> #[trigger] out@[i] == Event::Chunk(
                    Chunk { stream, item: all[i] },
                ),
        decreases reversed@.len(),
    {
        if let Some(item) = reversed.pop() {
            out.push(Event::Chunk(Chunk { stream, item }));
        }
    }
    out
}

/// Turns what is read from one stream of a child into events.
pub struct PipeSink<F: Framer> {
    pipeline: Pipeline<F>,
    stream: Stream,
}

impl<F: Framer> PipeSink<F> {
    /// The mathematical value of the stages.
    pub closed spec fn stages(&self) -> Seq<StageState> {
        self.pipeline.stages()
    }

    /// The mathematical value of the framer.
    pub closed spec fn framer(&self) -> F::State {
        self.pipeline.framer()
    }

    /// The stream that is read.
    pub closed spec fn source(&self) -> Stream {
        self.stream
    }

    /// The sink of a stream.
    pub fn new(pipeline: Pipeline<F>, stream: Stream) -> (r: Self)
        ensures
            r.stages() == pipeline.stages(),
            r.framer() == pipeline.framer(),
            r.source() == stream,
    {
        PipeSink { pipeline, stream }
    }

    /// Takes in what was read.
    pub fn on_read(&mut self, bytes: &[u8]) -> (r: Vec<Event<F::Item>>)
        ensures
            final(self).source() == old(self).source(),
            exists|items: Seq<F::Item>|
                #![trigger items_view::<F>(items)]
                {
                    let (stages, pieces) = stages_fed(old(self).stages(), seq![bytes@]);
                    &&& events_of(r@, old(self).source(), items)
                    &&& final(self).stages() == stages
                    &&& framer_fed::<F>(old(self).framer(), pieces) == (
                        final(self).framer(),
                        items_view::<F>(items),
                    )
                },
    {
        let items = self.pipeline.push(bytes);
        let ghost seen = items@;
        let r = tag_items(self.stream, items);
        proof {
            assert(events_of(r@, old(self).source(), seen));
            assert(items_view::<F>(seen).len() == seen.len());
        }
        r
    }

    /// Takes in that the stream has ended.
    pub fn on_eof(&mut self) -> (r: Vec<Event<F::Item>>)
        ensures
            final(self).source() == old(self).source(),
            exists|items: Seq<F::Item>|
                #![trigger items_view::<F>(items)]
                {
                    let (stages, pieces) = stages_drained(
                        old(self).stages(),
                        Seq::<Seq<u8>>::empty(),
                    );
                    let (fed, first) = framer_fed::<F>(old(self).framer(), pieces);
                    let (end, last) = F::flushed(fed);
                    &&& events_of(r@, old(self).source(), items)
                    &&& final(self).stages() == stages
                    &&& final(self).framer() == end
                    &&& items_view::<F>(items) == first + last
                },
    {
        let items = self.pipeline.flush();
        let ghost seen = items@;
        let r = tag_items(self.stream, items);
        proof {
            assert(events_of(r@, old(self).source(), seen));
            assert(items_view::<F>(seen).len() == seen.len());
        }
        r
    }
}

/// What a look at the queue of events found.
#[derive(Clone, Copy, PartialEq, Eq, Structural, Debug)]
pub enum QueueLook {
    /// An event.
    Event,
    /// Nothing for now.
    Empty,
    /// Nothing, and nothing will come any more.
    Closed,
}

/// What to do to receive an event.
#[derive(Clone, Copy, PartialEq, Eq, Structural, Debug)]
pub enum DriveStep {
    /// Give the event that was found.
    Deliver,
    /// Look at the queue a last time, nothing will come any more.
    Drain,
    /// Give up.
    Fail(RecvTimeout),
    /// Advance the driver, for at most so many nanoseconds, and look again.
    Advance(Option<u128>),
}

/// What to do to receive an event, after a look at the queue. The driver is
/// advanced until an event is there, the queue closes or the deadline passes;
/// without a deadline, for as long as it takes.
pub fn drive(look: QueueLook, driver_done: bool, deadline: Option<u128>, now: u128) -> (r: DriveStep)
    ensures
        r == (match look {
            QueueLook::Event => DriveStep::Deliver,
            QueueLook::Closed => DriveStep::Fail(RecvTimeout::Closed),
            QueueLook::Empty => if driver_done {
                DriveStep::Drain
            } else {
                match deadline {
                    None => DriveStep::Advance(None),
                    Some(end) => if now >= end {
                        DriveStep::Fail(RecvTimeout::Timeout)
                    } else {
                        DriveStep::Advance(Some((end - now) as u128))
                    },
                }
            },
        }),
{
    match look {
        QueueLook::Event => DriveStep::Deliver,
        QueueLook::Closed => DriveStep::Fail(RecvTimeout::Closed),
        QueueLook::Empty => {
            if driver_done {
                return DriveStep::Drain;
            }
            match deadline {
                None => DriveStep::Advance(None),
                Some(end) => {
                    if now >= end {
                        DriveStep::Fail(RecvTimeout::Timeout)
                    } else {
                        DriveStep::Advance(Some(end - now))
                    }
                },
            }
        },
    }
}

} // verus!
