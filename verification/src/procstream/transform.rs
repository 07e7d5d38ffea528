//! Streaming byte transforms applied to a single captured stream.
//!
//! A [`Transform`] records byte pre-stages and a terminal [`Framer`], and
//! builds a fresh [`Pipeline`] per attached stream so one recipe can be
//! reused across spawns.
//!
//! Pre-stages ([`ByteFilter`]s) always run in fixed order regardless of builder
//! call order: `ansi`, then `overwrite`, then `utf8`. The framer sets the output
//! type (`lines()` gives [`Line`]s, `raw()` gives `Vec<u8>`, or `frame()` for a
//! custom framer).
use crate::procstream::ansi::{
    kept_pieces, pieces_view, vt_events, vt_last_events, Ansi, AnsiFilter, AnsiState,
};
use crate::procstream::collapse::{
    blank_line, collapse_end, collapse_steps, CollapseLine, CollapseState, Overwrite,
};
use crate::procstream::framer::{items_view, Framer, LineFramer, LineState, Overlong, RawFramer};
use crate::procstream::utf8::{nonempty, replacement, sanitized, Utf8, Utf8Filter};
use vstd::prelude::*;

verus! {

/// Cap on an un-terminated line so a stream without newlines cannot grow forever.
pub const DEFAULT_MAX_LINE: usize = 1048576;

/// A stage that turns pieces of a stream into pieces.
pub trait ByteFilter: Sized {
    /// The mathematical value of the filter.
    type FilterState;

    /// The mathematical value of the filter.
    spec fn filter_state(&self) -> Self::FilterState;

    /// What a piece leads to, and the pieces that come out.
    spec fn filtered(state: Self::FilterState, bytes: Seq<u8>) -> (
        Self::FilterState,
        Seq<Seq<u8>>,
    );

    /// What the end of the stream leads to, and the pieces that come out.
    spec fn drained(state: Self::FilterState) -> (Self::FilterState, Seq<Seq<u8>>);

    /// Filters a piece of the stream.
    fn push(&mut self, bytes: &[u8]) -> (r: Vec<Vec<u8>>)
        ensures
            Self::filtered(old(self).filter_state(), bytes@) == (
                final(self).filter_state(),
                pieces_view(r@),
            ),
    ;

    /// Ends the stream.
    fn flush(&mut self) -> (r: Vec<Vec<u8>>)
        ensures
            Self::drained(old(self).filter_state()) == (
                final(self).filter_state(),
                pieces_view(r@),
            ),
    ;
}

impl ByteFilter for AnsiFilter {
    type FilterState = AnsiState;

    open spec fn filter_state(&self) -> AnsiState {
        self.state()
    }

    open spec fn filtered(state: AnsiState, bytes: Seq<u8>) -> (AnsiState, Seq<Seq<u8>>) {
        (
            AnsiState { fed: state.fed.push(bytes), ..state },
            kept_pieces(vt_events(state.fed, bytes), state.keep_sgr),
        )
    }

    open spec fn drained(state: AnsiState) -> (AnsiState, Seq<Seq<u8>>) {
        (
            AnsiState { fed: Seq::empty(), ..state },
            kept_pieces(vt_last_events(state.fed), state.keep_sgr),
        )
    }

    fn push(&mut self, bytes: &[u8]) -> (r: Vec<Vec<u8>>) {
        AnsiFilter::push(self, bytes)
    }

    fn flush(&mut self) -> (r: Vec<Vec<u8>>) {
        AnsiFilter::flush(self)
    }
}

impl ByteFilter for CollapseLine {
    type FilterState = CollapseState;

    open spec fn filter_state(&self) -> CollapseState {
        self.state()
    }

    open spec fn filtered(state: CollapseState, bytes: Seq<u8>) -> (CollapseState, Seq<Seq<u8>>) {
        collapse_steps(state, bytes)
    }

    open spec fn drained(state: CollapseState) -> (CollapseState, Seq<Seq<u8>>) {
        (
            if state.line.len() > 0 {
                blank_line()
            } else {
                state
            },
            collapse_end(state),
        )
    }

    fn push(&mut self, bytes: &[u8]) -> (r: Vec<Vec<u8>>) {
        CollapseLine::push(self, bytes)
    }

    fn flush(&mut self) -> (r: Vec<Vec<u8>>) {
        CollapseLine::flush(self)
    }
}

impl ByteFilter for Utf8Filter {
    type FilterState = Seq<u8>;

    open spec fn filter_state(&self) -> Seq<u8> {
        self.state()
    }

    open spec fn filtered(state: Seq<u8>, bytes: Seq<u8>) -> (Seq<u8>, Seq<Seq<u8>>) {
        let (out, left) = sanitized(state + bytes);
        (left, nonempty(out))
    }

    open spec fn drained(state: Seq<u8>) -> (Seq<u8>, Seq<Seq<u8>>) {
        (
            Seq::empty(),
            if state.len() > 0 {
                seq![replacement()]
            } else {
                Seq::empty()
            },
        )
    }

    fn push(&mut self, bytes: &[u8]) -> (r: Vec<Vec<u8>>) {
        Utf8Filter::push(self, bytes)
    }

    fn flush(&mut self) -> (r: Vec<Vec<u8>>) {
        Utf8Filter::flush(self)
    }
}

/// A stage of a pipeline.
pub enum Stage {
    /// Removes terminal escape sequences.
    Ansi(AnsiFilter),
    /// Resolves what is written over.
    Overwrite(CollapseLine),
    /// Keeps the stream valid UTF-8.
    Utf8(Utf8Filter),
}

/// The mathematical value of a [`Stage`].
pub enum StageState {
    /// Removes terminal escape sequences.
    Ansi(AnsiState),
    /// Resolves what is written over.
    Overwrite(CollapseState),
    /// Keeps the stream valid UTF-8.
    Utf8(Seq<u8>),
}

impl ByteFilter for Stage {
    type FilterState = StageState;

    open spec fn filter_state(&self) -> StageState {
        match self {
            Stage::Ansi(f) => StageState::Ansi(f.state()),
            Stage::Overwrite(f) => StageState::Overwrite(f.state()),
            Stage::Utf8(f) => StageState::Utf8(f.state()),
        }
    }

    open spec fn filtered(state: StageState, bytes: Seq<u8>) -> (StageState, Seq<Seq<u8>>) {
        match state {
            StageState::Ansi(s) => {
                let (next, out) = AnsiFilter::filtered(s, bytes);
                (StageState::Ansi(next), out)
            },
            StageState::Overwrite(s) => {
                let (next, out) = CollapseLine::filtered(s, bytes);
                (StageState::Overwrite(next), out)
            },
            StageState::Utf8(s) => {
                let (next, out) = Utf8Filter::filtered(s, bytes);
                (StageState::Utf8(next), out)
            },
        }
    }

    open spec fn drained(state: StageState) -> (StageState, Seq<Seq<u8>>) {
        match state {
            StageState::Ansi(s) => {
                let (next, out) = AnsiFilter::drained(s);
                (StageState::Ansi(next), out)
            },
            StageState::Overwrite(s) => {
                let (next, out) = CollapseLine::drained(s);
                (StageState::Overwrite(next), out)
            },
            StageState::Utf8(s) => {
                let (next, out) = Utf8Filter::drained(s);
                (StageState::Utf8(next), out)
            },
        }
    }

    fn push(&mut self, bytes: &[u8]) -> (r: Vec<Vec<u8>>) {
        match self {
            Stage::Ansi(f) => AnsiFilter::push(f, bytes),
            Stage::Overwrite(f) => CollapseLine::push(f, bytes),
            Stage::Utf8(f) => Utf8Filter::push(f, bytes),
        }
    }

    fn flush(&mut self) -> (r: Vec<Vec<u8>>) {
        match self {
            Stage::Ansi(f) => AnsiFilter::flush(f),
            Stage::Overwrite(f) => CollapseLine::flush(f),
            Stage::Utf8(f) => Utf8Filter::flush(f),
        }
    }
}

/// What pieces lead to in a stage, one after the other, and what comes out.
pub open spec fn stage_fed(state: StageState, pieces: Seq<Seq<u8>>) -> (StageState, Seq<Seq<u8>>)
    decreases pieces.len(),
{
    if pieces.len() == 0 {
        (state, Seq::empty())
    } else {
        let (before, out) = stage_fed(state, pieces.drop_last());
        let (after, more) = Stage::filtered(before, pieces.last());
        (after, out + more)
    }
}

/// What pieces lead to in stages, each of which is fed what comes out of the
/// one before it, and what comes out of the last.
pub open spec fn stages_fed(states: Seq<StageState>, pieces: Seq<Seq<u8>>) -> (
    Seq<StageState>,
    Seq<Seq<u8>>,
)
    decreases states.len(),
{
    if states.len() == 0 {
        (states, pieces)
    } else {
        let (first, out) = stage_fed(states[0], pieces);
        let (rest, last) = stages_fed(states.skip(1), out);
        (seq![first] + rest, last)
    }
}

/// What the end of a stream leads to in stages, where `pieces` still come into
/// the first, and what comes out of the last. Each stage is ended once it was
/// fed all that comes out of the one before it.
pub open spec fn stages_drained(states: Seq<StageState>, pieces: Seq<Seq<u8>>) -> (
    Seq<StageState>,
    Seq<Seq<u8>>,
)
    decreases states.len(),
{
    if states.len() == 0 {
        (states, pieces)
    } else {
        let (fed, out) = stage_fed(states[0], pieces);
        let (first, more) = Stage::drained(fed);
        let (rest, last) = stages_drained(states.skip(1), out + more);
        (seq![first] + rest, last)
    }
}

/// What pieces lead to in a framer, one after the other, and the items that
/// they complete.
pub open spec fn framer_fed<F: Framer>(state: F::State, pieces: Seq<Seq<u8>>) -> (
    F::State,
    Seq<F::ItemView>,
)
    decreases pieces.len(),
{
    if pieces.len() == 0 {
        (state, Seq::empty())
    } else {
        let (before, items) = framer_fed::<F>(state, pieces.drop_last());
        let (after, more) = F::pushed(before, pieces.last());
        (after, items + more)
    }
}

/// The values of a sequence of stages.
pub open spec fn stages_state(stages: Seq<Stage>) -> Seq<StageState> {
    stages.map_values(|s: Stage| s.filter_state())
}

/// Feeds pieces to a stage.
fn feed_stage(stage: &mut Stage, pieces: &Vec<Vec<u8>>) -> (r: Vec<Vec<u8>>)
    ensures
        stage_fed(old(stage).filter_state(), pieces_view(pieces@)) == (
            final(stage).filter_state(),
            pieces_view(r@),
        ),
{
    let ghost start = stage.filter_state();
    let ghost all = pieces_view(pieces@);
    let mut out: Vec<Vec<u8>> = Vec::new();
    let mut i: usize = 0;
    proof {
        assert(all.take(0) =~= Seq::empty());
        assert(pieces_view(out@) =~= Seq::empty());
    }
    while i < pieces.len()
        invariant
            i <= pieces@.len(),
            all == pieces_view(pieces@),
            start == old(stage).filter_state(),
            stage_fed(start, all.take(i as int)) == (stage.filter_state(), pieces_view(out@)),
        decreases pieces@.len() - i,
    {
        proof {
            assert(all.take(i + 1).drop_last() =~= all.take(i as int));
            assert(all.take(i + 1).last() == pieces@[i as int]@);
        }
        let ghost had = out@;
        let mut more = stage.push(pieces[i].as_slice());
        let ghost added = more@;
        out.append(&mut more);
        proof {
            assert(pieces_view(had + added) =~= pieces_view(had) + pieces_view(added));
        }
        i += 1;
    }
    proof {
        assert(all.take(i as int) =~= all);
    }
    out
}

/// Feeds pieces to the stages from `k` on, and ends each if `end`.
fn feed_stages(stages: &mut Vec<Stage>, k: usize, pieces: Vec<Vec<u8>>, end: bool) -> (r: Vec<
    Vec<u8>,
>)
    requires
        k <= old(stages)@.len(),
    ensures
        final(stages)@.len() == old(stages)@.len(),
        final(stages)@.take(k as int) == old(stages)@.take(k as int),
        (if end {
            stages_drained(stages_state(old(stages)@.skip(k as int)), pieces_view(pieces@))
        } else {
            stages_fed(stages_state(old(stages)@.skip(k as int)), pieces_view(pieces@))
        }) == (stages_state(final(stages)@.skip(k as int)), pieces_view(r@)),
    decreases old(stages)@.len() - k,
{
    let ghost before = stages@;
    let ghost states = stages_state(before.skip(k as int));
    if k == stages.len() {
        proof {
            assert(states =~= Seq::empty());
        }
        return pieces;
    }
    proof {
        assert(states[0] == before[k as int].filter_state());
        assert(states.skip(1) =~= stages_state(before.skip(k + 1)));
    }
    let mut out = feed_stage(&mut stages[k], &pieces);
    if end {
        let ghost fed = out@;
        let mut more = stages[k].flush();
        let ghost added = more@;
        out.append(&mut more);
        proof {
            assert(pieces_view(fed + added) =~= pieces_view(fed) + pieces_view(added));
        }
    }
    let ghost middle = stages@;
    proof {
        assert(middle.skip(k + 1) =~= before.skip(k + 1));
    }
    let r = feed_stages(stages, k + 1, out, end);
    proof {
        assert(stages@[k as int] == stages@.take(k + 1)[k as int]);
        assert(middle[k as int] == middle.take(k + 1)[k as int]);
        assert(stages_state(stages@.skip(k as int)) =~= seq![middle[k as int].filter_state()]
            + stages_state(stages@.skip(k + 1)));
        assert forall|i: int| 0 <= i < k implies stages@.take(k as int)[i] == before.take(
            k as int,
        )[i] by {
            assert(stages@.take(k + 1)[i] == middle.take(k + 1)[i]);
        }
        assert(stages@.take(k as int) =~= before.take(k as int));
    }
    r
}

/// The stages and the framer of one stream.
pub struct Pipeline<F: Framer> {
    stages: Vec<Stage>,
    framer: F,
}

impl<F: Framer> Pipeline<F> {
    /// The mathematical value of the stages.
    pub closed spec fn stages(&self) -> Seq<StageState> {
        stages_state(self.stages@)
    }

    /// The mathematical value of the framer.
    pub closed spec fn framer(&self) -> F::State {
        self.framer.state()
    }

    /// Feeds pieces to the framer.
    fn feed_framer(&mut self, pieces: &Vec<Vec<u8>>) -> (r: Vec<F::Item>)
        ensures
            final(self).stages() == old(self).stages(),
            framer_fed::<F>(old(self).framer(), pieces_view(pieces@)) == (
                final(self).framer(),
                items_view::<F>(r@),
            ),
    {
        let ghost start = self.framer();
        let ghost all = pieces_view(pieces@);
        let mut out: Vec<F::Item> = Vec::new();
        let mut i: usize = 0;
        proof {
            assert(all.take(0) =~= Seq::empty());
            assert(items_view::<F>(out@) =~= Seq::empty());
        }
        while i < pieces.len()
            invariant
                i <= pieces@.len(),
                all == pieces_view(pieces@),
                start == old(self).framer(),
                self.stages() == old(self).stages(),
                framer_fed::<F>(start, all.take(i as int)) == (
                    self.framer(),
                    items_view::<F>(out@),
                ),
            decreases pieces@.len() - i,
        {
            proof {
                assert(all.take(i + 1).drop_last() =~= all.take(i as int));
                assert(all.take(i + 1).last() == pieces@[i as int]@);
            }
            let ghost had = out@;
            let mut more = self.framer.push(pieces[i].as_slice());
            let ghost added = more@;
            out.append(&mut more);
            proof {
                assert(items_view::<F>(had + added) =~= items_view::<F>(had) + items_view::<F>(
                    added,
                ));
            }
            i += 1;
        }
        proof {
            assert(all.take(i as int) =~= all);
        }
        out
    }

    /// Reads a piece of the stream, and gives the items that it completes.
    pub fn push(&mut self, bytes: &[u8]) -> (r: Vec<F::Item>)
        ensures
            ({
                let (stages, pieces) = stages_fed(old(self).stages(), seq![bytes@]);
                &&& final(self).stages() == stages
                &&& framer_fed::<F>(old(self).framer(), pieces) == (
                    final(self).framer(),
                    items_view::<F>(r@),
                )
            }),
    {
        let mut copy: Vec<u8> = Vec::new();
        copy.extend_from_slice(bytes);
        let mut pieces: Vec<Vec<u8>> = Vec::new();
        pieces.push(copy);
        proof {
            assert(copy@ =~= bytes@);
            assert(pieces_view(pieces@) =~= seq![bytes@]);
            assert(self.stages@.skip(0) =~= self.stages@);
        }
        let out = feed_stages(&mut self.stages, 0, pieces, false);
        proof {
            assert(self.stages@.skip(0) =~= self.stages@);
        }
        self.feed_framer(&out)
    }

    /// Ends the stream, and gives the items that this completes.
    pub fn flush(&mut self) -> (r: Vec<F::Item>)
        ensures
            ({
                let (stages, pieces) = stages_drained(
                    old(self).stages(),
                    Seq::<Seq<u8>>::empty(),
                );
                let (fed, items) = framer_fed::<F>(old(self).framer(), pieces);
                let (end, last) = F::flushed(fed);
                &&& final(self).stages() == stages
                &&& final(self).framer() == end
                &&& items_view::<F>(r@) == items + last
            }),
    {
        let pieces: Vec<Vec<u8>> = Vec::new();
        proof {
            assert(pieces_view(pieces@) =~= Seq::<Seq<u8>>::empty());
            assert(self.stages@.skip(0) =~= self.stages@);
        }
        let out = feed_stages(&mut self.stages, 0, pieces, true);
        proof {
            assert(self.stages@.skip(0) =~= self.stages@);
        }
        let mut items = self.feed_framer(&out);
        let ghost fed = items@;
        let mut more = self.framer.flush();
        let ghost added = more@;
        items.append(&mut more);
        proof {
            assert(items_view::<F>(fed + added) =~= items_view::<F>(fed) + items_view::<F>(added));
        }
        items
    }
}

/// A stage of a recipe.
#[derive(Clone, Copy, PartialEq, Eq, Structural, Debug)]
pub enum ByteStage {
    /// What to do with terminal escape sequences.
    Ansi(Ansi),
    /// What to do with text that is written over.
    Overwrite(Overwrite),
    /// What to do with bytes that are not valid UTF-8.
    Utf8(Utf8),
}

/// What a stage of a recipe starts with, if it does anything.
pub open spec fn stage_start(stage: ByteStage) -> Option<StageState> {
    match stage {
        ByteStage::Ansi(Ansi::Keep) => None,
        ByteStage::Ansi(mode) => Some(
            StageState::Ansi(
                AnsiState { fed: Seq::empty(), keep_sgr: mode == Ansi::StripNonAttribute },
            ),
        ),
        ByteStage::Overwrite(Overwrite::Passthrough) => None,
        ByteStage::Overwrite(Overwrite::CollapseLine) => Some(StageState::Overwrite(blank_line())),
        ByteStage::Utf8(Utf8::Preserve) => None,
        ByteStage::Utf8(Utf8::Lossy) => Some(StageState::Utf8(Seq::empty())),
    }
}

/// What the stages of a recipe start with.
pub open spec fn stages_start(stages: Seq<ByteStage>) -> Seq<StageState>
    decreases stages.len(),
{
    if stages.len() == 0 {
        Seq::empty()
    } else {
        let front = stages_start(stages.drop_last());
        match stage_start(stages.last()) {
            Some(s) => front.push(s),
            None => front,
        }
    }
}

impl ByteStage {
    fn build(&self) -> (r: Option<Stage>)
        ensures
            match r {
                Some(s) => stage_start(*self) == Some(s.filter_state()),
                None => stage_start(*self) is None,
            },
    {
        match self {
            ByteStage::Ansi(Ansi::Keep) => None,
            ByteStage::Ansi(mode) => Some(Stage::Ansi(AnsiFilter::new(*mode))),
            ByteStage::Overwrite(Overwrite::Passthrough) => None,
            ByteStage::Overwrite(Overwrite::CollapseLine) => Some(
                Stage::Overwrite(CollapseLine::default()),
            ),
            ByteStage::Utf8(Utf8::Preserve) => None,
            ByteStage::Utf8(Utf8::Lossy) => Some(Stage::Utf8(Utf8Filter::default())),
        }
    }
}

/// Makes a framer for each stream.
pub trait MakeFramer {
    /// The framer.
    type Made: Framer;

    /// What a framer starts with.
    spec fn start(&self) -> <Self::Made as Framer>::State;

    /// A framer at the start of a stream.
    fn make(&self) -> (r: Self::Made)
        ensures
            r.state() == self.start(),
    ;
}

/// Makes framers that give the pieces of a stream as they come.
#[derive(Clone, Copy)]
pub struct RawRecipe;

impl MakeFramer for RawRecipe {
    type Made = RawFramer;

    open spec fn start(&self) -> () {
        ()
    }

    fn make(&self) -> (r: RawFramer) {
        RawFramer
    }
}

/// Makes framers that give the lines of a stream.
#[derive(Clone, Copy)]
pub struct LineRecipe {
    /// The most bytes that a line may have.
    pub max: usize,
    /// What happens to longer lines.
    pub policy: Overlong,
}

impl MakeFramer for LineRecipe {
    type Made = LineFramer;

    open spec fn start(&self) -> LineState {
        LineState {
            buf: Seq::empty(),
            max: self.max as nat,
            policy: self.policy,
            truncated: false,
        }
    }

    fn make(&self) -> (r: LineFramer) {
        LineFramer::new(self.max, self.policy)
    }
}

/// Reusable recipe for transforming a captured stream into items.
pub struct Transform<M: MakeFramer> {
    /// The stages, in order.
    pub stages: Vec<ByteStage>,
    /// What makes the framers.
    pub framer: M,
}

impl<M: MakeFramer> Transform<M> {
    /// The pipeline for one stream.
    pub fn build(&self) -> (r: Pipeline<M::Made>)
        ensures
            r.stages() == stages_start(self.stages@),
            r.framer() == self.framer.start(),
    {
        let mut stages: Vec<Stage> = Vec::new();
        let mut i: usize = 0;
        proof {
            assert(self.stages@.take(0) =~= Seq::empty());
            assert(stages_state(stages@) =~= Seq::empty());
        }
        while i < self.stages.len()
            invariant
                i <= self.stages@.len(),
                stages_state(stages@) == stages_start(self.stages@.take(i as int)),
            decreases self.stages@.len() - i,
        {
            proof {
                assert(self.stages@.take(i + 1).drop_last() =~= self.stages@.take(i as int));
            }
            let ghost had = stages@;
            if let Some(stage) = self.stages[i].build() {
                stages.push(stage);
                proof {
                    assert(stages_state(stages@) =~= stages_state(had).push(stage.filter_state()));
                }
            }
            i += 1;
        }
        proof {
            assert(self.stages@.take(i as int) =~= self.stages@);
        }
        Pipeline { stages, framer: self.framer.make() }
    }
}

/// Builder for [`Transform`] pre-stages. Terminal methods choose the framer.
#[derive(Clone, Copy)]
pub struct TransformBuilder {
    /// What to do with terminal escape sequences.
    pub ansi: Option<Ansi>,
    /// What to do with text that is written over.
    pub overwrite: Option<Overwrite>,
    /// What to do with bytes that are not valid UTF-8.
    pub utf8: Option<Utf8>,
    /// The most bytes that a line may have.
    pub max_line: Option<usize>,
    /// What happens to longer lines.
    pub overlong: Option<Overlong>,
}

/// A builder of a recipe that does nothing.
pub open spec fn empty_builder() -> TransformBuilder {
    TransformBuilder { ansi: None, overwrite: None, utf8: None, max_line: None, overlong: None }
}

/// The stages that a builder stands for, in their fixed order.
pub open spec fn stages_of(b: TransformBuilder) -> Seq<ByteStage> {
    (match b.ansi {
        Some(mode) => seq![ByteStage::Ansi(mode)],
        None => Seq::empty(),
    }) + (match b.overwrite {
        Some(mode) => seq![ByteStage::Overwrite(mode)],
        None => Seq::empty(),
    }) + (match b.utf8 {
        Some(mode) => seq![ByteStage::Utf8(mode)],
        None => Seq::empty(),
    })
}

impl Default for TransformBuilder {
    fn default() -> (r: Self)
        ensures
            r == empty_builder(),
    {
        TransformBuilder {
            ansi: None,
            overwrite: None,
            utf8: None,
            max_line: None,
            overlong: None,
        }
    }
}

impl TransformBuilder {
    /// Sets what to do with terminal escape sequences.
    pub fn ansi(self, mode: Ansi) -> (r: Self)
        ensures
            r == (TransformBuilder { ansi: Some(mode), ..self }),
    {
        let mut r = self;
        r.ansi = Some(mode);
        r
    }

    /// Sets what to do with text that is written over.
    pub fn overwrite(self, mode: Overwrite) -> (r: Self)
        ensures
            r == (TransformBuilder { overwrite: Some(mode), ..self }),
    {
        let mut r = self;
        r.overwrite = Some(mode);
        r
    }

    /// Sets what to do with bytes that are not valid UTF-8.
    pub fn utf8(self, mode: Utf8) -> (r: Self)
        ensures
            r == (TransformBuilder { utf8: Some(mode), ..self }),
    {
        let mut r = self;
        r.utf8 = Some(mode);
        r
    }

    /// Cap a framed line at `max` bytes (default 1 MiB). See [`overlong`](Self::overlong).
    pub fn max_line(self, max: usize) -> (r: Self)
        ensures
            r == (TransformBuilder { max_line: Some(max), ..self }),
    {
        let mut r = self;
        r.max_line = Some(max);
        r
    }

    /// Policy past the max-line cap. Defaults to [`Overlong::Truncate`].
    pub fn overlong(self, policy: Overlong) -> (r: Self)
        ensures
            r == (TransformBuilder { overlong: Some(policy), ..self }),
    {
        let mut r = self;
        r.overlong = Some(policy);
        r
    }

    fn stages(self) -> (r: Vec<ByteStage>)
        ensures
            r@ == stages_of(self),
    {
        let mut stages: Vec<ByteStage> = Vec::new();
        if let Some(mode) = self.ansi {
            stages.push(ByteStage::Ansi(mode));
        }
        if let Some(mode) = self.overwrite {
            stages.push(ByteStage::Overwrite(mode));
        }
        if let Some(mode) = self.utf8 {
            stages.push(ByteStage::Utf8(mode));
        }
        proof {
            assert(stages@ =~= stages_of(self));
        }
        stages
    }

    /// Frame into [`Line`]s on `\n`, stripping a trailing `\r`.
    pub fn lines(self) -> (r: Transform<LineRecipe>)
        ensures
            r.stages@ == stages_of(self),
            r.framer.max == (match self.max_line {
                Some(max) => max,
                None => DEFAULT_MAX_LINE,
            }),
            r.framer.policy == (match self.overlong {
                Some(policy) => policy,
                None => Overlong::Truncate,
            }),
    {
        let max: usize = match self.max_line {
            Some(max) => max,
            None => DEFAULT_MAX_LINE,
        };
        let policy = match self.overlong {
            Some(policy) => policy,
            None => Overlong::Truncate,
        };
        Transform { stages: self.stages(), framer: LineRecipe { max, policy } }
    }

    /// Gives the pieces of the stream as they come.
    pub fn raw(self) -> (r: Transform<RawRecipe>)
        ensures
            r.stages@ == stages_of(self),
    {
        Transform { stages: self.stages(), framer: RawRecipe }
    }

    /// Custom framer. `make` builds a fresh one per stream.
    pub fn frame<M: MakeFramer>(self, make: M) -> (r: Transform<M>)
        ensures
            r.stages@ == stages_of(self),
            r.framer == make,
    {
        Transform { stages: self.stages(), framer: make }
    }
}

impl Transform<RawRecipe> {
    /// A builder of a recipe that does nothing yet.
    pub fn builder() -> (r: TransformBuilder)
        ensures
            r == empty_builder(),
    {
        TransformBuilder::default()
    }

    /// The recipe that gives a stream as it comes.
    pub fn raw() -> (r: Transform<RawRecipe>)
        ensures
            r.stages@ == Seq::<ByteStage>::empty(),
    {
        let r = TransformBuilder::default().raw();
        proof {
            assert(stages_of(empty_builder()) =~= Seq::<ByteStage>::empty());
        }
        r
    }
}

/// The order in which a builder is called does not matter: escape sequences
/// are removed before text that is written over is resolved, and that is done
/// before the stream is made valid UTF-8.
pub proof fn law_stages_run_in_fixed_order(ansi: Ansi, overwrite: Overwrite, utf8: Utf8)
    ensures
        ({
            let all = TransformBuilder {
                ansi: Some(ansi),
                overwrite: Some(overwrite),
                utf8: Some(utf8),
                ..empty_builder()
            };
            stages_of(all) == seq![
                ByteStage::Ansi(ansi),
                ByteStage::Overwrite(overwrite),
                ByteStage::Utf8(utf8),
            ]
        }),
        ({
            let b = empty_builder();
            let one = TransformBuilder {
                utf8: Some(utf8),
                ..TransformBuilder {
                    overwrite: Some(overwrite),
                    ..TransformBuilder { ansi: Some(ansi), ..b }
                }
            };
            let other = TransformBuilder {
                ansi: Some(ansi),
                ..TransformBuilder {
                    overwrite: Some(overwrite),
                    ..TransformBuilder { utf8: Some(utf8), ..b }
                }
            };
            stages_of(one) == stages_of(other)
        }),
{
    let all = TransformBuilder {
        ansi: Some(ansi),
        overwrite: Some(overwrite),
        utf8: Some(utf8),
        ..empty_builder()
    };
    assert(stages_of(all) =~= seq![
        ByteStage::Ansi(ansi),
        ByteStage::Overwrite(overwrite),
        ByteStage::Utf8(utf8),
    ]);
}

} // verus!
