//! How streams are filtered and framed, and when a child is done.
use crate::procstream::ansi::{kept_pieces, Ansi, VtEventView};
use crate::procstream::collapse::{collapse_end, CollapseState, Overwrite};
use crate::procstream::driver::{finalized, open_count};
use crate::procstream::framer::{
    line_end, line_steps, FramedLine, LineEnding, LineState, Overlong,
};
use crate::procstream::transform::{
    stage_fed, stage_start, stages_drained, stages_fed, stages_start, ByteFilter, ByteStage, Stage,
    StageState,
};
use crate::procstream::utf8::Utf8;
use vstd::prelude::*;

verus! {

/// What is kept of a stream is kept event by event, in order.
pub proof fn law_events_are_kept_in_order(a: Seq<VtEventView>, b: Seq<VtEventView>, keep_sgr: bool)
    ensures
        kept_pieces(a + b, keep_sgr) == kept_pieces(a, keep_sgr) + kept_pieces(b, keep_sgr),
    decreases b.len(),
{
    if b.len() == 0 {
        assert(a + b =~= a);
        assert(kept_pieces(a, keep_sgr) + kept_pieces(b, keep_sgr) =~= kept_pieces(a, keep_sgr));
    } else {
        law_events_are_kept_in_order(a, b.drop_last(), keep_sgr);
        assert((a + b).drop_last() =~= a + b.drop_last());
        assert((a + b).last() == b.last());
        assert(kept_pieces(a + b, keep_sgr) =~= kept_pieces(a, keep_sgr) + kept_pieces(
            b,
            keep_sgr,
        ));
    }
}

/// Text and control characters are always kept. Of the control sequences those
/// that end in `m`, which set attributes, are kept if they are asked for.
/// Nothing else is kept.
pub proof fn law_text_is_kept(bytes: Seq<u8>, last: u8, keep_sgr: bool)
    ensures
        kept_pieces(seq![VtEventView::Text(bytes)], keep_sgr) == seq![bytes],
        kept_pieces(seq![VtEventView::Control(bytes)], keep_sgr) == seq![bytes],
        kept_pieces(seq![VtEventView::Csi(last, bytes)], keep_sgr) == (if keep_sgr && last
            == 'm' as u8 {
            seq![bytes]
        } else {
            Seq::empty()
        }),
        kept_pieces(seq![VtEventView::Other], keep_sgr) == Seq::<Seq<u8>>::empty(),
{
    let none = Seq::<VtEventView>::empty();
    assert('m' as u8 == 0x6d);
    assert(seq![VtEventView::Text(bytes)].drop_last() =~= none);
    assert(seq![VtEventView::Control(bytes)].drop_last() =~= none);
    assert(seq![VtEventView::Csi(last, bytes)].drop_last() =~= none);
    assert(seq![VtEventView::Other].drop_last() =~= none);
    assert(kept_pieces(none, keep_sgr) =~= Seq::empty());
    assert(Seq::<Seq<u8>>::empty().push(bytes) =~= seq![bytes]);
}

/// The pieces of a stream go through a stage one after the other, and what
/// comes out of it comes out in their order.
pub proof fn law_pieces_go_through_in_order(state: StageState, a: Seq<Seq<u8>>, b: Seq<Seq<u8>>)
    ensures
        ({
            let (middle, first) = stage_fed(state, a);
            let (end, second) = stage_fed(middle, b);
            stage_fed(state, a + b) == (end, first + second)
        }),
        forall|piece: Seq<u8>|
            stage_fed(state, seq![piece]) == #[trigger] Stage::filtered(state, piece),
    decreases b.len(),
{
    let (middle, first) = stage_fed(state, a);
    if b.len() == 0 {
        assert(a + b =~= a);
        assert(first + Seq::<Seq<u8>>::empty() =~= first);
    } else {
        law_pieces_go_through_in_order(state, a, b.drop_last());
        assert((a + b).drop_last() =~= a + b.drop_last());
        assert((a + b).last() == b.last());
        let (before, out) = stage_fed(middle, b.drop_last());
        let (_, more) = Stage::filtered(before, b.last());
        assert(first + out + more =~= first + (out + more));
    }
    assert forall|piece: Seq<u8>|
        stage_fed(state, seq![piece]) == #[trigger] Stage::filtered(state, piece) by {
        let one = seq![piece];
        assert(one.drop_last() =~= Seq::empty());
        assert(one.last() == piece);
        assert(stage_fed(state, one.drop_last()) == (state, Seq::<Seq<u8>>::empty()));
        let (_, out) = Stage::filtered(state, piece);
        assert(Seq::<Seq<u8>>::empty() + out =~= out);
    }
}

/// Each stage is fed what comes out of the one before it: a pipeline of two
/// parts does what its second part does with what comes out of the first. At
/// the end of a stream, the first part is ended before the second.
pub proof fn law_stages_feed_each_other(
    a: Seq<StageState>,
    b: Seq<StageState>,
    pieces: Seq<Seq<u8>>,
)
    ensures
        ({
            let (first, out) = stages_fed(a, pieces);
            let (second, last) = stages_fed(b, out);
            stages_fed(a + b, pieces) == (first + second, last)
        }),
        ({
            let (first, out) = stages_drained(a, pieces);
            let (second, last) = stages_drained(b, out);
            stages_drained(a + b, pieces) == (first + second, last)
        }),
    decreases a.len(),
{
    if a.len() == 0 {
        assert(a + b =~= b);
        let (fed, _) = stages_fed(b, pieces);
        let (drained, _) = stages_drained(b, pieces);
        assert(a + fed =~= fed);
        assert(a + drained =~= drained);
    } else {
        assert((a + b).skip(1) =~= a.skip(1) + b);
        let (one, out) = stage_fed(a[0], pieces);
        law_stages_feed_each_other(a.skip(1), b, out);
        let (rest, middle) = stages_fed(a.skip(1), out);
        let (second, _) = stages_fed(b, middle);
        assert(seq![one] + rest + second =~= seq![one] + (rest + second));
        let (ended, more) = Stage::drained(one);
        law_stages_feed_each_other(a.skip(1), b, out + more);
        let (rest, middle) = stages_drained(a.skip(1), out + more);
        let (second, _) = stages_drained(b, middle);
        assert(seq![ended] + rest + second =~= seq![ended] + (rest + second));
    }
}

/// The stages of a recipe are made in order, but for those that would change
/// nothing.
pub proof fn law_idle_stages_are_left_out(a: Seq<ByteStage>, b: Seq<ByteStage>, stage: ByteStage)
    ensures
        stages_start(a + b) == stages_start(a) + stages_start(b),
        stages_start(seq![stage]).len() == if stage == ByteStage::Ansi(Ansi::Keep) || stage
            == ByteStage::Overwrite(Overwrite::Passthrough) || stage == ByteStage::Utf8(
            Utf8::Preserve,
        ) {
            0
        } else {
            1int
        },
        stage_start(stage) matches Some(s) ==> stages_start(seq![stage]) == seq![s],
    decreases b.len(),
{
    if b.len() == 0 {
        assert(a + b =~= a);
        assert(stages_start(a) + stages_start(b) =~= stages_start(a));
    } else {
        law_idle_stages_are_left_out(a, b.drop_last(), stage);
        assert((a + b).drop_last() =~= a + b.drop_last());
        assert((a + b).last() == b.last());
        assert(stages_start(a + b) =~= stages_start(a) + stages_start(b));
    }
    assert(seq![stage].drop_last() =~= Seq::empty());
    assert(stages_start(Seq::empty()) =~= Seq::<StageState>::empty());
    if let Some(s) = stage_start(stage) {
        assert(Seq::<StageState>::empty().push(s) =~= seq![s]);
    }
}

/// A fresh stage removes escape sequences, with or without those that set
/// attributes; resolves what is written over; or makes a stream valid UTF-8.
pub proof fn law_stages_start_fresh()
    ensures
        stage_start(ByteStage::Ansi(Ansi::StripAll)) matches Some(StageState::Ansi(s)) && s.fed.len()
            == 0 && !s.keep_sgr,
        stage_start(ByteStage::Ansi(Ansi::StripNonAttribute)) matches Some(StageState::Ansi(s))
            && s.fed.len() == 0 && s.keep_sgr,
        stage_start(ByteStage::Overwrite(Overwrite::CollapseLine)) matches Some(
            StageState::Overwrite(s),
        ) && s.line.len() == 0 && s.col == 0,
        stage_start(ByteStage::Utf8(Utf8::Lossy)) matches Some(StageState::Utf8(s)) && s.len() == 0,
{
}

/// A line that fits is framed without the line feed that ends it, and without
/// one carriage return in front of that, whatever happens to longer lines.
pub proof fn law_lines_are_framed(state: LineState, line: Seq<u8>)
    requires
        state.buf.len() == 0,
        !state.truncated,
        !line.contains(10u8),
        line.len() < state.max,
    ensures
        !(line.len() > 0 && line.last() == 13) ==> line_steps(state, line + seq![10u8]) == (
            state,
            seq![FramedLine { bytes: line, ending: LineEnding::Lf }],
        ),
        line_steps(state, line + seq![13u8, 10u8]) == (
            state,
            seq![FramedLine { bytes: line, ending: LineEnding::CrLf }],
        ),
{
    let none = Seq::<FramedLine>::empty();
    lemma_line_is_read(state, line);
    assert(state.buf =~= Seq::empty());
    let lf = line + seq![10u8];
    assert(lf.drop_last() =~= line && lf.last() == 10);
    let back = line.push(13);
    assert forall|b: u8| back.contains(b) implies b != 10 by {
        let i = choose|i: int| 0 <= i < back.len() && back[i] == b;
        if i < line.len() {
            assert(line.contains(line[i]));
        }
    }
    lemma_line_is_read(state, back);
    let crlf = line + seq![13u8, 10u8];
    assert(crlf.drop_last() =~= back && crlf.last() == 10);
    assert(back.drop_last() =~= line);
    let one = FramedLine { bytes: line, ending: LineEnding::Lf };
    assert(none + seq![one] =~= seq![one]);
    let other = FramedLine { bytes: line, ending: LineEnding::CrLf };
    assert(none + seq![other] =~= seq![other]);
}

proof fn lemma_line_is_read(state: LineState, line: Seq<u8>)
    requires
        state.buf.len() == 0,
        !line.contains(10u8),
        line.len() <= state.max,
    ensures
        line_steps(state, line) == (LineState { buf: line, ..state }, Seq::<FramedLine>::empty()),
    decreases line.len(),
{
    let none = Seq::<FramedLine>::empty();
    if line.len() == 0 {
        assert(state.buf =~= line);
    } else {
        let front = line.drop_last();
        assert(line.contains(line[line.len() - 1]));
        assert forall|b: u8| front.contains(b) implies line.contains(b) by {
            let i = choose|i: int| 0 <= i < front.len() && front[i] == b;
            assert(line[i] == b);
        }
        lemma_line_is_read(state, front);
        assert(front.push(line.last()) =~= line);
        assert(none + none =~= none);
    }
}

/// Under [`Overlong::Split`] a line that exceeds the cap is split into pieces
/// of exactly that many bytes.
pub proof fn law_split_pieces_are_full(state: LineState, bytes: Seq<u8>)
    requires
        state.policy == Overlong::Split,
        !state.truncated,
    ensures
        ({
            let (end, lines) = line_steps(state, bytes);
            &&& forall|i: int|
                0 <= i < lines.len() && (#[trigger] lines[i]).ending == LineEnding::Overlong
                    ==> lines[i].bytes.len() == state.max
            &&& forall|i: int| 0 <= i < lines.len() ==> (#[trigger] lines[i]).ending != LineEnding::Eof
            &&& end.policy == Overlong::Split && !end.truncated && end.max == state.max
        }),
    decreases bytes.len(),
{
    if bytes.len() > 0 {
        law_split_pieces_are_full(state, bytes.drop_last());
    }
}

/// A line that the end of the stream cuts off is framed as it is, but for one
/// carriage return at its end, and not at all where that leaves nothing.
pub proof fn law_last_line_is_framed(state: LineState)
    requires
        !state.truncated,
    ensures
        ({
            let (end, lines) = line_end(state);
            let cr = state.buf.len() > 0 && state.buf.last() == 13;
            let rest = if cr {
                state.buf.drop_last()
            } else {
                state.buf
            };
            &&& end.buf.len() == 0
            &&& lines == if rest.len() == 0 {
                Seq::empty()
            } else {
                seq![FramedLine { bytes: rest, ending: LineEnding::Eof }]
            }
        }),
{
}

/// The end of a stream commits what was written of a line, as it stands, and
/// nothing where nothing was written.
pub proof fn law_end_commits_the_line(state: CollapseState)
    ensures
        state.line.len() > 0 ==> collapse_end(state) == seq![state.line],
        state.line.len() == 0 ==> collapse_end(state).len() == 0,
{
}

/// There is nothing left to do exactly where the exit was delivered and every
/// stream is closed. Until then every stream stays as it was.
pub proof fn law_done_when_all_is_closed(closed: Seq<bool>, exit_reaped: bool)
    ensures
        finalized(closed, exit_reaped).done <==> exit_reaped && forall|i: int|
            0 <= i < closed.len() ==> closed[i],
        finalized(closed, exit_reaped).exit_reaped == exit_reaped,
        !finalized(closed, exit_reaped).done ==> finalized(closed, exit_reaped).closed == closed,
{
    lemma_none_open(closed);
}

proof fn lemma_none_open(closed: Seq<bool>)
    ensures
        open_count(closed) == 0 <==> forall|i: int| 0 <= i < closed.len() ==> closed[i],
    decreases closed.len(),
{
    if closed.len() > 0 {
        let front = closed.drop_last();
        lemma_none_open(front);
        let n = front.len() as int;
        assert(closed[n] == closed.last());
        if forall|i: int| 0 <= i < closed.len() ==> closed[i] {
            assert forall|i: int| 0 <= i < front.len() implies front[i] by {
                assert(closed[i]);
            }
        }
        if closed[n] && (forall|i: int| 0 <= i < front.len() ==> front[i]) {
            assert forall|i: int| 0 <= i < closed.len() implies closed[i] by {
                if i < n {
                    assert(front[i]);
                }
            }
        }
    }
}

} // verus!
