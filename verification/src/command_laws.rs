//! How commands are run, and for how long.
use crate::command::{
    completed_line, next_step, percent_of, program_words, runner_words, shellish_words, with_piece,
    RunState, RunStep, MAX_NANOS,
};
use crate::procstream::framer::LineEnding;
use vstd::prelude::*;

verus! {

/// A command is run by the shell, as the argument behind `-c`, or by a runner,
/// as the argument behind its words. A runner has to have a word, and what is
/// wrong with its text is what is wrong with it.
pub proof fn law_commands_are_run_by_shell_or_runner(command: Seq<char>, runner: Seq<char>)
    ensures
        runner_words(None, command) == Some(
            Ok::<Seq<Seq<char>>, Seq<char>>(seq![seq!['s', 'h'], seq!['-', 'c'], command]),
        ),
        match shellish_words(runner) {
            Err(e) => runner_words(Some(runner), command) == Some(
                Err::<Seq<Seq<char>>, Seq<char>>(e),
            ),
            Ok(words) => if words.len() == 0 {
                runner_words(Some(runner), command) is None
            } else {
                runner_words(Some(runner), command) == Some(
                    Ok::<Seq<Seq<char>>, Seq<char>>(words + seq![command]),
                )
            },
        },
{
    reveal_strlit("sh");
    reveal_strlit("-c");
    assert("sh"@ =~= seq!['s', 'h']);
    assert("-c"@ =~= seq!['-', 'c']);
    assert(program_words(None, command) =~= seq![seq!['s', 'h'], seq!['-', 'c'], command]);
    if let Ok(words) = shellish_words(runner) {
        assert(words.push(command) =~= words + seq![command]);
    }
}

/// A share of a length of time is that many hundredths of it, rounded down,
/// unless the hundredths together are longer than any length of time.
pub proof fn law_shares_are_hundredths(nanos: int, percent: int)
    requires
        0 <= nanos,
        0 <= percent,
    ensures
        nanos * percent <= MAX_NANOS ==> 100 * percent_of(nanos, percent) <= nanos * percent < 100
            * percent_of(nanos, percent) + 100,
        nanos * percent > MAX_NANOS ==> percent_of(nanos, percent) == MAX_NANOS / 100,
        nanos * percent <= MAX_NANOS && percent == 100 ==> percent_of(nanos, percent) == nanos,
{
    let scaled = nanos * percent;
    assert(scaled >= 0) by (nonlinear_arith)
        requires
            0 <= nanos,
            0 <= percent,
            scaled == nanos * percent,
    ;
    if percent == 100 {
        assert(scaled == nanos * 100);
    }
}

/// While its output goes on, a command is waited for until the warning is due,
/// and until the limit once it was given or where the limit comes first. Once
/// its output has ended, it is asked whether it exited.
pub proof fn law_waits_are_told(state: RunState, elapsed: int)
    requires
        0 <= elapsed < state.limit,
        state.limit <= MAX_NANOS,
    ensures
        state.closed ==> next_step(state, elapsed) == RunStep::PollExit,
        !state.closed && (state.warned || state.limit <= state.warn_at) ==> (next_step(
            state,
            elapsed,
        ) matches RunStep::Receive(wait) && elapsed + wait == state.limit),
        !state.closed && !state.warned && elapsed < state.warn_at < state.limit ==> (next_step(
            state,
            elapsed,
        ) matches RunStep::Receive(wait) && elapsed + wait == state.warn_at),
        !state.closed && !state.warned && state.warn_at <= elapsed ==> next_step(state, elapsed)
            == RunStep::Receive(0),
{
}

/// A piece that ends a line completes it, behind the pieces before it and
/// behind the lines before that. Only the end of the output takes a carriage
/// return off it, and only one.
pub proof fn law_lines_are_completed(state: RunState, text: Seq<char>, ending: LineEnding)
    requires
        ending != LineEnding::Overlong,
    ensures
        ({
            let after = with_piece(state, text, ending);
            let line = after.lines.last();
            &&& after.lines.len() == state.lines.len() + 1
            &&& after.lines.drop_last() == state.lines
            &&& after.overlong.len() == 0
            &&& ending != LineEnding::Eof ==> line == state.overlong + text
            &&& !(text.len() > 0 && text.last() == '\r') && text.len() > 0 ==> line
                == state.overlong + text
            &&& ending == LineEnding::Eof && text.len() > 0 && text.last() == '\r' ==> line
                == state.overlong + text.drop_last()
            &&& after.warn_at == state.warn_at && after.limit == state.limit
            &&& after.warned == state.warned && after.closed == state.closed
        }),
{
    let after = with_piece(state, text, ending);
    let whole = state.overlong + text;
    assert(after.lines.drop_last() =~= state.lines);
    assert(after.lines.last() == completed_line(state.overlong, text, ending));
    if text.len() > 0 {
        assert(whole.last() == text.last());
        assert(whole.drop_last() =~= state.overlong + text.drop_last());
    }
}

} // verus!
