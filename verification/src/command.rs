//! Command lines.
use crate::output::ansi::{ansi_stripped, strip_ansi};
use crate::output::engine::Lines;
use crate::output::matching::LinesView;
use crate::procstream::capture::Stream;
use crate::procstream::framer::{lossy_text, Line, LineEnding};
use crate::script::ScriptLocation;
use crate::util::text::{chars_of, push_str, slice_of, strings_view};
use vstd::prelude::*;

verus! {

/// A shell command and the place in a script that it comes from.
#[derive(Debug)]
pub struct CommandLine {
    /// The text that is handed to the shell.
    pub command: String,
    /// Where the command starts.
    pub location: ScriptLocation,
    /// How many lines of the script the command takes up.
    pub line_count: usize,
}

/// The mathematical value of a [`CommandLine`].
pub struct CommandLineView {
    /// The text that is handed to the shell.
    pub command: Seq<char>,
    /// Where the command starts.
    pub location: ScriptLocation,
    /// How many lines of the script the command takes up.
    pub line_count: int,
}

impl View for CommandLine {
    type V = CommandLineView;

    open spec fn view(&self) -> CommandLineView {
        CommandLineView {
            command: self.command@,
            location: self.location,
            line_count: self.line_count as int,
        }
    }
}

impl Clone for CommandLine {
    fn clone(&self) -> (r: Self)
        ensures
            r@ == self@,
    {
        CommandLine {
            command: self.command.clone(),
            location: self.location.clone(),
            line_count: self.line_count,
        }
    }
}

impl CommandLine {
    /// The command line with the given parts.
    pub fn new(command: String, location: ScriptLocation, line_count: usize) -> (r: Self)
        ensures
            r@ == (CommandLineView {
                command: command@,
                location: location,
                line_count: line_count as int,
            }),
    {
        CommandLine { command, location, line_count }
    }
}

/// How a command ended.
#[derive(Clone, Copy, PartialEq, Eq, Structural, Debug)]
pub enum CommandResult {
    /// It exited with a status, or without one because of a signal.
    Exit(Option<i32>),
    /// It took too long.
    TimedOut,
}

impl CommandResult {
    /// Whether the command succeeded.
    pub fn success(&self) -> (r: bool)
        ensures
            r == (*self == CommandResult::Exit(Some(0))),
    {
        match self {
            CommandResult::Exit(Some(status)) => *status == 0,
            _ => false,
        }
    }
}

/// The words that `shellish_parse::parse` splits a text into, or what is wrong
/// with it.
pub uninterp spec fn shellish_words(text: Seq<char>) -> Result<Seq<Seq<char>>, Seq<char>>;

/// `shellish_parse::parse` splits a text into words as a shell does, or says
/// why it cannot.
#[verifier::external_body]
fn split_shellish(text: &str) -> (r: Result<Vec<String>, String>)
    ensures
        match r {
            Ok(words) => shellish_words(text@) == Ok::<Seq<Seq<char>>, Seq<char>>(
                strings_view(words@),
            ),
            Err(e) => shellish_words(text@) == Err::<Seq<Seq<char>>, Seq<char>>(e@),
        },
{
    shellish_parse::parse(text, shellish_parse::ParseOptions::default()).map_err(|e| e.to_string())
}

/// The program and its arguments that run a command: those of the runner, or
/// of the shell, and the command behind them.
pub open spec fn program_words(runner: Option<Seq<Seq<char>>>, command: Seq<char>) -> Seq<
    Seq<char>,
> {
    match runner {
        Some(words) => words.push(command),
        None => seq!["sh"@, "-c"@, command],
    }
}

/// The program and its arguments that run a command, given the words of the
/// runner.
pub fn program_for(runner: Option<Vec<String>>, command: &str) -> (r: Vec<String>)
    ensures
        strings_view(r@) == program_words(
            match runner {
                Some(words) => Some(strings_view(words@)),
                None => None,
            },
            command@,
        ),
{
    match runner {
        Some(words) => {
            let mut out = words;
            let ghost had = out@;
            out.push(command.to_owned());
            proof {
                assert(strings_view(out@) =~= strings_view(had).push(command@));
            }
            out
        },
        None => {
            let mut out: Vec<String> = Vec::new();
            out.push("sh".to_owned());
            out.push("-c".to_owned());
            out.push(command.to_owned());
            proof {
                assert(strings_view(out@) =~= seq!["sh"@, "-c"@, command@]);
            }
            out
        },
    }
}

/// The program and its arguments that run a command under a runner, what is
/// wrong with the runner, or `None` where the runner has no words.
pub open spec fn runner_words(runner: Option<Seq<char>>, command: Seq<char>) -> Option<
    Result<Seq<Seq<char>>, Seq<char>>,
> {
    match runner {
        None => Some(Ok(program_words(None, command))),
        Some(text) => match shellish_words(text) {
            Err(e) => Some(Err(e)),
            Ok(words) => if words.len() == 0 {
                None
            } else {
                Some(Ok(program_words(Some(words), command)))
            },
        },
    }
}

impl CommandLine {
    /// The program and its arguments that run the command, what is wrong with
    /// the runner, or `None` where the runner has no words.
    pub fn program(&self, runner: Option<String>) -> (r: Option<Result<Vec<String>, String>>)
        ensures
            runner_words(
                match runner {
                    Some(text) => Some(text@),
                    None => None,
                },
                self@.command,
            ) == (match r {
                None => None,
                Some(Ok(words)) => Some(Ok(strings_view(words@))),
                Some(Err(e)) => Some(Err::<Seq<Seq<char>>, Seq<char>>(e@)),
            }),
    {
        match runner {
            None => Some(Ok(program_for(None, self.command.as_str()))),
            Some(text) => match split_shellish(text.as_str()) {
                Err(e) => Some(Err(e)),
                Ok(words) => {
                    if words.len() == 0 {
                        None
                    } else {
                        Some(Ok(program_for(Some(words), self.command.as_str())))
                    }
                },
            },
        }
    }
}

/// The longest length of time that can be represented, in nanoseconds.
pub const MAX_NANOS: u128 = 18446744073709551615999999999;

/// A share of a length of time, in percent.
pub open spec fn percent_of(nanos: int, percent: int) -> int {
    let scaled = nanos * percent;
    (if scaled > MAX_NANOS {
        MAX_NANOS as int
    } else {
        scaled
    }) / 100
}

/// A share of a length of time, in percent.
fn share_of(nanos: u128, percent: u128) -> (r: u128)
    requires
        nanos <= MAX_NANOS,
        percent <= 1000,
    ensures
        r == percent_of(nanos as int, percent as int),
{
    assert(nanos * percent <= MAX_NANOS * 1000) by (nonlinear_arith)
        requires
            nanos <= MAX_NANOS,
            percent <= 1000,
    ;
    let scaled: u128 = nanos * percent;
    if scaled > MAX_NANOS {
        MAX_NANOS / 100
    } else {
        scaled / 100
    }
}

/// What to do next while a command runs.
#[derive(Clone, Copy, PartialEq, Eq, Structural, Debug)]
pub enum RunStep {
    /// Stop the command, it took too long.
    TimedOut,
    /// See whether the command exited, its output has ended.
    PollExit,
    /// Wait for output, for at most so many nanoseconds.
    Receive(u128),
}

/// A line of output as it is shown.
#[derive(Debug)]
pub struct ShownLine {
    /// The number of lines before it.
    pub index: usize,
    /// The stream that it came from.
    pub stream: Stream,
    /// Its text, without terminal escape sequences.
    pub text: String,
}

/// The state of a running command.
pub struct CommandRun {
    warn_at: u128,
    limit: u128,
    warned: bool,
    closed: bool,
    overlong: String,
    lines: Vec<String>,
}

/// The mathematical value of a [`CommandRun`].
pub struct RunState {
    /// When to warn that the command takes long.
    pub warn_at: int,
    /// When to stop the command.
    pub limit: int,
    /// Whether a warning was given.
    pub warned: bool,
    /// Whether the output has ended.
    pub closed: bool,
    /// The pieces of a line that is not complete.
    pub overlong: Seq<char>,
    /// The lines of the output.
    pub lines: Seq<Seq<char>>,
}

/// What to do next, after so many nanoseconds. The limit holds on every pass:
/// neither a command that keeps writing nor one whose output has ended may
/// dodge it.
pub open spec fn next_step(state: RunState, elapsed: int) -> RunStep {
    if elapsed >= state.limit {
        RunStep::TimedOut
    } else if state.closed {
        RunStep::PollExit
    } else {
        let remaining = state.limit - elapsed;
        let until_warning = if state.warn_at > elapsed {
            state.warn_at - elapsed
        } else {
            0
        };
        RunStep::Receive(
            (if state.warned || remaining <= until_warning {
                remaining
            } else {
                until_warning
            }) as u128,
        )
    }
}

/// The line that a piece completes, with the pieces before it. A bare carriage
/// return at the end of an unterminated last line is dropped.
pub open spec fn completed_line(overlong: Seq<char>, text: Seq<char>, ending: LineEnding) -> Seq<
    char,
> {
    let whole = overlong + text;
    if ending == LineEnding::Eof && whole.len() > 0 && whole.last() == '\r' {
        whole.drop_last()
    } else {
        whole
    }
}

/// What a piece of output leads to.
pub open spec fn with_piece(state: RunState, text: Seq<char>, ending: LineEnding) -> RunState {
    if ending == LineEnding::Overlong {
        RunState { overlong: state.overlong + text, ..state }
    } else {
        RunState {
            overlong: Seq::empty(),
            lines: state.lines.push(completed_line(state.overlong, text, ending)),
            ..state
        }
    }
}

impl CommandRun {
    /// The mathematical value of the state.
    pub closed spec fn state(&self) -> RunState {
        RunState {
            warn_at: self.warn_at as int,
            limit: self.limit as int,
            warned: self.warned,
            closed: self.closed,
            overlong: self.overlong@,
            lines: strings_view(self.lines@),
        }
    }

    /// A command that was just started, with the time that it may take in
    /// nanoseconds. It is warned of a little before that, and stopped a little
    /// after.
    pub fn new(timeout: u128) -> (r: Self)
        requires
            timeout <= MAX_NANOS,
        ensures
            r.state() == (RunState {
                warn_at: percent_of(timeout as int, 90),
                limit: percent_of(timeout as int, 110),
                warned: false,
                closed: false,
                overlong: Seq::empty(),
                lines: Seq::empty(),
            }),
    {
        let r = CommandRun {
            warn_at: share_of(timeout, 90),
            limit: share_of(timeout, 110),
            warned: false,
            closed: false,
            overlong: String::new(),
            lines: Vec::new(),
        };
        proof {
            assert(r.overlong@ =~= Seq::empty());
            assert(strings_view(r.lines@) =~= Seq::empty());
        }
        r
    }

    /// What to do next, after so many nanoseconds.
    pub fn step(&self, elapsed: u128) -> (r: RunStep)
        ensures
            r == next_step(self.state(), elapsed as int),
    {
        if elapsed >= self.limit {
            return RunStep::TimedOut;
        }
        if self.closed {
            return RunStep::PollExit;
        }
        let remaining: u128 = self.limit - elapsed;
        let until_warning: u128 = if self.warn_at > elapsed {
            self.warn_at - elapsed
        } else {
            0
        };
        if self.warned || remaining <= until_warning {
            RunStep::Receive(remaining)
        } else {
            RunStep::Receive(until_warning)
        }
    }

    /// Takes in a piece of output, and gives the line that it completes as it
    /// is shown.
    pub fn on_piece(&mut self, stream: Stream, piece: &Line) -> (r: Option<ShownLine>)
        ensures
            final(self).state() == with_piece(
                old(self).state(),
                lossy_text(piece@.bytes),
                piece@.ending,
            ),
            match r {
                None => piece@.ending == LineEnding::Overlong,
                Some(shown) => piece@.ending != LineEnding::Overlong && shown.index == old(
                    self,
                ).state().lines.len() && shown.stream == stream && shown.text@ == ansi_stripped(
                    completed_line(
                        old(self).state().overlong,
                        lossy_text(piece@.bytes),
                        piece@.ending,
                    ),
                ),
            },
    {
        let text = piece.as_str_lossy();
        push_str(&mut self.overlong, text.as_str());
        if matches!(piece.ending, LineEnding::Overlong) {
            return None;
        }
        let mut line = String::new();
        std::mem::swap(&mut line, &mut self.overlong);
        let ghost whole = line@;
        let chars = chars_of(line.as_str());
        let n: usize = chars.len();
        if matches!(piece.ending, LineEnding::Eof) && n > 0 && chars[n - 1] == '\r' {
            line = slice_of(line.as_str(), 0, n - 1).to_owned();
            proof {
                assert(line@ =~= whole.drop_last());
            }
        }
        let ghost had = self.lines@;
        let shown = ShownLine {
            index: self.lines.len(),
            stream,
            text: strip_ansi(line.as_str()),
        };
        self.lines.push(line);
        proof {
            assert(strings_view(self.lines@) =~= strings_view(had).push(line@));
            assert(self.overlong@ =~= Seq::empty());
        }
        Some(shown)
    }

    /// Notes that the output has ended.
    pub fn on_closed(&mut self)
        ensures
            final(self).state() == (RunState { closed: true, ..old(self).state() }),
    {
        self.closed = true;
    }

    /// Notes that there was no output in time, and tells whether to warn that
    /// the command takes long. That is done once.
    pub fn on_silence(&mut self, elapsed: u128) -> (r: bool)
        ensures
            r == (!old(self).state().warned && elapsed < old(self).state().limit),
            final(self).state() == (RunState {
                warned: old(self).state().warned || r,
                ..old(self).state()
            }),
    {
        if !self.warned && elapsed < self.limit {
            self.warned = true;
            true
        } else {
            false
        }
    }

    /// The lines of the output.
    pub fn into_lines(self) -> (r: Lines)
        ensures
            r.model() == (LinesView {
                lines: self.state().lines,
                current: 0,
                ignored: Seq::empty(),
                disabled: false,
                rejected: Seq::empty(),
            }),
    {
        Lines::new(self.lines)
    }
}

/// What pieces of output lead to, one after the other.
pub open spec fn with_pieces(state: RunState, pieces: Seq<(Seq<char>, LineEnding)>) -> RunState
    decreases pieces.len(),
{
    if pieces.len() == 0 {
        state
    } else {
        let (text, ending) = pieces.last();
        with_piece(with_pieces(state, pieces.drop_last()), text, ending)
    }
}

/// The text of pieces, put together.
pub open spec fn pieces_text(pieces: Seq<(Seq<char>, LineEnding)>) -> Seq<char>
    decreases pieces.len(),
{
    if pieces.len() == 0 {
        Seq::empty()
    } else {
        pieces_text(pieces.drop_last()) + pieces.last().0
    }
}

/// A line that arrives in pieces is stitched back into one line: whatever
/// number of pieces is followed by more of the line, the piece that ends the
/// line completes one line with the text of them all.
pub proof fn law_pieces_are_stitched(
    state: RunState,
    pieces: Seq<(Seq<char>, LineEnding)>,
    text: Seq<char>,
    ending: LineEnding,
)
    requires
        state.overlong.len() == 0,
        forall|i: int| 0 <= i < pieces.len() ==> (#[trigger] pieces[i]).1 == LineEnding::Overlong,
        ending != LineEnding::Overlong,
    ensures
        with_pieces(state, pieces.push((text, ending))) == (RunState {
            lines: state.lines.push(completed_line(pieces_text(pieces), text, ending)),
            ..state
        }),
{
    lemma_pieces_held(state, pieces);
    let all = pieces.push((text, ending));
    assert(all.drop_last() =~= pieces);
    assert(state.overlong =~= Seq::empty());
}

proof fn lemma_pieces_held(state: RunState, pieces: Seq<(Seq<char>, LineEnding)>)
    requires
        state.overlong.len() == 0,
        forall|i: int| 0 <= i < pieces.len() ==> (#[trigger] pieces[i]).1 == LineEnding::Overlong,
    ensures
        with_pieces(state, pieces) == (RunState { overlong: pieces_text(pieces), ..state }),
    decreases pieces.len(),
{
    if pieces.len() == 0 {
        assert(state.overlong =~= Seq::empty());
    } else {
        assert(pieces[pieces.len() - 1].1 == LineEnding::Overlong);
        assert forall|i: int| 0 <= i < pieces.drop_last().len() implies (
        #[trigger] pieces.drop_last()[i]).1 == LineEnding::Overlong by {
            assert(pieces[i].1 == LineEnding::Overlong);
        }
        lemma_pieces_held(state, pieces.drop_last());
    }
}

/// A command is never waited for beyond its limit: after a wait of the given
/// length it is stopped at the limit at the latest.
pub proof fn law_waits_end_at_limit(state: RunState, elapsed: int)
    requires
        0 <= elapsed,
        state.limit <= MAX_NANOS,
    ensures
        next_step(state, elapsed) matches RunStep::Receive(wait) ==> elapsed + wait <= state.limit,
        elapsed >= state.limit ==> next_step(state, elapsed) == RunStep::TimedOut,
{
}

} // verus!
