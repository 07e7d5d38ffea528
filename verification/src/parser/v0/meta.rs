//! Reading the `%` lines of a command.
use crate::parser::v0::duration::{duration_fits, duration_of, is_fitting, read_duration};
use crate::parser::v0::patterns::{refuse, refuse_with, refused, refused_with, Problem, ProblemView};
use crate::script::{
    script_lines_view, CommandExit, ScriptCommand, ScriptCommandView, ScriptErrorType, ScriptLine,
    ScriptLineView, Timeout,
};
use crate::util::assoc::insert;
use crate::util::number::{i32_value, parse_i32};
use crate::util::shell::{bits_view, shell_split, split_words, ShellBit, ShellBitView, ShellParseError};
use crate::util::text::{
    chars_of, debug_str, has_prefix, push_str, slice_of, str_debug, str_eq, push_char};
use vstd::prelude::*;

verus! {

/// What is wrong with a line that cannot be split into words.
pub open spec fn shell_error_text(e: ShellParseError) -> Seq<char> {
    match e {
        ShellParseError::UnmatchedQuote(c) => "unmatched quote ("@.push(c) + ")"@,
        ShellParseError::InvalidHexEscape(c) => "invalid hex escape ("@.push(c) + ")"@,
    }
}

impl ShellParseError {
    /// What is wrong, in words.
    pub fn message(&self) -> (r: String)
        ensures
            r@ == shell_error_text(*self),
    {
        let (text, c) = match self {
            ShellParseError::UnmatchedQuote(c) => ("unmatched quote (", *c),
            ShellParseError::InvalidHexEscape(c) => ("invalid hex escape (", *c),
        };
        let mut out: String = text.to_owned();
        push_char(&mut out, c);
        push_str(&mut out, ")");
        out
    }
}

/// The texts of words, with a space between them.
pub open spec fn words_joined(words: Seq<ShellBitView>) -> Seq<char>
    decreases words.len(),
{
    if words.len() == 0 {
        Seq::empty()
    } else if words.len() == 1 {
        words[0].text()
    } else {
        words_joined(words.drop_last()).push(' ') + words.last().text()
    }
}

/// What a `%` line with the given words makes of a command.
pub open spec fn meta_words(
    line: ScriptLineView,
    words: Seq<ShellBitView>,
    command: ScriptCommandView,
) -> Result<ScriptCommandView, ProblemView> {
    let invalid = refused(ScriptErrorType::InvalidMetaCommand, line.location);
    if words.len() == 0 {
        Err(invalid)
    } else {
        let name = words[0].text();
        if name == "SET"@ || name == "set"@ {
            if words.len() == 2 {
                Ok(ScriptCommandView { set_var: Some(words[1].text()), ..command })
            } else if words.len() == 3 {
                Ok(
                    ScriptCommandView {
                        set_vars: command.set_vars.insert(words[1].text(), words[2]),
                        ..command
                    },
                )
            } else {
                Err(refused(ScriptErrorType::InvalidSetVariable, line.location))
            }
        } else if name == "EXPECT_FAILURE"@ || name == "expect_failure"@ {
            Ok(ScriptCommandView { expect_failure: true, ..command })
        } else if name == "EXIT"@ || name == "exit"@ {
            if words.len() < 2 {
                Err(invalid)
            } else {
                let status = words[1].text();
                if status == "any"@ {
                    Ok(ScriptCommandView { exit: CommandExit::Any, ..command })
                } else if status == "fail"@ {
                    Ok(ScriptCommandView { exit: CommandExit::AnyFailure, ..command })
                } else if status == "timeout"@ {
                    Ok(ScriptCommandView { exit: CommandExit::Timeout, ..command })
                } else {
                    match i32_value(status) {
                        Some(n) => Ok(
                            ScriptCommandView { exit: CommandExit::Failure(n as i32), ..command },
                        ),
                        None => Err(refused(ScriptErrorType::InvalidExitStatus, line.location)),
                    }
                }
            }
        } else if name == "TIMEOUT"@ || name == "timeout"@ {
            let text = words_joined(words.skip(1));
            if words.len() < 2 {
                Err(invalid)
            } else if !duration_fits(text) {
                Err(ProblemView::Unreadable)
            } else {
                match duration_of(text) {
                    Some((secs, nanos)) => Ok(
                        ScriptCommandView { timeout: Some(Timeout { secs, nanos }), ..command },
                    ),
                    None => Err(invalid),
                }
            }
        } else if name == "EXPECT"@ || name == "expect"@ {
            if words.len() != 3 {
                Err(invalid)
            } else {
                Ok(
                    ScriptCommandView {
                        expect: command.expect.insert(words[1].text(), words[2]),
                        ..command
                    },
                )
            }
        } else {
            Err(
                refused_with(
                    ScriptErrorType::InvalidMetaCommand,
                    line.location,
                    str_debug(line.text),
                ),
            )
        }
    }
}

/// What a line of a meta block makes of a command. Lines that do not begin
/// with `%` are passed over.
pub open spec fn meta_line(line: ScriptLineView, command: ScriptCommandView) -> Result<
    ScriptCommandView,
    ProblemView,
> {
    let text = line.trimmed();
    if !has_prefix(text, "%"@) {
        Ok(command)
    } else {
        match split_words(text.skip(1)) {
            Err(e) => Err(
                refused_with(
                    ScriptErrorType::InvalidMetaCommand,
                    line.location,
                    shell_error_text(e) + ": "@ + text,
                ),
            ),
            Ok(words) => meta_words(line, words, command),
        }
    }
}

/// What the lines of a meta block make of a command.
pub open spec fn meta_lines(lines: Seq<ScriptLineView>, command: ScriptCommandView) -> Result<
    ScriptCommandView,
    ProblemView,
>
    decreases lines.len(),
{
    if lines.len() == 0 {
        Ok(command)
    } else {
        match meta_line(lines[0], command) {
            Err(e) => Err(e),
            Ok(next) => meta_lines(lines.skip(1), next),
        }
    }
}

/// What the lines of a meta block make of a command up to the first of them
/// that is refused.
pub open spec fn meta_progress(lines: Seq<ScriptLineView>, command: ScriptCommandView) -> ScriptCommandView
    decreases lines.len(),
{
    if lines.len() == 0 {
        command
    } else {
        match meta_line(lines[0], command) {
            Err(_) => command,
            Ok(next) => meta_progress(lines.skip(1), next),
        }
    }
}

/// Joins the texts of the words behind the first, with a space between them.
fn join_rest(words: &Vec<ShellBit>) -> (r: String)
    requires
        words@.len() >= 1,
    ensures
        r@ == words_joined(bits_view(words@).skip(1)),
{
    let ghost rest = bits_view(words@).skip(1);
    let mut out = String::new();
    let mut i: usize = 1;
    proof {
        assert(rest.take(0) =~= Seq::empty());
        assert(out@ =~= Seq::empty());
    }
    while i < words.len()
        invariant
            1 <= i <= words@.len(),
            rest == bits_view(words@).skip(1),
            out@ == words_joined(rest.take(i - 1)),
        decreases words@.len() - i,
    {
        proof {
            assert(rest.take(i as int).drop_last() =~= rest.take(i - 1));
            assert(rest.take(i as int).last() == words@[i as int]@);
            if i == 1 {
                assert(rest.take(1)[0] == words@[1]@);
                assert(Seq::<char>::empty() + words@[1]@.text() =~= words@[1]@.text());
            }
        }
        if i > 1 {
            push_char(&mut out, ' ');
        }
        push_str(&mut out, words[i].as_str());
        i += 1;
    }
    proof {
        assert(rest.take(i - 1) =~= rest);
    }
    out
}

/// Applies a `%` line with the given words to a command.
fn apply_words(line: &ScriptLine, words: &Vec<ShellBit>, command: &mut ScriptCommand) -> (r: Result<
    (),
    Problem,
>)
    ensures
        ({
            let goal = meta_words(line@, bits_view(words@), old(command).model());
            match r {
                Ok(_) => goal == Ok::<ScriptCommandView, ProblemView>(final(command).model()),
                Err(e) => goal == Err::<ScriptCommandView, ProblemView>(e@),
            }
        }),
        r is Err ==> final(command).model() == old(command).model(),
{
    let ghost view = bits_view(words@);
    let n: usize = words.len();
    if n == 0 {
        return Err(refuse(ScriptErrorType::InvalidMetaCommand, &line.location));
    }
    proof {
        assert(forall|i: int| 0 <= i < n ==> #[trigger] view[i] == words@[i]@);
    }
    let name = words[0].as_str();
    if str_eq(name, "SET") || str_eq(name, "set") {
        if n == 2 {
            command.set_var = Some(words[1].as_str().to_owned());
            return Ok(());
        }
        if n == 3 {
            let _ = insert(&mut command.set_vars, words[1].as_str(), words[2].clone());
            return Ok(());
        }
        return Err(refuse(ScriptErrorType::InvalidSetVariable, &line.location));
    }
    if str_eq(name, "EXPECT_FAILURE") || str_eq(name, "expect_failure") {
        command.expect_failure = true;
        return Ok(());
    }
    if str_eq(name, "EXIT") || str_eq(name, "exit") {
        if n < 2 {
            return Err(refuse(ScriptErrorType::InvalidMetaCommand, &line.location));
        }
        let status = words[1].as_str();
        if str_eq(status, "any") {
            command.exit = CommandExit::Any;
        } else if str_eq(status, "fail") {
            command.exit = CommandExit::AnyFailure;
        } else if str_eq(status, "timeout") {
            command.exit = CommandExit::Timeout;
        } else {
            match parse_i32(status) {
                Some(status) => {
                    command.exit = CommandExit::Failure(status);
                },
                None => {
                    return Err(refuse(ScriptErrorType::InvalidExitStatus, &line.location));
                },
            }
        }
        return Ok(());
    }
    if str_eq(name, "TIMEOUT") || str_eq(name, "timeout") {
        if n < 2 {
            return Err(refuse(ScriptErrorType::InvalidMetaCommand, &line.location));
        }
        let text = join_rest(words);
        if !is_fitting(text.as_str()) {
            return Err(Problem::Unreadable);
        }
        return match read_duration(text.as_str()) {
            Some((secs, nanos)) => {
                command.timeout = Some(Timeout { secs, nanos });
                Ok(())
            },
            None => Err(refuse(ScriptErrorType::InvalidMetaCommand, &line.location)),
        };
    }
    if str_eq(name, "EXPECT") || str_eq(name, "expect") {
        if n != 3 {
            return Err(refuse(ScriptErrorType::InvalidMetaCommand, &line.location));
        }
        let _ = insert(&mut command.expect, words[1].as_str(), words[2].clone());
        return Ok(());
    }
    Err(
        refuse_with(
            ScriptErrorType::InvalidMetaCommand,
            &line.location,
            debug_str(line.text_untrimmed()),
        ),
    )
}

/// Applies a line of a meta block to a command.
fn apply_line(line: &ScriptLine, command: &mut ScriptCommand) -> (r: Result<(), Problem>)
    ensures
        ({
            let goal = meta_line(line@, old(command).model());
            match r {
                Ok(_) => goal == Ok::<ScriptCommandView, ProblemView>(final(command).model()),
                Err(e) => goal == Err::<ScriptCommandView, ProblemView>(e@),
            }
        }),
        r is Err ==> final(command).model() == old(command).model(),
{
    if !line.starts_with("%") {
        return Ok(());
    }
    let text = line.text();
    let n: usize = chars_of(text).len();
    proof {
        reveal_strlit("%");
        assert(text@.len() > 0);
        assert(text@.subrange(1, n as int) =~= text@.skip(1));
    }
    match shell_split(slice_of(text, 1, n)) {
        Ok(words) => apply_words(line, &words, command),
        Err(e) => {
            let mut data: String = e.message();
            push_str(&mut data, ": ");
            push_str(&mut data, text);
            Err(refuse_with(ScriptErrorType::InvalidMetaCommand, &line.location, data))
        },
    }
}

/// Applies the lines of a meta block to a command.
pub(crate) fn parse_script_v0_meta(lines: &Vec<ScriptLine>, command: &mut ScriptCommand) -> (r:
    Result<(), Problem>)
    ensures
        ({
            let goal = meta_lines(script_lines_view(lines@), old(command).model());
            match r {
                Ok(_) => goal == Ok::<ScriptCommandView, ProblemView>(final(command).model()),
                Err(e) => goal == Err::<ScriptCommandView, ProblemView>(e@),
            }
        }),
        final(command).model() == meta_progress(script_lines_view(lines@), old(command).model()),
{
    let ghost view = script_lines_view(lines@);
    let ghost goal = meta_lines(view, command.model());
    let mut i: usize = 0;
    proof {
        assert(view.skip(0) =~= view);
    }
    while i < lines.len()
        invariant
            i <= lines@.len(),
            view == script_lines_view(lines@),
            goal == meta_lines(view, old(command).model()),
            goal == meta_lines(view.skip(i as int), command.model()),
            meta_progress(view, old(command).model()) == meta_progress(
                view.skip(i as int),
                command.model(),
            ),
        decreases lines@.len() - i,
    {
        proof {
            assert(view.skip(i as int)[0] == lines@[i as int]@);
            assert(view.skip(i as int).skip(1) =~= view.skip(i + 1));
        }
        match apply_line(&lines[i], command) {
            Ok(_) => {},
            Err(e) => {
                return Err(e);
            },
        }
        i += 1;
    }
    proof {
        assert(view.skip(i as int) =~= Seq::empty());
    }
    Ok(())
}

} // verus!
