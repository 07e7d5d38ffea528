//! What reading the `%` lines of a command promises.
use crate::parser::v0::duration::{duration_fits, duration_of};
use crate::parser::v0::meta::{meta_line, meta_lines, words_joined};
use crate::parser::v0::pattern_laws::{is_refused, is_written};
use crate::parser::v0::patterns::ProblemView;
use crate::script::{
    CommandExit, ScriptCommandView, ScriptErrorType, ScriptLineView, Timeout,
};
use crate::util::number::i32_value;
use crate::util::shell::{split_words, ShellBitView, ShellParseError};
use crate::util::text::{has_prefix, str_debug};
use crate::util::text_laws::{is_blank, is_trim, law_trim};
use vstd::prelude::*;

verus! {

/// Whether a line is a `%` with words behind it.
pub open spec fn says(line: ScriptLineView, words: Seq<ShellBitView>) -> bool {
    exists|rest: Seq<char>|
        is_trim(seq!['%'] + rest) && #[trigger] is_written(line, seq!['%'] + rest) && split_words(
            rest,
        ) == Ok::<Seq<ShellBitView>, ShellParseError>(words)
}

proof fn lemma_says(line: ScriptLineView, words: Seq<ShellBitView>)
    requires
        says(line, words),
    ensures
        has_prefix(line.trimmed(), "%"@),
        split_words(line.trimmed().skip(1)) == Ok::<Seq<ShellBitView>, ShellParseError>(words),
{
    let rest = choose|rest: Seq<char>|
        is_trim(seq!['%'] + rest) && #[trigger] is_written(line, seq!['%'] + rest) && split_words(
            rest,
        ) == Ok::<Seq<ShellBitView>, ShellParseError>(words);
    let text = seq!['%'] + rest;
    let (before, behind) = choose|before: Seq<char>, behind: Seq<char>|
        is_blank(before) && is_blank(behind) && line.text == #[trigger] (before + text + behind);
    law_trim(before, text, behind);
    reveal_strlit("%");
    assert("%"@ =~= seq!['%']);
    assert(text.take(1) =~= "%"@);
    assert(text.skip(1) =~= rest);
}

proof fn lemma_words()
    ensures
        "SET"@ != "EXPECT"@,
        "SET"@ != "EXPECT_FAILURE"@,
        "SET"@ != "expect_failure"@,
        "SET"@ != "EXIT"@,
        "SET"@ != "exit"@,
        "SET"@ != "TIMEOUT"@,
        "SET"@ != "timeout"@,
        "set"@ != "EXPECT"@,
        "EXPECT"@ != "set"@,
        "EXPECT"@ != "EXPECT_FAILURE"@,
        "EXPECT"@ != "expect_failure"@,
        "EXPECT"@ != "EXIT"@,
        "EXPECT"@ != "exit"@,
        "EXPECT"@ != "TIMEOUT"@,
        "EXPECT"@ != "timeout"@,
        "expect"@ != "SET"@,
        "expect"@ != "set"@,
        "expect"@ != "EXPECT_FAILURE"@,
        "expect"@ != "expect_failure"@,
        "expect"@ != "EXIT"@,
        "expect"@ != "exit"@,
        "expect"@ != "TIMEOUT"@,
        "expect"@ != "timeout"@,
        "EXIT"@ != "set"@,
        "EXIT"@ != "EXPECT_FAILURE"@,
        "EXIT"@ != "expect_failure"@,
        "EXIT"@ != "TIMEOUT"@,
        "EXIT"@ != "timeout"@,
        "exit"@ != "set"@,
        "exit"@ != "EXPECT_FAILURE"@,
        "exit"@ != "expect_failure"@,
        "exit"@ != "TIMEOUT"@,
        "exit"@ != "timeout"@,
        "TIMEOUT"@ != "set"@,
        "TIMEOUT"@ != "EXPECT_FAILURE"@,
        "TIMEOUT"@ != "expect_failure"@,
        "timeout"@ != "set"@,
        "timeout"@ != "EXPECT_FAILURE"@,
        "timeout"@ != "expect_failure"@,
        "EXPECT_FAILURE"@ != "set"@,
        "expect_failure"@ != "set"@,
        "any"@ != "fail"@,
        "any"@ != "timeout"@,
        "fail"@ != "timeout"@,
{
    reveal_strlit("SET");
    reveal_strlit("set");
    reveal_strlit("EXPECT");
    reveal_strlit("expect");
    reveal_strlit("EXIT");
    reveal_strlit("exit");
    reveal_strlit("TIMEOUT");
    reveal_strlit("timeout");
    reveal_strlit("EXPECT_FAILURE");
    reveal_strlit("expect_failure");
    reveal_strlit("any");
    reveal_strlit("fail");
    assert("SET"@.len() == 3 && "set"@.len() == 3 && "EXPECT"@.len() == 6 && "expect"@.len() == 6
        && "EXIT"@.len() == 4 && "exit"@.len() == 4 && "TIMEOUT"@.len() == 7 && "timeout"@.len()
        == 7 && "EXPECT_FAILURE"@.len() == 14 && "expect_failure"@.len() == 14 && "any"@.len() == 3
        && "fail"@.len() == 4);
}

/// Whether a line is a `%SET` with a name and a value.
pub open spec fn sets(line: ScriptLineView, name: Seq<char>, value: ShellBitView) -> bool {
    exists|words: Seq<ShellBitView>| #[trigger]
        says(line, words) && words.len() == 3 && (words[0].text() == "SET"@ || words[0].text()
            == "set"@) && words[1].text() == name && words[2] == value
}

/// Whether a line is an `%EXPECT` with a name and a value.
pub open spec fn expects(line: ScriptLineView, name: Seq<char>, value: ShellBitView) -> bool {
    exists|words: Seq<ShellBitView>| #[trigger]
        says(line, words) && words.len() == 3 && (words[0].text() == "EXPECT"@ || words[0].text()
            == "expect"@) && words[1].text() == name && words[2] == value
}

/// The values of names.
pub type Values = Map<Seq<char>, ShellBitView>;

/// Whether names have the values that were given to them last, and all other
/// names what they had before.
pub open spec fn given_last(
    before: Values,
    after: Values,
    names: Seq<Seq<char>>,
    values: Seq<ShellBitView>,
) -> bool {
    &&& forall|name: Seq<char>|
        #![trigger after.contains_key(name)]
        after.contains_key(name) <==> before.contains_key(name) || names.contains(name)
    &&& forall|i: int|
        0 <= i < names.len() && is_last(names, i) ==> #[trigger] after[names[i]] == values[i]
    &&& forall|name: Seq<char>|
        !names.contains(name) && before.contains_key(name) ==> #[trigger] after[name]
            == before[name]
}

/// Whether no later name is the same.
pub open spec fn is_last(names: Seq<Seq<char>>, i: int) -> bool {
    forall|j: int| i < j < names.len() ==> names[j] != names[i]
}

proof fn lemma_given_push(
    before: Values,
    middle: Values,
    names: Seq<Seq<char>>,
    values: Seq<ShellBitView>,
    name: Seq<char>,
    value: ShellBitView,
)
    requires
        given_last(before, middle, names, values),
        names.len() == values.len(),
    ensures
        given_last(before, middle.insert(name, value), names.push(name), values.push(value)),
{
    let after = middle.insert(name, value);
    let all = names.push(name);
    let all_values = values.push(value);
    assert(all[names.len() as int] == name);
    assert forall|n: Seq<char>| all.contains(n) == (names.contains(n) || n == name) by {
        if names.contains(n) {
            let i = choose|i: int| 0 <= i < names.len() && names[i] == n;
            assert(all[i] == n);
        }
        if all.contains(n) {
            let i = choose|i: int| 0 <= i < all.len() && all[i] == n;
            if i < names.len() {
                assert(names[i] == n);
            }
        }
    }
    assert forall|n: Seq<char>| #[trigger]
        after.contains_key(n) <==> before.contains_key(n) || all.contains(n) by {
        assert(middle.contains_key(n) <==> before.contains_key(n) || names.contains(n));
    }
    assert forall|i: int| 0 <= i < all.len() && is_last(all, i) implies #[trigger] after[all[i]]
        == all_values[i] by {
        if i < names.len() {
            assert(all[names.len() as int] != all[i]);
            assert(is_last(names, i)) by {
                assert forall|j: int| i < j < names.len() implies names[j] != names[i] by {
                    assert(all[j] != all[i]);
                }
            }
            assert(middle[names[i]] == values[i]);
        }
    }
    assert forall|n: Seq<char>|
        !all.contains(n) && before.contains_key(n) implies #[trigger] after[n] == before[n] by {
        assert(!names.contains(n));
        assert(middle[n] == before[n]);
    }
}

proof fn lemma_given_none(before: Values)
    ensures
        given_last(before, before, Seq::empty(), Seq::empty()),
{
}

/// `%` lines are applied one behind the other.
pub proof fn law_meta_lines_in_order(
    lines: Seq<ScriptLineView>,
    last: ScriptLineView,
    command: ScriptCommandView,
)
    ensures
        match meta_lines(lines, command) {
            Ok(c) => meta_lines(lines.push(last), command) == meta_line(last, c),
            Err(e) => meta_lines(lines.push(last), command) == Err::<ScriptCommandView, ProblemView>(
                e,
            ),
        },
        meta_lines(Seq::empty(), command) == Ok::<ScriptCommandView, ProblemView>(command),
    decreases lines.len(),
{
    let all = lines.push(last);
    if lines.len() == 0 {
        assert(all[0] == last);
        assert(all.skip(1) =~= Seq::empty());
        if let Ok(c) = meta_line(last, command) {
            assert(meta_lines(Seq::empty(), c) == Ok::<ScriptCommandView, ProblemView>(c));
        }
    } else {
        assert(all[0] == lines[0]);
        assert(all.skip(1) =~= lines.skip(1).push(last));
        if let Ok(c) = meta_line(lines[0], command) {
            law_meta_lines_in_order(lines.skip(1), last, c);
        }
    }
}

proof fn lemma_set_line(
    line: ScriptLineView,
    name: Seq<char>,
    value: ShellBitView,
    command: ScriptCommandView,
)
    requires
        sets(line, name, value),
    ensures
        meta_line(line, command) == Ok::<ScriptCommandView, ProblemView>(
            ScriptCommandView { set_vars: command.set_vars.insert(name, value), ..command },
        ),
{
    let words = choose|words: Seq<ShellBitView>| #[trigger]
        says(line, words) && words.len() == 3 && (words[0].text() == "SET"@ || words[0].text()
            == "set"@) && words[1].text() == name && words[2] == value;
    lemma_says(line, words);
    lemma_words();
}

proof fn lemma_expect_line(
    line: ScriptLineView,
    name: Seq<char>,
    value: ShellBitView,
    command: ScriptCommandView,
)
    requires
        expects(line, name, value),
    ensures
        meta_line(line, command) == Ok::<ScriptCommandView, ProblemView>(
            ScriptCommandView { expect: command.expect.insert(name, value), ..command },
        ),
{
    let words = choose|words: Seq<ShellBitView>| #[trigger]
        says(line, words) && words.len() == 3 && (words[0].text() == "EXPECT"@ || words[0].text()
            == "expect"@) && words[1].text() == name && words[2] == value;
    lemma_says(line, words);
    lemma_words();
}

/// With several `%SET` lines that have a value, the variables that a command
/// sets are exactly the names of these lines, besides those that it set
/// before, each with the value of the last line that names it. Nothing else of
/// the command changes.
pub proof fn law_set_lines_add_up(
    lines: Seq<ScriptLineView>,
    names: Seq<Seq<char>>,
    values: Seq<ShellBitView>,
    command: ScriptCommandView,
)
    requires
        lines.len() == names.len() == values.len(),
        forall|i: int| 0 <= i < lines.len() ==> sets(#[trigger] lines[i], names[i], values[i]),
    ensures
        meta_lines(lines, command) matches Ok(c) && given_last(
            command.set_vars,
            c.set_vars,
            names,
            values,
        ) && c == (ScriptCommandView { set_vars: c.set_vars, ..command }),
    decreases lines.len(),
{
    law_meta_lines_in_order(Seq::empty(), arbitrary(), command);
    if lines.len() == 0 {
        assert(lines =~= Seq::empty());
        assert(names =~= Seq::empty());
        assert(values =~= Seq::empty());
        lemma_given_none(command.set_vars);
    } else {
        let k = lines.len() - 1;
        let front = lines.drop_last();
        assert forall|i: int| 0 <= i < front.len() implies sets(
            #[trigger] front[i],
            names.drop_last()[i],
            values.drop_last()[i],
        ) by {
            assert(front[i] == lines[i]);
        }
        law_set_lines_add_up(front, names.drop_last(), values.drop_last(), command);
        let before = meta_lines(front, command)->Ok_0;
        assert(sets(lines[k], names[k], values[k]));
        lemma_set_line(lines[k], names[k], values[k], before);
        law_meta_lines_in_order(front, lines[k], command);
        assert(front.push(lines[k]) =~= lines);
        lemma_given_push(
            command.set_vars,
            before.set_vars,
            names.drop_last(),
            values.drop_last(),
            names[k],
            values[k],
        );
        assert(names.drop_last().push(names[k]) =~= names);
        assert(values.drop_last().push(values[k]) =~= values);
    }
}

/// With several `%EXPECT` lines, the values that are expected are exactly
/// those of these lines, besides those that were expected before, for each
/// name that of the last line that names it. Nothing else of the command
/// changes.
pub proof fn law_expect_lines_add_up(
    lines: Seq<ScriptLineView>,
    names: Seq<Seq<char>>,
    values: Seq<ShellBitView>,
    command: ScriptCommandView,
)
    requires
        lines.len() == names.len() == values.len(),
        forall|i: int| 0 <= i < lines.len() ==> expects(#[trigger] lines[i], names[i], values[i]),
    ensures
        meta_lines(lines, command) matches Ok(c) && given_last(
            command.expect,
            c.expect,
            names,
            values,
        ) && c == (ScriptCommandView { expect: c.expect, ..command }),
    decreases lines.len(),
{
    law_meta_lines_in_order(Seq::empty(), arbitrary(), command);
    if lines.len() == 0 {
        assert(lines =~= Seq::empty());
        assert(names =~= Seq::empty());
        assert(values =~= Seq::empty());
        lemma_given_none(command.expect);
    } else {
        let k = lines.len() - 1;
        let front = lines.drop_last();
        assert forall|i: int| 0 <= i < front.len() implies expects(
            #[trigger] front[i],
            names.drop_last()[i],
            values.drop_last()[i],
        ) by {
            assert(front[i] == lines[i]);
        }
        law_expect_lines_add_up(front, names.drop_last(), values.drop_last(), command);
        let before = meta_lines(front, command)->Ok_0;
        assert(expects(lines[k], names[k], values[k]));
        lemma_expect_line(lines[k], names[k], values[k], before);
        law_meta_lines_in_order(front, lines[k], command);
        assert(front.push(lines[k]) =~= lines);
        lemma_given_push(
            command.expect,
            before.expect,
            names.drop_last(),
            values.drop_last(),
            names[k],
            values[k],
        );
        assert(names.drop_last().push(names[k]) =~= names);
        assert(values.drop_last().push(values[k]) =~= values);
    }
}

/// What one `%` line does to a command: a `%SET` with a name alone keeps the
/// output, an `%EXPECT_FAILURE` turns the match round, an `%EXIT` says how the
/// command exits, a `%TIMEOUT` how long it may take. Each changes nothing
/// else. With too few words, or too many, the line is refused, at its place.
pub proof fn law_meta_words(
    line: ScriptLineView,
    words: Seq<ShellBitView>,
    command: ScriptCommandView,
)
    requires
        says(line, words),
    ensures
        ({
            let r = meta_line(line, command);
            let gives = |c: ScriptCommandView| r == Ok::<ScriptCommandView, ProblemView>(c);
            let exits = |exit: CommandExit| gives(ScriptCommandView { exit, ..command });
            let refused = |e: ScriptErrorType|
                r is Err && is_refused(r->Err_0, e, line.location, None);
            let n = words.len();
            let named = |a: Seq<char>, b: Seq<char>|
                n >= 1 && (words[0].text() == a || words[0].text() == b);
            &&& n == 0 ==> refused(ScriptErrorType::InvalidMetaCommand)
            &&& named("SET"@, "set"@) && n == 2 ==> gives(
                ScriptCommandView { set_var: Some(words[1].text()), ..command },
            )
            &&& named("SET"@, "set"@) && n != 2 && n != 3 ==> refused(
                ScriptErrorType::InvalidSetVariable,
            )
            &&& named("EXPECT"@, "expect"@) && n != 3 ==> refused(ScriptErrorType::InvalidMetaCommand)
            &&& named("EXPECT_FAILURE"@, "expect_failure"@) ==> gives(
                ScriptCommandView { expect_failure: true, ..command },
            )
            &&& named("EXIT"@, "exit"@) && n < 2 ==> refused(ScriptErrorType::InvalidMetaCommand)
            &&& named("EXIT"@, "exit"@) && n >= 2 && words[1].text() == "any"@ ==> exits(
                CommandExit::Any,
            )
            &&& named("EXIT"@, "exit"@) && n >= 2 && words[1].text() == "fail"@ ==> exits(
                CommandExit::AnyFailure,
            )
            &&& named("EXIT"@, "exit"@) && n >= 2 && words[1].text() == "timeout"@ ==> exits(
                CommandExit::Timeout,
            )
            &&& named("EXIT"@, "exit"@) && n >= 2 && words[1].text() != "any"@ && words[1].text()
                != "fail"@ && words[1].text() != "timeout"@ ==> match i32_value(words[1].text()) {
                Some(status) => exits(CommandExit::Failure(status as i32)),
                None => refused(ScriptErrorType::InvalidExitStatus),
            }
            &&& named("TIMEOUT"@, "timeout"@) && n < 2 ==> refused(ScriptErrorType::InvalidMetaCommand)
            &&& named("TIMEOUT"@, "timeout"@) && n >= 2 && duration_fits(with_spaces(words.skip(1)))
                ==> match duration_of(with_spaces(words.skip(1))) {
                Some((secs, nanos)) => gives(
                    ScriptCommandView { timeout: Some(Timeout { secs, nanos }), ..command },
                ),
                None => refused(ScriptErrorType::InvalidMetaCommand),
            }
            &&& n >= 1 && !named("SET"@, "set"@) && !named("EXPECT"@, "expect"@) && !named(
                "EXPECT_FAILURE"@,
                "expect_failure"@,
            ) && !named("EXIT"@, "exit"@) && !named("TIMEOUT"@, "timeout"@) ==> r is Err && is_refused(
                r->Err_0,
                ScriptErrorType::InvalidMetaCommand,
                line.location,
                Some(str_debug(line.text)),
            )
        }),
{
    lemma_says(line, words);
    lemma_words();
    lemma_more_words();
    lemma_with_spaces(words.skip(1));
}

proof fn lemma_more_words()
    ensures
        "EXPECT"@ != "SET"@,
        "EXIT"@ != "SET"@,
        "EXIT"@ != "EXPECT"@,
        "exit"@ != "SET"@,
        "TIMEOUT"@ != "SET"@,
        "TIMEOUT"@ != "EXIT"@,
        "TIMEOUT"@ != "exit"@,
        "timeout"@ != "SET"@,
        "timeout"@ != "EXIT"@,
        "timeout"@ != "exit"@,
        "EXPECT_FAILURE"@ != "SET"@,
        "expect_failure"@ != "SET"@,
        "set"@ != "EXPECT_FAILURE"@,
{
    lemma_words();
}

/// Words with a space between them.
pub open spec fn with_spaces(words: Seq<ShellBitView>) -> Seq<char>
    decreases words.len(),
{
    if words.len() == 0 {
        Seq::empty()
    } else if words.len() == 1 {
        words[0].text()
    } else {
        words[0].text() + seq![' '] + with_spaces(words.skip(1))
    }
}

proof fn lemma_with_spaces(words: Seq<ShellBitView>)
    ensures
        words_joined(words) == with_spaces(words),
    decreases words.len(),
{
    if words.len() >= 2 {
        lemma_joined_front(words);
        lemma_with_spaces(words.skip(1));
    }
}

proof fn lemma_joined_front(words: Seq<ShellBitView>)
    requires
        words.len() >= 2,
    ensures
        words_joined(words) == words[0].text() + seq![' '] + words_joined(words.skip(1)),
    decreases words.len(),
{
    let front = words.drop_last();
    let tail = words.skip(1);
    if words.len() == 2 {
        assert(front[0] == words[0]);
        assert(words_joined(front) == words[0].text());
        assert(tail.len() == 1);
        assert(tail[0] == words.last());
        assert(words_joined(words) =~= words[0].text() + seq![' '] + words_joined(tail));
    } else {
        lemma_joined_front(front);
        assert(front.skip(1) =~= tail.drop_last());
        assert(tail.last() == words.last());
        assert(front[0] == words[0]);
        assert(words_joined(words) =~= words[0].text() + seq![' '] + words_joined(tail));
    }
}

/// A line of a meta block that is no `%` line changes nothing.
pub proof fn law_other_lines_are_passed(line: ScriptLineView, command: ScriptCommandView)
    requires
        line.trimmed().len() > 0 ==> line.trimmed()[0] != '%',
    ensures
        meta_line(line, command) == Ok::<ScriptCommandView, ProblemView>(command),
{
    reveal_strlit("%");
    assert("%"@.len() == 1 && "%"@[0] == '%');
    if has_prefix(line.trimmed(), "%"@) {
        assert(line.trimmed().take(1)[0] == line.trimmed()[0]);
    }
}

} // verus!
