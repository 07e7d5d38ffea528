//! Finding the end of a shell command.
use crate::command::{CommandLine, CommandLineView};
use crate::script::{ScriptErrorType, ScriptLocation};
use crate::util::text::{ascii_white, chars_of, is_ascii_whitespace};
use vstd::prelude::*;

verus! {

/// Where in a shell command a position stands.
#[derive(Clone, Copy, PartialEq, Eq, Structural)]
pub enum Lex {
    /// Behind white space or an operator of two characters.
    GroundFirst,
    /// In or directly behind a word.
    Ground,
    /// Behind a `<`, `>` or `|` in a word.
    Redirect,
    /// Behind an ampersand in a word that may be the first of two.
    Ampersand,
    /// Behind an operator character.
    Separator,
    /// Between single quotes.
    SingleQuoted,
    /// Between double quotes.
    DoubleQuoted,
    /// Behind a backslash between double quotes.
    DoubleQuotedBackslash,
    /// Behind a backslash outside quotes.
    Backslash,
    /// In a comment.
    Comment,
}

/// A bracket that is open outside quotes, escapes and comments.
#[derive(Clone, Copy, PartialEq, Eq, Structural)]
pub struct Bracket {
    /// Whether it is the brace of a `${`. Otherwise it is a parenthesis.
    pub brace: bool,
    /// Whether what it holds is calculated or substituted, and not run: it is
    /// one of a `((`, the brace of a `${`, or stands within one of these.
    pub calculated: bool,
}

/// The character before a position, as far as it has to do with brackets.
#[derive(Clone, Copy, PartialEq, Eq, Structural)]
pub enum Before {
    /// A `$`.
    Dollar,
    /// A `(`.
    Parenthesis,
    /// Anything else, or one of these within quotes or escaped.
    Other,
}

/// The brackets that are open at a position.
pub struct Nest {
    /// The brackets, the innermost last.
    pub open: Seq<Bracket>,
    /// The character before.
    pub before: Before,
}

/// Whether what stands at a position is calculated or substituted, and not
/// run.
pub open spec fn is_calculated(open: Seq<Bracket>) -> bool {
    open.len() > 0 && open.last().calculated
}

/// What reading a part of a shell command comes to.
#[derive(Clone, Copy, PartialEq, Eq, Structural)]
pub enum Lexed {
    /// It can be read on from here.
    At(Lex),
    /// It is refused whatever follows.
    Refused(ScriptErrorType),
    /// It has a line feed outside quotes, comments and escapes.
    StrayNewline,
}

/// The characters that make up shell operators.
pub open spec fn separator_char(c: char) -> bool {
    c == '>' || c == '<' || c == '&' || c == '|' || c == ';' || c == '(' || c == ')' || c == '='
}

/// Reading an ordinary character behind a word or an operator. `stay` is
/// where a character leads that has no meaning of its own.
pub open spec fn lex_plain(c: char, stay: Lex) -> Lexed {
    if c == '\'' {
        Lexed::At(Lex::SingleQuoted)
    } else if c == '"' {
        Lexed::At(Lex::DoubleQuoted)
    } else if c == '\\' {
        Lexed::At(Lex::Backslash)
    } else if c == '#' {
        Lexed::At(Lex::Comment)
    } else if c == '\n' {
        Lexed::StrayNewline
    } else if ascii_white(c) {
        Lexed::At(Lex::GroundFirst)
    } else {
        Lexed::At(stay)
    }
}

/// Reading a character other than an ampersand in or directly behind a word.
pub open spec fn lex_word(c: char) -> Lexed {
    if c == '<' || c == '>' || c == '|' {
        Lexed::At(Lex::Redirect)
    } else {
        lex_plain(c, Lex::Ground)
    }
}

/// Whether a character before a `|` makes up a `||` with it: only its low byte
/// counts.
pub open spec fn is_bar(last: char) -> bool {
    (last as int) % 256 == '|' as int
}

/// Reading one more character `c`, where `last` is the one before it, and
/// `calculated` says whether it is not run.
pub open spec fn lex_step(at: Lex, last: char, c: char, calculated: bool) -> Lexed {
    match at {
        Lex::GroundFirst => if separator_char(c) {
            Lexed::At(Lex::Separator)
        } else {
            lex_plain(c, Lex::Ground)
        },
        Lex::Ground => if c == '&' {
            Lexed::At(
                if calculated {
                    Lex::Ground
                } else {
                    Lex::Ampersand
                },
            )
        } else {
            lex_word(c)
        },
        Lex::Redirect => if c == '&' {
            Lexed::At(Lex::Ground)
        } else {
            lex_word(c)
        },
        Lex::Ampersand => if c == '&' {
            Lexed::At(Lex::Ground)
        } else if c == '>' {
            Lexed::At(Lex::Redirect)
        } else {
            Lexed::Refused(ScriptErrorType::BackgroundProcessNotAllowed)
        },
        Lex::Separator => if last == '>' && c == '&' {
            Lexed::Refused(ScriptErrorType::UnsupportedRedirection)
        } else if (last == '&' && c == '&') || (is_bar(last) && c == '|') {
            Lexed::At(Lex::GroundFirst)
        } else if last == '&' {
            Lexed::Refused(ScriptErrorType::BackgroundProcessNotAllowed)
        } else {
            lex_plain(c, Lex::Separator)
        },
        Lex::SingleQuoted => Lexed::At(
            if c == '\'' {
                Lex::Ground
            } else {
                Lex::SingleQuoted
            },
        ),
        Lex::DoubleQuoted => Lexed::At(
            if c == '"' {
                Lex::Ground
            } else if c == '\\' {
                Lex::DoubleQuotedBackslash
            } else {
                Lex::DoubleQuoted
            },
        ),
        Lex::DoubleQuotedBackslash => Lexed::At(Lex::DoubleQuoted),
        Lex::Backslash => Lexed::At(Lex::Ground),
        Lex::Comment => Lexed::At(
            if c == '\n' {
                Lex::Ground
            } else {
                Lex::Comment
            },
        ),
    }
}

/// The last character of a text, or a null character.
pub open spec fn last_char(s: Seq<char>) -> char {
    if s.len() == 0 {
        '\0'
    } else {
        s.last()
    }
}

/// Whether brackets count at a position: it is outside quotes, escapes and
/// comments.
pub open spec fn brackets_count(at: Lex) -> bool {
    at == Lex::GroundFirst || at == Lex::Ground || at == Lex::Redirect || at == Lex::Ampersand || at
        == Lex::Separator
}

/// The brackets that are open behind one more character.
pub open spec fn nest_step(nest: Nest, at: Lex, c: char) -> Nest {
    let open = nest.open;
    if !brackets_count(at) {
        Nest { before: Before::Other, ..nest }
    } else if c == '(' && nest.before == Before::Parenthesis && open.len() > 0 {
        let both = Bracket { brace: false, calculated: true };
        Nest { open: open.drop_last().push(both).push(both), before: Before::Parenthesis }
    } else if c == '(' {
        let calculated = nest.before != Before::Dollar && is_calculated(open);
        Nest {
            open: open.push(Bracket { brace: false, calculated }),
            before: Before::Parenthesis,
        }
    } else if c == '{' && nest.before == Before::Dollar {
        Nest {
            open: open.push(Bracket { brace: true, calculated: true }),
            before: Before::Other,
        }
    } else if open.len() > 0 && ((c == ')' && !open.last().brace) || (c == '}'
        && open.last().brace)) {
        Nest { open: open.drop_last(), before: Before::Other }
    } else {
        Nest {
            before: if c == '$' {
                Before::Dollar
            } else {
                Before::Other
            },
            ..nest
        }
    }
}

/// What reading the text `s` from its start comes to.
pub open spec fn lex(s: Seq<char>) -> Lexed
    decreases s.len(),
{
    if s.len() == 0 {
        Lexed::At(Lex::Ground)
    } else {
        let front = s.drop_last();
        match lex(front) {
            Lexed::At(at) => lex_step(
                at,
                last_char(front),
                s.last(),
                is_calculated(nest(front).open),
            ),
            stopped => stopped,
        }
    }
}

/// The brackets that are open behind the text `s`.
pub open spec fn nest(s: Seq<char>) -> Nest
    decreases s.len(),
{
    if s.len() == 0 {
        Nest { open: Seq::empty(), before: Before::Other }
    } else {
        let front = s.drop_last();
        match lex(front) {
            Lexed::At(at) => nest_step(nest(front), at, s.last()),
            _ => nest(front),
        }
    }
}

/// What is wrong with the text of a command, if anything is.
pub open spec fn command_fault(s: Seq<char>) -> Option<ScriptErrorType> {
    match lex(s) {
        Lexed::Refused(e) => Some(e),
        Lexed::At(Lex::SingleQuoted) => Some(ScriptErrorType::UnclosedQuote),
        Lexed::At(Lex::DoubleQuoted) => Some(ScriptErrorType::UnclosedQuote),
        Lexed::At(Lex::Backslash) => Some(ScriptErrorType::UnclosedBackslash),
        Lexed::At(Lex::DoubleQuotedBackslash) => Some(ScriptErrorType::UnclosedBackslash),
        Lexed::At(Lex::Ampersand) => Some(ScriptErrorType::BackgroundProcessNotAllowed),
        Lexed::At(Lex::Separator) => if last_char(s) == '&' {
            Some(ScriptErrorType::BackgroundProcessNotAllowed)
        } else if last_char(s) != ';' {
            Some(ScriptErrorType::IllegalShellCommand)
        } else {
            None
        },
        _ => None,
    }
}

/// Whether a command goes on in the next line.
pub open spec fn command_continues(s: Seq<char>) -> bool {
    command_fault(s) == Some(ScriptErrorType::UnclosedQuote) || command_fault(s) == Some(
        ScriptErrorType::UnclosedBackslash,
    )
}

/// No line feed stands outside quotes, comments and escapes.
pub open spec fn no_stray_newline(s: Seq<char>) -> bool {
    lex(s) != Lexed::StrayNewline
}

/// More text without a line feed brings in no stray one.
pub proof fn lemma_append_no_stray_newline(s: Seq<char>, t: Seq<char>)
    requires
        no_stray_newline(s),
        !t.contains('\n'),
    ensures
        no_stray_newline(s + t),
    decreases t.len(),
{
    if t.len() == 0 {
        assert(s + t =~= s);
    } else {
        assert(t.contains(t.last()));
        assert forall|c: char| t.drop_last().contains(c) implies t.contains(c) by {
            let i = choose|i: int| 0 <= i < t.drop_last().len() && t.drop_last()[i] == c;
            assert(t[i] == c);
        }
        lemma_append_no_stray_newline(s, t.drop_last());
        assert((s + t).drop_last() =~= s + t.drop_last());
        assert((s + t).last() == t.last());
    }
}

/// A text without a line feed has no stray one.
pub proof fn lemma_single_line_no_stray_newline(s: Seq<char>)
    requires
        !s.contains('\n'),
    ensures
        no_stray_newline(s),
{
    lemma_append_no_stray_newline(Seq::empty(), s);
    assert(Seq::<char>::empty() + s =~= s);
}

/// A command that ends inside quotes or behind a backslash can be continued
/// on the next line.
pub proof fn lemma_continue_no_stray_newline(s: Seq<char>, t: Seq<char>)
    requires
        command_continues(s),
        !t.contains('\n'),
    ensures
        no_stray_newline(s.push('\n') + t),
{
    assert(lex(s) !is Refused) by {
        lemma_refused_is_final(s);
    }
    assert(s.push('\n').drop_last() =~= s);
    lemma_append_no_stray_newline(s.push('\n'), t);
}

/// Reading is refused only for a background process or a redirection.
proof fn lemma_refused_is_final(s: Seq<char>)
    ensures
        lex(s) matches Lexed::Refused(e) ==> e == ScriptErrorType::BackgroundProcessNotAllowed || e
            == ScriptErrorType::UnsupportedRedirection,
    decreases s.len(),
{
    if s.len() > 0 {
        lemma_refused_is_final(s.drop_last());
    }
}

/// Whether a command that is read up to here stands outside quotes and
/// escapes, and is not refused for an ampersand just before.
pub open spec fn outside_quotes(s: Seq<char>) -> bool {
    ||| lex(s) == Lexed::At(Lex::Ground)
    ||| lex(s) == Lexed::At(Lex::GroundFirst)
    ||| lex(s) == Lexed::At(Lex::Redirect)
    ||| lex(s) == Lexed::At(Lex::Separator) && last_char(s) != '&'
}

/// Outside of quotes, a comment always ends the command: whatever the rest of
/// the line holds, the command is complete.
pub proof fn law_comment_ends_command(s: Seq<char>, comment: Seq<char>)
    requires
        outside_quotes(s),
        !comment.contains('\n'),
    ensures
        command_fault(s.push('#') + comment) is None,
{
    assert(s.push('#').drop_last() =~= s);
    lemma_comment_stays(s.push('#'), comment);
}

proof fn lemma_comment_stays(s: Seq<char>, t: Seq<char>)
    requires
        lex(s) == Lexed::At(Lex::Comment),
        !t.contains('\n'),
    ensures
        lex(s + t) == Lexed::At(Lex::Comment),
    decreases t.len(),
{
    if t.len() == 0 {
        assert(s + t =~= s);
    } else {
        assert(t.contains(t.last()));
        assert forall|c: char| t.drop_last().contains(c) implies t.contains(c) by {
            let i = choose|i: int| 0 <= i < t.drop_last().len() && t.drop_last()[i] == c;
            assert(t[i] == c);
        }
        lemma_comment_stays(s, t.drop_last());
        assert((s + t).drop_last() =~= s + t.drop_last());
    }
}

/// Where an ampersand is neither the second of two nor part of a redirection,
/// and is run.
pub open spec fn ampersand_stands_alone(s: Seq<char>) -> bool {
    ||| lex(s) == Lexed::At(Lex::Ground) && !is_calculated(nest(s).open)
    ||| lex(s) == Lexed::At(Lex::GroundFirst)
    ||| lex(s) == Lexed::At(Lex::Separator) && last_char(s) != '&' && last_char(s) != '>'
        && last_char(s) != '<'
}

/// Within a word, an ampersand in `$((..))`, `((..))` or `${..}` is no
/// background process, nor is one behind a `<`, `>` or `|`: the command is
/// read on.
pub proof fn law_calculated_ampersand_passes(s: Seq<char>)
    requires
        lex(s) == Lexed::At(Lex::Redirect) || lex(s) == Lexed::At(Lex::Ground) && is_calculated(
            nest(s).open,
        ),
    ensures
        lex(s.push('&')) == Lexed::At(Lex::Ground),
        nest(s.push('&')).open == nest(s).open,
{
    assert(s.push('&').drop_last() =~= s);
}

/// A background process is refused wherever it stands: an ampersand outside
/// quotes, escapes and comments that is neither half of `&&` nor part of a
/// redirection or, within a word, of `$((..))`, `((..))` or `${..}`, whatever
/// follows it.
pub proof fn law_background_is_refused(s: Seq<char>, rest: Seq<char>)
    requires
        ampersand_stands_alone(s),
        rest.len() > 0 ==> rest[0] != '&',
        rest.len() > 0 && rest[0] == '>' ==> lex(s) != Lexed::At(Lex::Ground),
    ensures
        command_fault(s.push('&') + rest) == Some(ScriptErrorType::BackgroundProcessNotAllowed),
{
    let one = s.push('&');
    assert(one.drop_last() =~= s);
    assert(last_char(one) == '&');
    if rest.len() == 0 {
        assert(one + rest =~= one);
    } else {
        let two = one.push(rest[0]);
        assert(two.drop_last() =~= one);
        let all = one + rest;
        assert(all.take(two.len() as int) =~= two);
        lemma_stopped(all, two.len() as int);
    }
}

/// A backslash escapes the next character, except within single quotes: where
/// a word or a double-quoted string stood before, it stands again behind the
/// pair, whatever character was escaped.
pub proof fn law_backslash_escapes(s: Seq<char>, c: char)
    requires
        outside_quotes(s) || lex(s) == Lexed::At(Lex::DoubleQuoted),
    ensures
        lex(s.push('\\').push(c)) == Lexed::At(
            if lex(s) == Lexed::At(Lex::DoubleQuoted) {
                Lex::DoubleQuoted
            } else {
                Lex::Ground
            },
        ),
{
    assert(s.push('\\').drop_last() =~= s);
    assert(lex(s.push('\\')) is At);
    assert(s.push('\\').push(c).drop_last() =~= s.push('\\'));
}

/// Within single quotes a backslash escapes nothing.
pub proof fn law_single_quotes_keep_backslash(s: Seq<char>)
    requires
        lex(s) == Lexed::At(Lex::SingleQuoted),
    ensures
        lex(s.push('\\')) == Lexed::At(Lex::SingleQuoted),
        lex(s.push('\\').push('\'')) == Lexed::At(Lex::Ground),
{
    assert(s.push('\\').drop_last() =~= s);
    assert(lex(s.push('\\')) == Lexed::At(Lex::SingleQuoted));
    assert(s.push('\\').push('\'').drop_last() =~= s.push('\\'));
}

/// A line feed within quotes or behind a backslash continues the command on
/// the next line.
pub proof fn law_newline_continues(s: Seq<char>)
    requires
        command_continues(s),
    ensures
        no_stray_newline(s.push('\n')),
        lex(s) == Lexed::At(Lex::SingleQuoted) || lex(s) == Lexed::At(Lex::DoubleQuoted)
            ==> command_continues(s.push('\n')),
{
    lemma_refused_is_final(s);
    assert(s.push('\n').drop_last() =~= s);
}

/// Whether a character belongs to a shell operator.
fn is_separator_char(c: char) -> (r: bool)
    ensures
        r == separator_char(c),
{
    c == '>' || c == '<' || c == '&' || c == '|' || c == ';' || c == '(' || c == ')' || c == '='
}

/// Reads one character that has no meaning of its own for the state.
fn step_plain(c: char, stay: Lex) -> (r: Lexed)
    ensures
        r == lex_plain(c, stay),
{
    if c == '\'' {
        Lexed::At(Lex::SingleQuoted)
    } else if c == '"' {
        Lexed::At(Lex::DoubleQuoted)
    } else if c == '\\' {
        Lexed::At(Lex::Backslash)
    } else if c == '#' {
        Lexed::At(Lex::Comment)
    } else if c == '\n' {
        Lexed::StrayNewline
    } else if is_ascii_whitespace(c) {
        Lexed::At(Lex::GroundFirst)
    } else {
        Lexed::At(stay)
    }
}

/// Reads one character other than an ampersand in or directly behind a word.
fn step_word(c: char) -> (r: Lexed)
    ensures
        r == lex_word(c),
{
    if c == '<' || c == '>' || c == '|' {
        Lexed::At(Lex::Redirect)
    } else {
        step_plain(c, Lex::Ground)
    }
}

/// Reads one character.
fn step(at: Lex, last: char, c: char, calculated: bool) -> (r: Lexed)
    ensures
        r == lex_step(at, last, c, calculated),
{
    match at {
        Lex::GroundFirst => {
            if is_separator_char(c) {
                Lexed::At(Lex::Separator)
            } else {
                step_plain(c, Lex::Ground)
            }
        },
        Lex::Ground => {
            if c == '&' {
                Lexed::At(
                    if calculated {
                        Lex::Ground
                    } else {
                        Lex::Ampersand
                    },
                )
            } else {
                step_word(c)
            }
        },
        Lex::Redirect => {
            if c == '&' {
                Lexed::At(Lex::Ground)
            } else {
                step_word(c)
            }
        },
        Lex::Ampersand => {
            if c == '&' {
                Lexed::At(Lex::Ground)
            } else if c == '>' {
                Lexed::At(Lex::Redirect)
            } else {
                Lexed::Refused(ScriptErrorType::BackgroundProcessNotAllowed)
            }
        },
        Lex::Separator => {
            let low: u32 = last as u32 % 256;
            if last == '>' && c == '&' {
                Lexed::Refused(ScriptErrorType::UnsupportedRedirection)
            } else if (last == '&' && c == '&') || (low == '|' as u32 && c == '|') {
                Lexed::At(Lex::GroundFirst)
            } else if last == '&' {
                Lexed::Refused(ScriptErrorType::BackgroundProcessNotAllowed)
            } else {
                step_plain(c, Lex::Separator)
            }
        },
        Lex::SingleQuoted => Lexed::At(
            if c == '\'' {
                Lex::Ground
            } else {
                Lex::SingleQuoted
            },
        ),
        Lex::DoubleQuoted => {
            if c == '"' {
                Lexed::At(Lex::Ground)
            } else if c == '\\' {
                Lexed::At(Lex::DoubleQuotedBackslash)
            } else {
                Lexed::At(Lex::DoubleQuoted)
            }
        },
        Lex::DoubleQuotedBackslash => Lexed::At(Lex::DoubleQuoted),
        Lex::Backslash => Lexed::At(Lex::Ground),
        Lex::Comment => Lexed::At(
            if c == '\n' {
                Lex::Ground
            } else {
                Lex::Comment
            },
        ),
    }
}

/// The brackets that are open while a command is read.
struct Brackets {
    open: Vec<Bracket>,
    before: Before,
}

impl Brackets {
    spec fn state(&self) -> Nest {
        Nest { open: self.open@, before: self.before }
    }

    /// Whether what stands here is not run.
    fn calculated(&self) -> (r: bool)
        ensures
            r == is_calculated(self.open@),
    {
        let n: usize = self.open.len();
        n > 0 && self.open[n - 1].calculated
    }

    /// Reads one character.
    fn read(&mut self, at: Lex, c: char)
        ensures
            final(self).state() == nest_step(old(self).state(), at, c),
    {
        let counts = matches!(at, Lex::GroundFirst) || matches!(at, Lex::Ground) || matches!(
            at,
            Lex::Redirect
        ) || matches!(at, Lex::Ampersand) || matches!(at, Lex::Separator);
        if !counts {
            self.before = Before::Other;
            return ;
        }
        let n: usize = self.open.len();
        if c == '(' && matches!(self.before, Before::Parenthesis) && n > 0 {
            let both = Bracket { brace: false, calculated: true };
            let _ = self.open.pop();
            self.open.push(both);
            self.open.push(both);
        } else if c == '(' {
            let calculated = !matches!(self.before, Before::Dollar) && self.calculated();
            self.open.push(Bracket { brace: false, calculated });
            self.before = Before::Parenthesis;
        } else if c == '{' && matches!(self.before, Before::Dollar) {
            self.open.push(Bracket { brace: true, calculated: true });
            self.before = Before::Other;
        } else if n > 0 && ((c == ')' && !self.open[n - 1].brace) || (c == '}' && self.open[n
            - 1].brace)) {
            let _ = self.open.pop();
            self.before = Before::Other;
        } else {
            self.before = if c == '$' {
                Before::Dollar
            } else {
                Before::Other
            };
        }
    }
}

/// A stopped read stays stopped when text is added.
proof fn lemma_stopped(s: Seq<char>, k: int)
    requires
        0 <= k <= s.len(),
        !(lex(s.take(k)) is At),
    ensures
        lex(s) == lex(s.take(k)),
    decreases s.len() - k,
{
    if k < s.len() {
        assert(s.take(k + 1).drop_last() =~= s.take(k));
        lemma_stopped(s, k + 1);
    } else {
        assert(s.take(k) =~= s);
    }
}

/// This does a light-weight parse of a command-line to most determine the
/// extent of the command-line. The shell is currently responsible for actual
/// validation and running of the command.
///
/// Important rules:
///
///  - Backslashes escape the next character, except within a single-quoted
///    string
///  - Newlines within quoted strings or after a backslash continue the shell
///    command to the next line
///  - Outside of a quoted string, a comment always ends the command-line
///
/// Returns:
///
///  - UnclosedQuote if the command-line is unclosed because of a missing quote
///  - UnclosedBackslash if the command-line is unclosed because of a missing
///    backslash
///  - IllegalShellCommand if the command-line is invalid
///  - BackgroundProcessNotAllowed if the command-line contains a background
///    process
///  - UnsupportedRedirection if the command-line contains an unsupported
///    redirection
pub fn parse_command_line(location: ScriptLocation, line_count: usize, command: &str) -> (r: Result<
    CommandLine,
    ScriptErrorType,
>)
    requires
        no_stray_newline(command@),
    ensures
        match r {
            Ok(line) => command_fault(command@) is None && line@ == (CommandLineView {
                command: command@,
                location: location,
                line_count: line_count as int,
            }),
            Err(e) => command_fault(command@) == Some(e),
        },
{
    let chars = chars_of(command);
    let mut at = Lex::Ground;
    let mut last: char = '\0';
    let mut brackets = Brackets { open: Vec::new(), before: Before::Other };
    let mut i: usize = 0;
    proof {
        assert(brackets.open@ =~= Seq::empty());
    }
    while i < chars.len()
        invariant
            i <= chars@.len(),
            chars@ == command@,
            no_stray_newline(command@),
            lex(chars@.take(i as int)) == Lexed::At(at),
            last == last_char(chars@.take(i as int)),
            brackets.state() == nest(chars@.take(i as int)),
        decreases chars@.len() - i,
    {
        let c: char = chars[i];
        proof {
            assert(chars@.take(i + 1).drop_last() =~= chars@.take(i as int));
        }
        match step(at, last, c, brackets.calculated()) {
            Lexed::At(next) => {
                brackets.read(at, c);
                at = next;
            },
            Lexed::Refused(e) => {
                proof {
                    lemma_stopped(chars@, i + 1);
                }
                return Err(e);
            },
            Lexed::StrayNewline => {
                proof {
                    lemma_stopped(chars@, i + 1);
                }
            },
        }
        last = c;
        i += 1;
    }
    proof {
        assert(chars@.take(i as int) =~= command@);
    }
    match at {
        Lex::SingleQuoted | Lex::DoubleQuoted => Err(ScriptErrorType::UnclosedQuote),
        Lex::Backslash | Lex::DoubleQuotedBackslash => Err(ScriptErrorType::UnclosedBackslash),
        Lex::Ampersand => Err(ScriptErrorType::BackgroundProcessNotAllowed),
        Lex::Separator if last == '&' => Err(ScriptErrorType::BackgroundProcessNotAllowed),
        Lex::Separator if last != ';' => Err(ScriptErrorType::IllegalShellCommand),
        Lex::Separator | Lex::Comment | Lex::Ground | Lex::GroundFirst | Lex::Redirect => Ok(
            CommandLine::new(command.to_owned(), location, line_count),
        ),
    }
}

} // verus!
