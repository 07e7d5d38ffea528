//! Scripts: where their text comes from, what is wrong with them, and what
//! they hold once parsed.
use crate::util::assoc::{entry, get, pairs_map};
use crate::util::path::NicePathBuf;
use crate::util::text::{has_prefix, lines, lines_of, lemma_lines_have_no_newline, push_str, chars_of, is_alphabetic, alphabetic, slice_of, str_eq, starts_with, strings_view, trim, trimmed, push_char};
use crate::util::shell::{bits_view, ShellBit, ShellBitView};
use crate::command::{CommandLine, CommandLineView};
use crate::output::pattern::{OutputPattern, OutputPatterns, PatternView};
use std::sync::Arc;
use vstd::prelude::*;

verus! {

/// `Arc::clone` gives a second handle on the same value.
#[verifier::external_body]
pub(crate) fn share<T>(handle: &Arc<T>) -> (r: Arc<T>)
    ensures
        r == *handle,
{
    Arc::clone(handle)
}

/// A script file.
#[derive(Debug)]
pub struct ScriptFile {
    /// The path of the file.
    pub file: Arc<NicePathBuf>,
    /// The number of lines that stand before the script in its file.
    pub base_line: usize,
}

impl Clone for ScriptFile {
    fn clone(&self) -> (r: Self)
        ensures
            r == *self,
    {
        ScriptFile { file: share(&self.file), base_line: self.base_line }
    }
}

impl ScriptFile {
    /// The script file at a path.
    pub fn new(path: &str) -> (r: Self)
        ensures
            r.file@ == path@,
            r.base_line == 0,
    {
        ScriptFile { file: Arc::new(NicePathBuf::new(path)), base_line: 0 }
    }

    /// The script that stands in the file at a path, behind `line` lines.
    pub fn new_with_line(path: &str, line: usize) -> (r: Self)
        ensures
            r.file@ == path@,
            r.base_line == line,
    {
        ScriptFile { file: Arc::new(NicePathBuf::new(path)), base_line: line }
    }
}

/// A line of a script file.
#[derive(Debug)]
pub struct ScriptLocation {
    /// The file.
    pub file: ScriptFile,
    /// The number of the line, counted from 1.
    pub line: usize,
}

impl Clone for ScriptLocation {
    fn clone(&self) -> (r: Self)
        ensures
            r == *self,
    {
        ScriptLocation { file: self.file.clone(), line: self.line }
    }
}

impl ScriptLocation {
    /// Line `line` of `file`.
    pub fn new(file: ScriptFile, line: usize) -> (r: Self)
        ensures
            r == (ScriptLocation { file, line }),
    {
        ScriptLocation { file, line }
    }
}

/// What is wrong with a script.
#[derive(Debug, Clone, Copy, PartialEq, Eq, Structural)]
pub enum ScriptErrorType {
    /// A command that runs in the background.
    BackgroundProcessNotAllowed,
    /// A word at the start of a line, with no `{` or `;` at its end.
    ExpectedBlockOrSemi,
    /// A command that ends in an operator.
    IllegalShellCommand,
    /// Arguments of a block that cannot be split into words.
    InvalidBlockArgs,
    /// A block that is not closed, or a `}` that closes none.
    InvalidBlockEnd,
    /// A block of an unknown kind.
    InvalidBlockType,
    /// An exit status that is not a number.
    InvalidExitStatus,
    /// A condition of an unknown form.
    InvalidIfCondition,
    /// A `;` line of an unknown form.
    InvalidInternalCommand,
    /// A `%` line of an unknown form.
    InvalidMetaCommand,
    /// A pattern of an unknown form, or one that does not compile.
    InvalidPattern,
    /// A `%SET` line with the wrong number of words.
    InvalidSetVariable,
    /// A script without a known header.
    InvalidVersion,
    /// A backslash at the end of the last line of a command.
    UnclosedBackslash,
    /// A quote that is not closed in a command.
    UnclosedQuote,
    /// A command where only patterns may stand.
    UnsupportedCommandPosition,
    /// A redirection that is not supported.
    UnsupportedRedirection,
}

/// What is wrong with a script, and where.
#[derive(Debug)]
pub struct ScriptError {
    /// What is wrong.
    pub error: ScriptErrorType,
    /// Where it is.
    pub location: ScriptLocation,
    /// The text that is at fault, if it says more.
    pub data: Option<String>,
}

/// The mathematical value of a [`ScriptError`].
pub struct ScriptErrorView {
    /// What is wrong.
    pub error: ScriptErrorType,
    /// Where it is.
    pub location: ScriptLocation,
    /// The text that is at fault, if it says more.
    pub data: Option<Seq<char>>,
}

impl View for ScriptError {
    type V = ScriptErrorView;

    open spec fn view(&self) -> ScriptErrorView {
        ScriptErrorView {
            error: self.error,
            location: self.location,
            data: match self.data {
                Some(d) => Some(d@),
                None => None,
            },
        }
    }
}

/// The error with no further text.
pub open spec fn plain_error(error: ScriptErrorType, location: ScriptLocation) -> ScriptErrorView {
    ScriptErrorView { error, location, data: None }
}

/// The error with further text.
pub open spec fn error_with(
    error: ScriptErrorType,
    location: ScriptLocation,
    data: Seq<char>,
) -> ScriptErrorView {
    ScriptErrorView { error, location, data: Some(data) }
}

impl ScriptError {
    /// The error with no further text.
    pub fn new(error: ScriptErrorType, location: ScriptLocation) -> (r: Self)
        ensures
            r@ == plain_error(error, location),
    {
        ScriptError { error, location, data: None }
    }

    /// The error with further text.
    pub fn new_with_data(error: ScriptErrorType, location: ScriptLocation, data: String) -> (r:
        Self)
        ensures
            r@ == error_with(error, location, data@),
    {
        ScriptError { error, location, data: Some(data) }
    }
}

/// One line of a script.
#[derive(Debug)]
pub struct ScriptLine {
    /// Where the line stands.
    pub location: ScriptLocation,
    /// The line as it was written.
    pub text: String,
}

/// The mathematical value of a [`ScriptLine`].
pub struct ScriptLineView {
    /// Where the line stands.
    pub location: ScriptLocation,
    /// The line as it was written.
    pub text: Seq<char>,
}

impl ScriptLineView {
    /// The line without surrounding white space.
    pub open spec fn trimmed(self) -> Seq<char> {
        trimmed(self.text)
    }
}

impl View for ScriptLine {
    type V = ScriptLineView;

    open spec fn view(&self) -> ScriptLineView {
        ScriptLineView { location: self.location, text: self.text@ }
    }
}

/// The views of a sequence of lines.
pub open spec fn script_lines_view(lines: Seq<ScriptLine>) -> Seq<ScriptLineView> {
    lines.map_values(|l: ScriptLine| l@)
}

/// The lines of a script text, numbered from 1.
pub open spec fn script_lines(file: ScriptFile, script: Seq<char>) -> Seq<ScriptLineView> {
    lines_of(script).map(
        |i: int, text: Seq<char>|
            ScriptLineView {
                location: ScriptLocation { file, line: (i + 1) as usize },
                text,
            },
    )
}

impl Clone for ScriptLine {
    fn clone(&self) -> (r: Self)
        ensures
            r@ == self@,
    {
        ScriptLine { location: self.location.clone(), text: self.text.clone() }
    }
}

impl ScriptLine {
    /// Line `line` of `file`.
    pub fn new(file: ScriptFile, line: usize, text: &str) -> (r: Self)
        ensures
            r@ == (ScriptLineView { location: (ScriptLocation { file, line }), text: text@ }),
    {
        ScriptLine { location: ScriptLocation::new(file, line), text: text.to_owned() }
    }

    /// Splits a script into its lines.
    pub fn parse(file: ScriptFile, script: &str) -> (r: Vec<ScriptLine>)
        ensures
            script_lines_view(r@) == script_lines(file, script@),
            forall|i: int| 0 <= i < r@.len() ==> !(#[trigger] r@[i]).text@.contains('\n'),
            forall|i: int| 0 <= i < r@.len() ==> (#[trigger] r@[i]).location.line == i + 1,
    {
        let texts = lines(script);
        let mut out: Vec<ScriptLine> = Vec::new();
        let mut i: usize = 0;
        while i < texts.len()
            invariant
                i <= texts@.len(),
                strings_view(texts@) == lines_of(script@),
                out@.len() == i,
                forall|j: int|
                    0 <= j < i ==> (#[trigger] out@[j])@ == script_lines(file, script@)[j]
                        && out@[j].location.line == j + 1,
            decreases texts@.len() - i,
        {
            proof {
                assert(lines_of(script@)[i as int] == texts@[i as int]@);
            }
            out.push(ScriptLine::new(file.clone(), i + 1, texts[i].as_str()));
            i += 1;
        }
        proof {
            lemma_lines_have_no_newline(script@);
            assert(script_lines_view(out@) =~= script_lines(file, script@));
            assert forall|j: int| 0 <= j < out@.len() implies !(#[trigger] out@[j]).text@.contains(
                '\n',
            ) by {
                assert(out@[j]@ == script_lines(file, script@)[j]);
                assert(out@[j].text@ == lines_of(script@)[j]);
            }
        }
        out
    }

    /// The line without surrounding white space.
    pub fn text(&self) -> (r: &str)
        ensures
            r@ == self@.trimmed(),
    {
        trim(self.text.as_str())
    }

    /// The line as it was written.
    pub fn text_untrimmed(&self) -> (r: &str)
        ensures
            r@ == self@.text,
    {
        self.text.as_str()
    }

    /// Whether the line, leading white space aside, begins with `prefix`.
    pub fn starts_with(&self, prefix: &str) -> (r: bool)
        ensures
            r == has_prefix(self@.trimmed(), prefix@),
    {
        starts_with(self.text(), prefix)
    }

    /// Whether the line holds only white space.
    pub fn is_empty(&self) -> (r: bool)
        ensures
            r == (self@.trimmed().len() == 0),
    {
        self.text().is_empty()
    }
}

/// A condition of an `if` block.
#[derive(Debug)]
pub enum IfCondition {
    /// Always met.
    True,
    /// Never met.
    False,
    /// Met if a variable has a value, or, if negated, if it has not.
    EnvEq(bool, String, ShellBit),
}

/// The mathematical value of an [`IfCondition`].
pub enum IfConditionView {
    /// Always met.
    True,
    /// Never met.
    False,
    /// Met if a variable has a value, or, if negated, if it has not.
    EnvEq(bool, Seq<char>, ShellBitView),
}

impl View for IfCondition {
    type V = IfConditionView;

    open spec fn view(&self) -> IfConditionView {
        match self {
            IfCondition::True => IfConditionView::True,
            IfCondition::False => IfConditionView::False,
            IfCondition::EnvEq(negated, name, value) => IfConditionView::EnvEq(
                *negated,
                name@,
                value@,
            ),
        }
    }
}

impl Clone for IfCondition {
    fn clone(&self) -> (r: Self)
        ensures
            r@ == self@,
    {
        match self {
            IfCondition::True => IfCondition::True,
            IfCondition::False => IfCondition::False,
            IfCondition::EnvEq(negated, name, value) => IfCondition::EnvEq(
                *negated,
                name.clone(),
                value.clone(),
            ),
        }
    }
}

/// What running a script knows: the variables that are set.
#[derive(Debug)]
pub struct ScriptRunContext {
    /// The variables and their values.
    pub env: Vec<(String, String)>,
}

impl Default for ScriptRunContext {
    fn default() -> (r: Self)
        ensures
            r.env@.len() == 0,
    {
        ScriptRunContext { env: Vec::new() }
    }
}

/// The value of a variable; one that is not set is empty.
pub open spec fn variable(env: Map<Seq<char>, Seq<char>>, name: Seq<char>) -> Seq<char> {
    match entry(env, name) {
        Some(value) => value,
        None => Seq::empty(),
    }
}

/// Whether a character can be part of a variable's name.
pub open spec fn name_char(c: char) -> bool {
    alphabetic(c) || '0' <= c <= '9' || c == '_'
}

/// The number of characters in front that can be part of a variable's name.
pub open spec fn name_len(s: Seq<char>) -> int
    decreases s.len(),
{
    if s.len() > 0 && name_char(s[0]) {
        1 + name_len(s.skip(1))
    } else {
        0
    }
}

/// The index of the first closing brace, or the length.
pub open spec fn brace_index(s: Seq<char>) -> int
    decreases s.len(),
{
    if s.len() == 0 || s[0] == '}' {
        0
    } else {
        1 + brace_index(s.skip(1))
    }
}

/// A text with `$NAME` and `${NAME}` replaced by the values of the variables.
/// A backslash keeps the next character as it is.
pub open spec fn expanded(s: Seq<char>, env: Map<Seq<char>, Seq<char>>) -> Seq<char>
    decreases s.len(),
{
    if s.len() == 0 {
        Seq::empty()
    } else if s[0] == '\\' && s.len() > 1 {
        seq![s[1]] + expanded(s.skip(2), env)
    } else if s[0] == '$' {
        let tail = s.skip(1);
        let brace = brace_index(tail);
        let plain = name_len(tail);
        if tail.len() > 0 && tail[0] == '{' && 1 <= brace < tail.len() {
            variable(env, tail.subrange(1, brace)) + expanded(tail.skip(brace + 1), env)
        } else if 1 <= plain <= tail.len() {
            variable(env, tail.take(plain)) + expanded(tail.skip(plain), env)
        } else {
            seq!['$'] + expanded(tail, env)
        }
    } else {
        seq![s[0]] + expanded(s.skip(1), env)
    }
}

/// Whether a condition is met under the variables. The variable of a
/// comparison may be written with or without its `$`.
pub open spec fn condition_met(c: IfConditionView, env: Map<Seq<char>, Seq<char>>) -> bool {
    match c {
        IfConditionView::True => true,
        IfConditionView::False => false,
        IfConditionView::EnvEq(negated, name, value) => {
            let left = if has_prefix(name, "$"@) {
                expanded(name, env)
            } else {
                variable(env, name)
            };
            let right = match value {
                ShellBitView::Literal(s) => s,
                ShellBitView::Quoted(s) => expanded(s, env),
            };
            (left == right) != negated
        },
    }
}

proof fn lemma_brace_index(s: Seq<char>)
    ensures
        0 <= brace_index(s) <= s.len(),
    decreases s.len(),
{
    if s.len() > 0 && s[0] != '}' {
        lemma_brace_index(s.skip(1));
    }
}

proof fn lemma_name_len(s: Seq<char>)
    ensures
        0 <= name_len(s) <= s.len(),
    decreases s.len(),
{
    if s.len() > 0 && name_char(s[0]) {
        lemma_name_len(s.skip(1));
    }
}

impl ScriptRunContext {
    /// The variables that are set.
    pub open spec fn variables(&self) -> Map<Seq<char>, Seq<char>> {
        pairs_map(self.env@)
    }

    /// The value of a variable; one that is not set is empty.
    pub fn value_of(&self, name: &str) -> (r: &str)
        ensures
            r@ == variable(self.variables(), name@),
    {
        match get(&self.env, name) {
            Some(value) => value.as_str(),
            None => {
                let empty: &str = "";
                proof {
                    reveal_strlit("");
                    assert(empty@ =~= Seq::empty());
                }
                empty
            },
        }
    }

    /// A text with references to variables replaced by their values.
    pub fn expand(&self, text: &str) -> (r: String)
        ensures
            r@ == expanded(text@, self.variables()),
    {
        let chars = chars_of(text);
        let n: usize = chars.len();
        let ghost env = self.variables();
        let mut out = String::new();
        let mut i: usize = 0;
        proof {
            assert(chars@.skip(0) =~= chars@);
            assert(out@ + expanded(text@, env) =~= expanded(text@, env));
        }
        while i < n
            invariant
                i <= n == chars@.len(),
                chars@ == text@,
                env == self.variables(),
                expanded(text@, env) == out@ + expanded(chars@.skip(i as int), env),
            decreases n - i,
        {
            let ghost rest = chars@.skip(i as int);
            let ghost before = out@;
            let c: char = chars[i];
            proof {
                assert(rest.skip(1) =~= chars@.skip(i + 1));
            }
            if c == '\\' && i + 1 < n {
                push_char(&mut out, chars[i + 1]);
                i += 2;
                proof {
                    assert(rest.skip(2) =~= chars@.skip(i as int));
                    assert(before.push(rest[1]) + expanded(rest.skip(2), env) =~= before + (
                    seq![rest[1]] + expanded(rest.skip(2), env)));
                }
                continue ;
            }
            if c == '$' {
                let ghost tail = rest.skip(1);
                proof {
                    lemma_brace_index(tail);
                    lemma_name_len(tail);
                }
                let mut k: usize = i + 1;
                proof {
                    assert(chars@.skip(k as int) =~= tail);
                }
                if k < n && chars[k] == '{' {
                    while k < n && chars[k] != '}'
                        invariant
                            i + 1 <= k <= n == chars@.len(),
                            brace_index(tail) == (k - i - 1) + brace_index(chars@.skip(k as int)),
                        decreases n - k,
                    {
                        proof {
                            assert(chars@.skip(k as int).skip(1) =~= chars@.skip(k + 1));
                        }
                        k += 1;
                    }
                    if k < n {
                        let name = slice_of(text, i + 2, k);
                        let value = self.value_of(name);
                        push_str(&mut out, value);
                        proof {
                            assert(tail.subrange(1, k - i - 1) =~= name@);
                            assert(tail.skip(k - i) =~= chars@.skip(k + 1));
                            assert(before + value@ + expanded(tail.skip(k - i), env) =~= before + (
                            value@ + expanded(tail.skip(k - i), env)));
                        }
                        i = k + 1;
                        continue ;
                    }
                }
                k = i + 1;
                while k < n && (is_alphabetic(chars[k]) || ('0' <= chars[k] && chars[k] <= '9')
                    || chars[k] == '_')
                    invariant
                        i + 1 <= k <= n == chars@.len(),
                        name_len(tail) == (k - i - 1) + name_len(chars@.skip(k as int)),
                    decreases n - k,
                {
                    proof {
                        assert(chars@.skip(k as int).skip(1) =~= chars@.skip(k + 1));
                    }
                    k += 1;
                }
                if k > i + 1 {
                    let name = slice_of(text, i + 1, k);
                    let value = self.value_of(name);
                    push_str(&mut out, value);
                    proof {
                        assert(tail.take(k - i - 1) =~= name@);
                        assert(tail.skip(k - i - 1) =~= chars@.skip(k as int));
                        assert(before + value@ + expanded(tail.skip(k - i - 1), env) =~= before + (
                        value@ + expanded(tail.skip(k - i - 1), env)));
                    }
                    i = k;
                    continue ;
                }
            }
            push_char(&mut out, c);
            i += 1;
            proof {
                assert(before.push(c) + expanded(rest.skip(1), env) =~= before + (seq![c]
                    + expanded(rest.skip(1), env)));
            }
        }
        proof {
            assert(chars@.skip(i as int) =~= Seq::empty());
            assert(out@ + Seq::<char>::empty() =~= out@);
        }
        out
    }
}

impl IfCondition {
    /// Whether the condition is met.
    pub fn matches(&self, context: &ScriptRunContext) -> (r: bool)
        ensures
            r == condition_met(self@, context.variables()),
    {
        match self {
            IfCondition::True => true,
            IfCondition::False => false,
            IfCondition::EnvEq(negated, name, value) => {
                let left = if starts_with(name.as_str(), "$") {
                    context.expand(name.as_str())
                } else {
                    context.value_of(name.as_str()).to_owned()
                };
                let right = match value {
                    ShellBit::Literal(s) => s.clone(),
                    ShellBit::Quoted(s) => context.expand(s.as_str()),
                };
                str_eq(left.as_str(), right.as_str()) != *negated
            },
        }
    }
}

/// How a command is expected to exit.
#[derive(Debug, Clone, Copy, PartialEq, Eq, Structural)]
pub enum CommandExit {
    /// With status 0.
    Success,
    /// In any way.
    Any,
    /// With any status but 0.
    AnyFailure,
    /// By taking too long.
    Timeout,
    /// With the given status.
    Failure(i32),
}

/// A length of time.
#[derive(Debug, Clone, Copy, PartialEq, Eq, Structural)]
pub struct Timeout {
    /// Whole seconds.
    pub secs: u64,
    /// The rest, in nanoseconds.
    pub nanos: u32,
}

/// A command and what is expected of it.
pub struct ScriptCommand {
    /// The command.
    pub command: CommandLine,
    /// What it writes.
    pub pattern: OutputPattern,
    /// How it exits.
    pub exit: CommandExit,
    /// Whether its output is expected not to match.
    pub expect_failure: bool,
    /// The variable that its output is kept in.
    pub set_var: Option<String>,
    /// The variables that are set from what was found in its output.
    pub set_vars: Vec<(String, ShellBit)>,
    /// How long it may take.
    pub timeout: Option<Timeout>,
    /// The values that are expected for names.
    pub expect: Vec<(String, ShellBit)>,
}

/// The mathematical value of a [`ScriptCommand`].
pub struct ScriptCommandView {
    /// The command.
    pub command: CommandLineView,
    /// What it writes.
    pub pattern: PatternView,
    /// How it exits.
    pub exit: CommandExit,
    /// Whether its output is expected not to match.
    pub expect_failure: bool,
    /// The variable that its output is kept in.
    pub set_var: Option<Seq<char>>,
    /// The variables that are set from what was found in its output.
    pub set_vars: Map<Seq<char>, ShellBitView>,
    /// How long it may take.
    pub timeout: Option<Timeout>,
    /// The values that are expected for names.
    pub expect: Map<Seq<char>, ShellBitView>,
}

impl ScriptCommand {
    /// The mathematical value of the command.
    pub open spec fn model(&self) -> ScriptCommandView {
        ScriptCommandView {
            command: self.command@,
            pattern: self.pattern.model(),
            exit: self.exit,
            expect_failure: self.expect_failure,
            set_var: match self.set_var {
                Some(s) => Some(s@),
                None => None,
            },
            set_vars: pairs_map(self.set_vars@),
            timeout: self.timeout,
            expect: pairs_map(self.expect@),
        }
    }
}

/// What a `for` block iterates over.
#[derive(Debug)]
pub enum ForCondition {
    /// A variable and the values that it takes.
    Env(String, Vec<ShellBit>),
}

/// A command that is run by the script itself.
#[derive(Debug)]
pub enum InternalCommand {
    /// Creates and uses a temporary directory.
    UsingTempdir,
    /// Uses a directory, which may be a new one.
    UsingDir(ShellBit, bool),
    /// Changes the working directory.
    ChangeDir(ShellBit),
    /// Sets a variable.
    SetVariable(String, ShellBit),
    /// Ends the script.
    ExitScript,
    /// Runs another script.
    Include(String),
    /// Defines a grok pattern.
    Pattern(String, String),
}

/// The mathematical value of an [`InternalCommand`].
pub enum InternalCommandView {
    /// Creates and uses a temporary directory.
    UsingTempdir,
    /// Uses a directory, which may be a new one.
    UsingDir(ShellBitView, bool),
    /// Changes the working directory.
    ChangeDir(ShellBitView),
    /// Sets a variable.
    SetVariable(Seq<char>, ShellBitView),
    /// Ends the script.
    ExitScript,
    /// Runs another script.
    Include(Seq<char>),
    /// Defines a grok pattern.
    Pattern(Seq<char>, Seq<char>),
}

impl View for InternalCommand {
    type V = InternalCommandView;

    open spec fn view(&self) -> InternalCommandView {
        match self {
            InternalCommand::UsingTempdir => InternalCommandView::UsingTempdir,
            InternalCommand::UsingDir(b, new) => InternalCommandView::UsingDir(b@, *new),
            InternalCommand::ChangeDir(b) => InternalCommandView::ChangeDir(b@),
            InternalCommand::SetVariable(s, b) => InternalCommandView::SetVariable(s@, b@),
            InternalCommand::ExitScript => InternalCommandView::ExitScript,
            InternalCommand::Include(s) => InternalCommandView::Include(s@),
            InternalCommand::Pattern(a, b) => InternalCommandView::Pattern(a@, b@),
        }
    }
}

/// A part of a script.
pub enum ScriptBlock {
    /// A command.
    Command(ScriptCommand),
    /// A command that is run by the script itself.
    InternalCommand(ScriptLocation, InternalCommand),
    /// Parts that run in the background.
    Background(Vec<ScriptBlock>),
    /// Parts that run at the end.
    Defer(Vec<ScriptBlock>),
    /// Parts that run under a condition.
    If(IfCondition, Vec<ScriptBlock>),
    /// Parts that run for each of some values.
    For(ForCondition, Vec<ScriptBlock>),
    /// Parts that run until they succeed.
    Retry(Vec<ScriptBlock>),
    /// What is skipped in the output of all commands.
    GlobalIgnore(OutputPatterns),
    /// What may not occur in the output of any command.
    GlobalReject(OutputPatterns),
}

/// The mathematical value of a [`ScriptBlock`].
pub enum ScriptBlockView {
    /// A command.
    Command(ScriptCommandView),
    /// A command that is run by the script itself.
    InternalCommand(ScriptLocation, InternalCommandView),
    /// Parts that run in the background.
    Background(Seq<ScriptBlockView>),
    /// Parts that run at the end.
    Defer(Seq<ScriptBlockView>),
    /// Parts that run under a condition.
    If(IfConditionView, Seq<ScriptBlockView>),
    /// Parts that run for each of some values of a variable.
    For(Seq<char>, Seq<ShellBitView>, Seq<ScriptBlockView>),
    /// Parts that run until they succeed.
    Retry(Seq<ScriptBlockView>),
    /// What is skipped in the output of all commands.
    GlobalIgnore(Seq<PatternView>),
    /// What may not occur in the output of any command.
    GlobalReject(Seq<PatternView>),
}

impl ScriptBlock {
    /// The mathematical value of the part.
    pub open spec fn model(&self) -> ScriptBlockView
        decreases self,
    {
        match self {
            ScriptBlock::Command(c) => ScriptBlockView::Command(c.model()),
            ScriptBlock::InternalCommand(l, c) => ScriptBlockView::InternalCommand(*l, c@),
            ScriptBlock::Background(v) => ScriptBlockView::Background(
                Seq::new(
                    v@.len(),
                    |i: int|
                        if 0 <= i < v@.len() {
                            v@[i].model()
                        } else {
                            arbitrary()
                        },
                ),
            ),
            ScriptBlock::Defer(v) => ScriptBlockView::Defer(
                Seq::new(
                    v@.len(),
                    |i: int|
                        if 0 <= i < v@.len() {
                            v@[i].model()
                        } else {
                            arbitrary()
                        },
                ),
            ),
            ScriptBlock::If(c, v) => ScriptBlockView::If(
                c@,
                Seq::new(
                    v@.len(),
                    |i: int|
                        if 0 <= i < v@.len() {
                            v@[i].model()
                        } else {
                            arbitrary()
                        },
                ),
            ),
            ScriptBlock::For(ForCondition::Env(name, values), v) => ScriptBlockView::For(
                name@,
                bits_view(values@),
                Seq::new(
                    v@.len(),
                    |i: int|
                        if 0 <= i < v@.len() {
                            v@[i].model()
                        } else {
                            arbitrary()
                        },
                ),
            ),
            ScriptBlock::Retry(v) => ScriptBlockView::Retry(
                Seq::new(
                    v@.len(),
                    |i: int|
                        if 0 <= i < v@.len() {
                            v@[i].model()
                        } else {
                            arbitrary()
                        },
                ),
            ),
            ScriptBlock::GlobalIgnore(p) => ScriptBlockView::GlobalIgnore(p.model()),
            ScriptBlock::GlobalReject(p) => ScriptBlockView::GlobalReject(p.model()),
        }
    }
}

/// The mathematical values of a sequence of parts.
pub open spec fn blocks_model(blocks: Seq<ScriptBlock>) -> Seq<ScriptBlockView> {
    Seq::new(blocks.len(), |i: int| blocks[i].model())
}

/// The parts within a part are those that its value holds.
pub proof fn lemma_block_lists(b: ScriptBlock)
    ensures
        b matches ScriptBlock::Background(v) ==> b.model() == ScriptBlockView::Background(
            blocks_model(v@),
        ),
        b matches ScriptBlock::Defer(v) ==> b.model() == ScriptBlockView::Defer(blocks_model(v@)),
        b matches ScriptBlock::If(c, v) ==> b.model() == ScriptBlockView::If(c@, blocks_model(v@)),
        b matches ScriptBlock::For(ForCondition::Env(name, values), v) ==> b.model()
            == ScriptBlockView::For(name@, bits_view(values@), blocks_model(v@)),
        b matches ScriptBlock::Retry(v) ==> b.model() == ScriptBlockView::Retry(blocks_model(v@)),
{
    match b {
        ScriptBlock::Background(v) => {
            assert(b.model()->Background_0 =~= blocks_model(v@));
        },
        ScriptBlock::Defer(v) => {
            assert(b.model()->Defer_0 =~= blocks_model(v@));
        },
        ScriptBlock::If(_, v) => {
            assert(b.model()->If_1 =~= blocks_model(v@));
        },
        ScriptBlock::For(ForCondition::Env(_, _), v) => {
            assert(b.model()->For_2 =~= blocks_model(v@));
        },
        ScriptBlock::Retry(v) => {
            assert(b.model()->Retry_0 =~= blocks_model(v@));
        },
        _ => {},
    }
}

/// A script.
pub struct Script {
    /// Its parts.
    pub commands: Vec<ScriptBlock>,
    /// Where it comes from.
    pub file: ScriptFile,
    /// The scripts that it runs, by the paths that it names them by.
    pub includes: Vec<(String, Script)>,
}

} // verus!
