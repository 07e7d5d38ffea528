//! Reading the patterns of a script.
use crate::output::grok::{compiled_line, GrokPattern};
use crate::output::pattern::{
    bare, lemma_kind_lists, patterns_model, sequence_of, KindView, OutputPattern,
    OutputPatternType, OutputPatterns, PatternView,
};
use crate::parser::v0::segment::{
    segments_model, ScriptV0Segment, SegmentView, ESCAPED_MULTILINE, LITERAL_MULTILINE,
    REGEX_MULTILINE,
};
use crate::script::{
    error_with, plain_error, script_lines_view, IfCondition, IfConditionView, ScriptError,
    ScriptErrorType, ScriptErrorView, ScriptLine, ScriptLineView, ScriptLocation,
};
use crate::util::shell::{bits_view, ShellBit, ShellBitView};
use crate::util::text::{
    chars_of, debug_str, has_prefix, leading_white, push_str, slice_of, str_debug, str_eq, string_of, trim_end,
    trimmed_end, trimmed_start, push_char};
use std::sync::Arc;
use vstd::prelude::*;
use vstd::utf8::{encode_scalar, encode_utf8};

verus! {

/// Why a script was not parsed.
#[derive(Debug)]
pub enum Problem {
    /// It is in error.
    Script(ScriptError),
    /// It holds what cannot be read at all.
    Unreadable,
}

/// The mathematical value of a [`Problem`].
pub enum ProblemView {
    /// The script is in error.
    Script(ScriptErrorView),
    /// The script holds what cannot be read at all.
    Unreadable,
}

impl View for Problem {
    type V = ProblemView;

    open spec fn view(&self) -> ProblemView {
        match self {
            Problem::Script(e) => ProblemView::Script(e@),
            Problem::Unreadable => ProblemView::Unreadable,
        }
    }
}

/// The problem that is an error with no further text.
pub open spec fn refused(error: ScriptErrorType, location: ScriptLocation) -> ProblemView {
    ProblemView::Script(plain_error(error, location))
}

/// The problem that is an error with further text.
pub open spec fn refused_with(
    error: ScriptErrorType,
    location: ScriptLocation,
    data: Seq<char>,
) -> ProblemView {
    ProblemView::Script(error_with(error, location, data))
}

pub(crate) fn refuse(error: ScriptErrorType, location: &ScriptLocation) -> (r: Problem)
    ensures
        r@ == refused(error, *location),
{
    Problem::Script(ScriptError::new(error, location.clone()))
}

pub(crate) fn refuse_with(error: ScriptErrorType, location: &ScriptLocation, data: String) -> (r:
    Problem)
    ensures
        r@ == refused_with(error, *location, data@),
{
    Problem::Script(ScriptError::new_with_data(error, location.clone(), data))
}

/// The words of a list in front of its last one, each with a comma behind.
pub open spec fn words_debug(words: Seq<ShellBitView>) -> Seq<char>
    decreases words.len(),
{
    if words.len() == 0 {
        Seq::empty()
    } else if words.len() == 1 {
        str_debug(words[0].text())
    } else {
        words_debug(words.drop_last()) + ", "@ + str_debug(words.last().text())
    }
}

/// A list of words in brackets, each in quotes.
pub open spec fn list_debug(words: Seq<ShellBitView>) -> Seq<char> {
    "["@ + words_debug(words) + "]"@
}

/// Formats a list of words.
pub(crate) fn debug_list(words: &[ShellBit]) -> (r: String)
    ensures
        r@ == list_debug(bits_view(words@)),
{
    let ghost view = bits_view(words@);
    let mut out = "[".to_owned();
    let mut i: usize = 0;
    proof {
        assert(view.take(0) =~= Seq::empty());
        assert("["@ + Seq::<char>::empty() =~= "["@);
    }
    while i < words.len()
        invariant
            i <= words@.len(),
            view == bits_view(words@),
            out@ == "["@ + words_debug(view.take(i as int)),
        decreases words@.len() - i,
    {
        let ghost before = out@;
        let ghost front = words_debug(view.take(i as int));
        let word = debug_str(words[i].as_str());
        if i > 0 {
            push_str(&mut out, ", ");
        }
        push_str(&mut out, word.as_str());
        proof {
            let next = view.take(i + 1);
            assert(next.drop_last() =~= view.take(i as int));
            assert(next.last() == words@[i as int]@);
            if i == 0 {
                assert(next[0] == words@[0]@);
                assert(front =~= Seq::empty());
                assert(out@ =~= "["@ + words_debug(next));
            } else {
                assert(words_debug(next) == front + ", "@ + word@);
                assert(out@ =~= "["@ + words_debug(next));
            }
        }
        i += 1;
    }
    proof {
        assert(view.take(i as int) =~= view);
    }
    push_str(&mut out, "]");
    out
}

/// The number of bytes that a character takes up in UTF-8.
pub open spec fn char_width(c: char) -> nat {
    if c as int <= 0x7f {
        1
    } else if c as int <= 0x7ff {
        2
    } else if c as int <= 0xffff {
        3
    } else {
        4
    }
}

/// The number of bytes that a text takes up in UTF-8.
pub open spec fn text_width(s: Seq<char>) -> nat
    decreases s.len(),
{
    if s.len() == 0 {
        0
    } else {
        char_width(s[0]) + text_width(s.skip(1))
    }
}

/// A text without its first `width` bytes, or all of them; `None` where that
/// would cut a character in two.
pub open spec fn without_indent(s: Seq<char>, width: nat) -> Option<Seq<char>>
    decreases s.len(),
{
    if width == 0 || s.len() == 0 {
        Some(s)
    } else if width < char_width(s[0]) {
        None
    } else {
        without_indent(s.skip(1), (width - char_width(s[0])) as nat)
    }
}

/// The width of the white space in front of a line.
pub open spec fn indent_of(line: Seq<char>) -> nat {
    text_width(line.take(line.len() - trimmed_start(line).len()))
}

fn width_of(c: char) -> (r: usize)
    ensures
        r == char_width(c),
{
    let n: u32 = c as u32;
    if n <= 0x7f {
        1
    } else if n <= 0x7ff {
        2
    } else if n <= 0xffff {
        3
    } else {
        4
    }
}

proof fn lemma_char_width(c: char)
    ensures
        encode_scalar(c as u32).len() == char_width(c),
{
}

proof fn lemma_text_width(s: Seq<char>)
    ensures
        text_width(s) == encode_utf8(s).len(),
    decreases s.len(),
{
    if s.len() > 0 {
        assert(s.skip(1) =~= s.drop_first());
        lemma_text_width(s.skip(1));
        lemma_char_width(s[0]);
    }
}

proof fn lemma_text_width_split(s: Seq<char>, n: int)
    requires
        0 <= n <= s.len(),
    ensures
        text_width(s) == text_width(s.take(n)) + text_width(s.skip(n)),
    decreases n,
{
    if n == 0 {
        assert(s.skip(0) =~= s);
        assert(s.take(0) =~= Seq::empty());
    } else {
        lemma_text_width_split(s.skip(1), n - 1);
        assert(s.skip(1).take(n - 1) =~= s.take(n).skip(1));
        assert(s.skip(1).skip(n - 1) =~= s.skip(n));
    }
}

/// The width of the white space in front of a line.
fn measure_indent(line: &str) -> (r: usize)
    ensures
        r == indent_of(line@),
{
    let chars = chars_of(line);
    let total: usize = line.as_bytes().len();
    let n: usize = leading_white(&chars);
    let ghost front = chars@.take(n as int);
    proof {
        assert(line@.len() - trimmed_start(line@).len() == n);
        lemma_text_width(line@);
        lemma_text_width_split(line@, n as int);
    }
    let mut width: usize = 0;
    let mut i: usize = 0;
    proof {
        assert(front.skip(0) =~= front);
    }
    while i < n
        invariant
            i <= n <= chars@.len(),
            front == chars@.take(n as int),
            indent_of(line@) == text_width(front),
            text_width(front) <= total,
            width + text_width(front.skip(i as int)) == text_width(front),
        decreases n - i,
    {
        let w: usize = width_of(chars[i]);
        proof {
            assert(front.skip(i as int)[0] == chars@[i as int]);
            assert(front.skip(i as int).skip(1) =~= front.skip(i + 1));
        }
        width = width + w;
        i += 1;
    }
    proof {
        assert(front.skip(i as int) =~= Seq::empty());
    }
    width
}

/// A text without its first `width` bytes, or all of them.
fn cut_indent(text: &str, width: usize) -> (r: Option<String>)
    ensures
        match r {
            Some(s) => without_indent(text@, width as nat) == Some(s@),
            None => without_indent(text@, width as nat) is None,
        },
{
    let chars = chars_of(text);
    let n: usize = chars.len();
    let mut left: usize = width;
    let mut i: usize = 0;
    proof {
        assert(chars@.skip(0) =~= chars@);
    }
    while i < n && left > 0
        invariant
            i <= n == chars@.len(),
            chars@ == text@,
            without_indent(text@, width as nat) == without_indent(
                chars@.skip(i as int),
                left as nat,
            ),
        decreases n - i,
    {
        let w: usize = width_of(chars[i]);
        proof {
            assert(chars@.skip(i as int).skip(1) =~= chars@.skip(i + 1));
        }
        if left < w {
            return None;
        }
        left = left - w;
        i += 1;
    }
    proof {
        assert(chars@.subrange(i as int, n as int) =~= chars@.skip(i as int));
    }
    Some(string_of(&chars, i, n))
}

/// The text that a pattern of the given kind is compiled from.
pub open spec fn raw_source(text: Seq<char>) -> Seq<char> {
    if text.len() > 0 && text.last() == '$' {
        text
    } else {
        text + "\\s*"@
    }
}

/// The pattern of one line of output. The kind is `!` for text with grok
/// patterns, `?` for a regular expression with grok patterns and `"` for
/// literal text.
pub open spec fn pattern_line(location: ScriptLocation, text: Seq<char>, kind: char) -> Result<
    PatternView,
    ProblemView,
> {
    if text.len() == 0 || kind == '"' {
        Ok(bare(location, KindView::Literal(text)))
    } else {
        let line = trimmed_end(text);
        if kind == '!' && !line.contains('%') {
            Ok(bare(location, KindView::Literal(line)))
        } else {
            let compiled = if kind == '!' {
                compiled_line(line, line, true)
            } else {
                compiled_line(raw_source(line), line, false)
            };
            match compiled {
                Ok(g) => Ok(bare(location, KindView::Pattern(g))),
                Err(e) => Err(refused_with(ScriptErrorType::InvalidPattern, location, e)),
            }
        }
    }
}

/// Whether a text holds a percent sign.
fn contains_percent(text: &str) -> (r: bool)
    ensures
        r == text@.contains('%'),
{
    let chars = chars_of(text);
    let mut i: usize = 0;
    while i < chars.len()
        invariant
            i <= chars@.len(),
            chars@ == text@,
            forall|j: int| 0 <= j < i ==> chars@[j] != '%',
        decreases chars@.len() - i,
    {
        if chars[i] == '%' {
            return true;
        }
        i += 1;
    }
    false
}

/// Whether a text ends in a dollar sign.
fn ends_with_dollar(text: &str) -> (r: bool)
    ensures
        r == (text@.len() > 0 && text@.last() == '$'),
{
    let chars = chars_of(text);
    let n: usize = chars.len();
    n > 0 && chars[n - 1] == '$'
}

/// Reads the pattern of one line of output.
pub fn parse_pattern_line(location: ScriptLocation, text: &str, line_start: char) -> (r: Result<
    OutputPattern,
    Problem,
>)
    requires
        line_start == '!' || line_start == '?' || line_start == '"',
    ensures
        match r {
            Ok(p) => pattern_line(location, text@, line_start) == Ok::<PatternView, ProblemView>(
                p.model(),
            ),
            Err(e) => pattern_line(location, text@, line_start) == Err::<PatternView, ProblemView>(
                e@,
            ),
        },
{
    if text.is_empty() || line_start == '"' {
        return Ok(OutputPattern::bare(location, OutputPatternType::Literal(text.to_owned())));
    }
    let line = trim_end(text);
    if line_start == '!' && !contains_percent(line) {
        return Ok(OutputPattern::bare(location, OutputPatternType::Literal(line.to_owned())));
    }
    let compiled = if line_start == '!' {
        GrokPattern::compile(line, line.to_owned(), true)
    } else {
        let mut source: String = line.to_owned();
        if !ends_with_dollar(line) {
            push_str(&mut source, "\\s*");
        }
        GrokPattern::compile(source.as_str(), line.to_owned(), false)
    };
    match compiled {
        Ok(pattern) => Ok(
            OutputPattern::bare(location, OutputPatternType::Pattern(Arc::new(pattern))),
        ),
        Err(e) => Err(refuse_with(ScriptErrorType::InvalidPattern, &location, e)),
    }
}

/// A multi-line pattern that was started: its kind, the mark that ends it and
/// the width of its indentation.
pub struct Started {
    /// The kind of its lines.
    pub kind: char,
    /// The mark that ends it.
    pub mark: Seq<char>,
    /// The width of its indentation.
    pub indent: nat,
}

/// The multi-line pattern that a line starts, if any.
pub open spec fn starts_multiline(line: ScriptLineView) -> Option<Started> {
    let text = line.trimmed();
    let indent = indent_of(line.text);
    if text == ESCAPED_MULTILINE@ {
        Some(Started { kind: '!', mark: text, indent })
    } else if text == REGEX_MULTILINE@ {
        Some(Started { kind: '?', mark: text, indent })
    } else if text == LITERAL_MULTILINE@ {
        Some(Started { kind: '"', mark: text, indent })
    } else {
        None
    }
}

/// The pattern that a line stands for outside multi-line patterns.
pub open spec fn single_line(line: ScriptLineView) -> Result<PatternView, ProblemView> {
    let text = line.trimmed();
    if text == "!"@ || text == "?"@ {
        pattern_line(line.location, Seq::empty(), text[0])
    } else if has_prefix(text, "! "@) || has_prefix(text, "? "@) {
        pattern_line(line.location, text.skip(2), text[0])
    } else if text == "end"@ {
        Ok(bare(line.location, KindView::End))
    } else if text == "none"@ {
        Ok(bare(line.location, KindView::Nothing))
    } else {
        Err(refused_with(ScriptErrorType::InvalidPattern, line.location, str_debug(text)))
    }
}

/// A successful read with one more pattern in front.
pub open spec fn pattern_first(
    p: Result<PatternView, ProblemView>,
    rest: Result<Seq<PatternView>, ProblemView>,
) -> Result<Seq<PatternView>, ProblemView> {
    match p {
        Err(e) => Err(e),
        Ok(p) => match rest {
            Err(e) => Err(e),
            Ok(ps) => Ok(seq![p] + ps),
        },
    }
}

/// The patterns that lines stand for, where a multi-line pattern may have
/// been started before them.
pub open spec fn line_patterns(lines: Seq<ScriptLineView>, started: Option<Started>) -> Result<
    Seq<PatternView>,
    ProblemView,
>
    decreases lines.len(),
{
    if lines.len() == 0 {
        Ok(Seq::empty())
    } else {
        let line = lines[0];
        let rest = lines.skip(1);
        match started {
            Some(s) => if line.trimmed() == s.mark {
                line_patterns(rest, None)
            } else {
                match without_indent(line.text, s.indent) {
                    None => Err(ProblemView::Unreadable),
                    Some(text) => pattern_first(
                        pattern_line(line.location, text, s.kind),
                        line_patterns(rest, started),
                    ),
                }
            },
            None => if starts_multiline(line) is Some {
                line_patterns(rest, starts_multiline(line))
            } else {
                pattern_first(single_line(line), line_patterns(rest, None))
            },
        }
    }
}

/// A successful read with more patterns in front.
spec fn patterns_first(
    front: Seq<PatternView>,
    rest: Result<Seq<PatternView>, ProblemView>,
) -> Result<Seq<PatternView>, ProblemView> {
    match rest {
        Err(e) => Err(e),
        Ok(ps) => Ok(front + ps),
    }
}

proof fn lemma_patterns_first(
    front: Seq<PatternView>,
    p: PatternView,
    rest: Result<Seq<PatternView>, ProblemView>,
)
    ensures
        patterns_first(front.push(p), rest) == patterns_first(front, pattern_first(Ok(p), rest)),
{
    if let Ok(ps) = rest {
        assert(front.push(p) + ps =~= front + (seq![p] + ps));
    }
}

proof fn lemma_patterns_push(v: Seq<OutputPattern>, p: OutputPattern)
    ensures
        patterns_model(v.push(p)) == patterns_model(v).push(p.model()),
{
    assert(patterns_model(v.push(p)) =~= patterns_model(v).push(p.model()));
}

/// Reads the pattern that a line stands for outside multi-line patterns.
fn parse_single_line(line: &ScriptLine) -> (r: Result<OutputPattern, Problem>)
    ensures
        match r {
            Ok(p) => single_line(line@) == Ok::<PatternView, ProblemView>(p.model()),
            Err(e) => single_line(line@) == Err::<PatternView, ProblemView>(e@),
        },
{
    let text = line.text();
    proof {
        reveal_strlit("!");
        reveal_strlit("?");
        reveal_strlit("! ");
        reveal_strlit("? ");
        reveal_strlit("");
        assert(""@ =~= Seq::empty());
    }
    if str_eq(text, "!") {
        return parse_pattern_line(line.location.clone(), "", '!');
    }
    if str_eq(text, "?") {
        return parse_pattern_line(line.location.clone(), "", '?');
    }
    if line.starts_with("! ") || line.starts_with("? ") {
        let chars = chars_of(text);
        proof {
            if has_prefix(text@, "! "@) {
                assert(text@.take(2)[0] == '!');
            } else {
                assert(text@.take(2)[0] == '?');
            }
            assert(text@.subrange(2, text@.len() as int) =~= text@.skip(2));
        }
        return parse_pattern_line(
            line.location.clone(),
            slice_of(text, 2, chars.len()),
            chars[0],
        );
    }
    if str_eq(text, "end") {
        return Ok(OutputPattern::bare(line.location.clone(), OutputPatternType::End));
    }
    if str_eq(text, "none") {
        return Ok(OutputPattern::bare(line.location.clone(), OutputPatternType::Nothing));
    }
    Err(refuse_with(ScriptErrorType::InvalidPattern, &line.location, debug_str(text)))
}

/// A multi-line pattern that was started.
struct OpenPattern {
    kind: char,
    mark: &'static str,
    indent: usize,
}

spec fn open_pattern(open: Option<OpenPattern>) -> Option<Started> {
    match open {
        Some(o) => Some(Started { kind: o.kind, mark: o.mark@, indent: o.indent as nat }),
        None => None,
    }
}

/// The kind and the mark of the multi-line pattern that a line starts.
fn multiline_start(text: &str) -> (r: Option<(char, &'static str)>)
    ensures
        match r {
            Some((kind, mark)) => text@ == mark@ && (kind == '!' && mark@ == ESCAPED_MULTILINE@
                || kind == '?' && mark@ == REGEX_MULTILINE@ && mark@ != ESCAPED_MULTILINE@ || kind
                == '"' && mark@ == LITERAL_MULTILINE@ && mark@ != ESCAPED_MULTILINE@ && mark@
                != REGEX_MULTILINE@),
            None => text@ != ESCAPED_MULTILINE@ && text@ != REGEX_MULTILINE@ && text@
                != LITERAL_MULTILINE@,
        },
{
    if str_eq(text, ESCAPED_MULTILINE) {
        Some(('!', ESCAPED_MULTILINE))
    } else if str_eq(text, REGEX_MULTILINE) {
        Some(('?', REGEX_MULTILINE))
    } else if str_eq(text, LITERAL_MULTILINE) {
        Some(('"', LITERAL_MULTILINE))
    } else {
        None
    }
}

/// Reads the patterns that lines stand for.
fn parse_lines(lines: &Vec<ScriptLine>) -> (r: Result<Vec<OutputPattern>, Problem>)
    ensures
        match r {
            Ok(v) => line_patterns(script_lines_view(lines@), None) == Ok::<
                Seq<PatternView>,
                ProblemView,
            >(patterns_model(v@)),
            Err(e) => line_patterns(script_lines_view(lines@), None) == Err::<
                Seq<PatternView>,
                ProblemView,
            >(e@),
        },
{
    let ghost view = script_lines_view(lines@);
    let ghost goal = line_patterns(view, None);
    let mut out: Vec<OutputPattern> = Vec::new();
    let mut open: Option<OpenPattern> = None;
    let mut i: usize = 0;
    proof {
        assert(view.skip(0) =~= view);
        assert(patterns_model(out@) =~= Seq::empty());
        if let Ok(ps) = goal {
            assert(Seq::<PatternView>::empty() + ps =~= ps);
        }
    }
    while i < lines.len()
        invariant
            i <= lines@.len(),
            view == script_lines_view(lines@),
            goal == line_patterns(view, None),
            goal == patterns_first(
                patterns_model(out@),
                line_patterns(view.skip(i as int), open_pattern(open)),
            ),
            open matches Some(o) ==> o.kind == '!' || o.kind == '?' || o.kind == '"',
        decreases lines@.len() - i,
    {
        let line = &lines[i];
        let ghost had = out@;
        let ghost rest = view.skip(i as int);
        proof {
            assert(rest[0] == line@);
            assert(rest.skip(1) =~= view.skip(i + 1));
        }
        let text = line.text();
        match open {
            Some(o) => {
                if str_eq(text, o.mark) {
                    open = None;
                } else {
                    let cut = match cut_indent(line.text_untrimmed(), o.indent) {
                        Some(cut) => cut,
                        None => {
                            return Err(Problem::Unreadable);
                        },
                    };
                    match parse_pattern_line(line.location.clone(), cut.as_str(), o.kind) {
                        Ok(p) => {
                            out.push(p);
                            proof {
                                lemma_patterns_push(had, p);
                                lemma_patterns_first(
                                    patterns_model(had),
                                    p.model(),
                                    line_patterns(rest.skip(1), open_pattern(open)),
                                );
                            }
                        },
                        Err(e) => {
                            return Err(e);
                        },
                    }
                    open = Some(o);
                }
            },
            None => {
                if let Some((kind, mark)) = multiline_start(text) {
                    let indent: usize = measure_indent(line.text_untrimmed());
                    open = Some(OpenPattern { kind, mark, indent });
                } else {
                    match parse_single_line(line) {
                        Ok(p) => {
                            out.push(p);
                            proof {
                                lemma_patterns_push(had, p);
                                lemma_patterns_first(
                                    patterns_model(had),
                                    p.model(),
                                    line_patterns(rest.skip(1), None),
                                );
                            }
                        },
                        Err(e) => {
                            return Err(e);
                        },
                    }
                    open = None;
                }
            },
        }
        i += 1;
    }
    proof {
        assert(view.skip(i as int) =~= Seq::empty());
        assert(patterns_model(out@) + Seq::<PatternView>::empty() =~= patterns_model(out@));
    }
    Ok(out)
}

/// The condition that the arguments of an `if` block stand for.
pub open spec fn condition_of(location: ScriptLocation, args: Seq<ShellBitView>) -> Result<
    IfConditionView,
    ProblemView,
> {
    if args.len() == 1 && args[0].text() == "true"@ {
        Ok(IfConditionView::True)
    } else if args.len() == 1 && args[0].text() == "false"@ {
        Ok(IfConditionView::False)
    } else if args.len() == 3 && args[1].text() == "=="@ {
        Ok(IfConditionView::EnvEq(false, args[0].text(), args[2]))
    } else if args.len() == 3 && args[1].text() == "!="@ {
        Ok(IfConditionView::EnvEq(true, args[0].text(), args[2]))
    } else {
        Err(refused_with(ScriptErrorType::InvalidIfCondition, location, list_debug(args)))
    }
}

/// Reads the condition of an `if` block.
pub(crate) fn parse_if_condition(location: &ScriptLocation, args: &[ShellBit]) -> (r: Result<
    IfCondition,
    Problem,
>)
    ensures
        match r {
            Ok(c) => condition_of(*location, bits_view(args@)) == Ok::<
                IfConditionView,
                ProblemView,
            >(c@),
            Err(e) => condition_of(*location, bits_view(args@)) == Err::<
                IfConditionView,
                ProblemView,
            >(e@),
        },
{
    let ghost view = bits_view(args@);
    proof {
        assert(forall|i: int| 0 <= i < args@.len() ==> #[trigger] view[i] == args@[i]@);
    }
    if args.len() == 1 && args[0].is_text("true") {
        Ok(IfCondition::True)
    } else if args.len() == 1 && args[0].is_text("false") {
        Ok(IfCondition::False)
    } else if args.len() == 3 && args[1].is_text("==") {
        Ok(IfCondition::EnvEq(false, args[0].as_str().to_owned(), args[2].clone()))
    } else if args.len() == 3 && args[1].is_text("!=") {
        Ok(IfCondition::EnvEq(true, args[0].as_str().to_owned(), args[2].clone()))
    } else {
        Err(refuse_with(ScriptErrorType::InvalidIfCondition, location, debug_list(args)))
    }
}

/// The patterns that segments hold.
pub struct BuilderView {
    /// What is skipped.
    pub ignore: Seq<PatternView>,
    /// What may not occur.
    pub reject: Seq<PatternView>,
    /// What is matched, in order.
    pub patterns: Seq<PatternView>,
}

impl BuilderView {
    /// No patterns.
    pub open spec fn empty() -> BuilderView {
        BuilderView { ignore: Seq::empty(), reject: Seq::empty(), patterns: Seq::empty() }
    }

    /// The patterns of both.
    pub open spec fn joined(self, other: BuilderView) -> BuilderView {
        BuilderView {
            ignore: self.ignore + other.ignore,
            reject: self.reject + other.reject,
            patterns: self.patterns + other.patterns,
        }
    }
}

/// What a block of patterns with the given name matches, if there is such a
/// block.
pub open spec fn block_kind(
    name: Seq<char>,
    location: ScriptLocation,
    ps: Seq<PatternView>,
) -> Option<KindView> {
    if name == "repeat"@ {
        Some(KindView::Repeat(Box::new(sequence_of(location, ps))))
    } else if name == "choice"@ {
        Some(KindView::Choice(ps))
    } else if name == "unordered"@ {
        Some(KindView::Unordered(ps))
    } else if name == "sequence"@ {
        Some(KindView::Sequence(ps))
    } else if name == "optional"@ {
        Some(KindView::Optional(Box::new(sequence_of(location, ps))))
    } else if name == "not"@ {
        Some(KindView::Not(Box::new(sequence_of(location, ps))))
    } else if name == "*"@ {
        Some(KindView::Any(Box::new(sequence_of(location, ps))))
    } else {
        None
    }
}

/// The patterns that a segment holds.
pub open spec fn segment_patterns(s: SegmentView) -> Result<BuilderView, ProblemView>
    decreases s, 0int,
{
    if s.holds_command() {
        Err(refused(ScriptErrorType::UnsupportedCommandPosition, s.location()))
    } else {
        match s {
            SegmentView::Block(b) => match line_patterns(b.lines, None) {
                Err(e) => Err(e),
                Ok(patterns) => Ok(BuilderView { patterns, ..BuilderView::empty() }),
            },
            SegmentView::SubBlock(location, name, args, inner) => {
                let held = segments_patterns(inner);
                if name != "if"@ && args.len() > 0 {
                    Err(
                        refused_with(
                            ScriptErrorType::InvalidPattern,
                            location,
                            name.push(' ') + list_debug(args),
                        ),
                    )
                } else if name == "reject"@ || name == "ignore"@ {
                    match held {
                        Err(e) => Err(e),
                        Ok(n) => if n.ignore.len() > 0 || n.reject.len() > 0 {
                            Err(refused(ScriptErrorType::InvalidPattern, location))
                        } else if name == "reject"@ {
                            Ok(BuilderView { reject: n.patterns, ..BuilderView::empty() })
                        } else {
                            Ok(BuilderView { ignore: n.patterns, ..BuilderView::empty() })
                        },
                    }
                } else if name == "if"@ {
                    match condition_of(location, args) {
                        Err(e) => Err(e),
                        Ok(c) => match held {
                            Err(e) => Err(e),
                            Ok(n) => Ok(
                                BuilderView {
                                    patterns: seq![
                                        PatternView {
                                            location,
                                            kind: KindView::If(
                                                c,
                                                Box::new(sequence_of(location, n.patterns)),
                                            ),
                                            ignore: n.ignore,
                                            reject: n.reject,
                                        },
                                    ],
                                    ..BuilderView::empty()
                                },
                            ),
                        },
                    }
                } else if block_kind(name, location, Seq::empty()) is None {
                    Err(refused_with(ScriptErrorType::InvalidPattern, location, name))
                } else {
                    match held {
                        Err(e) => Err(e),
                        Ok(n) => Ok(
                            BuilderView {
                                patterns: seq![
                                    PatternView {
                                        location,
                                        kind: block_kind(name, location, n.patterns)->Some_0,
                                        ignore: n.ignore,
                                        reject: n.reject,
                                    },
                                ],
                                ..BuilderView::empty()
                            },
                        ),
                    }
                }
            },
            SegmentView::Semi(location, _, _) => Err(
                refused(ScriptErrorType::UnsupportedCommandPosition, location),
            ),
        }
    }
}

/// The patterns that segments hold.
pub open spec fn segments_patterns(ss: Seq<SegmentView>) -> Result<BuilderView, ProblemView>
    decreases ss, 1int,
{
    if ss.len() == 0 {
        Ok(BuilderView::empty())
    } else {
        match segments_patterns(ss.drop_last()) {
            Err(e) => Err(e),
            Ok(front) => match segment_patterns(ss.last()) {
                Err(e) => Err(e),
                Ok(last) => Ok(front.joined(last)),
            },
        }
    }
}

/// The patterns that segments hold.
pub struct OutputPatternBuilder {
    /// What is skipped.
    pub ignore: Vec<OutputPattern>,
    /// What may not occur.
    pub reject: Vec<OutputPattern>,
    /// What is matched, in order.
    pub patterns: Vec<OutputPattern>,
}

impl OutputPatternBuilder {
    /// The mathematical value of the builder.
    pub open spec fn model(&self) -> BuilderView {
        BuilderView {
            ignore: patterns_model(self.ignore@),
            reject: patterns_model(self.reject@),
            patterns: patterns_model(self.patterns@),
        }
    }

    fn empty() -> (r: Self)
        ensures
            r.model() == BuilderView::empty(),
    {
        let r = OutputPatternBuilder {
            ignore: Vec::new(),
            reject: Vec::new(),
            patterns: Vec::new(),
        };
        proof {
            assert(patterns_model(r.ignore@) =~= Seq::empty());
            assert(patterns_model(r.reject@) =~= Seq::empty());
            assert(patterns_model(r.patterns@) =~= Seq::empty());
        }
        r
    }

    fn of_patterns(patterns: Vec<OutputPattern>) -> (r: Self)
        ensures
            r.model() == (BuilderView {
                patterns: patterns_model(patterns@),
                ..BuilderView::empty()
            }),
    {
        let empty = OutputPatternBuilder::empty();
        OutputPatternBuilder { ignore: empty.ignore, reject: empty.reject, patterns }
    }

    fn of_pattern(pattern: OutputPattern) -> (r: Self)
        ensures
            r.model() == (BuilderView { patterns: seq![pattern.model()], ..BuilderView::empty() }),
    {
        let mut patterns: Vec<OutputPattern> = Vec::new();
        patterns.push(pattern);
        proof {
            assert(patterns_model(patterns@) =~= seq![pattern.model()]);
        }
        OutputPatternBuilder::of_patterns(patterns)
    }

    fn append(&mut self, other: OutputPatternBuilder)
        ensures
            final(self).model() == old(self).model().joined(other.model()),
    {
        let mut other = other;
        let ghost a = *self;
        let ghost b = other;
        self.ignore.append(&mut other.ignore);
        self.reject.append(&mut other.reject);
        self.patterns.append(&mut other.patterns);
        proof {
            assert(patterns_model(a.ignore@ + b.ignore@) =~= patterns_model(a.ignore@)
                + patterns_model(b.ignore@));
            assert(patterns_model(a.reject@ + b.reject@) =~= patterns_model(a.reject@)
                + patterns_model(b.reject@));
            assert(patterns_model(a.patterns@ + b.patterns@) =~= patterns_model(a.patterns@)
                + patterns_model(b.patterns@));
        }
    }
}

/// What is wrong with the first segment that is wrong is what is wrong.
proof fn lemma_segments_fault(ss: Seq<SegmentView>, k: int)
    requires
        0 <= k <= ss.len(),
        segments_patterns(ss.take(k)) is Err,
    ensures
        segments_patterns(ss) == segments_patterns(ss.take(k)),
    decreases ss.len() - k,
{
    if k < ss.len() {
        assert(ss.take(k + 1).drop_last() =~= ss.take(k));
        lemma_segments_fault(ss, k + 1);
    } else {
        assert(ss.take(k) =~= ss);
    }
}

/// Reads the patterns of the segments from `from` up to `to`.
pub(crate) fn parse_segments_between(
    segments: &Vec<ScriptV0Segment>,
    from: usize,
    to: usize,
) -> (r: Result<OutputPatternBuilder, Problem>)
    requires
        from <= to <= segments@.len(),
    ensures
        ({
            let goal = segments_patterns(
                segments_model(segments@).subrange(from as int, to as int),
            );
            match r {
                Ok(b) => goal == Ok::<BuilderView, ProblemView>(b.model()),
                Err(e) => goal == Err::<BuilderView, ProblemView>(e@),
            }
        }),
    decreases segments, 0int,
{
    let ghost ss = segments_model(segments@).subrange(from as int, to as int);
    let mut builder = OutputPatternBuilder::empty();
    let mut i: usize = from;
    proof {
        assert(ss.take(0) =~= Seq::empty());
    }
    while i < to
        invariant
            from <= i <= to <= segments@.len(),
            ss == segments_model(segments@).subrange(from as int, to as int),
            segments_patterns(ss.take(i - from)) == Ok::<BuilderView, ProblemView>(builder.model()),
        decreases to - i,
    {
        proof {
            assert(ss.take(i - from + 1).drop_last() =~= ss.take(i - from));
            assert(ss.take(i - from + 1).last() == segments@[i as int].model());
        }
        match parse_script_v0_segment(&segments[i]) {
            Ok(more) => {
                builder.append(more);
            },
            Err(e) => {
                proof {
                    lemma_segments_fault(ss, i - from + 1);
                }
                return Err(e);
            },
        }
        i += 1;
    }
    proof {
        assert(ss.take(to - from) =~= ss);
    }
    Ok(builder)
}

/// Reads the patterns that segments hold.
pub fn parse_script_v0_segments(segments: &Vec<ScriptV0Segment>) -> (r: Result<
    OutputPatternBuilder,
    Problem,
>)
    ensures
        match r {
            Ok(b) => segments_patterns(segments_model(segments@)) == Ok::<
                BuilderView,
                ProblemView,
            >(b.model()),
            Err(e) => segments_patterns(segments_model(segments@)) == Err::<
                BuilderView,
                ProblemView,
            >(e@),
        },
    decreases segments, 1int,
{
    proof {
        assert(segments_model(segments@).subrange(0, segments@.len() as int) =~= segments_model(
            segments@,
        ));
    }
    parse_segments_between(segments, 0, segments.len())
}

/// The kind of pattern that a block with the given name is.
fn kind_of_block(name: &str, location: &ScriptLocation, patterns: Vec<OutputPattern>) -> (r: Option<
    OutputPatternType,
>)
    ensures
        match r {
            Some(k) => block_kind(name@, *location, patterns_model(patterns@)) == Some(k.model()),
            None => block_kind(name@, *location, patterns_model(patterns@)) is None,
        },
{
    let r = if str_eq(name, "repeat") {
        Some(
            OutputPatternType::Repeat(
                Box::new(OutputPattern::new_sequence(location.clone(), patterns)),
            ),
        )
    } else if str_eq(name, "choice") {
        Some(OutputPatternType::Choice(patterns))
    } else if str_eq(name, "unordered") {
        Some(OutputPatternType::Unordered(patterns))
    } else if str_eq(name, "sequence") {
        Some(OutputPatternType::Sequence(patterns))
    } else if str_eq(name, "optional") {
        Some(
            OutputPatternType::Optional(
                Box::new(OutputPattern::new_sequence(location.clone(), patterns)),
            ),
        )
    } else if str_eq(name, "not") {
        Some(
            OutputPatternType::Not(
                Box::new(OutputPattern::new_sequence(location.clone(), patterns)),
            ),
        )
    } else if str_eq(name, "*") {
        Some(
            OutputPatternType::Any(
                Box::new(OutputPattern::new_sequence(location.clone(), patterns)),
            ),
        )
    } else {
        None
    };
    proof {
        if r is Some {
            lemma_kind_lists(r->Some_0);
        }
    }
    r
}

fn is_block_name(name: &str) -> (r: bool)
    ensures
        forall|location: ScriptLocation, ps: Seq<PatternView>|
            (#[trigger] block_kind(name@, location, ps)) is Some == r,
{
    str_eq(name, "repeat") || str_eq(name, "choice") || str_eq(name, "unordered") || str_eq(
        name,
        "sequence",
    ) || str_eq(name, "optional") || str_eq(name, "not") || str_eq(name, "*")
}

/// Reads the patterns that a segment holds.
fn parse_script_v0_segment(segment: &ScriptV0Segment) -> (r: Result<OutputPatternBuilder, Problem>)
    ensures
        match r {
            Ok(b) => segment_patterns(segment.model()) == Ok::<BuilderView, ProblemView>(b.model()),
            Err(e) => segment_patterns(segment.model()) == Err::<BuilderView, ProblemView>(e@),
        },
    decreases segment, 0int,
{
    if segment.contains_command() {
        return Err(refuse(ScriptErrorType::UnsupportedCommandPosition, segment.location()));
    }
    match segment {
        ScriptV0Segment::Block(block) => match parse_lines(&block.lines) {
            Ok(patterns) => Ok(OutputPatternBuilder::of_patterns(patterns)),
            Err(e) => Err(e),
        },
        ScriptV0Segment::SubBlock(location, name, args, inner) => {
            proof {
                assert(segment.model()->SubBlock_3 =~= segments_model(inner@));
            }
            let name_text = name.as_str();
            let is_if = str_eq(name_text, "if");
            let is_reject = str_eq(name_text, "reject");
            if !is_if && args.len() > 0 {
                let mut data: String = name.clone();
                push_char(&mut data, ' ');
                push_str(&mut data, debug_list(args).as_str());
                return Err(refuse_with(ScriptErrorType::InvalidPattern, location, data));
            }
            if is_reject || str_eq(name_text, "ignore") {
                let held = match parse_script_v0_segments(inner) {
                    Ok(held) => held,
                    Err(e) => {
                        return Err(e);
                    },
                };
                if held.ignore.len() > 0 || held.reject.len() > 0 {
                    return Err(refuse(ScriptErrorType::InvalidPattern, location));
                }
                let empty = OutputPatternBuilder::empty();
                return Ok(
                    if is_reject {
                        OutputPatternBuilder {
                            ignore: empty.ignore,
                            reject: held.patterns,
                            patterns: empty.patterns,
                        }
                    } else {
                        OutputPatternBuilder {
                            ignore: held.patterns,
                            reject: empty.reject,
                            patterns: empty.patterns,
                        }
                    },
                );
            }
            if is_if {
                let condition = match parse_if_condition(location, args) {
                    Ok(condition) => condition,
                    Err(e) => {
                        return Err(e);
                    },
                };
                let held = match parse_script_v0_segments(inner) {
                    Ok(held) => held,
                    Err(e) => {
                        return Err(e);
                    },
                };
                let then_pattern = OutputPattern::new_sequence(location.clone(), held.patterns);
                return Ok(
                    OutputPatternBuilder::of_pattern(
                        OutputPattern {
                            location: location.clone(),
                            pattern: OutputPatternType::If(condition, Box::new(then_pattern)),
                            ignore: OutputPatterns::new(held.ignore),
                            reject: OutputPatterns::new(held.reject),
                        },
                    ),
                );
            }
            if !is_block_name(name_text) {
                return Err(refuse_with(ScriptErrorType::InvalidPattern, location, name.clone()));
            }
            let held = match parse_script_v0_segments(inner) {
                Ok(held) => held,
                Err(e) => {
                    return Err(e);
                },
            };
            match kind_of_block(name_text, location, held.patterns) {
                Some(pattern) => Ok(
                    OutputPatternBuilder::of_pattern(
                        OutputPattern {
                            location: location.clone(),
                            pattern,
                            ignore: OutputPatterns::new(held.ignore),
                            reject: OutputPatterns::new(held.reject),
                        },
                    ),
                ),
                None => Err(
                    refuse_with(ScriptErrorType::InvalidPattern, location, name.clone()),
                ),
            }
        },
        ScriptV0Segment::Semi(location, _, _) => Err(
            refuse(ScriptErrorType::UnsupportedCommandPosition, location),
        ),
    }
}

} // verus!
