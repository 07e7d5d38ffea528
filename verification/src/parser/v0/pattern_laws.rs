//! What reading the lines and blocks of patterns promises.
use crate::output::grok::compiled_line;
use crate::output::pattern::{KindView, PatternView};
use crate::parser::v0::patterns::{
    condition_of, indent_of, line_patterns, list_debug, pattern_line, segment_patterns,
    segments_patterns, single_line, starts_multiline, text_width, without_indent, BuilderView,
    ProblemView, Started,
};
use crate::parser::v0::segment::{
    BlockTypeView, BlockView, SegmentView, ESCAPED_MULTILINE, LITERAL_MULTILINE, REGEX_MULTILINE,
};
use crate::script::{IfConditionView, ScriptErrorType, ScriptLineView, ScriptLocation};
use crate::util::shell::{spaces, ShellBitView};
use crate::util::text::{str_debug, trimmed, trimmed_end, trimmed_start, white};
use crate::util::text_laws::{is_blank, is_trim, law_trim, law_trim_end, law_trim_start};
use vstd::prelude::*;

verus! {

/// Whether a line is a text with white space around it.
pub open spec fn is_written(line: ScriptLineView, text: Seq<char>) -> bool {
    exists|before: Seq<char>, behind: Seq<char>|
        is_blank(before) && is_blank(behind) && line.text == #[trigger] (before + text + behind)
}

proof fn lemma_written(line: ScriptLineView, text: Seq<char>)
    requires
        is_written(line, text),
        is_trim(text),
    ensures
        line.trimmed() == text,
{
    let (before, behind) = choose|before: Seq<char>, behind: Seq<char>|
        is_blank(before) && is_blank(behind) && line.text == #[trigger] (before + text + behind);
    law_trim(before, text, behind);
}

/// A pattern that stands by itself: nothing is skipped or rejected with it.
pub open spec fn stands_alone(p: PatternView, location: ScriptLocation, kind: KindView) -> bool {
    &&& p.location == location
    &&& p.kind == kind
    &&& p.ignore.len() == 0
    &&& p.reject.len() == 0
}

/// The segment that lines of patterns make up.
pub open spec fn pattern_block(location: ScriptLocation, lines: Seq<ScriptLineView>) -> SegmentView {
    SegmentView::Block(BlockView { location, block_type: BlockTypeView::Pattern, lines })
}

/// The reading of patterns and nothing else.
pub open spec fn reads_patterns(
    r: Result<BuilderView, ProblemView>,
    patterns: Seq<PatternView>,
) -> bool {
    r matches Ok(held) && held.patterns == patterns && held.ignore.len() == 0 && held.reject.len()
        == 0
}

/// Whether a reading is refused.
pub open spec fn is_refused(
    problem: ProblemView,
    error: ScriptErrorType,
    location: ScriptLocation,
    data: Option<Seq<char>>,
) -> bool {
    problem matches ProblemView::Script(e) && e.error == error && e.location == location && e.data
        == data
}

proof fn lemma_marks()
    ensures
        ESCAPED_MULTILINE@ == seq!['!', '!', '!'],
        REGEX_MULTILINE@ == seq!['?', '?', '?'],
        LITERAL_MULTILINE@ == seq!['"', '"', '"'],
        "!"@ == seq!['!'],
        "?"@ == seq!['?'],
        "! "@ == seq!['!', ' '],
        "? "@ == seq!['?', ' '],
        "end"@ == seq!['e', 'n', 'd'],
        "none"@ == seq!['n', 'o', 'n', 'e'],
{
    reveal_strlit("!!!");
    reveal_strlit("???");
    reveal_strlit("\"\"\"");
    reveal_strlit("!");
    reveal_strlit("?");
    reveal_strlit("! ");
    reveal_strlit("? ");
    reveal_strlit("end");
    reveal_strlit("none");
    assert(ESCAPED_MULTILINE@ =~= seq!['!', '!', '!']);
    assert(REGEX_MULTILINE@ =~= seq!['?', '?', '?']);
    assert(LITERAL_MULTILINE@ =~= seq!['"', '"', '"']);
    assert("!"@ =~= seq!['!']);
    assert("?"@ =~= seq!['?']);
    assert("! "@ =~= seq!['!', ' ']);
    assert("? "@ =~= seq!['?', ' ']);
    assert("end"@ =~= seq!['e', 'n', 'd']);
    assert("none"@ =~= seq!['n', 'o', 'n', 'e']);
}

/// Whether a text is neither empty nor ends in white space.
pub open spec fn ends_solidly(text: Seq<char>) -> bool {
    text.len() > 0 && !white(text.last())
}

/// A line behind a sign and a space.
proof fn lemma_signed_line(line: ScriptLineView, sign: char, text: Seq<char>)
    requires
        sign == '!' || sign == '?',
        is_written(line, seq![sign, ' '] + text),
        ends_solidly(text),
    ensures
        starts_multiline(line) is None,
        single_line(line) == pattern_line(line.location, text, sign),
        trimmed_end(text) == text,
{
    let whole = seq![sign, ' '] + text;
    assert(whole.last() == text.last());
    assert(!white('!') && !white('?'));
    lemma_written(line, whole);
    lemma_marks();
    assert(whole[1] == ' ');
    assert(whole.len() >= 3);
    assert(whole != ESCAPED_MULTILINE@ && whole != REGEX_MULTILINE@ && whole != LITERAL_MULTILINE@)
        by {
        assert(ESCAPED_MULTILINE@[1] == '!');
        assert(REGEX_MULTILINE@[1] == '?');
        assert(LITERAL_MULTILINE@[1] == '"');
    }
    assert(whole.take(2) =~= seq![sign, ' ']);
    assert(whole.skip(2) =~= text);
    let none = Seq::<char>::empty();
    law_trim_end(text, none);
    assert(text + none =~= text);
}

/// The line `! ` and a text gives the literal pattern of the text, character
/// for character, white space in front included; and the line `? ` and a text
/// gives the pattern whose source is the text, up to the end of the line. A
/// `!` line with a percent sign gives the pattern that is compiled from the
/// text with what is no grok pattern taken literally.
pub proof fn law_lines_are_read_as_written(line: ScriptLineView, sign: char, text: Seq<char>)
    requires
        sign == '!' || sign == '?',
        is_written(line, seq![sign, ' '] + text),
        ends_solidly(text),
    ensures
        ({
            let r = line_patterns(seq![line], None);
            let source = if sign == '!' || text.last() == '$' {
                text
            } else {
                text + seq!['\\', 's', '*']
            };
            if sign == '!' && !text.contains('%') {
                r matches Ok(ps) && ps.len() == 1 && stands_alone(
                    ps[0],
                    line.location,
                    KindView::Literal(text),
                )
            } else {
                match compiled_line(source, text, sign == '!') {
                    Ok(g) => r matches Ok(ps) && ps.len() == 1 && stands_alone(
                        ps[0],
                        line.location,
                        KindView::Pattern(g),
                    ),
                    Err(e) => r matches Err(problem) && is_refused(
                        problem,
                        ScriptErrorType::InvalidPattern,
                        line.location,
                        Some(e),
                    ),
                }
            }
        }),
{
    lemma_signed_line(line, sign, text);
    reveal_strlit("\\s*");
    assert("\\s*"@ =~= seq!['\\', 's', '*']);
    lemma_one_line(line);
}

/// A single line that starts no multi-line pattern.
proof fn lemma_one_line(line: ScriptLineView)
    requires
        starts_multiline(line) is None,
    ensures
        match single_line(line) {
            Ok(p) => line_patterns(seq![line], None) matches Ok(ps) && ps.len() == 1 && ps[0] == p,
            Err(e) => line_patterns(seq![line], None) == Err::<Seq<PatternView>, ProblemView>(e),
        },
{
    let lines = seq![line];
    assert(lines[0] == line);
    assert(lines.skip(1) =~= Seq::empty());
    assert(line_patterns(lines.skip(1), None) == Ok::<Seq<PatternView>, ProblemView>(Seq::empty()));
    if let Ok(p) = single_line(line) {
        assert(seq![p] + Seq::<PatternView>::empty() =~= seq![p]);
    }
}

/// A `!` or `?` by itself stands for an empty line, `end` for the end of the
/// output and `none` for nothing. Any other line is refused, unless it starts
/// a multi-line pattern.
pub proof fn law_words_of_patterns(line: ScriptLineView, text: Seq<char>)
    requires
        is_written(line, text),
        is_trim(text),
    ensures
        text == seq!['!'] || text == seq!['?'] ==> (line_patterns(seq![line], None) matches Ok(ps)
            && ps.len() == 1 && (ps[0].kind matches KindView::Literal(l) && l.len() == 0)
            && ps[0].location == line.location && ps[0].ignore.len() == 0 && ps[0].reject.len()
            == 0),
        text == seq!['e', 'n', 'd'] ==> (line_patterns(seq![line], None) matches Ok(ps) && ps.len()
            == 1 && stands_alone(ps[0], line.location, KindView::End)),
        text == seq!['n', 'o', 'n', 'e'] ==> (line_patterns(seq![line], None) matches Ok(ps)
            && ps.len() == 1 && stands_alone(ps[0], line.location, KindView::Nothing)),
        text != seq!['e', 'n', 'd'] && text != seq!['n', 'o', 'n', 'e'] && text != seq!['!'] && text
            != seq!['?'] && text != seq!['!', '!', '!'] && text != seq!['?', '?', '?'] && text
            != seq!['"', '"', '"'] && !(text.len() >= 2 && (text[0] == '!' || text[0] == '?')
            && text[1] == ' ') ==> (line_patterns(seq![line], None) matches Err(problem)
            && is_refused(
            problem,
            ScriptErrorType::InvalidPattern,
            line.location,
            Some(str_debug(text)),
        )),
{
    lemma_written(line, text);
    lemma_marks();
    assert(seq!['!'].len() == 1 && seq!['?'].len() == 1);
    assert(seq!['e', 'n', 'd'][0] == 'e');
    assert(seq!['n', 'o', 'n', 'e'].len() == 4);
    assert(seq!['!', '!', '!'][1] == '!' && seq!['!', '!', '!'].len() == 3);
    assert(seq!['?', '?', '?'][1] == '?' && seq!['?', '?', '?'].len() == 3);
    assert(seq!['"', '"', '"'][1] == '"' && seq!['"', '"', '"'].len() == 3);
    if text.len() >= 2 {
        assert(text.take(2)[0] == text[0] && text.take(2)[1] == text[1]);
        assert(seq!['!', ' '][0] == '!' && seq!['!', ' '][1] == ' ');
        assert(seq!['?', ' '][0] == '?' && seq!['?', ' '][1] == ' ');
    }
    if starts_multiline(line) is None {
        lemma_one_line(line);
    }
}

/// Lines that start no multi-line pattern are read one by one: the patterns of
/// all are the patterns of each, in order.
pub proof fn law_lines_are_read_one_by_one(line: ScriptLineView, rest: Seq<ScriptLineView>)
    requires
        !is_written(line, seq!['!', '!', '!']),
        !is_written(line, seq!['?', '?', '?']),
        !is_written(line, seq!['"', '"', '"']),
    ensures
        match (line_patterns(seq![line], None), line_patterns(rest, None)) {
            (Ok(one), Ok(more)) => line_patterns(seq![line] + rest, None) == Ok::<
                Seq<PatternView>,
                ProblemView,
            >(one + more),
            (Err(e), _) => line_patterns(seq![line] + rest, None) == Err::<
                Seq<PatternView>,
                ProblemView,
            >(e),
            (Ok(_), Err(e)) => line_patterns(seq![line] + rest, None) == Err::<
                Seq<PatternView>,
                ProblemView,
            >(e),
        },
{
    lemma_marks();
    lemma_is_written(line);
    assert(starts_multiline(line) is None);
    lemma_one_line(line);
    let all = seq![line] + rest;
    assert(all[0] == line);
    assert(all.skip(1) =~= rest);
    if let Ok(p) = single_line(line) {
        let one = line_patterns(seq![line], None)->Ok_0;
        assert(one =~= seq![p]);
    }
}

proof fn lemma_blank_front(s: Seq<char>) -> (before: Seq<char>)
    ensures
        is_blank(before),
        s == before + trimmed_start(s),
    decreases s.len(),
{
    if s.len() > 0 && white(s[0]) {
        let before = lemma_blank_front(s.skip(1));
        let all = seq![s[0]] + before;
        assert(s =~= seq![s[0]] + s.skip(1));
        assert(s =~= all + trimmed_start(s));
        assert forall|i: int| 0 <= i < all.len() implies white(#[trigger] all[i]) by {
            if i > 0 {
                assert(all[i] == before[i - 1]);
            }
        }
        all
    } else {
        let none = Seq::<char>::empty();
        assert(s =~= none + s);
        none
    }
}

proof fn lemma_blank_back(s: Seq<char>) -> (behind: Seq<char>)
    ensures
        is_blank(behind),
        s == trimmed_end(s) + behind,
    decreases s.len(),
{
    if s.len() > 0 && white(s.last()) {
        let behind = lemma_blank_back(s.drop_last());
        let all = behind.push(s.last());
        assert(s =~= s.drop_last().push(s.last()));
        assert(s =~= trimmed_end(s) + all);
        all
    } else {
        let none = Seq::<char>::empty();
        assert(s =~= s + none);
        none
    }
}

/// A line is what is left of it trimmed, with white space around.
proof fn lemma_is_written(line: ScriptLineView)
    ensures
        is_written(line, line.trimmed()),
{
    let before = lemma_blank_front(line.text);
    let behind = lemma_blank_back(trimmed_start(line.text));
    assert(line.text =~= before + line.trimmed() + behind);
}

proof fn lemma_spaces_width(k: nat, rest: Seq<char>)
    ensures
        text_width(spaces(k)) == k,
        without_indent(spaces(k) + rest, k) == Some(rest),
    decreases k,
{
    if k == 0 {
        assert(spaces(k) =~= Seq::empty());
        assert(spaces(k) + rest =~= rest);
    } else {
        let s = spaces(k) + rest;
        lemma_spaces_width((k - 1) as nat, rest);
        assert(spaces(k).skip(1) =~= spaces((k - 1) as nat));
        assert(s.skip(1) =~= spaces((k - 1) as nat) + rest);
        assert(s[0] == ' ');
        assert(spaces(k)[0] == ' ');
    }
}

proof fn lemma_few_spaces(j: nat, k: nat)
    requires
        j <= k,
    ensures
        without_indent(spaces(j), k) matches Some(rest) && rest.len() == 0,
    decreases j,
{
    if j > 0 {
        lemma_few_spaces((j - 1) as nat, (k - 1) as nat);
        assert(spaces(j).skip(1) =~= spaces((j - 1) as nat));
        assert(spaces(j)[0] == ' ');
    }
}

/// Whether a line of a multi-line pattern holds a text behind its indentation;
/// one that holds nothing may be shorter than the indentation.
pub open spec fn is_indented(line: ScriptLineView, indent: nat, text: Seq<char>) -> bool {
    line.text == spaces(indent) + text || (text.len() == 0 && exists|few: nat|
        few <= indent && line.text == #[trigger] spaces(few))
}

/// The mark of a multi-line pattern, and the sign of its lines.
pub open spec fn is_mark(mark: Seq<char>, sign: char) -> bool {
    ||| sign == '!' && mark == seq!['!', '!', '!']
    ||| sign == '?' && mark == seq!['?', '?', '?']
    ||| sign == '"' && mark == seq!['"', '"', '"']
}

/// What is read within a multi-line pattern.
proof fn lemma_inner_lines(
    lines: Seq<ScriptLineView>,
    texts: Seq<Seq<char>>,
    end: ScriptLineView,
    started: Started,
)
    requires
        started.kind == '"' || started.kind == '!',
        lines.len() == texts.len(),
        forall|i: int|
            0 <= i < lines.len() ==> is_indented(#[trigger] lines[i], started.indent, texts[i])
                && lines[i].trimmed() != started.mark && (started.kind == '!'
                ==> !texts[i].contains('%') && (texts[i].len() > 0 ==> !white(texts[i].last()))),
        end.trimmed() == started.mark,
    ensures
        line_patterns(lines.push(end), Some(started)) matches Ok(ps) && ps.len() == lines.len()
            && forall|i: int|
            0 <= i < ps.len() ==> stands_alone(
                #[trigger] ps[i],
                lines[i].location,
                KindView::Literal(texts[i]),
            ),
    decreases lines.len(),
{
    let all = lines.push(end);
    if lines.len() == 0 {
        assert(all[0] == end);
        assert(all.skip(1) =~= Seq::empty());
        assert(line_patterns(all.skip(1), None) == Ok::<Seq<PatternView>, ProblemView>(
            Seq::empty(),
        ));
    } else {
        let line = lines[0];
        let text = texts[0];
        let rest = lines.skip(1);
        let rest_texts = texts.skip(1);
        assert(all[0] == line);
        assert(all.skip(1) =~= rest.push(end));
        assert(is_indented(line, started.indent, text));
        assert forall|i: int| 0 <= i < rest.len() implies is_indented(
            #[trigger] rest[i],
            started.indent,
            rest_texts[i],
        ) && rest[i].trimmed() != started.mark && (started.kind == '!' ==> !rest_texts[i].contains(
            '%',
        ) && (rest_texts[i].len() > 0 ==> !white(rest_texts[i].last()))) by {
            assert(rest[i] == lines[i + 1]);
            assert(rest_texts[i] == texts[i + 1]);
        }
        lemma_inner_lines(rest, rest_texts, end, started);
        lemma_spaces_width(started.indent, text);
        if line.text != spaces(started.indent) + text {
            let few = choose|few: nat| few <= started.indent && line.text == #[trigger] spaces(few);
            lemma_few_spaces(few, started.indent);
            let left = without_indent(line.text, started.indent)->Some_0;
            assert(left =~= text);
        }
        assert(without_indent(line.text, started.indent) == Some(text));
        let none = Seq::<char>::empty();
        if text.len() > 0 && started.kind == '!' {
            law_trim_end(text, none);
            assert(text + none =~= text);
        }
        let p = pattern_line(line.location, text, started.kind)->Ok_0;
        assert(stands_alone(p, line.location, KindView::Literal(text)));
        let more = line_patterns(rest.push(end), Some(started))->Ok_0;
        let ps = seq![p] + more;
        assert forall|i: int| 0 <= i < ps.len() implies stands_alone(
            #[trigger] ps[i],
            lines[i].location,
            KindView::Literal(texts[i]),
        ) by {
            if i > 0 {
                assert(ps[i] == more[i - 1]);
                assert(rest[i - 1] == lines[i]);
                assert(rest_texts[i - 1] == texts[i]);
            }
        }
    }
}

/// The lines between two marks are read without the indentation of the first
/// mark, character for character: with `"""` whatever they hold, with `!!!`
/// where they hold no percent sign and do not end in white space.
pub proof fn law_multiline_patterns_are_unindented(
    start: ScriptLineView,
    lines: Seq<ScriptLineView>,
    end: ScriptLineView,
    indent: nat,
    mark: Seq<char>,
    sign: char,
    texts: Seq<Seq<char>>,
)
    requires
        is_mark(mark, sign),
        sign != '?',
        start.text == spaces(indent) + mark,
        is_written(end, mark),
        lines.len() == texts.len(),
        forall|i: int|
            0 <= i < lines.len() ==> is_indented(#[trigger] lines[i], indent, texts[i])
                && !is_written(lines[i], mark) && (sign == '!' ==> !texts[i].contains('%') && (
            texts[i].len() > 0 ==> !white(texts[i].last()))),
    ensures
        line_patterns(seq![start] + lines + seq![end], None) matches Ok(ps) && ps.len()
            == lines.len() && forall|i: int|
            0 <= i < ps.len() ==> stands_alone(
                #[trigger] ps[i],
                lines[i].location,
                KindView::Literal(texts[i]),
            ),
{
    lemma_marks();
    let blank = spaces(indent);
    let none = Seq::<char>::empty();
    assert(is_blank(blank));
    assert(!white('!') && !white('?') && !white('"'));
    law_trim(blank, mark, none);
    assert(blank + mark + none =~= start.text);
    law_trim_start(blank, mark);
    lemma_spaces_width(indent, none);
    assert(start.text.take(start.text.len() - mark.len()) =~= blank);
    assert(indent_of(start.text) == indent);
    assert(seq!['!', '!', '!'][0] == '!' && seq!['?', '?', '?'][0] == '?' && seq!['"', '"', '"'][0]
        == '"');
    let started = Started { kind: sign, mark, indent };
    assert(starts_multiline(start) == Some(started));
    lemma_written(end, mark);
    assert forall|i: int| 0 <= i < lines.len() implies is_indented(
        #[trigger] lines[i],
        indent,
        texts[i],
    ) && lines[i].trimmed() != mark && (sign == '!' ==> !texts[i].contains('%') && (texts[i].len()
        > 0 ==> !white(texts[i].last()))) by {
        lemma_is_written(lines[i]);
    }
    lemma_inner_lines(lines, texts, end, started);
    let all = seq![start] + lines + seq![end];
    assert(all[0] == start);
    assert(all.skip(1) =~= lines.push(end));
}

/// What a block of lines without comments, commands and wildcards holds are
/// the patterns of its lines.
pub proof fn law_blocks_of_lines(location: ScriptLocation, lines: Seq<ScriptLineView>)
    ensures
        match line_patterns(lines, None) {
            Ok(ps) => reads_patterns(segment_patterns(pattern_block(location, lines)), ps),
            Err(e) => segment_patterns(pattern_block(location, lines)) == Err::<
                BuilderView,
                ProblemView,
            >(e),
        },
{
}

/// Whether a block of patterns with some name matches in some way, given the
/// patterns within it.
pub open spec fn names_block(
    name: Seq<char>,
    location: ScriptLocation,
    ps: Seq<PatternView>,
    kind: KindView,
) -> bool {
    ||| name == "repeat"@ && (kind matches KindView::Repeat(p) && is_sequence(*p, location, ps))
    ||| name == "optional"@ && (kind matches KindView::Optional(p) && is_sequence(*p, location, ps))
    ||| name == "not"@ && (kind matches KindView::Not(p) && is_sequence(*p, location, ps))
    ||| name == "*"@ && (kind matches KindView::Any(p) && is_sequence(*p, location, ps))
    ||| name == "choice"@ && kind == KindView::Choice(ps)
    ||| name == "unordered"@ && kind == KindView::Unordered(ps)
    ||| name == "sequence"@ && kind == KindView::Sequence(ps)
}

/// Whether a pattern stands for patterns in order: one by itself, more as a
/// sequence.
pub open spec fn is_sequence(p: PatternView, location: ScriptLocation, ps: Seq<PatternView>) -> bool {
    if ps.len() == 1 {
        p == ps[0]
    } else {
        stands_alone(p, location, KindView::Sequence(ps))
    }
}

proof fn lemma_names()
    ensures
        "repeat"@ == seq!['r', 'e', 'p', 'e', 'a', 't'],
        "optional"@ == seq!['o', 'p', 't', 'i', 'o', 'n', 'a', 'l'],
        "not"@ == seq!['n', 'o', 't'],
        "*"@ == seq!['*'],
        "choice"@ == seq!['c', 'h', 'o', 'i', 'c', 'e'],
        "unordered"@ == seq!['u', 'n', 'o', 'r', 'd', 'e', 'r', 'e', 'd'],
        "sequence"@ == seq!['s', 'e', 'q', 'u', 'e', 'n', 'c', 'e'],
        "if"@ == seq!['i', 'f'],
        "ignore"@ == seq!['i', 'g', 'n', 'o', 'r', 'e'],
        "reject"@ == seq!['r', 'e', 'j', 'e', 'c', 't'],
{
    reveal_strlit("repeat");
    reveal_strlit("optional");
    reveal_strlit("not");
    reveal_strlit("*");
    reveal_strlit("choice");
    reveal_strlit("unordered");
    reveal_strlit("sequence");
    reveal_strlit("if");
    reveal_strlit("ignore");
    reveal_strlit("reject");
    assert("repeat"@ =~= seq!['r', 'e', 'p', 'e', 'a', 't']);
    assert("optional"@ =~= seq!['o', 'p', 't', 'i', 'o', 'n', 'a', 'l']);
    assert("not"@ =~= seq!['n', 'o', 't']);
    assert("*"@ =~= seq!['*']);
    assert("choice"@ =~= seq!['c', 'h', 'o', 'i', 'c', 'e']);
    assert("unordered"@ =~= seq!['u', 'n', 'o', 'r', 'd', 'e', 'r', 'e', 'd']);
    assert("sequence"@ =~= seq!['s', 'e', 'q', 'u', 'e', 'n', 'c', 'e']);
    assert("if"@ =~= seq!['i', 'f']);
    assert("ignore"@ =~= seq!['i', 'g', 'n', 'o', 'r', 'e']);
    assert("reject"@ =~= seq!['r', 'e', 'j', 'e', 'c', 't']);
}

/// Whether a name is that of a block of patterns.
pub open spec fn is_block(name: Seq<char>) -> bool {
    name == "repeat"@ || name == "optional"@ || name == "not"@ || name == "*"@ || name == "choice"@
        || name == "unordered"@ || name == "sequence"@
}

/// A block of patterns in braces is one pattern that matches as its name says,
/// and what is skipped and rejected within it is skipped and rejected there.
/// With arguments or under another name it is refused.
pub proof fn law_blocks_are_read_by_name(
    location: ScriptLocation,
    name: Seq<char>,
    args: Seq<ShellBitView>,
    inner: Seq<SegmentView>,
)
    requires
        !SegmentView::SubBlock(location, name, args, inner).holds_command(),
        name != "if"@,
        name != "ignore"@,
        name != "reject"@,
    ensures
        ({
            let r = segment_patterns(SegmentView::SubBlock(location, name, args, inner));
            if args.len() > 0 {
                r matches Err(problem) && is_refused(
                    problem,
                    ScriptErrorType::InvalidPattern,
                    location,
                    Some(name + seq![' '] + list_debug(args)),
                )
            } else if !is_block(name) {
                r matches Err(problem) && is_refused(
                    problem,
                    ScriptErrorType::InvalidPattern,
                    location,
                    Some(name),
                )
            } else {
                match segments_patterns(inner) {
                    Err(e) => r == Err::<BuilderView, ProblemView>(e),
                    Ok(held) => r matches Ok(one) && one.ignore.len() == 0 && one.reject.len() == 0
                        && one.patterns.len() == 1 && one.patterns[0].location == location
                        && one.patterns[0].ignore == held.ignore && one.patterns[0].reject
                        == held.reject && names_block(
                        name,
                        location,
                        held.patterns,
                        one.patterns[0].kind,
                    ),
                }
            }
        }),
{
    lemma_names();
    lemma_names_differ();
    assert(name.push(' ') =~= name + seq![' ']);
    let s = SegmentView::SubBlock(location, name, args, inner);
    assert(!s.holds_command());
}

proof fn lemma_names_differ()
    ensures
        "repeat"@ != "choice"@,
        "repeat"@ != "unordered"@,
        "repeat"@ != "sequence"@,
        "repeat"@ != "optional"@,
        "repeat"@ != "not"@,
        "repeat"@ != "*"@,
        "choice"@ != "unordered"@,
        "choice"@ != "sequence"@,
        "choice"@ != "optional"@,
        "choice"@ != "not"@,
        "choice"@ != "*"@,
        "unordered"@ != "sequence"@,
        "unordered"@ != "optional"@,
        "unordered"@ != "not"@,
        "unordered"@ != "*"@,
        "sequence"@ != "optional"@,
        "sequence"@ != "not"@,
        "sequence"@ != "*"@,
        "optional"@ != "not"@,
        "optional"@ != "*"@,
        "not"@ != "*"@,
        "ignore"@ != "reject"@,
        "ignore"@ != "if"@,
        "reject"@ != "if"@,
{
    lemma_names();
    assert("repeat"@[0] == 'r' && "repeat"@.len() == 6);
    assert("choice"@[0] == 'c' && "choice"@.len() == 6);
    assert("unordered"@.len() == 9);
    assert("sequence"@[0] == 's' && "sequence"@.len() == 8);
    assert("optional"@[0] == 'o' && "optional"@.len() == 8);
    assert("not"@.len() == 3);
    assert("*"@.len() == 1);
    assert("ignore"@[0] == 'i' && "ignore"@.len() == 6);
    assert("reject"@[0] == 'r' && "reject"@.len() == 6);
    assert("if"@.len() == 2);
}

/// What an `ignore` block holds is skipped, and what a `reject` block holds is
/// rejected; neither is matched, and neither may hold another such block.
pub proof fn law_ignore_and_reject_blocks(
    location: ScriptLocation,
    inner: Seq<SegmentView>,
    held: BuilderView,
)
    requires
        segments_patterns(inner) == Ok::<BuilderView, ProblemView>(held),
        !SegmentView::SubBlock(location, "ignore"@, Seq::empty(), inner).holds_command(),
        !SegmentView::SubBlock(location, "reject"@, Seq::empty(), inner).holds_command(),
    ensures
        ({
            let skips = segment_patterns(
                SegmentView::SubBlock(location, "ignore"@, Seq::empty(), inner),
            );
            let refuses = segment_patterns(
                SegmentView::SubBlock(location, "reject"@, Seq::empty(), inner),
            );
            if held.ignore.len() == 0 && held.reject.len() == 0 {
                &&& skips matches Ok(b) && b.ignore == held.patterns && b.reject.len() == 0
                    && b.patterns.len() == 0
                &&& refuses matches Ok(b) && b.reject == held.patterns && b.ignore.len() == 0
                    && b.patterns.len() == 0
            } else {
                &&& skips matches Err(e) && is_refused(
                    e,
                    ScriptErrorType::InvalidPattern,
                    location,
                    None,
                )
                &&& refuses matches Err(e) && is_refused(
                    e,
                    ScriptErrorType::InvalidPattern,
                    location,
                    None,
                )
            }
        }),
{
    lemma_names_differ();
}

/// The condition that words stand for: `true`, `false`, or a comparison of a
/// variable with `==` or `!=`. Other words are refused.
pub proof fn law_conditions_are_read(location: ScriptLocation, words: Seq<ShellBitView>)
    ensures
        words.len() == 1 && words[0].text() == "true"@ ==> condition_of(location, words) == Ok::<
            IfConditionView,
            ProblemView,
        >(IfConditionView::True),
        words.len() == 1 && words[0].text() == "false"@ ==> condition_of(location, words) == Ok::<
            IfConditionView,
            ProblemView,
        >(IfConditionView::False),
        words.len() == 3 && words[1].text() == "=="@ ==> condition_of(location, words) == Ok::<
            IfConditionView,
            ProblemView,
        >(IfConditionView::EnvEq(false, words[0].text(), words[2])),
        words.len() == 3 && words[1].text() == "!="@ ==> condition_of(location, words) == Ok::<
            IfConditionView,
            ProblemView,
        >(IfConditionView::EnvEq(true, words[0].text(), words[2])),
        !(words.len() == 1 && (words[0].text() == "true"@ || words[0].text() == "false"@))
            && !(words.len() == 3 && (words[1].text() == "=="@ || words[1].text() == "!="@)) ==> (
        condition_of(location, words) matches Err(e) && is_refused(
            e,
            ScriptErrorType::InvalidIfCondition,
            location,
            Some(list_debug(words)),
        )),
{
    reveal_strlit("true");
    reveal_strlit("false");
    reveal_strlit("==");
    reveal_strlit("!=");
    assert("true"@.len() == 4 && "false"@.len() == 5);
    assert("=="@[0] == '=' && "!="@[0] == '!');
}

/// An `if` block is one pattern under its condition.
pub proof fn law_if_blocks(
    location: ScriptLocation,
    args: Seq<ShellBitView>,
    inner: Seq<SegmentView>,
)
    requires
        !SegmentView::SubBlock(location, "if"@, args, inner).holds_command(),
    ensures
        ({
            let r = segment_patterns(SegmentView::SubBlock(location, "if"@, args, inner));
            match (condition_of(location, args), segments_patterns(inner)) {
                (Ok(c), Ok(held)) => r matches Ok(one) && one.ignore.len() == 0 && one.reject.len()
                    == 0 && one.patterns.len() == 1 && one.patterns[0].location == location
                    && one.patterns[0].ignore == held.ignore && one.patterns[0].reject
                    == held.reject && (one.patterns[0].kind matches KindView::If(same, p) && same
                    == c && is_sequence(*p, location, held.patterns)),
                (Err(e), _) => r == Err::<BuilderView, ProblemView>(e),
                (Ok(_), Err(e)) => r == Err::<BuilderView, ProblemView>(e),
            }
        }),
{
    lemma_names_differ();
}

/// Segments are read in order: what they hold are the patterns of each, one
/// behind the other, and the first that is refused is why they are.
pub proof fn law_segments_are_read_in_order(front: Seq<SegmentView>, last: SegmentView)
    ensures
        match (segments_patterns(front), segment_patterns(last)) {
            (Ok(a), Ok(b)) => segments_patterns(front.push(last)) matches Ok(all) && all.patterns
                == a.patterns + b.patterns && all.ignore == a.ignore + b.ignore && all.reject
                == a.reject + b.reject,
            (Err(e), _) => segments_patterns(front.push(last)) == Err::<BuilderView, ProblemView>(e),
            (Ok(_), Err(e)) => segments_patterns(front.push(last)) == Err::<
                BuilderView,
                ProblemView,
            >(e),
        },
        segments_patterns(Seq::empty()) matches Ok(none) && none.patterns.len() == 0
            && none.ignore.len() == 0 && none.reject.len() == 0,
{
    let all = front.push(last);
    assert(all.drop_last() =~= front);
    assert(all.last() == last);
}

/// A command that stands among patterns is refused, at its place.
pub proof fn law_commands_are_no_patterns(s: SegmentView)
    requires
        s.holds_command(),
    ensures
        segment_patterns(s) matches Err(e) && is_refused(
            e,
            ScriptErrorType::UnsupportedCommandPosition,
            s.location(),
            None,
        ),
{
}

} // verus!
