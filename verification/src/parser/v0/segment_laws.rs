//! What splitting a script into segments promises.
use crate::command::CommandLineView;
use crate::parser::v0::command_line::{command_continues, command_fault};
use crate::parser::v0::segment::{
    command_extent, command_text, head_of, mark_after, segment_lines, segments_of, BlockTypeView,
    BlockView, HeadView, SegmentView, Segmented, ESCAPED_MULTILINE, LITERAL_MULTILINE,
    REGEX_MULTILINE,
};
use crate::script::{ScriptErrorType, ScriptFile, ScriptLineView, ScriptLocation, script_lines};
use crate::util::shell::split_words;
use crate::util::text::{alphabetic, has_prefix, lines_of, trimmed, white};
use crate::util::text_laws::{is_blank, is_trim, law_first_white, law_trim};
use vstd::prelude::*;

verus! {

/// The lines of a script are numbered from 1, in order, and stand in its file.
pub proof fn law_lines_are_numbered(file: ScriptFile, script: Seq<char>, i: int)
    requires
        0 <= i < lines_of(script).len() <= usize::MAX,
    ensures
        script_lines(file, script).len() == lines_of(script).len(),
        script_lines(file, script)[i].text == lines_of(script)[i],
        script_lines(file, script)[i].location.file == file,
        script_lines(file, script)[i].location.line == i + 1,
{
}

/// Whether a text is a word: it holds no white space.
pub open spec fn is_word(text: Seq<char>) -> bool {
    text.len() > 0 && forall|i: int| 0 <= i < text.len() ==> !white(#[trigger] text[i])
}

/// A line that begins with a letter is split into its first word and the rest,
/// and ends in `{` or `;`. White space between these is left out.
pub proof fn law_heads_are_split(
    name: Seq<char>,
    gap: Seq<char>,
    args: Seq<char>,
    space: Seq<char>,
    end: char,
)
    requires
        is_word(name),
        alphabetic(name[0]),
        is_blank(gap),
        is_blank(space),
        is_trim(args),
        args.len() > 0 ==> gap.len() > 0,
        end == '{' || end == ';',
    ensures
        head_of(name + gap + args + space + seq![end]) matches Ok(Some(head)) && head.name == name
            && head.args == args && head.semi == (end == ';'),
{
    let text = name + gap + args + space + seq![end];
    assert(text[0] == name[0]);
    assert(text.last() == end);
    let none = Seq::<char>::empty();
    assert(!white(name[0]));
    assert(!white(name[name.len() - 1]));
    if args.len() > 0 {
        let core = name + gap + args;
        assert(core[0] == name[0]);
        assert(core.last() == args.last());
        law_trim(none, core, space);
        assert(none + core + space =~= text.drop_last());
        assert(white(gap[0]));
        law_first_white(name, gap[0], gap.skip(1) + args);
        assert(name + seq![gap[0]] + (gap.skip(1) + args) =~= core);
        let k = name.len() as int;
        assert(core.take(k) =~= name);
        law_trim(none, name, none);
        assert(none + name + none =~= name);
        let left = gap.skip(1);
        assert(is_blank(left)) by {
            assert forall|i: int| 0 <= i < left.len() implies white(#[trigger] left[i]) by {
                assert(left[i] == gap[i + 1]);
            }
        }
        law_trim(left, args, none);
        assert(core.skip(k + 1) =~= left + args + none);
    } else {
        let blank = gap + space;
        assert(is_blank(blank)) by {
            assert forall|i: int| 0 <= i < blank.len() implies white(#[trigger] blank[i]) by {
                if i < gap.len() {
                    assert(blank[i] == gap[i]);
                } else {
                    assert(blank[i] == space[i - gap.len()]);
                }
            }
        }
        law_trim(none, name, blank);
        assert(none + name + blank =~= text.drop_last());
        law_first_white(name, ' ', none);
        assert(args =~= none);
    }
}

/// A line that begins with a letter and does not end in `{` or `;` is refused;
/// one that does not begin with a letter is no head.
pub proof fn law_other_lines_are_no_heads(text: Seq<char>)
    ensures
        text.len() > 0 && alphabetic(text[0]) && text.last() != '{' && text.last() != ';'
            ==> head_of(text) == Err::<Option<HeadView>, ScriptErrorType>(
            ScriptErrorType::ExpectedBlockOrSemi,
        ),
        text.len() == 0 || !alphabetic(text[0]) ==> head_of(text) == Ok::<
            Option<HeadView>,
            ScriptErrorType,
        >(None),
{
}

/// Whether splitting gives one block of lines and nothing else.
pub open spec fn gives_block(r: Segmented, kind: BlockTypeView, lines: Seq<ScriptLineView>) -> bool {
    r matches Ok((segments, left)) && left.len() == 0 && segments.len() == 1 && (
    segments[0] matches SegmentView::Block(b) && b.block_type == kind && b.lines == lines
        && b.location == lines[0].location)
}

/// Whether splitting is refused.
pub open spec fn is_split_refused(
    r: Segmented,
    error: ScriptErrorType,
    location: ScriptLocation,
) -> bool {
    r matches Err(e) && e.error == error && e.location == location
}

proof fn lemma_signs()
    ensures
        "$"@ == seq!['$'],
        "#"@ == seq!['#'],
        "%"@ == seq!['%'],
        "*"@ == seq!['*'],
        "}"@ == seq!['}'],
        ESCAPED_MULTILINE@ == seq!['!', '!', '!'],
        REGEX_MULTILINE@ == seq!['?', '?', '?'],
        LITERAL_MULTILINE@ == seq!['"', '"', '"'],
{
    reveal_strlit("$");
    reveal_strlit("#");
    reveal_strlit("%");
    reveal_strlit("*");
    reveal_strlit("}");
    reveal_strlit("!!!");
    reveal_strlit("???");
    reveal_strlit("\"\"\"");
    assert("$"@ =~= seq!['$']);
    assert("#"@ =~= seq!['#']);
    assert("%"@ =~= seq!['%']);
    assert("*"@ =~= seq!['*']);
    assert("}"@ =~= seq!['}']);
    assert(ESCAPED_MULTILINE@ =~= seq!['!', '!', '!']);
    assert(REGEX_MULTILINE@ =~= seq!['?', '?', '?']);
    assert(LITERAL_MULTILINE@ =~= seq!['"', '"', '"']);
}

/// A text begins with a sign exactly where that is its first character.
proof fn lemma_sign(text: Seq<char>, sign: char)
    ensures
        has_prefix(text, seq![sign]) == (text.len() > 0 && text[0] == sign),
{
    if text.len() > 0 {
        assert(text.take(1)[0] == text[0]);
        if text[0] == sign {
            assert(text.take(1) =~= seq![sign]);
        } else {
            assert(seq![sign][0] == sign);
        }
    }
}

/// Whether a text is a mark of a multi-line pattern.
pub open spec fn is_any_mark(text: Seq<char>) -> bool {
    text == seq!['!', '!', '!'] || text == seq!['?', '?', '?'] || text == seq!['"', '"', '"']
}

proof fn lemma_mark(text: Seq<char>)
    ensures
        mark_after(None, text) == if is_any_mark(text) {
            Some(text)
        } else {
            None
        },
{
    lemma_signs();
}

/// What a line is goes by its first character: a comment behind a `#`, a `%`
/// line, a wildcard behind a `*`, a command behind a `$`, a head behind a
/// letter; a `}` ends a block, and a line with another character is a pattern.
/// White space in front and behind does not count, and an empty line is a
/// comment.
pub proof fn law_lines_go_by_their_first_character(line: ScriptLineView)
    requires
        !is_any_mark(line.trimmed()),
    ensures
        ({
            let text = line.trimmed();
            let r = segments_of(true, seq![line]);
            let one = seq![line];
            &&& text.len() == 0 || text[0] == '#' ==> gives_block(
                r,
                BlockTypeView::Ineffectual,
                one,
            )
            &&& text.len() > 0 && text[0] == '%' ==> gives_block(r, BlockTypeView::Meta, one)
            &&& text.len() > 0 && text[0] == '*' ==> gives_block(r, BlockTypeView::Any, one)
            &&& text == seq!['}'] ==> is_split_refused(
                r,
                ScriptErrorType::InvalidBlockEnd,
                line.location,
            )
            &&& text.len() > 0 && text[0] != '#' && text[0] != '%' && text[0] != '*' && text[0]
                != '$' && text != seq!['}'] && !alphabetic(text[0]) ==> gives_block(
                r,
                BlockTypeView::Pattern,
                one,
            )
            &&& text.len() > 0 && alphabetic(text[0]) && text.last() != ';' && text.last() != '{'
                ==> is_split_refused(r, ScriptErrorType::ExpectedBlockOrSemi, line.location)
            &&& text.len() > 0 && alphabetic(text[0]) && text.last() == '{' && (head_of(
                text,
            ) matches Ok(Some(head)) && split_words(head.args) is Ok) ==> is_split_refused(
                r,
                ScriptErrorType::InvalidBlockEnd,
                line.location,
            )
        }),
{
    let text = line.trimmed();
    lemma_signs();
    lemma_mark(text);
    lemma_sign(text, '$');
    lemma_sign(text, '#');
    lemma_sign(text, '%');
    lemma_sign(text, '*');
    lemma_ascii_signs();
    let lines = seq![line];
    assert(lines[0] == line);
    assert(lines.skip(1) =~= Seq::empty());
    let end = lines.last().location;
    assert(seq!['}'][0] == '}' && seq!['}'].len() == 1);
    assert(segment_lines(true, lines.skip(1), None, None, end) is Ok);
    let none = Seq::<SegmentView>::empty();
    if text.len() == 0 || (!alphabetic(text[0]) && text[0] != '$' && text != seq!['}']) {
        let kind = crate::parser::v0::segment::line_kind(text);
        let b = BlockView { location: line.location, block_type: kind, lines };
        let rest = segment_lines(true, lines.skip(1), Some(b), None, end);
        assert(rest == Segmented::Ok((seq![SegmentView::Block(b)], Seq::empty())));
        assert(none + seq![SegmentView::Block(b)] =~= seq![SegmentView::Block(b)]);
        assert(b == crate::parser::v0::segment::open_with(None, line, kind));
    }
}

proof fn lemma_ascii_signs()
    ensures
        !alphabetic('$'),
        !alphabetic('#'),
        !alphabetic('%'),
        !alphabetic('*'),
        !alphabetic('}'),
        !alphabetic('!'),
        !alphabetic('?'),
        !alphabetic('"'),
{
}

/// A `;` line by itself is one segment with its words.
pub proof fn law_semi_lines(line: ScriptLineView, head: HeadView)
    requires
        head_of(line.trimmed()) == Ok::<Option<HeadView>, ScriptErrorType>(Some(head)),
        line.trimmed().last() == ';',
    ensures
        match split_words(head.args) {
            Ok(words) => segments_of(true, seq![line]) matches Ok((segments, left)) && left.len()
                == 0 && segments.len() == 1 && segments[0] == SegmentView::Semi(
                line.location,
                head.name,
                words,
            ),
            Err(_) => segments_of(true, seq![line]) matches Err(e) && e.error
                == ScriptErrorType::InvalidBlockArgs && e.location == line.location && e.data
                == Some(head.name + seq![' '] + head.args),
        },
{
    let text = line.trimmed();
    lemma_signs();
    lemma_sign(text, '$');
    lemma_ascii_signs();
    lemma_mark(text);
    assert(text.len() > 0 && alphabetic(text[0]));
    assert(!is_any_mark(text)) by {
        assert(seq!['!', '!', '!'][0] == '!' && seq!['?', '?', '?'][0] == '?' && seq![
            '"',
            '"',
            '"',
        ][0] == '"');
    }
    let lines = seq![line];
    let end = lines.last().location;
    assert(lines[0] == line);
    assert(lines.skip(1) =~= Seq::empty());
    assert(head.name.push(' ') =~= head.name + seq![' ']);
    if let Ok(words) = split_words(head.args) {
        let s = SegmentView::Semi(line.location, head.name, words);
        assert(segment_lines(true, lines.skip(1), None, None, end) == Segmented::Ok(
            (Seq::empty(), Seq::empty()),
        ));
        assert(Seq::<SegmentView>::empty().push(s) + Seq::<SegmentView>::empty() =~= seq![s]);
    }
}

proof fn lemma_waits_through(
    lines: Seq<ScriptLineView>,
    mark: Seq<char>,
    end_line: ScriptLineView,
    open: BlockView,
    end: ScriptLocation,
)
    requires
        open.block_type is Pattern,
        open.lines.len() > 0,
        is_any_mark(mark),
        end_line.trimmed() == mark,
        forall|i: int| 0 <= i < lines.len() ==> (#[trigger] lines[i]).trimmed() != mark,
    ensures
        segment_lines(true, lines.push(end_line), Some(open), Some(mark), end) == Segmented::Ok(
            (
                seq![
                    SegmentView::Block(
                        BlockView { lines: open.lines + lines.push(end_line), ..open },
                    ),
                ],
                Seq::empty(),
            ),
        ),
    decreases lines.len(),
{
    let all = lines.push(end_line);
    let none = Seq::<SegmentView>::empty();
    if lines.len() == 0 {
        lemma_signs();
        lemma_ascii_signs();
        lemma_sign(mark, '$');
        lemma_sign(mark, '#');
        lemma_sign(mark, '%');
        lemma_sign(mark, '*');
        assert(seq!['!', '!', '!'][0] == '!' && seq!['?', '?', '?'][0] == '?' && seq!['"', '"', '"'][0]
            == '"');
        assert(seq!['}'][0] == '}');
        assert(all[0] == end_line);
        assert(all.skip(1) =~= Seq::empty());
        let b = BlockView { lines: open.lines.push(end_line), ..open };
        assert(open.lines + all =~= open.lines.push(end_line));
        assert(segment_lines(true, all.skip(1), Some(b), None, end) == Segmented::Ok(
            (seq![SegmentView::Block(b)], Seq::empty()),
        ));
        assert(none + seq![SegmentView::Block(b)] =~= seq![SegmentView::Block(b)]);
    } else {
        let line = lines[0];
        let rest = lines.skip(1);
        assert(all[0] == line);
        assert(all.skip(1) =~= rest.push(end_line));
        assert(line.trimmed() != mark);
        assert forall|i: int| 0 <= i < rest.len() implies (#[trigger] rest[i]).trimmed() != mark by {
            assert(rest[i] == lines[i + 1]);
        }
        let b = BlockView { lines: open.lines.push(line), ..open };
        lemma_waits_through(rest, mark, end_line, b, end);
        let whole = BlockView { lines: open.lines + all, ..open };
        assert(b.lines + rest.push(end_line) =~= whole.lines);
        assert(none + seq![SegmentView::Block(whole)] =~= seq![SegmentView::Block(whole)]);
    }
}

/// The lines between two marks of a multi-line pattern belong to one block of
/// patterns with the marks, whatever they hold.
pub proof fn law_multiline_patterns_stay_together(
    start: ScriptLineView,
    lines: Seq<ScriptLineView>,
    end_line: ScriptLineView,
)
    requires
        is_any_mark(start.trimmed()),
        end_line.trimmed() == start.trimmed(),
        forall|i: int|
            0 <= i < lines.len() ==> (#[trigger] lines[i]).trimmed() != start.trimmed(),
    ensures
        gives_block(
            segments_of(true, seq![start] + lines + seq![end_line]),
            BlockTypeView::Pattern,
            seq![start] + lines + seq![end_line],
        ),
{
    let all = seq![start] + lines + seq![end_line];
    let end = all.last().location;
    let mark = start.trimmed();
    lemma_mark(mark);
    assert(all[0] == start);
    assert(all.skip(1) =~= lines.push(end_line));
    let open = BlockView {
        location: start.location,
        block_type: BlockTypeView::Pattern,
        lines: seq![start],
    };
    lemma_waits_through(lines, mark, end_line, open, end);
    let whole = BlockView { lines: open.lines + lines.push(end_line), ..open };
    assert(whole.lines =~= all);
    assert(Seq::<SegmentView>::empty() + seq![SegmentView::Block(whole)] =~= seq![
        SegmentView::Block(whole),
    ]);
}

/// The first lines of a command, each without white space around it, with line
/// feeds between them.
pub open spec fn command_lines(first: Seq<char>, lines: Seq<ScriptLineView>) -> Seq<char>
    decreases lines.len(),
{
    if lines.len() == 0 {
        first
    } else {
        command_lines(first, lines.drop_last()) + seq!['\n'] + lines.last().trimmed()
    }
}

proof fn lemma_extent(
    text: Seq<char>,
    count: int,
    lines: Seq<ScriptLineView>,
    rest: Seq<ScriptLineView>,
)
    requires
        forall|k: int|
            0 <= k < lines.len() ==> command_continues(
                #[trigger] command_lines(text, lines.take(k)),
            ),
        command_fault(command_lines(text, lines)) is None,
    ensures
        command_extent(text, count, lines + rest) == Ok::<(Seq<char>, int), ScriptErrorType>(
            (command_lines(text, lines), count + lines.len()),
        ),
    decreases lines.len(),
{
    let all = lines + rest;
    if lines.len() > 0 {
        assert(command_continues(command_lines(text, lines.take(0))));
        assert(lines.take(0) =~= Seq::empty());
        assert(command_lines(text, lines.take(0)) == text);
        let next = text.push('\n') + lines[0].trimmed();
        let more = lines.skip(1);
        assert(all[0] == lines[0]);
        assert(all.skip(1) =~= more + rest);
        assert forall|k: int| 0 <= k < more.len() implies command_continues(
            #[trigger] command_lines(next, more.take(k)),
        ) by {
            lemma_command_lines_first(text, lines.take(k + 1));
            assert(lines.take(k + 1).skip(1) =~= more.take(k));
            assert(lines.take(k + 1)[0] == lines[0]);
        }
        lemma_command_lines_first(text, lines);
        lemma_extent(next, count + 1, more, rest);
    } else {
        assert(all =~= rest);
    }
}

proof fn lemma_command_lines_first(text: Seq<char>, lines: Seq<ScriptLineView>)
    requires
        lines.len() > 0,
    ensures
        command_lines(text, lines) == command_lines(
            text.push('\n') + lines[0].trimmed(),
            lines.skip(1),
        ),
    decreases lines.len(),
{
    if lines.len() == 1 {
        assert(lines.drop_last() =~= Seq::empty());
        assert(lines.skip(1) =~= Seq::empty());
        let next = text.push('\n') + lines[0].trimmed();
        assert(command_lines(text, lines.drop_last()) == text);
        assert(command_lines(next, lines.skip(1)) == next);
        assert(text + seq!['\n'] + lines.last().trimmed() =~= next);
    } else {
        lemma_command_lines_first(text, lines.drop_last());
        assert(lines.drop_last().skip(1) =~= lines.skip(1).drop_last());
        assert(lines.skip(1).last() == lines.last());
        assert(lines.drop_last()[0] == lines[0]);
    }
}

/// A command takes up its line and the lines that it continues on, as long as
/// it is not complete: its text is what stands behind the `$`, and the lines
/// below with line feeds before them.
pub proof fn law_commands_take_their_lines(
    line: ScriptLineView,
    text: Seq<char>,
    lines: Seq<ScriptLineView>,
)
    requires
        is_trim(text),
        exists|gap: Seq<char>|
            is_blank(gap) && line.trimmed() == #[trigger] (seq!['$'] + gap + text),
        forall|k: int|
            0 <= k < lines.len() ==> command_continues(
                #[trigger] command_lines(text, lines.take(k)),
            ),
        command_fault(command_lines(text, lines)) is None,
    ensures
        gives_block(
            segments_of(true, seq![line] + lines),
            BlockTypeView::Command(
                CommandLineView {
                    command: command_lines(text, lines),
                    location: line.location,
                    line_count: 1 + lines.len() as int,
                },
            ),
            seq![line] + lines,
        ),
{
    let all = seq![line] + lines;
    let whole = line.trimmed();
    let none = Seq::<ScriptLineView>::empty();
    let empty = Seq::<char>::empty();
    let gap = choose|gap: Seq<char>|
        is_blank(gap) && line.trimmed() == #[trigger] (seq!['$'] + gap + text);
    lemma_signs();
    lemma_mark(whole);
    lemma_sign(whole, '$');
    assert(whole[0] == '$');
    assert(seq!['!', '!', '!'][0] == '!' && seq!['?', '?', '?'][0] == '?' && seq!['"', '"', '"'][0]
        == '"');
    law_trim(gap, text, empty);
    assert(whole.skip(1) =~= gap + text + empty);
    assert(command_text(line) == text);
    assert(all[0] == line);
    assert(all.skip(1) =~= lines + none);
    lemma_extent(text, 1, lines, none);
    let count = all.len() as int;
    assert(all.take(count) =~= all);
    assert(all.skip(count) =~= none);
    let end = all.last().location;
    assert(segment_lines(true, all.skip(count), None, None, end) == Segmented::Ok(
        (Seq::empty(), Seq::empty()),
    ));
    let b = SegmentView::Block(
        BlockView {
            location: line.location,
            block_type: BlockTypeView::Command(
                CommandLineView {
                    command: command_lines(text, lines),
                    location: line.location,
                    line_count: count,
                },
            ),
            lines: all,
        },
    );
    assert(Seq::<SegmentView>::empty().push(b) + Seq::<SegmentView>::empty() =~= seq![b]);
}

} // verus!
