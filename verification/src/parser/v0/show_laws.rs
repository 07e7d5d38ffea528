//! How segments are presented.
use crate::command::CommandLineView;
use crate::parser::v0::patterns::{list_debug, words_debug};
use crate::parser::v0::segment::{BlockTypeView, BlockView, SegmentView};
use crate::parser::v0::show::{block_sign, block_text, quoted_lines, segment_text, segments_text};
use crate::script::{ScriptLineView, ScriptLocation};
use crate::util::number::decimal;
use crate::util::shell::ShellBitView;
use crate::util::text::str_debug;
use vstd::prelude::*;

verus! {

/// Segments are presented one after the other, each on lines of its own.
pub proof fn law_segments_are_shown_in_order(
    a: Seq<SegmentView>,
    b: Seq<SegmentView>,
    s: SegmentView,
    indent: Seq<char>,
)
    ensures
        segments_text(a + b, indent) == segments_text(a, indent) + segments_text(b, indent),
        segments_text(seq![s], indent) == segment_text(s, indent),
        segments_text(Seq::empty(), indent) == Seq::<char>::empty(),
    decreases b.len(),
{
    let none = Seq::<char>::empty();
    if b.len() == 0 {
        assert(a + b =~= a);
        assert(segments_text(a, indent) + none =~= segments_text(a, indent));
    } else {
        law_segments_are_shown_in_order(a, b.drop_last(), s, indent);
        assert((a + b).drop_last() =~= a + b.drop_last());
        assert((a + b).last() == b.last());
        assert(segments_text(a + b, indent) =~= segments_text(a, indent) + segments_text(
            b,
            indent,
        ));
    }
    let one = seq![s];
    assert(one.drop_last() =~= Seq::empty());
    assert(one.last() == s);
    assert(segments_text(one.drop_last(), indent) =~= none);
    assert(segments_text(one, indent) =~= segment_text(s, indent));
}

/// A segment is presented with the number of its line in front: a head with
/// its words and, between braces and further indented, what it holds; a head
/// with its words and a semicolon; or a block of lines.
pub proof fn law_segments_are_shown(
    location: ScriptLocation,
    name: Seq<char>,
    args: Seq<ShellBitView>,
    inner: Seq<SegmentView>,
    b: BlockView,
    indent: Seq<char>,
)
    ensures
        segment_text(SegmentView::Semi(location, name, args), indent) == indent + ":"@ + decimal(
            location.line as nat,
        ) + " "@ + str_debug(name) + list_debug(args) + ";\n"@,
        segment_text(SegmentView::SubBlock(location, name, args, inner), indent) == indent + ":"@
            + decimal(location.line as nat) + " "@ + str_debug(name) + list_debug(args) + " {\n"@
            + segments_text(inner, indent + "  "@) + indent + "}\n"@,
        segment_text(SegmentView::Block(b), indent) == block_text(b, indent) + "\n"@,
{
}

/// A block of lines is presented with the sign of its kind, and each of its
/// lines on a line of its own, in quotes and without the white space around
/// it.
pub proof fn law_blocks_are_shown(
    b: BlockView,
    a: Seq<ScriptLineView>,
    line: ScriptLineView,
    indent: Seq<char>,
    command: CommandLineView,
)
    ensures
        block_text(b, indent) == indent + ":"@ + decimal(b.location.line as nat) + " "@
            + block_sign(b.block_type) + "[\n"@ + quoted_lines(b.lines, indent) + indent + "]"@,
        quoted_lines(Seq::empty(), indent) == Seq::<char>::empty(),
        quoted_lines(a + seq![line], indent) == quoted_lines(a, indent) + indent + "  "@
            + str_debug(line.trimmed()) + "\n"@,
        block_sign(BlockTypeView::Command(command)) == "$"@,
        block_sign(BlockTypeView::Ineffectual) == "#"@,
        block_sign(BlockTypeView::Pattern) == ""@,
        block_sign(BlockTypeView::Meta) == "%"@,
        block_sign(BlockTypeView::Any) == "*"@,
{
    assert((a + seq![line]).drop_last() =~= a);
    assert((a + seq![line]).last() == line);
}

/// Words are presented in their order, each in quotes, with commas between
/// them and brackets around them.
pub proof fn law_words_are_shown(words: Seq<ShellBitView>, word: ShellBitView)
    ensures
        list_debug(words) == "["@ + words_debug(words) + "]"@,
        words_debug(Seq::empty()) == Seq::<char>::empty(),
        words_debug(seq![word]) == str_debug(word.text()),
        words.len() > 0 ==> words_debug(words + seq![word]) == words_debug(words) + ", "@
            + str_debug(word.text()),
{
    let more = words + seq![word];
    assert(more.drop_last() =~= words);
    assert(more.last() == word);
}

} // verus!
