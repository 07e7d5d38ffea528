//! Presenting segments.
use crate::parser::v0::patterns::{debug_list, list_debug};
use crate::parser::v0::segment::{
    segments_model, BlockType, BlockTypeView, BlockView, ScriptV0Block, ScriptV0Segment,
    SegmentView,
};
use crate::script::{script_lines_view, ScriptLineView};
use crate::util::number::{decimal, push_decimal};
use crate::util::text::{debug_str, push_str, str_debug};
use vstd::prelude::*;

verus! {

/// The sign of a kind of block.
pub open spec fn block_sign(kind: BlockTypeView) -> Seq<char> {
    match kind {
        BlockTypeView::Command(_) => "$"@,
        BlockTypeView::Ineffectual => "#"@,
        BlockTypeView::Pattern => ""@,
        BlockTypeView::Meta => "%"@,
        BlockTypeView::Any => "*"@,
    }
}

/// The lines of a block, each in quotes.
pub open spec fn quoted_lines(lines: Seq<ScriptLineView>, indent: Seq<char>) -> Seq<char>
    decreases lines.len(),
{
    if lines.len() == 0 {
        Seq::empty()
    } else {
        quoted_lines(lines.drop_last(), indent) + indent + "  "@ + str_debug(lines.last().trimmed())
            + "\n"@
    }
}

/// How a block is presented.
pub open spec fn block_text(b: BlockView, indent: Seq<char>) -> Seq<char> {
    indent + ":"@ + decimal(b.location.line as nat) + " "@ + block_sign(b.block_type) + "[\n"@
        + quoted_lines(b.lines, indent) + indent + "]"@
}

/// How a segment is presented, with all that it holds.
pub open spec fn segment_text(s: SegmentView, indent: Seq<char>) -> Seq<char>
    decreases s, 0int,
{
    match s {
        SegmentView::Block(b) => block_text(b, indent) + "\n"@,
        SegmentView::SubBlock(location, name, args, inner) => indent + ":"@ + decimal(
            location.line as nat,
        ) + " "@ + str_debug(name) + list_debug(args) + " {\n"@ + segments_text(
            inner,
            indent + "  "@,
        ) + indent + "}\n"@,
        SegmentView::Semi(location, name, args) => indent + ":"@ + decimal(location.line as nat)
            + " "@ + str_debug(name) + list_debug(args) + ";\n"@,
    }
}

/// How segments are presented, one after the other.
pub open spec fn segments_text(ss: Seq<SegmentView>, indent: Seq<char>) -> Seq<char>
    decreases ss, 1int,
{
    if ss.len() == 0 {
        Seq::empty()
    } else {
        segments_text(ss.drop_last(), indent) + segment_text(ss.last(), indent)
    }
}

impl ScriptV0Block {
    /// How the block is presented.
    pub fn to_text(&self, indent: &str) -> (r: String)
        ensures
            r@ == block_text(self@, indent@),
    {
        let ghost lines = script_lines_view(self.lines@);
        let sign = match self.block_type {
            BlockType::Command(_) => "$",
            BlockType::Ineffectual => "#",
            BlockType::Pattern => "",
            BlockType::Meta => "%",
            BlockType::Any => "*",
        };
        let mut out: String = indent.to_owned();
        push_str(&mut out, ":");
        push_decimal(&mut out, self.location.line);
        push_str(&mut out, " ");
        push_str(&mut out, sign);
        push_str(&mut out, "[\n");
        let ghost head = out@;
        let mut i: usize = 0;
        proof {
            assert(lines.take(0) =~= Seq::empty());
            assert(head + Seq::<char>::empty() =~= head);
        }
        while i < self.lines.len()
            invariant
                i <= self.lines@.len(),
                lines == script_lines_view(self.lines@),
                out@ == head + quoted_lines(lines.take(i as int), indent@),
            decreases self.lines@.len() - i,
        {
            proof {
                assert(lines.take(i + 1).drop_last() =~= lines.take(i as int));
                assert(lines.take(i + 1).last() == self.lines@[i as int]@);
            }
            let text = debug_str(self.lines[i].text());
            push_str(&mut out, indent);
            push_str(&mut out, "  ");
            push_str(&mut out, text.as_str());
            push_str(&mut out, "\n");
            proof {
                assert(out@ =~= head + quoted_lines(lines.take(i + 1), indent@));
            }
            i += 1;
        }
        proof {
            assert(lines.take(i as int) =~= lines);
        }
        push_str(&mut out, indent);
        push_str(&mut out, "]");
        proof {
            assert(out@ =~= block_text(self@, indent@));
        }
        out
    }
}

impl ScriptV0Segment {
    /// How the segment is presented, with all that it holds.
    pub fn to_text(&self, indent: &str) -> (r: String)
        ensures
            r@ == segment_text(self.model(), indent@),
        decreases self, 0int,
    {
        match self {
            ScriptV0Segment::Block(block) => {
                let mut out = block.to_text(indent);
                push_str(&mut out, "\n");
                out
            },
            ScriptV0Segment::SubBlock(location, name, args, inner) => {
                let mut out: String = indent.to_owned();
                push_str(&mut out, ":");
                push_decimal(&mut out, location.line);
                push_str(&mut out, " ");
                push_str(&mut out, debug_str(name.as_str()).as_str());
                push_str(&mut out, debug_list(args).as_str());
                push_str(&mut out, " {\n");
                let mut deeper: String = indent.to_owned();
                push_str(&mut deeper, "  ");
                proof {
                    assert(self.model()->SubBlock_3 =~= segments_model(inner@));
                }
                let within = show_segments(inner, deeper.as_str());
                push_str(&mut out, within.as_str());
                push_str(&mut out, indent);
                push_str(&mut out, "}\n");
                out
            },
            ScriptV0Segment::Semi(location, name, args) => {
                let mut out: String = indent.to_owned();
                push_str(&mut out, ":");
                push_decimal(&mut out, location.line);
                push_str(&mut out, " ");
                push_str(&mut out, debug_str(name.as_str()).as_str());
                push_str(&mut out, debug_list(args).as_str());
                push_str(&mut out, ";\n");
                out
            },
        }
    }
}

/// How segments are presented, one after the other.
pub fn show_segments(segments: &Vec<ScriptV0Segment>, indent: &str) -> (r: String)
    ensures
        r@ == segments_text(segments_model(segments@), indent@),
    decreases segments, 0int,
{
    let ghost ss = segments_model(segments@);
    let mut out = String::new();
    let mut i: usize = 0;
    proof {
        assert(ss.take(0) =~= Seq::empty());
        assert(out@ =~= Seq::empty());
    }
    while i < segments.len()
        invariant
            i <= segments@.len(),
            ss == segments_model(segments@),
            out@ == segments_text(ss.take(i as int), indent@),
        decreases segments@.len() - i,
    {
        proof {
            assert(ss.take(i + 1).drop_last() =~= ss.take(i as int));
            assert(ss.take(i + 1).last() == segments@[i as int].model());
        }
        let text = segments[i].to_text(indent);
        push_str(&mut out, text.as_str());
        i += 1;
    }
    proof {
        assert(ss.take(i as int) =~= ss);
    }
    out
}

} // verus!
