//! What bringing segments into their normal form keeps.
use crate::parser::v0::normalize::{
    attach, end_block, gather, merge_block, normalized, segment_split, wildcard,
};
use crate::parser::v0::segment::{BlockView, SegmentView};
use crate::script::{ScriptLineView, ScriptLocation};
use crate::util::shell::ShellBitView;
use vstd::prelude::*;

verus! {

/// What counts in a script: the lines of commands, patterns and `%` lines, and
/// the `;` lines.
pub enum Item {
    /// A line.
    Line(ScriptLineView),
    /// A `;` line.
    Semi(ScriptLocation, Seq<char>, Seq<ShellBitView>),
}

/// The lines of a block that count: all of them, where they are commands,
/// patterns or `%` lines. The lines that end the output of a command do not.
pub open spec fn counted_lines(lines: Seq<ScriptLineView>) -> Seq<Item>
    decreases lines.len(),
{
    if lines.len() == 0 {
        Seq::empty()
    } else {
        counted_lines(lines.drop_last()) + if lines.last().text == "end"@ {
            Seq::empty()
        } else {
            seq![Item::Line(lines.last())]
        }
    }
}

/// What counts in a segment.
pub open spec fn counted_in(s: SegmentView) -> Seq<Item>
    decreases s, 0int,
{
    match s {
        SegmentView::Block(b) => if b.block_type is Ineffectual || b.block_type is Any {
            Seq::empty()
        } else {
            counted_lines(b.lines)
        },
        SegmentView::SubBlock(_, _, _, inner) => counted(inner),
        SegmentView::Semi(location, name, args) => seq![Item::Semi(location, name, args)],
    }
}

/// What counts in segments, in order.
pub open spec fn counted(ss: Seq<SegmentView>) -> Seq<Item>
    decreases ss, 1int,
{
    if ss.len() == 0 {
        Seq::empty()
    } else {
        counted(ss.drop_last()) + counted_in(ss.last())
    }
}

proof fn lemma_counted_lines_concat(a: Seq<ScriptLineView>, b: Seq<ScriptLineView>)
    ensures
        counted_lines(a + b) == counted_lines(a) + counted_lines(b),
    decreases b.len(),
{
    if b.len() == 0 {
        assert(a + b =~= a);
        assert(counted_lines(a) + counted_lines(b) =~= counted_lines(a));
    } else {
        assert((a + b).drop_last() =~= a + b.drop_last());
        assert((a + b).last() == b.last());
        lemma_counted_lines_concat(a, b.drop_last());
        assert(counted_lines(a + b) =~= counted_lines(a) + counted_lines(b));
    }
}

proof fn lemma_counted_concat(a: Seq<SegmentView>, b: Seq<SegmentView>)
    ensures
        counted(a + b) == counted(a) + counted(b),
    decreases b.len(),
{
    if b.len() == 0 {
        assert(a + b =~= a);
        assert(counted(a) + counted(b) =~= counted(a));
    } else {
        assert((a + b).drop_last() =~= a + b.drop_last());
        assert((a + b).last() == b.last());
        lemma_counted_concat(a, b.drop_last());
        assert(counted(a + b) =~= counted(a) + counted(b));
    }
}

proof fn lemma_counted_one(s: SegmentView)
    ensures
        counted(seq![s]) == counted_in(s),
{
    assert(seq![s].drop_last() =~= Seq::empty());
    assert(counted(seq![s].drop_last()) =~= Seq::empty());
    assert(seq![s].last() == s);
    assert(counted(seq![s]) =~= counted_in(s));
}

proof fn lemma_counted_push(ss: Seq<SegmentView>, s: SegmentView)
    ensures
        counted(ss.push(s)) == counted(ss) + counted_in(s),
{
    assert(ss.push(s).drop_last() =~= ss);
    assert(ss.push(s).last() == s);
}

proof fn lemma_end_counts_not(location: ScriptLocation)
    ensures
        counted_in(end_block(location)) == Seq::<Item>::empty(),
{
    let b = end_block(location)->Block_0;
    assert(b.lines.drop_last() =~= Seq::empty());
    assert(counted_lines(b.lines.drop_last()) =~= Seq::empty());
    assert(b.lines.last().text == "end"@);
    assert(counted_in(end_block(location)) =~= Seq::empty());
}

proof fn lemma_counted_merge(out: Seq<SegmentView>, b: BlockView)
    ensures
        counted(merge_block(out, b)) == counted(out) + counted_in(SegmentView::Block(b)),
{
    let s = SegmentView::Block(b);
    if out.len() > 0 && out.last() is Block && !(b.block_type is Command) && b.block_type.same_kind(
        out.last()->Block_0.block_type,
    ) {
        let last = out.last()->Block_0;
        let merged = SegmentView::Block(BlockView { lines: last.lines + b.lines, ..last });
        lemma_counted_push(out.drop_last(), merged);
        lemma_counted_lines_concat(last.lines, b.lines);
        assert(merge_block(out, b) == out.drop_last().push(merged));
        assert(counted(out) == counted(out.drop_last()) + counted_in(out.last()));
        assert(counted_in(merged) =~= counted_in(out.last()) + counted_in(s));
        assert(counted(merge_block(out, b)) =~= counted(out) + counted_in(s));
    } else {
        lemma_counted_push(out, s);
    }
}

proof fn lemma_counted_split(s: SegmentView)
    ensures
        segment_split(s) matches Some((first, left)) ==> counted_in(s) == counted_in(first)
            + counted_in(left),
{
    if let Some((first, left)) = segment_split(s) {
        match s {
            SegmentView::Block(b) => {
                let one = seq![b.lines[0]];
                lemma_counted_lines_concat(one, b.lines.skip(1));
                assert(one + b.lines.skip(1) =~= b.lines);
            },
            _ => {
                assert(counted_in(left) =~= Seq::empty());
                assert(counted_in(s) =~= counted_in(first) + counted_in(left));
            },
        }
    }
}

proof fn lemma_empty_counts_not(s: SegmentView)
    requires
        s.is_empty(),
    ensures
        counted_in(s) == Seq::<Item>::empty(),
    decreases s, 0int,
{
    match s {
        SegmentView::Block(b) => {
            assert(counted_lines(b.lines) =~= Seq::empty());
        },
        SegmentView::SubBlock(_, _, _, inner) => {
            assert forall|i: int| 0 <= i < inner.len() implies (
            #[trigger] inner[i]).is_empty() by {}
            lemma_all_empty_count_not(inner);
        },
        _ => {},
    }
}

proof fn lemma_all_empty_count_not(ss: Seq<SegmentView>)
    requires
        forall|i: int| 0 <= i < ss.len() ==> (#[trigger] ss[i]).is_empty(),
    ensures
        counted(ss) == Seq::<Item>::empty(),
    decreases ss, 1int,
{
    if ss.len() > 0 {
        let front = ss.drop_last();
        assert forall|i: int| 0 <= i < front.len() implies (#[trigger] front[i]).is_empty() by {
            assert(front[i] == ss[i]);
        }
        lemma_all_empty_count_not(front);
        assert(ss[ss.len() - 1].is_empty());
        lemma_empty_counts_not(ss[ss.len() - 1]);
        assert(counted(ss) =~= Seq::empty());
    }
}

proof fn lemma_counted_attach(ss: Seq<SegmentView>)
    ensures
        counted(attach(ss)) == counted(ss),
    decreases ss.len(),
{
    if ss.len() > 0 {
        let s = ss[0];
        let rest = ss.skip(1);
        lemma_counted_concat(seq![s], rest);
        lemma_counted_one(s);
        assert(seq![s] + rest =~= ss);
        if s matches SegmentView::Block(b) && b.block_type is Any {
            assert(counted_in(s) =~= Seq::empty());
            if rest.len() > 0 && segment_split(rest[0]) is Some {
                let (first, left) = segment_split(rest[0])->Some_0;
                let after = rest.update(0, left);
                let head = wildcard(s.location(), seq![first]);
                lemma_counted_attach(after);
                lemma_counted_concat(seq![head], attach(after));
                lemma_counted_one(head);
                lemma_counted_one(first);
                lemma_counted_split(rest[0]);
                lemma_counted_concat(seq![rest[0]], rest.skip(1));
                lemma_counted_one(rest[0]);
                assert(seq![rest[0]] + rest.skip(1) =~= rest);
                lemma_counted_concat(seq![left], rest.skip(1));
                lemma_counted_one(left);
                assert(seq![left] + rest.skip(1) =~= after);
                assert(counted(attach(ss)) =~= counted(ss));
            } else {
                let head = wildcard(s.location(), Seq::empty());
                lemma_counted_attach(rest);
                lemma_counted_concat(seq![head], attach(rest));
                lemma_counted_one(head);
                assert(counted_in(head) =~= Seq::empty());
                assert(counted(attach(ss)) =~= counted(ss));
            }
        } else if s.is_empty() {
            lemma_empty_counts_not(s);
            lemma_counted_attach(rest);
            assert(counted(ss) =~= counted(rest));
        } else {
            lemma_counted_attach(rest);
            lemma_counted_concat(seq![s], attach(rest));
        }
    }
}

proof fn lemma_counted_gather(ss: Seq<SegmentView>)
    ensures
        counted(gather(ss).0) == counted(ss),
    decreases ss, 0int,
{
    if ss.len() > 0 {
        let s = ss[ss.len() - 1];
        assert(s == ss.last());
        let front = ss.drop_last();
        lemma_counted_gather(front);
        let (before, open) = gather(front);
        let out = if s.holds_command() && open {
            before.push(end_block(s.location()))
        } else {
            before
        };
        lemma_counted_push(before, end_block(s.location()));
        lemma_end_counts_not(s.location());
        assert(counted(before) + Seq::<Item>::empty() =~= counted(before));
        assert(counted(out) == counted(front));
        match s {
            SegmentView::Block(b) => {
                if b.block_type is Ineffectual {
                    assert(counted_in(s) =~= Seq::empty());
                    assert(counted(out) =~= counted(ss));
                } else {
                    lemma_counted_merge(out, b);
                    assert(gather(ss).0 == merge_block(out, b));
                }
            },
            SegmentView::SubBlock(location, name, args, inner) => {
                law_normalizing_keeps_lines(inner);
                let kept = SegmentView::SubBlock(location, name, args, normalized(inner));
                lemma_counted_push(out, kept);
                assert(counted_in(kept) == counted(normalized(inner)));
                assert(counted_in(s) == counted(inner));
                assert(gather(ss).0 == out.push(kept));
            },
            SegmentView::Semi(_, _, _) => {
                lemma_counted_push(out, s);
            },
        }
    }
}

/// Normalizing keeps every line of commands and patterns, every `%` line and
/// every `;` line, in order, and brings in nothing but the lines that end the
/// output of commands.
pub proof fn law_normalizing_keeps_lines(ss: Seq<SegmentView>)
    ensures
        counted(normalized(ss)) == counted(ss),
    decreases ss, 1int,
{
    lemma_counted_gather(ss);
    let (out, open) = gather(ss);
    if open {
        let location = ss.last().location();
        lemma_counted_push(out, end_block(location));
        lemma_end_counts_not(location);
        assert(counted(out) + Seq::<Item>::empty() =~= counted(out));
        lemma_counted_attach(out.push(end_block(location)));
    } else {
        lemma_counted_attach(out);
    }
}

/// A block in braces keeps its name, its words and its place, and what is
/// within it is normalized; one without anything in it goes away.
pub proof fn law_blocks_are_normalized(
    location: ScriptLocation,
    name: Seq<char>,
    args: Seq<ShellBitView>,
    inner: Seq<SegmentView>,
)
    ensures
        ({
            let kept = SegmentView::SubBlock(location, name, args, normalized(inner));
            let ss = seq![SegmentView::SubBlock(location, name, args, inner)];
            if kept.is_empty() {
                normalized(ss).len() == 0
            } else {
                normalized(ss) == seq![kept]
            }
        }),
{
    let s = SegmentView::SubBlock(location, name, args, inner);
    let ss = seq![s];
    let kept = SegmentView::SubBlock(location, name, args, normalized(inner));
    assert(ss.last() == s);
    assert(ss.drop_last() =~= Seq::empty());
    assert(gather(ss.drop_last()) == (Seq::<SegmentView>::empty(), false));
    assert(Seq::<SegmentView>::empty().push(kept) =~= seq![kept]);
    assert(gather(ss) == (seq![kept], false));
    assert(seq![kept].skip(1) =~= Seq::empty());
    assert(attach(seq![kept].skip(1)) =~= Seq::empty());
    assert(seq![kept] + Seq::<SegmentView>::empty() =~= seq![kept]);
}

/// A wildcard goes up to the line of patterns that follows it: that line
/// stands within it, and the other lines behind it.
pub proof fn law_wildcards_take_the_next_line(any: BlockView, patterns: BlockView)
    requires
        any.block_type is Any,
        any.lines.len() > 0,
        patterns.block_type is Pattern,
        patterns.lines.len() > 0,
    ensures
        ({
            let r = normalized(seq![SegmentView::Block(any), SegmentView::Block(patterns)]);
            &&& r.len() == if patterns.lines.len() > 1 {
                2nat
            } else {
                1
            }
            &&& r[0] matches SegmentView::SubBlock(location, name, args, until) && location
                == any.location && name == "*"@ && args.len() == 0 && until.len() == 1 && (
            until[0] matches SegmentView::Block(first) && first.block_type is Pattern && first.lines
                == seq![patterns.lines[0]])
            &&& patterns.lines.len() > 1 ==> (r[1] matches SegmentView::Block(rest)
                && rest.block_type is Pattern && rest.lines == patterns.lines.subrange(
                1,
                patterns.lines.len() as int,
            ))
        }),
{
    let a = SegmentView::Block(any);
    let p = SegmentView::Block(patterns);
    let ss = seq![a, p];
    let none = Seq::<SegmentView>::empty();
    assert(ss.last() == p);
    assert(ss.drop_last() =~= seq![a]);
    assert(seq![a].last() == a);
    assert(seq![a].drop_last() =~= none);
    assert(gather(none) == (none, false));
    assert(none.push(a) =~= seq![a]);
    assert(merge_block(none, any) == seq![a]);
    assert(gather(seq![a]) == (seq![a], false));
    assert(seq![a].push(p) =~= ss);
    assert(merge_block(seq![a], patterns) == ss);
    assert(gather(ss) == (ss, false));
    assert(ss[0] == a);
    let rest = ss.skip(1);
    assert(rest[0] == p);
    let (first, left) = segment_split(p)->Some_0;
    assert(rest.update(0, left) =~= seq![left]);
    let behind = patterns.lines.skip(1);
    assert(behind =~= patterns.lines.subrange(1, patterns.lines.len() as int));
    assert(seq![left].skip(1) =~= none);
    assert(attach(none) =~= none);
    assert(seq![left][0] == left);
    if behind.len() > 0 {
        assert(attach(seq![left]) =~= seq![left]);
    } else {
        assert(attach(seq![left]) =~= none);
    }
    assert(attach(ss) =~= seq![wildcard(any.location, seq![first])] + attach(seq![left]));
}

} // verus!
