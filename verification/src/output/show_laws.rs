//! How patterns, failures and traces are presented.
use crate::failure::{
    condition_debug, failure_line, failure_of, failure_verb, node_head, node_text, nodes_text, rejection_of,
    FailureView, LineView, NoteView, TraceView,
};
use crate::output::grok::GrokView;
use crate::output::pattern::{
    bare, container, keyword_text, sequence_of, trace_text, KindView, PatternView,
};
use crate::output::show::{kind_debug, kinds_debug, tree_of, trees_of, PatternTreeView};
use crate::script::{IfConditionView, ScriptLocation};
use crate::util::text::str_debug;
use vstd::prelude::*;

verus! {

/// Each kind of pattern is written with a word of its own.
pub proof fn law_patterns_have_their_words(
    p: Box<PatternView>,
    ps: Seq<PatternView>,
    g: GrokView,
    s: Seq<char>,
    c: IfConditionView,
)
    ensures
        keyword_text(KindView::Repeat(p)) == "repeat"@,
        keyword_text(KindView::Optional(p)) == "optional"@,
        keyword_text(KindView::Not(p)) == "not"@,
        keyword_text(KindView::If(c, p)) == "if"@,
        keyword_text(KindView::Any(p)) == "*"@,
        keyword_text(KindView::Unordered(ps)) == "unordered"@,
        keyword_text(KindView::Choice(ps)) == "choice"@,
        keyword_text(KindView::Sequence(ps)) == "sequence"@,
        keyword_text(KindView::Literal(s)) == "\"...\""@,
        keyword_text(KindView::Pattern(g)) == "? ..."@,
        keyword_text(KindView::End) == "end"@,
        keyword_text(KindView::Nothing) == "none"@,
{
}

/// A trace presents a line by its text, a grok pattern by the text that it was
/// written as, the end of the output as `<eof>`, any lines by what stands
/// behind them unless that is the end, and every block by its word, with its
/// patterns left out.
pub proof fn law_patterns_are_traced(
    p: PatternView,
    g: GrokView,
    s: Seq<char>,
    kind: KindView,
)
    ensures
        trace_text(KindView::Literal(s)) == str_debug(s),
        trace_text(KindView::Pattern(g)) == "pattern "@ + str_debug(g.original),
        trace_text(KindView::End) == "<eof>"@,
        trace_text(KindView::Nothing) == "None"@,
        p.kind is End ==> trace_text(KindView::Any(Box::new(p))) == "*"@,
        !(p.kind is End) ==> trace_text(KindView::Any(Box::new(p))) == "* ... "@ + trace_text(
            p.kind,
        ),
        container(kind) ==> trace_text(kind) == keyword_text(kind) + " { ... }"@,
        container(kind) <==> kind is Repeat || kind is Optional || kind is Not || kind is If
            || kind is Unordered || kind is Choice || kind is Sequence,
{
}

/// The failure of a pattern tells where it stands, how a trace presents it and
/// the line that does not match; one that may not occur is told to be rejected.
pub proof fn law_failures_are_told(
    location: ScriptLocation,
    line: LineView,
    kind: KindView,
    f: FailureView,
)
    ensures
        failure_of(location, Some(line), kind) == (FailureView {
            location,
            pattern_type: trace_text(kind),
            output_line: Some(line),
        }),
        rejection_of(location, Some(line)) == (FailureView {
            location,
            pattern_type: "reject"@,
            output_line: Some(line),
        }),
        failure_verb(rejection_of(location, Some(line))) == "rejected"@,
        f.pattern_type != "reject"@ ==> failure_verb(f) == "does not match"@,
        failure_line(rejection_of(location, Some(line))) == "output line "@ + str_debug(line.text),
        failure_line(failure_of(location, None, kind)) == "output"@,
{
}

/// Conditions are presented by what they compare.
pub proof fn law_conditions_are_shown(c: IfConditionView)
    ensures
        match c {
            IfConditionView::True => condition_debug(c) == "True"@,
            IfConditionView::False => condition_debug(c) == "False"@,
            IfConditionView::EnvEq(negated, name, value) => condition_debug(c) == "EnvEq("@ + (
            if negated {
                "true, "@
            } else {
                "false, "@
            }) + str_debug(name) + ", "@ + str_debug(value.text()) + ")"@,
        },
{
}

/// What a trace says of a pattern that is no block: that it matched or missed,
/// with the line for a grok pattern, and with the line that was missed for a
/// literal and for the end of the output.
pub proof fn law_lines_are_traced(
    indent: Seq<char>,
    kind: KindView,
    text: Seq<char>,
    line: Option<LineView>,
    children: Seq<TraceView>,
)
    ensures
        ({
            let node = |succeeded: bool|
                TraceView {
                    ignore: false,
                    pattern: kind,
                    succeeded,
                    output_line: line,
                    note: None,
                    children,
                };
            let shown = match line {
                Some(l) => str_debug(l.text),
                None => "<eof>"@,
            };
            &&& kind is Pattern ==> node_head(node(true), indent) == indent + "[OK]"@ + " matched "@
                + trace_text(kind) + " = "@ + shown + "\n"@
            &&& !(kind is Pattern) ==> node_head(node(true), indent) == indent + "[OK]"@
                + " matched "@ + trace_text(kind) + "\n"@
            &&& kind is Pattern || kind is Literal || kind is End ==> node_head(
                node(false),
                indent,
            ) == indent + "[XX]"@ + " missed "@ + trace_text(kind) + " != "@ + shown + "\n"@
            &&& !(kind is Pattern || kind is Literal || kind is End) ==> node_head(
                node(false),
                indent,
            ) == indent + "[XX]"@ + " missed "@ + trace_text(kind) + "\n"@
        }),
{
    let none = Seq::<char>::empty();
    let shown = match line {
        Some(l) => str_debug(l.text),
        None => "<eof>"@,
    };
    let ok = indent + "[OK]"@;
    let xx = indent + "[XX]"@;
    assert(ok + none =~= ok);
    assert(xx + none =~= xx);
    let matched = ok + " matched "@ + trace_text(kind);
    let missed = xx + " missed "@ + trace_text(kind);
    assert(matched + none =~= matched);
    assert(missed + none =~= missed);
    assert(matched + (" = "@ + shown) =~= matched + " = "@ + shown);
    assert(missed + (" != "@ + shown) =~= missed + " != "@ + shown);
    assert(matched + " = "@ + shown + none =~= matched + " = "@ + shown);
    assert(missed + " != "@ + shown + none =~= missed + " != "@ + shown);
}

/// A trace marks the patterns to skip or to reject, and says which values of a
/// name are in conflict and what came of a condition.
pub proof fn law_notes_are_traced(
    indent: Seq<char>,
    ps: Seq<PatternView>,
    a: Seq<char>,
    b: Seq<char>,
    c: IfConditionView,
    children: Seq<TraceView>,
)
    ensures
        ({
            let kind = KindView::Sequence(ps);
            let node = |ignore: bool, note: Option<NoteView>|
                TraceView {
                    ignore,
                    pattern: kind,
                    succeeded: true,
                    output_line: None,
                    note,
                    children,
                };
            let start = indent + "[OK]"@ + " matched "@ + trace_text(kind);
            &&& node_head(node(true, None), indent) == indent + "[OK]"@ + "-"@ + " matched "@
                + trace_text(kind) + " (ignore)"@ + "\n"@
            &&& node_head(node(false, Some(NoteView::AliasMismatch(a, b))), indent) == start
                + " (alias conflict: "@ + str_debug(a) + " != "@ + str_debug(b) + ")"@ + "\n"@
            &&& node_head(node(false, Some(NoteView::IfConditionMet(c))), indent) == start
                + " (if "@ + condition_debug(c) + ")"@ + "\n"@
            &&& node_head(node(false, Some(NoteView::IfConditionSkipped(c))), indent) == start
                + " (if skipped "@ + condition_debug(c) + ")"@ + "\n"@
        }),
{
    let none = Seq::<char>::empty();
    let kind = KindView::Sequence(ps);
    let ok = indent + "[OK]"@;
    assert(ok + none =~= ok);
    let start = ok + " matched "@ + trace_text(kind);
    assert(start + none =~= start);
    let marked = ok + "-"@ + " matched "@ + trace_text(kind);
    assert(marked + none =~= marked);
    let conflict = " (alias conflict: "@ + str_debug(a) + " != "@ + str_debug(b) + ")"@;
    let met = " (if "@ + condition_debug(c) + ")"@;
    let skipped = " (if skipped "@ + condition_debug(c) + ")"@;
    assert(start + conflict + none =~= start + " (alias conflict: "@ + str_debug(a) + " != "@
        + str_debug(b) + ")"@);
    assert(start + met + none =~= start + " (if "@ + condition_debug(c) + ")"@);
    assert(start + skipped + none =~= start + " (if skipped "@ + condition_debug(c) + ")"@);
}

/// A trace presents patterns in the order in which they were tried, each
/// before those that were tried within it, which are indented by two more
/// spaces.
pub proof fn law_traces_are_in_order(
    a: Seq<TraceView>,
    b: Seq<TraceView>,
    node: TraceView,
    indent: Seq<char>,
)
    ensures
        nodes_text(a + b, indent) == nodes_text(a, indent) + nodes_text(b, indent),
        nodes_text(seq![node], indent) == node_head(node, indent) + nodes_text(
            node.children,
            indent + seq![' ', ' '],
        ),
        nodes_text(Seq::empty(), indent) == Seq::<char>::empty(),
    decreases b.len(),
{
    let none = Seq::<char>::empty();
    if b.len() == 0 {
        assert(a + b =~= a);
        assert(nodes_text(a, indent) + none =~= nodes_text(a, indent));
    } else {
        law_traces_are_in_order(a, b.drop_last(), node, indent);
        assert((a + b).drop_last() =~= a + b.drop_last());
        assert((a + b).last() == b.last());
        assert(nodes_text(a + b, indent) =~= nodes_text(a, indent) + nodes_text(b, indent));
    }
    reveal_strlit("  ");
    assert("  "@ =~= seq![' ', ' ']);
    let one = seq![node];
    assert(one.drop_last() =~= Seq::empty());
    assert(one.last() == node);
    assert(nodes_text(one.drop_last(), indent) =~= none);
    let text = node_head(node, indent) + nodes_text(node.children, indent + "  "@);
    assert(none + text =~= text);
    assert(node_text(node, indent) == text);
    assert(nodes_text(one, indent) == nodes_text(one.drop_last(), indent) + node_text(one.last(), indent));
    assert(indent + "  "@ == indent + seq![' ', ' ']);
}

/// Patterns are plain data in their order, each under the word of its kind.
pub proof fn law_patterns_are_plain_data(ps: Seq<PatternView>, p: PatternView, i: int)
    requires
        0 <= i < ps.len(),
    ensures
        trees_of(ps).len() == ps.len(),
        trees_of(ps)[i] == tree_of(ps[i].kind),
        tree_of(KindView::Sequence(ps)) == PatternTreeView::List("sequence"@, trees_of(ps)),
        tree_of(KindView::Choice(ps)) == PatternTreeView::List("choice"@, trees_of(ps)),
        tree_of(KindView::Unordered(ps)) == PatternTreeView::List("unordered"@, trees_of(ps)),
        ({
            let inner = Box::new(tree_of(p.kind));
            let b = Box::new(p);
            &&& tree_of(KindView::Repeat(b)) == PatternTreeView::Block("repeat"@, inner)
            &&& tree_of(KindView::Optional(b)) == PatternTreeView::Block("optional"@, inner)
            &&& tree_of(KindView::Not(b)) == PatternTreeView::Block("not"@, inner)
            &&& tree_of(KindView::Any(b)) == PatternTreeView::Block("any"@, inner)
        }),
    decreases ps.len(),
{
    assert(trees_of(ps.drop_last()).len() == ps.len() - 1) by {
        if ps.len() > 1 {
            law_patterns_are_plain_data(ps.drop_last(), p, 0);
        }
    }
    if i < ps.len() - 1 {
        law_patterns_are_plain_data(ps.drop_last(), p, i);
    }
}

/// Lines are plain data as they are written, and a literal behind `! `.
pub proof fn law_lines_are_plain_data(
    s: Seq<char>,
    g: GrokView,
    c: IfConditionView,
    p: PatternView,
)
    ensures
        tree_of(KindView::Literal(s)) == PatternTreeView::Text(seq!['!', ' '] + s),
        tree_of(KindView::Pattern(g)) == PatternTreeView::Text(g.original),
        tree_of(KindView::End) == PatternTreeView::Text("end"@),
        tree_of(KindView::Nothing) == PatternTreeView::Text("none"@),
        tree_of(KindView::If(c, Box::new(p))) == PatternTreeView::If(
            c,
            Box::new(tree_of(p.kind)),
        ),
{
    reveal_strlit("! ");
    assert("! "@ =~= seq!['!', ' ']);
}

/// For debugging, patterns are shown in their order, with commas between them,
/// and each in brackets behind its name.
pub proof fn law_patterns_are_debugged(
    ps: Seq<PatternView>,
    p: PatternView,
    s: Seq<char>,
    g: GrokView,
)
    ensures
        kinds_debug(Seq::empty()) == Seq::<char>::empty(),
        kinds_debug(seq![p]) == kind_debug(p.kind),
        ps.len() > 0 ==> kinds_debug(ps + seq![p]) == kinds_debug(ps) + ", "@ + kind_debug(p.kind),
        kind_debug(KindView::Literal(s)) == str_debug(s),
        kind_debug(KindView::Pattern(g)) == "Pattern"@ + "("@ + ("/"@ + str_debug(g.pattern)
            + "/"@) + ")"@,
        kind_debug(KindView::Repeat(Box::new(p))) == "Repeat"@ + "("@ + kind_debug(p.kind) + ")"@,
        kind_debug(KindView::Optional(Box::new(p))) == "Optional"@ + "("@ + kind_debug(p.kind)
            + ")"@,
        kind_debug(KindView::Not(Box::new(p))) == "Not"@ + "("@ + kind_debug(p.kind) + ")"@,
        kind_debug(KindView::Any(Box::new(p))) == "Any"@ + "("@ + kind_debug(p.kind) + ")"@,
        kind_debug(KindView::Sequence(ps)) == "Sequence"@ + "("@ + ("["@ + kinds_debug(ps) + "]"@)
            + ")"@,
        kind_debug(KindView::Choice(ps)) == "Choice"@ + "("@ + ("["@ + kinds_debug(ps) + "]"@)
            + ")"@,
        kind_debug(KindView::Unordered(ps)) == "Unordered"@ + "("@ + ("["@ + kinds_debug(ps)
            + "]"@) + ")"@,
        kind_debug(KindView::End) == "End"@,
        kind_debug(KindView::Nothing) == "None"@,
{
    let more = ps + seq![p];
    assert(more.drop_last() =~= ps);
    assert(more.last() == p);
}

/// Patterns that are to match in order stand in a sequence, and a single one
/// stands for itself.
pub proof fn law_single_patterns_stand_for_themselves(
    location: ScriptLocation,
    p: PatternView,
    ps: Seq<PatternView>,
)
    ensures
        sequence_of(location, seq![p]) == p,
        ps.len() != 1 ==> {
            let s = sequence_of(location, ps);
            &&& s.location == location
            &&& s.kind == KindView::Sequence(ps)
            &&& s.ignore.len() == 0 && s.reject.len() == 0
        },
        bare(location, p.kind).kind == p.kind,
        bare(location, p.kind).location == location,
        bare(location, p.kind).ignore.len() == 0,
        bare(location, p.kind).reject.len() == 0,
{
}

} // verus!
