//! Reports on output that does not match.
use crate::output::pattern::{trace_text, KindView, OutputPatternType};
use crate::script::{IfCondition, IfConditionView, ScriptLocation};
use crate::util::text::{debug_str, push_str, str_debug, str_eq};
use vstd::prelude::*;

verus! {

/// A line of output.
#[derive(Debug, PartialEq, Eq)]
pub struct Line {
    /// The number of lines before it.
    pub number: usize,
    /// The text of the line.
    pub text: String,
}

/// The mathematical value of a [`Line`].
pub struct LineView {
    /// The number of lines before it.
    pub number: int,
    /// The text of the line.
    pub text: Seq<char>,
}

impl View for Line {
    type V = LineView;

    open spec fn view(&self) -> LineView {
        LineView { number: self.number as int, text: self.text@ }
    }
}

impl Clone for Line {
    fn clone(&self) -> (r: Self)
        ensures
            r@ == self@,
    {
        Line { number: self.number, text: self.text.clone() }
    }
}

/// The value of an optional line.
pub open spec fn line_view(line: Option<Line>) -> Option<LineView> {
    match line {
        Some(l) => Some(l@),
        None => None,
    }
}

/// A copy of an optional line.
pub fn copy_line(line: &Option<Line>) -> (r: Option<Line>)
    ensures
        line_view(r) == line_view(*line),
{
    match line {
        Some(l) => Some(l.clone()),
        None => None,
    }
}

/// A pattern that does not match the output.
#[derive(Debug)]
pub struct OutputPatternMatchFailure {
    /// Where the pattern stands.
    pub location: ScriptLocation,
    /// How the pattern is presented.
    pub pattern_type: String,
    /// The line that does not match, if there is one.
    pub output_line: Option<Line>,
}

/// The mathematical value of an [`OutputPatternMatchFailure`].
pub struct FailureView {
    /// Where the pattern stands.
    pub location: ScriptLocation,
    /// How the pattern is presented.
    pub pattern_type: Seq<char>,
    /// The line that does not match, if there is one.
    pub output_line: Option<LineView>,
}

impl View for OutputPatternMatchFailure {
    type V = FailureView;

    open spec fn view(&self) -> FailureView {
        FailureView {
            location: self.location,
            pattern_type: self.pattern_type@,
            output_line: line_view(self.output_line),
        }
    }
}

/// The failure of a pattern of the given kind.
pub open spec fn failure_of(
    location: ScriptLocation,
    line: Option<LineView>,
    kind: KindView,
) -> FailureView {
    FailureView { location, pattern_type: trace_text(kind), output_line: line }
}

/// The failure of a pattern that may not occur.
pub open spec fn rejection_of(location: ScriptLocation, line: Option<LineView>) -> FailureView {
    FailureView { location, pattern_type: "reject"@, output_line: line }
}

impl OutputPatternMatchFailure {
    /// The failure of a pattern of the given kind.
    pub fn new(
        location: &ScriptLocation,
        line: Option<Line>,
        pattern_type: &OutputPatternType,
    ) -> (r: Self)
        ensures
            r@ == failure_of(*location, line_view(line), pattern_type.model()),
    {
        OutputPatternMatchFailure {
            location: location.clone(),
            pattern_type: pattern_type.trace_string(),
            output_line: line,
        }
    }

    /// The failure of a pattern that may not occur.
    pub fn new_reject(location: &ScriptLocation, line: Option<Line>) -> (r: Self)
        ensures
            r@ == rejection_of(*location, line_view(line)),
    {
        OutputPatternMatchFailure {
            location: location.clone(),
            pattern_type: "reject".to_owned(),
            output_line: line,
        }
    }
}

/// What else a trace says of a pattern.
#[derive(Debug)]
pub enum PatternTraceNote {
    /// A name was found with a second value.
    AliasMismatch(String, String),
    /// The pattern was matched because of a condition.
    IfConditionMet(IfCondition),
    /// The pattern was passed over because of a condition.
    IfConditionSkipped(IfCondition),
}

/// The mathematical value of a [`PatternTraceNote`].
pub enum NoteView {
    /// A name was found with a second value.
    AliasMismatch(Seq<char>, Seq<char>),
    /// The pattern was matched because of a condition.
    IfConditionMet(IfConditionView),
    /// The pattern was passed over because of a condition.
    IfConditionSkipped(IfConditionView),
}

impl View for PatternTraceNote {
    type V = NoteView;

    open spec fn view(&self) -> NoteView {
        match self {
            PatternTraceNote::AliasMismatch(a, b) => NoteView::AliasMismatch(a@, b@),
            PatternTraceNote::IfConditionMet(c) => NoteView::IfConditionMet(c@),
            PatternTraceNote::IfConditionSkipped(c) => NoteView::IfConditionSkipped(c@),
        }
    }
}

/// The value of an optional note.
pub open spec fn note_view(note: Option<PatternTraceNote>) -> Option<NoteView> {
    match note {
        Some(n) => Some(n@),
        None => None,
    }
}

/// One pattern invocation in the output-match trace: a single tree node with nested child patterns.
pub struct OutputMatchTraceNode {
    /// Whether the pattern was tried as one to skip or to reject.
    pub ignore: bool,
    /// The pattern.
    pub pattern: OutputPatternType,
    /// Whether it matched.
    pub succeeded: bool,
    /// The line that it matched or failed on.
    pub output_line: Option<Line>,
    /// What else there is to say.
    pub note: Option<PatternTraceNote>,
    /// The patterns that were tried within it.
    pub children: Vec<OutputMatchTraceNode>,
}

/// The mathematical value of an [`OutputMatchTraceNode`].
pub struct TraceView {
    /// Whether the pattern was tried as one to skip or to reject.
    pub ignore: bool,
    /// The pattern.
    pub pattern: KindView,
    /// Whether it matched.
    pub succeeded: bool,
    /// The line that it matched or failed on.
    pub output_line: Option<LineView>,
    /// What else there is to say.
    pub note: Option<NoteView>,
    /// The patterns that were tried within it.
    pub children: Seq<TraceView>,
}

impl OutputMatchTraceNode {
    /// The mathematical value of the node.
    pub open spec fn model(&self) -> TraceView
        decreases self,
    {
        TraceView {
            ignore: self.ignore,
            pattern: self.pattern.model(),
            succeeded: self.succeeded,
            output_line: line_view(self.output_line),
            note: note_view(self.note),
            children: Seq::new(
                self.children@.len(),
                |i: int|
                    if 0 <= i < self.children@.len() {
                        self.children@[i].model()
                    } else {
                        arbitrary()
                    },
            ),
        }
    }
}

/// The mathematical values of a sequence of nodes.
pub open spec fn traces_model(nodes: Seq<OutputMatchTraceNode>) -> Seq<TraceView> {
    Seq::new(nodes.len(), |i: int| nodes[i].model())
}

/// What happened to the output line of a failure.
pub open spec fn failure_verb(f: FailureView) -> Seq<char> {
    if f.pattern_type == "reject"@ {
        "rejected"@
    } else {
        "does not match"@
    }
}

/// The output line of a failure.
pub open spec fn failure_line(f: FailureView) -> Seq<char> {
    match f.output_line {
        Some(line) => "output line "@ + str_debug(line.text),
        None => "output"@,
    }
}

impl OutputPatternMatchFailure {
    fn verb(&self) -> (r: &'static str)
        ensures
            r@ == failure_verb(self@),
    {
        if str_eq(self.pattern_type.as_str(), "reject") {
            "rejected"
        } else {
            "does not match"
        }
    }

    fn line(&self) -> (r: String)
        ensures
            r@ == failure_line(self@),
    {
        match &self.output_line {
            Some(line) => {
                let mut out = "output line ".to_owned();
                push_str(&mut out, debug_str(line.text.as_str()).as_str());
                out
            },
            None => "output".to_owned(),
        }
    }

    /// The failure in words, where `place` is how its location is presented.
    pub fn message(&self, place: &str) -> (r: String)
        ensures
            r@ == self@.pattern_type + " at line "@ + place@ + " "@ + failure_verb(self@) + " "@
                + failure_line(self@),
    {
        let mut out: String = self.pattern_type.clone();
        push_str(&mut out, " at line ");
        push_str(&mut out, place);
        push_str(&mut out, " ");
        push_str(&mut out, self.verb());
        push_str(&mut out, " ");
        push_str(&mut out, self.line().as_str());
        out
    }
}

/// Whether a trace shows the output line of a pattern.
pub open spec fn shows_line(pattern: KindView, succeeded: bool) -> bool {
    pattern is Pattern || (!succeeded && (pattern is Literal || pattern is End))
}

fn trace_shows_output_line(pattern: &OutputPatternType, success: bool) -> (r: bool)
    ensures
        r == shows_line(pattern.model(), success),
{
    match pattern {
        OutputPatternType::Pattern(_) => true,
        OutputPatternType::Literal(_) => !success,
        OutputPatternType::End => !success,
        _ => false,
    }
}

/// How a condition is presented.
pub open spec fn condition_debug(c: IfConditionView) -> Seq<char> {
    match c {
        IfConditionView::True => "True"@,
        IfConditionView::False => "False"@,
        IfConditionView::EnvEq(negated, name, value) => "EnvEq("@ + (if negated {
            "true, "@
        } else {
            "false, "@
        }) + str_debug(name) + ", "@ + str_debug(value.text()) + ")"@,
    }
}

pub(crate) fn debug_condition(c: &IfCondition) -> (r: String)
    ensures
        r@ == condition_debug(c@),
{
    match c {
        IfCondition::True => "True".to_owned(),
        IfCondition::False => "False".to_owned(),
        IfCondition::EnvEq(negated, name, value) => {
            let mut out = "EnvEq(".to_owned();
            push_str(
                &mut out,
                if *negated {
                    "true, "
                } else {
                    "false, "
                },
            );
            push_str(&mut out, debug_str(name.as_str()).as_str());
            push_str(&mut out, ", ");
            push_str(&mut out, debug_str(value.as_str()).as_str());
            push_str(&mut out, ")");
            out
        },
    }
}

/// What a trace says of the output line of a node.
pub open spec fn node_line(node: TraceView) -> Seq<char> {
    if !shows_line(node.pattern, node.succeeded) {
        Seq::empty()
    } else {
        (if node.succeeded {
            " = "@
        } else {
            " != "@
        }) + (match node.output_line {
            Some(line) => str_debug(line.text),
            None => "<eof>"@,
        })
    }
}

/// What a trace says of the note of a node.
pub open spec fn node_note(node: TraceView) -> Seq<char> {
    match node.note {
        Some(NoteView::AliasMismatch(a, b)) => " (alias conflict: "@ + str_debug(a) + " != "@
            + str_debug(b) + ")"@,
        Some(NoteView::IfConditionMet(c)) => " (if "@ + condition_debug(c) + ")"@,
        Some(NoteView::IfConditionSkipped(c)) => " (if skipped "@ + condition_debug(c) + ")"@,
        None => Seq::empty(),
    }
}

/// The line that a trace has for a node.
pub open spec fn node_head(node: TraceView, indent: Seq<char>) -> Seq<char> {
    indent + (if node.succeeded {
        "[OK]"@
    } else {
        "[XX]"@
    }) + (if node.ignore {
        "-"@
    } else {
        Seq::empty()
    }) + (if node.succeeded {
        " matched "@
    } else {
        " missed "@
    }) + trace_text(node.pattern) + node_line(node) + node_note(node) + (if node.ignore {
        " (ignore)"@
    } else {
        Seq::empty()
    }) + "\n"@
}

/// The lines that a trace has for a node and all that is within it.
pub open spec fn node_text(node: TraceView, indent: Seq<char>) -> Seq<char>
    decreases node, 0int,
{
    node_head(node, indent) + nodes_text(node.children, indent + "  "@)
}

/// The lines that a trace has for nodes: each node before those within it,
/// with two spaces of indentation for each level.
pub open spec fn nodes_text(nodes: Seq<TraceView>, indent: Seq<char>) -> Seq<char>
    decreases nodes, 1int,
{
    if nodes.len() == 0 {
        Seq::empty()
    } else {
        nodes_text(nodes.drop_last(), indent) + node_text(nodes.last(), indent)
    }
}

fn fmt_nodes(nodes: &Vec<OutputMatchTraceNode>, indent: &str, out: &mut String)
    ensures
        final(out)@ == old(out)@ + nodes_text(traces_model(nodes@), indent@),
    decreases nodes, 0int,
{
    let ghost ns = traces_model(nodes@);
    let ghost start = out@;
    let mut i: usize = 0;
    proof {
        assert(ns.take(0) =~= Seq::empty());
        assert(start + Seq::<char>::empty() =~= start);
    }
    while i < nodes.len()
        invariant
            i <= nodes@.len(),
            ns == traces_model(nodes@),
            out@ == start + nodes_text(ns.take(i as int), indent@),
        decreases nodes@.len() - i,
    {
        proof {
            assert(ns.take(i + 1).drop_last() =~= ns.take(i as int));
            assert(ns.take(i + 1).last() == nodes@[i as int].model());
        }
        let ghost before = nodes_text(ns.take(i as int), indent@);
        nodes[i].fmt_lines(indent, out);
        proof {
            let added = node_text(nodes@[i as int].model(), indent@);
            assert(start + before + added =~= start + (before + added));
        }
        i += 1;
    }
    proof {
        assert(ns.take(i as int) =~= ns);
    }
}

impl OutputMatchTraceNode {
    /// The line for the node alone.
    fn head(&self, indent: &str) -> (r: String)
        ensures
            r@ == node_head(self.model(), indent@),
    {
        let mut out: String = indent.to_owned();
        push_str(
            &mut out,
            if self.succeeded {
                "[OK]"
            } else {
                "[XX]"
            },
        );
        if self.ignore {
            push_str(&mut out, "-");
        }
        push_str(
            &mut out,
            if self.succeeded {
                " matched "
            } else {
                " missed "
            },
        );
        let ghost head = indent@ + (if self.succeeded {
            "[OK]"@
        } else {
            "[XX]"@
        }) + (if self.ignore {
            "-"@
        } else {
            Seq::empty()
        }) + (if self.succeeded {
            " matched "@
        } else {
            " missed "@
        });
        proof {
            assert(out@ =~= head);
        }
        push_str(&mut out, self.pattern.trace_string().as_str());
        let ghost named = head + trace_text(self.model().pattern);
        if trace_shows_output_line(&self.pattern, self.succeeded) {
            push_str(
                &mut out,
                if self.succeeded {
                    " = "
                } else {
                    " != "
                },
            );
            match &self.output_line {
                Some(line) => {
                    push_str(&mut out, debug_str(line.text.as_str()).as_str());
                },
                None => {
                    push_str(&mut out, "<eof>");
                },
            }
        }
        proof {
            assert(out@ =~= named + node_line(self.model()));
        }
        let ghost lined = named + node_line(self.model());
        match &self.note {
            Some(PatternTraceNote::AliasMismatch(a, b)) => {
                push_str(&mut out, " (alias conflict: ");
                push_str(&mut out, debug_str(a.as_str()).as_str());
                push_str(&mut out, " != ");
                push_str(&mut out, debug_str(b.as_str()).as_str());
                push_str(&mut out, ")");
            },
            Some(PatternTraceNote::IfConditionMet(c)) => {
                push_str(&mut out, " (if ");
                push_str(&mut out, debug_condition(c).as_str());
                push_str(&mut out, ")");
            },
            Some(PatternTraceNote::IfConditionSkipped(c)) => {
                push_str(&mut out, " (if skipped ");
                push_str(&mut out, debug_condition(c).as_str());
                push_str(&mut out, ")");
            },
            None => {},
        }
        proof {
            assert(out@ =~= lined + node_note(self.model()));
        }
        if self.ignore {
            push_str(&mut out, " (ignore)");
        }
        push_str(&mut out, "\n");
        proof {
            assert(out@ =~= node_head(self.model(), indent@));
        }
        out
    }

    /// Appends the lines for the node and all that is within it.
    fn fmt_lines(&self, indent: &str, out: &mut String)
        ensures
            final(out)@ == old(out)@ + node_text(self.model(), indent@),
        decreases self, 0int,
    {
        let ghost start = out@;
        let head = self.head(indent);
        push_str(out, head.as_str());
        let mut deeper: String = indent.to_owned();
        push_str(&mut deeper, "  ");
        fmt_nodes(&self.children, deeper.as_str(), out);
        proof {
            assert(self.model().children =~= traces_model(self.children@));
            let within = nodes_text(self.model().children, indent@ + "  "@);
            assert(start + head@ + within =~= start + (head@ + within));
        }
    }
}

/// Pre-order walk with two spaces of indentation per tree level.
pub fn format_match_trace_tree(nodes: &Vec<OutputMatchTraceNode>) -> (r: String)
    ensures
        r@ == nodes_text(traces_model(nodes@), Seq::empty()),
{
    let mut out = String::new();
    proof {
        reveal_strlit("");
        assert(""@ =~= Seq::empty());
    }
    fmt_nodes(nodes, "", &mut out);
    proof {
        assert(out@ =~= nodes_text(traces_model(nodes@), Seq::empty()));
    }
    out
}

/// What comparing output with what was expected comes to.
pub enum PatternResult {
    /// It matches.
    Matches,
    /// It matches, where it was expected not to.
    MatchesFailure,
    /// It does not match, as expected.
    ExpectedFailure,
    /// It does not match: the failure, and the trace of the match.
    Mismatch(OutputPatternMatchFailure, String),
}

} // verus!
