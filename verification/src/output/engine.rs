//! Matching output against patterns.
use crate::failure::{
    copy_line, line_view, note_view, traces_model, FailureView, Line, LineView, NoteView,
    OutputMatchTraceNode, OutputPatternMatchFailure, PatternTraceNote, TraceView,
};
use crate::output::ansi::strip_ansi;
use crate::output::bounds::productive;
use crate::output::ends::{
    kind_match_ends, kind_match_outcome, law_productive_match_ends, match_ends, match_outcome,
    next_has_end, next_outcome, position_ok,
};
use crate::output::grok::GrokPattern;
use crate::output::measure::{all_ready, all_take_a_line};
use crate::output::matching::{
    drop_before_last, first_match, grok_finds, has_escape, learn, literal_matches, match_all,
    match_any_of, match_kind, match_more, match_one_of, match_pattern, match_unordered, match_until,
    next, raw_done, raw_match, trace_node, LinesView, Matched, Memory, Raw, RawErr, RawOk, Scene,
};
use crate::output::pattern::{
    all_prepared, kind_prepared, lemma_kind_lists, lemma_patterns_list, patterns_model, prepared,
    KindView, OutputPattern, OutputPatternType, OutputPatterns, PatternView,
};
use crate::output::traces::lemma_one_of_traced;
use crate::script::{share, ScriptLocation, ScriptRunContext};
use crate::util::assoc::{copy, entry, get, insert, lookup, pairs_map};
use crate::util::text::{chars_of, join_lines, on_lines, str_eq, strings_view, trim_end};
use std::sync::Arc;
use vstd::prelude::*;

verus! {

/// A position in the output of a command, and what is skipped and rejected
/// there.
pub struct Lines {
    lines: Arc<Vec<String>>,
    current_line: usize,
    ignored_patterns: OutputPatterns,
    negative_disabled: bool,
    rejected_patterns: OutputPatterns,
}

impl Clone for Lines {
    fn clone(&self) -> (r: Self)
        ensures
            r.model() == self.model(),
    {
        proof {
            use_type_invariant(self);
        }
        Lines {
            lines: share(&self.lines),
            current_line: self.current_line,
            ignored_patterns: self.ignored_patterns.clone(),
            negative_disabled: self.negative_disabled,
            rejected_patterns: self.rejected_patterns.clone(),
        }
    }
}

impl Lines {
    /// The position lies within the output.
    #[verifier::type_invariant]
    spec fn within(self) -> bool {
        self.current_line <= self.lines@.len()
    }

    /// The mathematical value of the position.
    pub closed spec fn model(&self) -> LinesView {
        LinesView {
            lines: strings_view(self.lines@),
            current: self.current_line as int,
            ignored: self.ignored_patterns.model(),
            disabled: self.negative_disabled,
            rejected: self.rejected_patterns.model(),
        }
    }

    /// The start of the output, with nothing skipped or rejected.
    pub fn new(lines: Vec<String>) -> (r: Self)
        ensures
            r.model() == (LinesView {
                lines: strings_view(lines@),
                current: 0,
                ignored: Seq::empty(),
                disabled: false,
                rejected: Seq::empty(),
            }),
    {
        Lines {
            lines: Arc::new(lines),
            current_line: 0,
            ignored_patterns: OutputPatterns::default(),
            negative_disabled: false,
            rejected_patterns: OutputPatterns::default(),
        }
    }

    /// Whether no line is left.
    pub fn is_exhausted(&self) -> (r: bool)
        ensures
            r == (self.model().next_line() is None),
    {
        self.current_line >= self.lines.len()
    }

    /// The next line, if there is one.
    pub fn next_line(&self) -> (r: Option<Line>)
        ensures
            line_view(r) == self.model().next_line(),
    {
        if self.current_line < self.lines.len() {
            Some(
                Line { number: self.current_line, text: self.lines[self.current_line].clone() },
            )
        } else {
            None
        }
    }

    /// The same position, with more patterns skipped.
    pub fn with_ignore(&self, ignore: &OutputPatterns) -> (r: Self)
        ensures
            r.model() == (LinesView {
                ignored: self.model().ignored + ignore.model(),
                ..self.model()
            }),
    {
        proof {
            use_type_invariant(self);
        }
        let mut ignored_patterns = self.ignored_patterns.clone();
        ignored_patterns.extend(ignore);
        Lines {
            lines: share(&self.lines),
            current_line: self.current_line,
            ignored_patterns,
            negative_disabled: self.negative_disabled,
            rejected_patterns: self.rejected_patterns.clone(),
        }
    }

    /// The same position, with more patterns rejected.
    pub fn with_reject(&self, reject: &OutputPatterns) -> (r: Self)
        ensures
            r.model() == (LinesView {
                rejected: self.model().rejected + reject.model(),
                ..self.model()
            }),
    {
        proof {
            use_type_invariant(self);
        }
        let mut rejected_patterns = self.rejected_patterns.clone();
        rejected_patterns.extend(reject);
        Lines {
            lines: share(&self.lines),
            current_line: self.current_line,
            ignored_patterns: self.ignored_patterns.clone(),
            negative_disabled: self.negative_disabled,
            rejected_patterns,
        }
    }

    fn with_disabled(&self, disabled: bool) -> (r: Self)
        ensures
            r.model() == (LinesView { disabled, ..self.model() }),
    {
        proof {
            use_type_invariant(self);
        }
        Lines {
            lines: share(&self.lines),
            current_line: self.current_line,
            ignored_patterns: self.ignored_patterns.clone(),
            negative_disabled: disabled,
            rejected_patterns: self.rejected_patterns.clone(),
        }
    }

    fn advanced(&self) -> (r: Self)
        requires
            self.model().next_line() is Some,
        ensures
            r.model() == self.model().advanced(),
    {
        let n: usize = self.lines.len();
        assert(self.current_line < n);
        Lines {
            lines: share(&self.lines),
            current_line: self.current_line + 1,
            ignored_patterns: self.ignored_patterns.clone(),
            negative_disabled: self.negative_disabled,
            rejected_patterns: self.rejected_patterns.clone(),
        }
    }

    /// The lines that are left.
    pub fn into_inner(self) -> (r: Vec<String>)
        ensures
            strings_view(r@) == self.model().lines.skip(self.model().current),
    {
        proof {
            use_type_invariant(&self);
        }
        let mut out: Vec<String> = Vec::new();
        let mut i: usize = self.current_line;
        while i < self.lines.len()
            invariant
                self.current_line <= i <= self.lines@.len(),
                out@.len() == i - self.current_line,
                forall|j: int|
                    0 <= j < out@.len() ==> (#[trigger] out@[j])@ == self.lines@[self.current_line
                        + j]@,
            decreases self.lines@.len() - i,
        {
            out.push(self.lines[i].clone());
            i += 1;
        }
        proof {
            assert(strings_view(out@) =~= self.model().lines.skip(self.model().current));
        }
        out
    }

    /// The lines that are left, with line feeds between them.
    pub fn to_text(&self) -> (r: String)
        ensures
            r@ == on_lines(self.model().lines.skip(self.model().current)),
    {
        let left = self.clone().into_inner();
        join_lines(&left)
    }

    /// Whether the output has no lines at all.
    pub fn is_empty(&self) -> (r: bool)
        ensures
            r == (self.model().lines.len() == 0),
    {
        self.lines.len() == 0
    }
}

/// A block of patterns that is being traced.
struct OpenTrace {
    ignore: bool,
    pattern: OutputPatternType,
    before: Vec<OutputMatchTraceNode>,
}

/// What matching keeps track of: the patterns that were tried and the values
/// that were found.
pub struct OutputMatchContext<'s> {
    trace: Vec<OutputMatchTraceNode>,
    open: Vec<OpenTrace>,
    ignore: bool,
    expectations: Vec<(String, String)>,
    script_context: &'s ScriptRunContext,
}

/// A block of patterns whose trace is not finished: whether it was tried as
/// one to skip or to reject, what it is, and what was traced before it.
pub struct OpenView {
    /// Whether the block was tried as one to skip or to reject.
    pub ignore: bool,
    /// The block.
    pub pattern: KindView,
    /// What was traced before it.
    pub before: Seq<TraceView>,
}

/// The trace that results if all open blocks are left as they are.
pub open spec fn whole_trace(open: Seq<OpenView>, trace: Seq<TraceView>) -> Seq<TraceView>
    decreases open.len(),
{
    if open.len() == 0 {
        trace
    } else {
        let last = open.last();
        whole_trace(
            open.drop_last(),
            last.before.push(
                TraceView {
                    ignore: last.ignore,
                    pattern: last.pattern,
                    succeeded: false,
                    output_line: None,
                    note: None,
                    children: trace,
                },
            ),
        )
    }
}

proof fn lemma_traces_push(nodes: Seq<OutputMatchTraceNode>, node: OutputMatchTraceNode)
    ensures
        traces_model(nodes.push(node)) == traces_model(nodes).push(node.model()),
{
    assert(traces_model(nodes.push(node)) =~= traces_model(nodes).push(node.model()));
}

impl<'s> OutputMatchContext<'s> {
    /// What matching changes.
    pub closed spec fn memory(&self) -> Memory {
        Memory { expects: pairs_map(self.expectations@), trace: traces_model(self.trace@) }
    }

    /// What stays the same while a pattern is matched.
    pub closed spec fn scene(&self) -> Scene {
        Scene { env: self.script_context.variables(), ignoring: self.ignore }
    }

    /// The blocks whose trace is not finished, the innermost last.
    pub closed spec fn open_blocks(&self) -> Seq<OpenView> {
        self.open@.map_values(
            |o: OpenTrace|
                OpenView { ignore: o.ignore, pattern: o.pattern.model(), before: traces_model(o.before@) },
        )
    }

    /// Everything but the memory is the same.
    pub open spec fn same_place(&self, other: &Self) -> bool {
        self.scene() == other.scene() && self.open_blocks() == other.open_blocks()
    }

    /// A context for one command.
    pub fn new(script_context: &'s ScriptRunContext) -> (r: Self)
        ensures
            r.memory() == (Memory {
                expects: Map::<Seq<char>, Seq<char>>::empty(),
                trace: Seq::<TraceView>::empty(),
            }),
            r.scene() == (Scene { env: script_context.variables(), ignoring: false }),
            r.open_blocks() == Seq::<OpenView>::empty(),
    {
        let r = OutputMatchContext {
            trace: Vec::new(),
            open: Vec::new(),
            ignore: false,
            expectations: Vec::new(),
            script_context,
        };
        proof {
            assert(pairs_map(r.expectations@) =~= Map::<Seq<char>, Seq<char>>::empty());
            assert(traces_model(r.trace@) =~= Seq::<TraceView>::empty());
            assert(r.open_blocks() =~= Seq::<OpenView>::empty());
        }
        r
    }

    /// Starts the trace of a block of patterns.
    pub fn composite_pattern_begin(&mut self, pattern: OutputPatternType)
        ensures
            final(self).memory() == (Memory {
                expects: old(self).memory().expects,
                trace: Seq::<TraceView>::empty(),
            }),
            final(self).scene() == old(self).scene(),
            final(self).open_blocks() == old(self).open_blocks().push(
                (OpenView {
                    ignore: old(self).scene().ignoring,
                    pattern: pattern.model(),
                    before: old(self).memory().trace,
                }),
            ),
    {
        let mut before: Vec<OutputMatchTraceNode> = Vec::new();
        std::mem::swap(&mut before, &mut self.trace);
        self.open.push(OpenTrace { ignore: self.ignore, pattern, before });
        proof {
            assert(traces_model(self.trace@) =~= Seq::<TraceView>::empty());
            assert(self.open_blocks() =~= old(self).open_blocks().push(
                (OpenView {
                    ignore: old(self).scene().ignoring,
                    pattern: pattern.model(),
                    before: old(self).memory().trace,
                }),
            ));
        }
    }

    /// Ends the trace of a block of patterns.
    pub fn composite_pattern_end(
        &mut self,
        succeeded: bool,
        output_line: Option<Line>,
        note: Option<PatternTraceNote>,
    )
        requires
            old(self).open_blocks().len() > 0,
        ensures
            final(self).scene() == old(self).scene(),
            final(self).open_blocks() == old(self).open_blocks().drop_last(),
            final(self).memory().expects == old(self).memory().expects,
            final(self).memory().trace == ({
                let last = old(self).open_blocks().last();
                last.before.push(
                    (TraceView {
                        ignore: last.ignore,
                        pattern: last.pattern,
                        succeeded,
                        output_line: line_view(output_line),
                        note: note_view(note),
                        children: old(self).memory().trace,
                    }),
                )
            }),
    {
        let ghost blocks = self.open_blocks();
        let ghost inner = traces_model(self.trace@);
        if let Some(last) = self.open.pop() {
            proof {
                assert(self.open_blocks() =~= blocks.drop_last());
                assert(blocks.last() == (OpenView {
                    ignore: last.ignore,
                    pattern: last.pattern.model(),
                    before: traces_model(last.before@),
                }));
            }
            let mut children = last.before;
            std::mem::swap(&mut children, &mut self.trace);
            let node = OutputMatchTraceNode {
                ignore: last.ignore,
                pattern: last.pattern,
                succeeded,
                output_line,
                note,
                children,
            };
            proof {
                assert(node.model().children =~= inner);
                lemma_traces_push(self.trace@, node);
            }
            self.trace.push(node);
        }
    }

    /// Takes the trace out, with all open blocks left as they are.
    pub fn traces(&mut self) -> (r: Vec<OutputMatchTraceNode>)
        ensures
            traces_model(r@) == whole_trace(old(self).open_blocks(), old(self).memory().trace),
            final(self).memory() == (Memory {
                expects: old(self).memory().expects,
                trace: Seq::<TraceView>::empty(),
            }),
            final(self).open_blocks() == Seq::<OpenView>::empty(),
            final(self).scene() == old(self).scene(),
    {
        let ghost goal = whole_trace(self.open_blocks(), self.memory().trace);
        while self.open.len() > 0
            invariant
                goal == whole_trace(self.open_blocks(), self.memory().trace),
                self.memory().expects == old(self).memory().expects,
                self.scene() == old(self).scene(),
            decreases self.open@.len(),
        {
            self.composite_pattern_end(false, None, None);
            proof {
                assert(self.open_blocks().len() == self.open@.len());
            }
        }
        let mut out: Vec<OutputMatchTraceNode> = Vec::new();
        std::mem::swap(&mut out, &mut self.trace);
        proof {
            assert(traces_model(self.trace@) =~= Seq::<TraceView>::empty());
            assert(self.open_blocks() =~= Seq::<OpenView>::empty());
        }
        out
    }

    /// Sets the value for a name.
    pub fn expect(&mut self, key: &str, value: String)
        ensures
            final(self).memory() == (Memory {
                expects: old(self).memory().expects.insert(key@, value@),
                ..old(self).memory()
            }),
            final(self).scene() == old(self).scene(),
            final(self).open_blocks() == old(self).open_blocks(),
    {
        let _ = insert(&mut self.expectations, key, value);
    }

    /// The values found for names.
    pub fn expects(&self) -> (r: Vec<(String, String)>)
        ensures
            pairs_map(r@) == self.memory().expects,
    {
        copy(&self.expectations)
    }
}

/// Whether every grok pattern to skip or to reject was prepared.
pub open spec fn lines_prepared(lines: LinesView) -> bool {
    all_prepared(lines.ignored) && all_prepared(lines.rejected)
}

/// The mathematical value of a match.
pub open spec fn result_model(r: Result<Lines, OutputPatternMatchFailure>) -> Matched {
    match r {
        Ok(lines) => Ok(lines.model()),
        Err(failure) => Err(failure@),
    }
}

/// Successful internal match before trace decoration.
struct RawPatternOk {
    lines: Lines,
    matched_line_if_ok: Option<Line>,
    note: Option<PatternTraceNote>,
}

/// Failed internal match before trace decoration.
struct RawPatternErr {
    failure: OutputPatternMatchFailure,
    note: Option<PatternTraceNote>,
}

/// Internal result before public [`Result`] mapping.
type RawPatternMatch = Result<RawPatternOk, RawPatternErr>;

spec fn raw_model(r: RawPatternMatch) -> Raw {
    match r {
        Ok(ok) => Ok(
            RawOk {
                lines: ok.lines.model(),
                line: line_view(ok.matched_line_if_ok),
                note: note_view(ok.note),
            },
        ),
        Err(err) => Err(RawErr { failure: err.failure@, note: note_view(err.note) }),
    }
}

fn raw_ok(lines: Lines, matched_line_if_ok: Option<Line>) -> (r: RawPatternMatch)
    ensures
        raw_model(r) == Ok::<RawOk, RawErr>(
            RawOk { lines: lines.model(), line: line_view(matched_line_if_ok), note: None },
        ),
        r matches Ok(ok) && ok.lines == lines,
{
    Ok(RawPatternOk { lines, matched_line_if_ok, note: None })
}

fn raw_err(failure: OutputPatternMatchFailure) -> (r: RawPatternMatch)
    ensures
        raw_model(r) == raw_done(Err(failure@)),
        r is Err,
{
    Err(RawPatternErr { failure, note: None })
}

fn raw_result(r: Result<Lines, OutputPatternMatchFailure>) -> (raw: RawPatternMatch)
    ensures
        raw_model(raw) == raw_done(result_model(r)),
        raw matches Ok(ok) ==> r matches Ok(lines) && ok.lines == lines,
{
    match r {
        Ok(lines) => Ok(RawPatternOk { lines, matched_line_if_ok: None, note: None }),
        Err(failure) => Err(RawPatternErr { failure, note: None }),
    }
}

fn copy_note(note: &Option<PatternTraceNote>) -> (r: Option<PatternTraceNote>)
    ensures
        note_view(r) == note_view(*note),
{
    match note {
        Some(PatternTraceNote::AliasMismatch(a, b)) => Some(
            PatternTraceNote::AliasMismatch(a.clone(), b.clone()),
        ),
        Some(PatternTraceNote::IfConditionMet(c)) => Some(
            PatternTraceNote::IfConditionMet(c.clone()),
        ),
        Some(PatternTraceNote::IfConditionSkipped(c)) => Some(
            PatternTraceNote::IfConditionSkipped(c.clone()),
        ),
        None => None,
    }
}

/// Whether a text holds an escape character.
fn contains_escape(text: &str) -> (r: bool)
    ensures
        r == has_escape(text@),
{
    let chars = chars_of(text);
    let mut i: usize = 0;
    while i < chars.len()
        invariant
            i <= chars@.len(),
            chars@ == text@,
            forall|j: int| 0 <= j < i ==> chars@[j] != '\x1b',
        decreases chars@.len() - i,
    {
        if chars[i] == '\x1b' {
            return true;
        }
        i += 1;
    }
    false
}

/// Whether a line of output is the literal.
fn is_literal(literal: &str, text: &str) -> (r: bool)
    ensures
        r == literal_matches(literal@, text@),
{
    str_eq(trim_end(text), literal) || (contains_escape(text) && str_eq(
        strip_ansi(text).as_str(),
        literal,
    ))
}

/// What a grok pattern finds in a line of output.
fn find_grok(pattern: &GrokPattern, text: &str) -> (r: Option<Vec<(String, String)>>)
    requires
        pattern@.prepared is Some,
    ensures
        match r {
            Some(pairs) => grok_finds(pattern@, text@) == Some(pairs_map(pairs@)),
            None => grok_finds(pattern@, text@) is None,
        },
{
    let first = pattern.matches(text);
    if first.is_none() && contains_escape(text) {
        pattern.matches(strip_ansi(text).as_str())
    } else {
        first
    }
}

impl<'s> OutputMatchContext<'s> {
    /// Adds the values of a match, name by name, up to the first conflict
    /// with an earlier value.
    fn learn(&mut self, pattern: &GrokPattern, found: &Vec<(String, String)>) -> (r: Option<
        PatternTraceNote,
    >)
        ensures
            final(self).same_place(old(self)),
            ({
                let (expects, conflict) = learn(
                    old(self).memory().expects,
                    pattern@.aliases,
                    pairs_map(found@),
                );
                &&& final(self).memory() == (Memory { expects, ..old(self).memory() })
                &&& note_view(r) == match conflict {
                    None => None::<NoteView>,
                    Some((had, value)) => Some(NoteView::AliasMismatch(had, value)),
                }
            }),
    {
        let ghost aliases = pattern@.aliases;
        let ghost map = pairs_map(found@);
        let ghost goal = learn(self.memory().expects, aliases, map);
        let n: usize = pattern.alias_count();
        let mut i: usize = 0;
        proof {
            assert(aliases.skip(0) =~= aliases);
        }
        while i < n
            invariant
                i <= n == aliases.len(),
                aliases == pattern@.aliases,
                map == pairs_map(found@),
                goal == learn(self.memory().expects, aliases.skip(i as int), map),
                goal == learn(old(self).memory().expects, aliases, map),
                self.same_place(old(self)),
                self.memory().trace == old(self).memory().trace,
            decreases n - i,
        {
            let name = pattern.alias(i);
            proof {
                assert(aliases.skip(i as int)[0] == name@);
                assert(aliases.skip(i as int).skip(1) =~= aliases.skip(i + 1));
                assert(entry(map, name@) == lookup(found@, name@));
            }
            if let Some(value) = get(found, name) {
                let value = value.as_str();
                let had = insert(&mut self.expectations, name, value.to_owned());
                if let Some(had) = had {
                    if !str_eq(had.as_str(), value) {
                        return Some(PatternTraceNote::AliasMismatch(had, value.to_owned()));
                    }
                }
            }
            i += 1;
        }
        proof {
            assert(aliases.skip(i as int) =~= Seq::empty());
        }
        None
    }

    /// Drops the `count` nodes of the trace before the last.
    fn pop_traces_before_last(&mut self, count: usize)
        requires
            old(self).memory().trace.len() > count,
        ensures
            final(self).same_place(old(self)),
            final(self).memory() == (Memory {
                trace: drop_before_last(old(self).memory().trace, count as int),
                ..old(self).memory()
            }),
    {
        let ghost before = traces_model(self.trace@);
        if let Some(last) = self.trace.pop() {
            let n: usize = self.trace.len();
            self.trace.truncate(n - count);
            proof {
                lemma_traces_push(self.trace@, last);
                assert(traces_model(self.trace@) =~= before.take(n - count));
            }
            self.trace.push(last);
        }
    }
}

impl Lines {
    fn next_within(&self, context: &mut OutputMatchContext<'_>, Ghost(fuel): Ghost<nat>) -> (r:
        Result<(Option<Line>, Lines), OutputPatternMatchFailure>)
        requires
            next(fuel, old(context).scene(), self.model(), old(context).memory()) is Some,
            lines_prepared(self.model()),
        ensures
            final(context).same_place(old(context)),
            next(fuel, old(context).scene(), self.model(), old(context).memory()) == Some(
                (
                    match r {
                        Ok((line, lines)) => Ok::<(Option<LineView>, LinesView), FailureView>(
                            (line_view(line), lines.model()),
                        ),
                        Err(failure) => Err(failure@),
                    },
                    final(context).memory(),
                ),
            ),
            r matches Ok((_, lines)) ==> lines_prepared(lines.model()),
        decreases fuel, 0int,
    {
        let ghost scene = context.scene();
        let ghost goal = next(fuel, scene, self.model(), context.memory());
        let ghost mut f: nat = fuel;
        let mut current = self.clone();
        let was: bool = context.ignore;
        loop
            invariant
                context.same_place(old(context)),
                was == old(context).ignore,
                scene == old(context).scene(),
                goal is Some,
                goal == next(fuel, scene, self.model(), old(context).memory()),
                goal == next(f, scene, current.model(), context.memory()),
                f <= fuel,
                lines_prepared(current.model()),
            decreases f,
        {
            if current.is_exhausted() {
                return Ok((None, current));
            }
            if current.negative_disabled {
                let line = current.next_line();
                return Ok((line, current.advanced()));
            }
            let check = current.with_disabled(true);
            proof {
                assert(f > 0);
                lemma_patterns_list(current.ignored_patterns);
                lemma_patterns_list(current.rejected_patterns);
            }
            context.ignore = true;
            let skipped = first_of(
                &current.ignored_patterns.patterns,
                context,
                &check,
                Ghost((f - 1) as nat),
            );
            if let Some(behind) = skipped {
                context.ignore = was;
                current = behind.with_disabled(false);
                proof {
                    f = (f - 1) as nat;
                }
                continue ;
            }
            let rejected = location_of_first(
                &current.rejected_patterns.patterns,
                context,
                &check,
                Ghost((f - 1) as nat),
            );
            context.ignore = was;
            if let Some(location) = rejected {
                return Err(
                    OutputPatternMatchFailure::new_reject(&location, current.next_line()),
                );
            }
            let line = current.next_line();
            return Ok((line, current.advanced()));
        }
    }
}

/// The position behind the first of the patterns that matches.
fn first_of(
    patterns: &Vec<OutputPattern>,
    context: &mut OutputMatchContext<'_>,
    output: &Lines,
    Ghost(fuel): Ghost<nat>,
) -> (r: Option<Lines>)
    requires
        match_any_of(
            fuel,
            patterns_model(patterns@),
            old(context).scene(),
            output.model(),
            old(context).memory(),
        ) is Some,
        all_prepared(patterns_model(patterns@)),
        lines_prepared(output.model()),
    ensures
        final(context).same_place(old(context)),
        match_any_of(
            fuel,
            patterns_model(patterns@),
            old(context).scene(),
            output.model(),
            old(context).memory(),
        ) == Some(
            (
                match r {
                    Some(lines) => Some(lines.model()),
                    None => None::<LinesView>,
                },
                final(context).memory(),
            ),
        ),
        r matches Some(lines) ==> lines_prepared(lines.model()),
    decreases fuel, 0int,
{
    let ghost scene = context.scene();
    let ghost ps = patterns_model(patterns@);
    let ghost goal = match_any_of(fuel, ps, scene, output.model(), context.memory());
    let ghost mut f: nat = fuel;
    let mut i: usize = 0;
    proof {
        assert(ps.skip(0) =~= ps);
    }
    while i < patterns.len()
        invariant
            context.same_place(old(context)),
            scene == old(context).scene(),
            i <= patterns@.len(),
            ps == patterns_model(patterns@),
            all_prepared(ps),
            lines_prepared(output.model()),
            goal is Some,
            goal == match_any_of(fuel, ps, scene, output.model(), old(context).memory()),
            goal == match_any_of(f, ps.skip(i as int), scene, output.model(), context.memory()),
            f <= fuel,
        decreases patterns@.len() - i,
    {
        proof {
            assert(ps.skip(i as int)[0] == patterns@[i as int].model());
            assert(ps.skip(i as int).skip(1) =~= ps.skip(i + 1));
            assert(prepared(ps[i as int]));
            assert(f > 0);
        }
        let r = patterns[i].run(context, output.clone(), Ghost((f - 1) as nat));
        if let Ok(lines) = r {
            return Some(lines);
        }
        proof {
            f = (f - 1) as nat;
        }
        i += 1;
    }
    proof {
        assert(ps.skip(i as int) =~= Seq::empty());
    }
    None
}

/// Where the first of the patterns that matches stands.
fn location_of_first(
    patterns: &Vec<OutputPattern>,
    context: &mut OutputMatchContext<'_>,
    output: &Lines,
    Ghost(fuel): Ghost<nat>,
) -> (r: Option<ScriptLocation>)
    requires
        first_match(
            fuel,
            patterns_model(patterns@),
            old(context).scene(),
            output.model(),
            old(context).memory(),
        ) is Some,
        all_prepared(patterns_model(patterns@)),
        lines_prepared(output.model()),
    ensures
        final(context).same_place(old(context)),
        first_match(
            fuel,
            patterns_model(patterns@),
            old(context).scene(),
            output.model(),
            old(context).memory(),
        ) == Some((r, final(context).memory())),
    decreases fuel, 0int,
{
    let ghost scene = context.scene();
    let ghost ps = patterns_model(patterns@);
    let ghost goal = first_match(fuel, ps, scene, output.model(), context.memory());
    let ghost mut f: nat = fuel;
    let mut i: usize = 0;
    proof {
        assert(ps.skip(0) =~= ps);
    }
    while i < patterns.len()
        invariant
            context.same_place(old(context)),
            scene == old(context).scene(),
            i <= patterns@.len(),
            ps == patterns_model(patterns@),
            all_prepared(ps),
            lines_prepared(output.model()),
            goal is Some,
            goal == first_match(fuel, ps, scene, output.model(), old(context).memory()),
            goal == first_match(f, ps.skip(i as int), scene, output.model(), context.memory()),
            f <= fuel,
        decreases patterns@.len() - i,
    {
        proof {
            assert(ps.skip(i as int)[0] == patterns@[i as int].model());
            assert(ps.skip(i as int).skip(1) =~= ps.skip(i + 1));
            assert(prepared(ps[i as int]));
            assert(f > 0);
        }
        let r = patterns[i].run(context, output.clone(), Ghost((f - 1) as nat));
        if r.is_ok() {
            return Some(patterns[i].location.clone());
        }
        proof {
            f = (f - 1) as nat;
        }
        i += 1;
    }
    proof {
        assert(ps.skip(i as int) =~= Seq::empty());
    }
    None
}

/// Matches all of the patterns, in order.
fn all_of(
    patterns: &Vec<OutputPattern>,
    context: &mut OutputMatchContext<'_>,
    output: Lines,
    Ghost(fuel): Ghost<nat>,
) -> (r: Result<Lines, OutputPatternMatchFailure>)
    requires
        match_all(
            fuel,
            patterns_model(patterns@),
            old(context).scene(),
            output.model(),
            old(context).memory(),
        ) is Some,
        all_prepared(patterns_model(patterns@)),
        lines_prepared(output.model()),
    ensures
        final(context).same_place(old(context)),
        match_all(
            fuel,
            patterns_model(patterns@),
            old(context).scene(),
            output.model(),
            old(context).memory(),
        ) == Some((result_model(r), final(context).memory())),
        r matches Ok(lines) ==> lines_prepared(lines.model()),
    decreases fuel, 0int,
{
    let ghost scene = context.scene();
    let ghost ps = patterns_model(patterns@);
    let ghost start = output.model();
    let ghost goal = match_all(fuel, ps, scene, start, context.memory());
    let ghost mut f: nat = fuel;
    let mut current = output;
    let mut i: usize = 0;
    proof {
        assert(ps.skip(0) =~= ps);
    }
    while i < patterns.len()
        invariant
            context.same_place(old(context)),
            scene == old(context).scene(),
            i <= patterns@.len(),
            ps == patterns_model(patterns@),
            all_prepared(ps),
            lines_prepared(current.model()),
            goal is Some,
            start == output.model(),
            goal == match_all(fuel, ps, scene, start, old(context).memory()),
            goal == match_all(f, ps.skip(i as int), scene, current.model(), context.memory()),
            f <= fuel,
        decreases patterns@.len() - i,
    {
        proof {
            assert(ps.skip(i as int)[0] == patterns@[i as int].model());
            assert(ps.skip(i as int).skip(1) =~= ps.skip(i + 1));
            assert(prepared(ps[i as int]));
            assert(f > 0);
        }
        match patterns[i].run(context, current, Ghost((f - 1) as nat)) {
            Ok(lines) => {
                current = lines;
            },
            Err(failure) => {
                return Err(failure);
            },
        }
        proof {
            f = (f - 1) as nat;
        }
        i += 1;
    }
    proof {
        assert(ps.skip(i as int) =~= Seq::empty());
    }
    Ok(current)
}

/// Matches a pattern as often as it matches.
fn as_often_as(
    pattern: &OutputPattern,
    context: &mut OutputMatchContext<'_>,
    output: Lines,
    Ghost(fuel): Ghost<nat>,
) -> (r: Lines)
    requires
        match_more(
            fuel,
            pattern.model(),
            old(context).scene(),
            output.model(),
            old(context).memory(),
        ) is Some,
        prepared(pattern.model()),
        lines_prepared(output.model()),
    ensures
        final(context).same_place(old(context)),
        match_more(
            fuel,
            pattern.model(),
            old(context).scene(),
            output.model(),
            old(context).memory(),
        ) == Some((r.model(), final(context).memory())),
        lines_prepared(r.model()),
    decreases fuel, 0int,
{
    let ghost scene = context.scene();
    let ghost p = pattern.model();
    let ghost start = output.model();
    let ghost goal = match_more(fuel, p, scene, start, context.memory());
    let ghost mut f: nat = fuel;
    let mut current = output;
    loop
        invariant
            context.same_place(old(context)),
            scene == old(context).scene(),
            p == pattern.model(),
            prepared(p),
            lines_prepared(current.model()),
            goal is Some,
            start == output.model(),
            goal == match_more(fuel, p, scene, start, old(context).memory()),
            goal == match_more(f, p, scene, current.model(), context.memory()),
            f <= fuel,
        decreases f,
    {
        proof {
            assert(f > 0);
        }
        match pattern.run(context, current.clone(), Ghost((f - 1) as nat)) {
            Ok(lines) => {
                current = lines;
            },
            Err(_) => {
                return current;
            },
        }
        proof {
            f = (f - 1) as nat;
        }
    }
}

/// Matches any number of lines and then a pattern.
fn any_until(
    pattern: &OutputPattern,
    context: &mut OutputMatchContext<'_>,
    output: Lines,
    Ghost(fuel): Ghost<nat>,
) -> (r: Result<Lines, OutputPatternMatchFailure>)
    requires
        match_until(
            fuel,
            pattern.model(),
            old(context).scene(),
            output.model(),
            old(context).memory(),
        ) is Some,
        prepared(pattern.model()),
        lines_prepared(output.model()),
    ensures
        final(context).same_place(old(context)),
        match_until(
            fuel,
            pattern.model(),
            old(context).scene(),
            output.model(),
            old(context).memory(),
        ) == Some((result_model(r), final(context).memory())),
        r matches Ok(lines) ==> lines_prepared(lines.model()),
    decreases fuel, 0int,
{
    let ghost scene = context.scene();
    let ghost p = pattern.model();
    let ghost start = output.model();
    let ghost goal = match_until(fuel, p, scene, start, context.memory());
    let ghost mut f: nat = fuel;
    let mut current = output;
    loop
        invariant
            context.same_place(old(context)),
            scene == old(context).scene(),
            p == pattern.model(),
            prepared(p),
            lines_prepared(current.model()),
            goal is Some,
            start == output.model(),
            goal == match_until(fuel, p, scene, start, old(context).memory()),
            goal == match_until(f, p, scene, current.model(), context.memory()),
            f <= fuel,
        decreases f,
    {
        proof {
            assert(f > 0);
        }
        let failure = match pattern.run(context, current.clone(), Ghost((f - 1) as nat)) {
            Ok(lines) => {
                return Ok(lines);
            },
            Err(failure) => failure,
        };
        match current.next_within(context, Ghost((f - 1) as nat)) {
            Err(rejection) => {
                return Err(rejection);
            },
            Ok((Some(_), lines)) => {
                current = lines;
            },
            Ok((None, _)) => {
                return Err(failure);
            },
        }
        proof {
            f = (f - 1) as nat;
        }
    }
}

spec fn indices(left: Seq<usize>) -> Seq<int> {
    left.map_values(|i: usize| i as int)
}

/// The first of the patterns left that matches, and the position behind it.
fn one_of(
    patterns: &Vec<OutputPattern>,
    left: &Vec<usize>,
    context: &mut OutputMatchContext<'_>,
    output: &Lines,
    Ghost(fuel): Ghost<nat>,
) -> (r: Option<(usize, Lines)>)
    requires
        match_one_of(
            fuel,
            patterns_model(patterns@),
            indices(left@),
            0,
            old(context).scene(),
            output.model(),
            old(context).memory(),
        ) is Some,
        forall|i: int| 0 <= i < left@.len() ==> #[trigger] left@[i] < patterns@.len(),
        all_prepared(patterns_model(patterns@)),
        lines_prepared(output.model()),
    ensures
        final(context).same_place(old(context)),
        match_one_of(
            fuel,
            patterns_model(patterns@),
            indices(left@),
            0,
            old(context).scene(),
            output.model(),
            old(context).memory(),
        ) == Some(
            (
                match r {
                    Some((k, lines)) => Some((k as int, lines.model())),
                    None => None::<(int, LinesView)>,
                },
                final(context).memory(),
            ),
        ),
        r matches Some((k, lines)) ==> k < left@.len() && lines_prepared(lines.model()),
    decreases fuel, 0int,
{
    let ghost scene = context.scene();
    let ghost ps = patterns_model(patterns@);
    let ghost ids = indices(left@);
    let ghost goal = match_one_of(fuel, ps, ids, 0, scene, output.model(), context.memory());
    let ghost mut f: nat = fuel;
    let mut k: usize = 0;
    while k < left.len()
        invariant
            context.same_place(old(context)),
            scene == old(context).scene(),
            k <= left@.len(),
            ps == patterns_model(patterns@),
            ids == indices(left@),
            forall|i: int| 0 <= i < left@.len() ==> #[trigger] left@[i] < patterns@.len(),
            all_prepared(ps),
            lines_prepared(output.model()),
            goal is Some,
            goal == match_one_of(fuel, ps, ids, 0, scene, output.model(), old(context).memory()),
            goal == match_one_of(f, ps, ids, k as int, scene, output.model(), context.memory()),
            f <= fuel,
        decreases left@.len() - k,
    {
        let i: usize = left[k];
        proof {
            assert(ids[k as int] == i as int);
            assert(ps[i as int] == patterns@[i as int].model());
            assert(prepared(ps[i as int]));
            assert(f > 0);
        }
        let r = patterns[i].run(context, output.clone(), Ghost((f - 1) as nat));
        if let Ok(lines) = r {
            return Some((k, lines));
        }
        proof {
            f = (f - 1) as nat;
        }
        k += 1;
    }
    None
}

/// Matches all of the patterns, in any order.
fn in_any_order(
    kind: &OutputPatternType,
    location: &ScriptLocation,
    patterns: &Vec<OutputPattern>,
    context: &mut OutputMatchContext<'_>,
    output: Lines,
    Ghost(fuel): Ghost<nat>,
) -> (r: Result<Lines, OutputPatternMatchFailure>)
    requires
        match_unordered(
            fuel,
            kind.model(),
            *location,
            patterns_model(patterns@),
            Seq::new(patterns@.len(), |i: int| i),
            old(context).scene(),
            output.model(),
            old(context).memory(),
        ) is Some,
        all_prepared(patterns_model(patterns@)),
        lines_prepared(output.model()),
    ensures
        final(context).same_place(old(context)),
        match_unordered(
            fuel,
            kind.model(),
            *location,
            patterns_model(patterns@),
            Seq::new(patterns@.len(), |i: int| i),
            old(context).scene(),
            output.model(),
            old(context).memory(),
        ) == Some((result_model(r), final(context).memory())),
        r matches Ok(lines) ==> lines_prepared(lines.model()),
    decreases fuel, 0int,
{
    let ghost scene = context.scene();
    let ghost ps = patterns_model(patterns@);
    let ghost k_model = kind.model();
    let ghost all = Seq::new(patterns@.len(), |i: int| i);
    let ghost start = output.model();
    let ghost goal = match_unordered(
        fuel,
        k_model,
        *location,
        ps,
        all,
        scene,
        start,
        context.memory(),
    );
    let n: usize = patterns.len();
    let mut left: Vec<usize> = Vec::new();
    let mut i: usize = 0;
    while i < n
        invariant
            i <= n,
            left@.len() == i,
            forall|j: int| 0 <= j < i ==> #[trigger] left@[j] == j,
        decreases n - i,
    {
        left.push(i);
        i += 1;
    }
    proof {
        assert(indices(left@) =~= all);
    }
    let ghost mut f: nat = fuel;
    let mut current = output;
    while left.len() > 0
        invariant
            context.same_place(old(context)),
            scene == old(context).scene(),
            ps == patterns_model(patterns@),
            k_model == kind.model(),
            forall|j: int| 0 <= j < left@.len() ==> #[trigger] left@[j] < patterns@.len(),
            all_prepared(ps),
            lines_prepared(current.model()),
            goal is Some,
            start == output.model(),
            all == Seq::new(patterns@.len(), |i: int| i),
            goal == match_unordered(
                fuel,
                k_model,
                *location,
                ps,
                all,
                scene,
                start,
                old(context).memory(),
            ),
            goal == match_unordered(
                f,
                k_model,
                *location,
                ps,
                indices(left@),
                scene,
                current.model(),
                context.memory(),
            ),
            f <= fuel,
        decreases left@.len(),
    {
        proof {
            assert(f > 0);
        }
        let ghost mem = context.memory();
        let ghost ids = indices(left@);
        match one_of(patterns, &left, context, &current, Ghost((f - 1) as nat)) {
            Some((k, lines)) => {
                proof {
                    lemma_one_of_traced(
                        (f - 1) as nat,
                        ps,
                        ids,
                        0,
                        scene,
                        current.model(),
                        mem,
                    );
                }
                context.pop_traces_before_last(k);
                let ghost had = left@;
                left.remove(k);
                proof {
                    assert(indices(left@) =~= ids.remove(k as int));
                    assert forall|j: int| 0 <= j < left@.len() implies #[trigger] left@[j]
                        < patterns@.len() by {
                        if j < k {
                            assert(left@[j] == had[j]);
                        } else {
                            assert(left@[j] == had[j + 1]);
                        }
                    }
                }
                current = lines;
            },
            None => {
                return Err(
                    OutputPatternMatchFailure::new(location, current.next_line(), kind),
                );
            },
        }
        proof {
            f = (f - 1) as nat;
        }
    }
    proof {
        assert(indices(left@) =~= Seq::empty());
    }
    Ok(current)
}

proof fn lemma_with_patterns_prepared(lines: LinesView, p: PatternView)
    requires
        lines_prepared(lines),
        prepared(p),
    ensures
        lines_prepared(lines.with_patterns(p.ignore, p.reject)),
{
    let l = lines.with_patterns(p.ignore, p.reject);
    assert forall|i: int| 0 <= i < l.ignored.len() implies prepared(#[trigger] l.ignored[i]) by {
        if i < lines.ignored.len() {
            assert(l.ignored[i] == lines.ignored[i]);
        } else {
            assert(l.ignored[i] == p.ignore[i - lines.ignored.len()]);
        }
    }
    assert forall|i: int| 0 <= i < l.rejected.len() implies prepared(#[trigger] l.rejected[i]) by {
        if i < lines.rejected.len() {
            assert(l.rejected[i] == lines.rejected[i]);
        } else {
            assert(l.rejected[i] == p.reject[i - lines.rejected.len()]);
        }
    }
}

impl OutputPattern {
    fn run(
        &self,
        context: &mut OutputMatchContext<'_>,
        output: Lines,
        Ghost(fuel): Ghost<nat>,
    ) -> (r: Result<Lines, OutputPatternMatchFailure>)
        requires
            match_pattern(
                fuel,
                self.model(),
                old(context).scene(),
                output.model(),
                old(context).memory(),
            ) is Some,
            prepared(self.model()),
            lines_prepared(output.model()),
        ensures
            final(context).same_place(old(context)),
            match_pattern(
                fuel,
                self.model(),
                old(context).scene(),
                output.model(),
                old(context).memory(),
            ) == Some((result_model(r), final(context).memory())),
            r matches Ok(lines) ==> lines_prepared(lines.model()),
        decreases fuel, 0int,
    {
        let ghost with = output.model().with_patterns(self.model().ignore, self.model().reject);
        proof {
            lemma_with_patterns_prepared(output.model(), self.model());
        }
        if self.ignore.is_empty() && self.reject.is_empty() {
            proof {
                assert(output.model().ignored =~= with.ignored);
                assert(output.model().rejected =~= with.rejected);
                assert(output.model() == with);
            }
            self.pattern.run(&self.location, context, output, Ghost((fuel - 1) as nat))
        } else {
            let output = output.with_ignore(&self.ignore).with_reject(&self.reject);
            proof {
                assert(output.model() == with);
            }
            self.pattern.run(&self.location, context, output, Ghost((fuel - 1) as nat))
        }
    }
}

impl OutputPatternType {
    fn run(
        &self,
        location: &ScriptLocation,
        context: &mut OutputMatchContext<'_>,
        output: Lines,
        Ghost(fuel): Ghost<nat>,
    ) -> (r: Result<Lines, OutputPatternMatchFailure>)
        requires
            match_kind(
                fuel,
                self.model(),
                *location,
                old(context).scene(),
                output.model(),
                old(context).memory(),
            ) is Some,
            kind_prepared(self.model()),
            lines_prepared(output.model()),
        ensures
            final(context).same_place(old(context)),
            match_kind(
                fuel,
                self.model(),
                *location,
                old(context).scene(),
                output.model(),
                old(context).memory(),
            ) == Some((result_model(r), final(context).memory())),
            r matches Ok(lines) ==> lines_prepared(lines.model()),
        decreases fuel, 0int,
    {
        let leaf = matches!(self, OutputPatternType::Nothing) || matches!(
            self,
            OutputPatternType::Literal(_)
        ) || matches!(self, OutputPatternType::Pattern(_)) || matches!(self, OutputPatternType::End);
        let ghost kind = self.model();
        let ghost scene = context.scene();
        let ghost before = context.memory().trace;
        if !leaf {
            context.composite_pattern_begin(self.clone());
        }
        let raw = self.raw_matches(location, context, output, Ghost((fuel - 1) as nat));
        let (succeeded, output_line, note) = match &raw {
            Ok(ok) => (true, copy_line(&ok.matched_line_if_ok), copy_note(&ok.note)),
            Err(err) => (false, copy_line(&err.failure.output_line), copy_note(&err.note)),
        };
        if leaf {
            let node = OutputMatchTraceNode {
                ignore: context.ignore,
                pattern: self.clone(),
                succeeded,
                output_line,
                note,
                children: Vec::new(),
            };
            proof {
                assert(node.model().children =~= Seq::empty());
                assert(node.model() == trace_node(scene, kind, raw_model(raw), Seq::empty()));
                lemma_traces_push(context.trace@, node);
            }
            context.trace.push(node);
        } else {
            let ghost blocks = context.open_blocks();
            context.composite_pattern_end(succeeded, output_line, note);
            proof {
                assert(blocks.drop_last() =~= old(context).open_blocks());
            }
        }
        match raw {
            Ok(ok) => Ok(ok.lines),
            Err(err) => Err(err.failure),
        }
    }

    fn raw_matches(
        &self,
        location: &ScriptLocation,
        context: &mut OutputMatchContext<'_>,
        output: Lines,
        Ghost(fuel): Ghost<nat>,
    ) -> (r: RawPatternMatch)
        requires
            raw_match(
                fuel,
                self.model(),
                *location,
                old(context).scene(),
                output.model(),
                old(context).memory(),
            ) is Some,
            kind_prepared(self.model()),
            lines_prepared(output.model()),
        ensures
            final(context).same_place(old(context)),
            raw_match(
                fuel,
                self.model(),
                *location,
                old(context).scene(),
                output.model(),
                old(context).memory(),
            ) == Some((raw_model(r), final(context).memory())),
            r matches Ok(ok) ==> lines_prepared(ok.lines.model()),
        decreases fuel, 0int,
    {
        let ghost f = (fuel - 1) as nat;
        proof {
            lemma_kind_lists(*self);
        }
        match self {
            OutputPatternType::Nothing => raw_ok(output, None),
            OutputPatternType::Literal(literal) => {
                let (line, behind) = match output.next_within(context, Ghost(f)) {
                    Ok(found) => found,
                    Err(failure) => {
                        return raw_err(failure);
                    },
                };
                match line {
                    None => raw_err(OutputPatternMatchFailure::new(location, None, self)),
                    Some(line) => {
                        if is_literal(literal.as_str(), line.text.as_str()) {
                            raw_ok(behind, Some(line))
                        } else {
                            raw_err(OutputPatternMatchFailure::new(location, Some(line), self))
                        }
                    },
                }
            },
            OutputPatternType::Pattern(pattern) => {
                let (line, behind) = match output.next_within(context, Ghost(f)) {
                    Ok(found) => found,
                    Err(failure) => {
                        return raw_err(failure);
                    },
                };
                match line {
                    None => raw_err(OutputPatternMatchFailure::new(location, None, self)),
                    Some(line) => match find_grok(pattern, line.text.as_str()) {
                        None => raw_err(
                            OutputPatternMatchFailure::new(location, Some(line), self),
                        ),
                        Some(found) => {
                            let note = context.learn(pattern, &found);
                            if note.is_some() {
                                Err(
                                    RawPatternErr {
                                        failure: OutputPatternMatchFailure::new(
                                            location,
                                            Some(line),
                                            self,
                                        ),
                                        note,
                                    },
                                )
                            } else {
                                raw_ok(behind, Some(line))
                            }
                        },
                    },
                }
            },
            OutputPatternType::Sequence(patterns) => raw_result(
                all_of(patterns, context, output, Ghost(f)),
            ),
            OutputPatternType::Repeat(pattern) => {
                let behind = match pattern.run(context, output, Ghost(f)) {
                    Ok(behind) => behind,
                    Err(failure) => {
                        return raw_err(failure);
                    },
                };
                let last = as_often_as(pattern, context, behind, Ghost(f));
                raw_ok(last, None)
            },
            OutputPatternType::Optional(pattern) => {
                match pattern.run(context, output.clone(), Ghost(f)) {
                    Ok(behind) => raw_ok(behind, None),
                    Err(_) => raw_ok(output, None),
                }
            },
            OutputPatternType::Unordered(patterns) => raw_result(
                in_any_order(self, location, patterns, context, output, Ghost(f)),
            ),
            OutputPatternType::Choice(patterns) => {
                match first_of(patterns, context, &output, Ghost(f)) {
                    Some(behind) => raw_ok(behind, None),
                    None => raw_err(
                        OutputPatternMatchFailure::new(location, output.next_line(), self),
                    ),
                }
            },
            OutputPatternType::Not(pattern) => {
                match pattern.run(context, output.clone(), Ghost(f)) {
                    Ok(_) => raw_err(
                        OutputPatternMatchFailure::new(location, output.next_line(), self),
                    ),
                    Err(_) => raw_ok(output, None),
                }
            },
            OutputPatternType::Any(until) => raw_result(
                any_until(until, context, output, Ghost(f)),
            ),
            OutputPatternType::If(condition, pattern) => {
                if condition.matches(context.script_context) {
                    match pattern.run(context, output, Ghost(f)) {
                        Ok(lines) => Ok(
                            RawPatternOk {
                                lines,
                                matched_line_if_ok: None,
                                note: Some(PatternTraceNote::IfConditionMet(condition.clone())),
                            },
                        ),
                        Err(failure) => Err(
                            RawPatternErr {
                                failure,
                                note: Some(PatternTraceNote::IfConditionMet(condition.clone())),
                            },
                        ),
                    }
                } else {
                    Ok(
                        RawPatternOk {
                            lines: output,
                            matched_line_if_ok: None,
                            note: Some(PatternTraceNote::IfConditionSkipped(condition.clone())),
                        },
                    )
                }
            },
            OutputPatternType::End => {
                let (line, behind) = match output.next_within(context, Ghost(f)) {
                    Ok(found) => found,
                    Err(failure) => {
                        return raw_err(failure);
                    },
                };
                match line {
                    Some(line) => raw_err(
                        OutputPatternMatchFailure::new(location, Some(line), self),
                    ),
                    None => raw_ok(behind, None),
                }
            },
        }
    }
}

impl Lines {
    /// The next line that is not skipped, and the position behind it.
    pub fn next(&self, context: &mut OutputMatchContext<'_>) -> (r: Result<
        (Option<Line>, Lines),
        OutputPatternMatchFailure,
    >)
        requires
            next_has_end(old(context).scene(), self.model(), old(context).memory()),
            lines_prepared(self.model()),
        ensures
            final(context).same_place(old(context)),
            ({
                let (found, after) = next_outcome(
                    old(context).scene(),
                    self.model(),
                    old(context).memory(),
                );
                &&& final(context).memory() == after
                &&& match r {
                    Ok((line, lines)) => found == Ok::<(Option<LineView>, LinesView), FailureView>(
                        (line_view(line), lines.model()),
                    ) && lines_prepared(lines.model()),
                    Err(failure) => found == Err::<(Option<LineView>, LinesView), FailureView>(
                        failure@,
                    ),
                }
            }),
    {
        let ghost scene = context.scene();
        let ghost mem = context.memory();
        let ghost fuel = choose|fuel: nat| #[trigger]
            next(fuel, scene, self.model(), mem) is Some;
        self.next_within(context, Ghost(fuel))
    }

    /// Whether what is skipped and rejected is prepared and productive.
    pub fn is_ready(&self, context: &ScriptRunContext) -> (r: bool)
        ensures
            r == (lines_prepared(self.model()) && position_ok(self.model(), context.variables())),
    {
        proof {
            use_type_invariant(self);
            lemma_patterns_list(self.ignored_patterns);
            lemma_patterns_list(self.rejected_patterns);
        }
        let skipped = all_ready(&self.ignored_patterns.patterns, context) && all_take_a_line(
            &self.ignored_patterns.patterns,
            context,
        );
        let rejected = all_ready(&self.rejected_patterns.patterns, context);
        skipped && rejected
    }
}

impl OutputPatternType {
    /// Matches output, and traces the match.
    pub fn matches(
        &self,
        location: &ScriptLocation,
        context: &mut OutputMatchContext<'_>,
        output: Lines,
    ) -> (r: Result<Lines, OutputPatternMatchFailure>)
        requires
            kind_match_ends(
                self.model(),
                *location,
                old(context).scene(),
                output.model(),
                old(context).memory(),
            ),
            kind_prepared(self.model()),
            lines_prepared(output.model()),
        ensures
            final(context).same_place(old(context)),
            (result_model(r), final(context).memory()) == kind_match_outcome(
                self.model(),
                *location,
                old(context).scene(),
                output.model(),
                old(context).memory(),
            ),
            r matches Ok(lines) ==> lines_prepared(lines.model()),
    {
        let ghost kind = self.model();
        let ghost scene = context.scene();
        let ghost lines = output.model();
        let ghost mem = context.memory();
        let ghost fuel = choose|fuel: nat| #[trigger]
            match_kind(fuel, kind, *location, scene, lines, mem) is Some;
        self.run(location, context, output, Ghost(fuel))
    }
}

impl OutputPattern {
    /// Matches output: gives the position behind what the pattern matches, or
    /// says why it does not match.
    pub fn matches(&self, context: &mut OutputMatchContext<'_>, output: Lines) -> (r: Result<
        Lines,
        OutputPatternMatchFailure,
    >)
        requires
            match_ends(
                self.model(),
                old(context).scene(),
                output.model(),
                old(context).memory(),
            ),
            prepared(self.model()),
            lines_prepared(output.model()),
        ensures
            final(context).same_place(old(context)),
            (result_model(r), final(context).memory()) == match_outcome(
                self.model(),
                old(context).scene(),
                output.model(),
                old(context).memory(),
            ),
            r matches Ok(lines) ==> lines_prepared(lines.model()),
    {
        let ghost p = self.model();
        let ghost scene = context.scene();
        let ghost lines = output.model();
        let ghost mem = context.memory();
        let ghost fuel = choose|fuel: nat| #[trigger]
            match_pattern(fuel, p, scene, lines, mem) is Some;
        self.run(context, output, Ghost(fuel))
    }

    /// Matches output where that is sure to come to an end: where the pattern
    /// and what is skipped and rejected are prepared and, with the variables
    /// that are set, productive.
    pub fn checked_matches(&self, context: &mut OutputMatchContext<'_>, output: Lines) -> (r: Option<
        Result<Lines, OutputPatternMatchFailure>,
    >)
        ensures
            final(context).same_place(old(context)),
            r is Some == (prepared(self.model()) && productive(
                self.model(),
                old(context).scene().env,
            ) && lines_prepared(output.model()) && position_ok(
                output.model(),
                old(context).scene().env,
            )),
            match r {
                Some(result) => (result_model(result), final(context).memory()) == match_outcome(
                    self.model(),
                    old(context).scene(),
                    output.model(),
                    old(context).memory(),
                ) && (result matches Ok(lines) ==> lines_prepared(lines.model())),
                None => final(context).memory() == old(context).memory(),
            },
    {
        let variables: &ScriptRunContext = context.script_context;
        if !self.is_ready(variables) || !output.is_ready(variables) {
            return None;
        }
        proof {
            law_productive_match_ends(
                self.model(),
                context.scene(),
                output.model(),
                context.memory(),
            );
        }
        Some(self.matches(context, output))
    }
}

} // verus!
