//! What it means for output to match a pattern.
//!
//! Matching is described as an evaluation with a bound on its depth: a
//! function of the bound that is `None` where the bound is too small.
use crate::failure::{
    failure_of, rejection_of, FailureView, LineView, NoteView, TraceView,
};
use crate::output::ansi::ansi_stripped;
use crate::output::grok::{match_result, GrokView};
use crate::output::pattern::{is_leaf, KindView, PatternView};
use crate::script::{condition_met, ScriptLocation};
use crate::util::assoc::entry;
use crate::util::text::trimmed_end;
use vstd::prelude::*;

verus! {

/// A position in output, and what is skipped and rejected there.
pub struct LinesView {
    /// All lines of the output.
    pub lines: Seq<Seq<char>>,
    /// The number of lines that were matched.
    pub current: int,
    /// The patterns that are skipped.
    pub ignored: Seq<PatternView>,
    /// Whether nothing is skipped or rejected for now.
    pub disabled: bool,
    /// The patterns that may not occur.
    pub rejected: Seq<PatternView>,
}

impl LinesView {
    /// The next line, if there is one.
    pub open spec fn next_line(self) -> Option<LineView> {
        if self.current < self.lines.len() {
            Some(LineView { number: self.current, text: self.lines[self.current] })
        } else {
            None
        }
    }

    /// The position behind the next line.
    pub open spec fn advanced(self) -> LinesView {
        LinesView { current: self.current + 1, ..self }
    }

    /// The same position, with more to skip and to reject.
    pub open spec fn with_patterns(self, ignore: Seq<PatternView>, reject: Seq<PatternView>) -> LinesView {
        LinesView { ignored: self.ignored + ignore, rejected: self.rejected + reject, ..self }
    }

    /// The same position, with nothing skipped or rejected for now.
    pub open spec fn without_negatives(self) -> LinesView {
        LinesView { disabled: true, ..self }
    }

    /// The same position, with skipping and rejecting.
    pub open spec fn with_negatives(self) -> LinesView {
        LinesView { disabled: false, ..self }
    }

    /// The number of lines that are left.
    pub open spec fn left(self) -> nat {
        if self.current < self.lines.len() {
            (self.lines.len() - self.current) as nat
        } else {
            0
        }
    }
}

/// What stays the same while a pattern is matched.
pub struct Scene {
    /// The variables that are set.
    pub env: Map<Seq<char>, Seq<char>>,
    /// Whether the pattern is tried as one to skip or to reject.
    pub ignoring: bool,
}

impl Scene {
    /// The scene in which patterns to skip or to reject are tried.
    pub open spec fn as_ignoring(self) -> Scene {
        Scene { ignoring: true, ..self }
    }
}

/// What matching changes.
pub struct Memory {
    /// The values found for names.
    pub expects: Map<Seq<char>, Seq<char>>,
    /// The patterns tried so far in the innermost block.
    pub trace: Seq<TraceView>,
}

/// What matching a pattern gives: the position behind what it matched, or why
/// it did not match.
pub type Matched = Result<LinesView, FailureView>;

/// A successful match, with what its trace says.
pub struct RawOk {
    /// The position behind the match.
    pub lines: LinesView,
    /// The line that was matched.
    pub line: Option<LineView>,
    /// What else there is to say.
    pub note: Option<NoteView>,
}

/// A failed match, with what its trace says.
pub struct RawErr {
    /// Why it did not match.
    pub failure: FailureView,
    /// What else there is to say.
    pub note: Option<NoteView>,
}

/// What matching a kind of pattern gives before it is traced.
pub type Raw = Result<RawOk, RawErr>;

/// A match with nothing more to say.
pub open spec fn raw_done(r: Matched) -> Raw {
    match r {
        Ok(lines) => Ok(RawOk { lines, line: None, note: None }),
        Err(failure) => Err(RawErr { failure, note: None }),
    }
}

/// The match that a raw match is.
pub open spec fn matched(raw: Raw) -> Matched {
    match raw {
        Ok(ok) => Ok(ok.lines),
        Err(err) => Err(err.failure),
    }
}

/// What a trace shows of a pattern.
pub open spec fn trace_node(
    scene: Scene,
    kind: KindView,
    raw: Raw,
    children: Seq<TraceView>,
) -> TraceView {
    match raw {
        Ok(ok) => TraceView {
            ignore: scene.ignoring,
            pattern: kind,
            succeeded: true,
            output_line: ok.line,
            note: ok.note,
            children,
        },
        Err(err) => TraceView {
            ignore: scene.ignoring,
            pattern: kind,
            succeeded: false,
            output_line: err.failure.output_line,
            note: err.note,
            children,
        },
    }
}

/// Whether a text holds an escape character.
pub open spec fn has_escape(text: Seq<char>) -> bool {
    text.contains('\x1b')
}

/// Whether a line of output is the literal, trailing white space or terminal
/// escape sequences aside.
pub open spec fn literal_matches(literal: Seq<char>, text: Seq<char>) -> bool {
    trimmed_end(text) == literal || (has_escape(text) && ansi_stripped(text) == literal)
}

/// What a grok pattern finds in a line of output. A line with terminal escape
/// sequences gets a second chance without them.
pub open spec fn grok_finds(g: GrokView, text: Seq<char>) -> Option<Map<Seq<char>, Seq<char>>> {
    let first = match_result(g.prepared->Some_0, g.pattern, text);
    if first is None && has_escape(text) {
        match_result(g.prepared->Some_0, g.pattern, ansi_stripped(text))
    } else {
        first
    }
}

/// The values found for names after those of a match are added, name by name;
/// and the first conflict with an earlier value, which ends it.
pub open spec fn learn(
    expects: Map<Seq<char>, Seq<char>>,
    aliases: Seq<Seq<char>>,
    found: Map<Seq<char>, Seq<char>>,
) -> (Map<Seq<char>, Seq<char>>, Option<(Seq<char>, Seq<char>)>)
    decreases aliases.len(),
{
    if aliases.len() == 0 {
        (expects, None)
    } else {
        let name = aliases[0];
        match entry(found, name) {
            None => learn(expects, aliases.skip(1), found),
            Some(value) => {
                let more = expects.insert(name, value);
                match entry(expects, name) {
                    Some(had) if had != value => (more, Some((had, value))),
                    _ => learn(more, aliases.skip(1), found),
                }
            },
        }
    }
}

/// The trace without the `count` nodes before the last.
pub open spec fn drop_before_last(trace: Seq<TraceView>, count: int) -> Seq<TraceView> {
    trace.take(trace.len() - 1 - count).push(trace.last())
}

/// Matching a pattern.
pub open spec fn match_pattern(
    fuel: nat,
    p: PatternView,
    scene: Scene,
    lines: LinesView,
    mem: Memory,
) -> Option<(Matched, Memory)>
    decreases fuel,
{
    if fuel == 0 {
        None
    } else {
        match_kind(
            (fuel - 1) as nat,
            p.kind,
            p.location,
            scene,
            lines.with_patterns(p.ignore, p.reject),
            mem,
        )
    }
}

/// Matching a kind of pattern, and tracing it.
pub open spec fn match_kind(
    fuel: nat,
    kind: KindView,
    location: ScriptLocation,
    scene: Scene,
    lines: LinesView,
    mem: Memory,
) -> Option<(Matched, Memory)>
    decreases fuel,
{
    if fuel == 0 {
        None
    } else if is_leaf(kind) {
        match raw_match((fuel - 1) as nat, kind, location, scene, lines, mem) {
            None => None,
            Some((raw, after)) => Some(
                (
                    matched(raw),
                    Memory {
                        expects: after.expects,
                        trace: after.trace.push(trace_node(scene, kind, raw, Seq::empty())),
                    },
                ),
            ),
        }
    } else {
        let inner = Memory { expects: mem.expects, trace: Seq::empty() };
        match raw_match((fuel - 1) as nat, kind, location, scene, lines, inner) {
            None => None,
            Some((raw, after)) => Some(
                (
                    matched(raw),
                    Memory {
                        expects: after.expects,
                        trace: mem.trace.push(trace_node(scene, kind, raw, after.trace)),
                    },
                ),
            ),
        }
    }
}

/// Matching a kind of pattern.
pub open spec fn raw_match(
    fuel: nat,
    kind: KindView,
    location: ScriptLocation,
    scene: Scene,
    lines: LinesView,
    mem: Memory,
) -> Option<(Raw, Memory)>
    decreases fuel,
{
    if fuel == 0 {
        None
    } else {
        let f = (fuel - 1) as nat;
        match kind {
            KindView::Nothing => Some((raw_done(Ok(lines)), mem)),
            KindView::Literal(literal) => match next(f, scene, lines, mem) {
                None => None,
                Some((Err(failure), after)) => Some((raw_done(Err(failure)), after)),
                Some((Ok((None, _)), after)) => Some(
                    (raw_done(Err(failure_of(location, None, kind))), after),
                ),
                Some((Ok((Some(line), behind)), after)) => if literal_matches(literal, line.text) {
                    Some((Ok(RawOk { lines: behind, line: Some(line), note: None }), after))
                } else {
                    Some((raw_done(Err(failure_of(location, Some(line), kind))), after))
                },
            },
            KindView::Pattern(g) => match next(f, scene, lines, mem) {
                None => None,
                Some((Err(failure), after)) => Some((raw_done(Err(failure)), after)),
                Some((Ok((None, _)), after)) => Some(
                    (raw_done(Err(failure_of(location, None, kind))), after),
                ),
                Some((Ok((Some(line), behind)), after)) => match grok_finds(g, line.text) {
                    None => Some((raw_done(Err(failure_of(location, Some(line), kind))), after)),
                    Some(found) => {
                        let (expects, conflict) = learn(after.expects, g.aliases, found);
                        let learned = Memory { expects, ..after };
                        match conflict {
                            None => Some(
                                (
                                    Ok(RawOk { lines: behind, line: Some(line), note: None }),
                                    learned,
                                ),
                            ),
                            Some((had, value)) => Some(
                                (
                                    Err(
                                        RawErr {
                                            failure: failure_of(location, Some(line), kind),
                                            note: Some(NoteView::AliasMismatch(had, value)),
                                        },
                                    ),
                                    learned,
                                ),
                            ),
                        }
                    },
                },
            },
            KindView::Sequence(ps) => match match_all(f, ps, scene, lines, mem) {
                None => None,
                Some((r, after)) => Some((raw_done(r), after)),
            },
            KindView::Repeat(p) => match match_pattern(f, *p, scene, lines, mem) {
                None => None,
                Some((Err(failure), after)) => Some((raw_done(Err(failure)), after)),
                Some((Ok(behind), after)) => match match_more(f, *p, scene, behind, after) {
                    None => None,
                    Some((last, done)) => Some((raw_done(Ok(last)), done)),
                },
            },
            KindView::Optional(p) => match match_pattern(f, *p, scene, lines, mem) {
                None => None,
                Some((Err(_), after)) => Some((raw_done(Ok(lines)), after)),
                Some((Ok(behind), after)) => Some((raw_done(Ok(behind)), after)),
            },
            KindView::Unordered(ps) => match match_unordered(
                f,
                kind,
                location,
                ps,
                Seq::new(ps.len(), |i: int| i),
                scene,
                lines,
                mem,
            ) {
                None => None,
                Some((r, after)) => Some((raw_done(r), after)),
            },
            KindView::Choice(ps) => match match_any_of(f, ps, scene, lines, mem) {
                None => None,
                Some((Some(behind), after)) => Some((raw_done(Ok(behind)), after)),
                Some((None, after)) => Some(
                    (raw_done(Err(failure_of(location, lines.next_line(), kind))), after),
                ),
            },
            KindView::Not(p) => match match_pattern(f, *p, scene, lines, mem) {
                None => None,
                Some((Err(_), after)) => Some((raw_done(Ok(lines)), after)),
                Some((Ok(_), after)) => Some(
                    (raw_done(Err(failure_of(location, lines.next_line(), kind))), after),
                ),
            },
            KindView::Any(p) => match match_until(f, *p, scene, lines, mem) {
                None => None,
                Some((r, after)) => Some((raw_done(r), after)),
            },
            KindView::If(c, p) => if condition_met(c, scene.env) {
                match match_pattern(f, *p, scene, lines, mem) {
                    None => None,
                    Some((Ok(behind), after)) => Some(
                        (
                            Ok(
                                RawOk {
                                    lines: behind,
                                    line: None,
                                    note: Some(NoteView::IfConditionMet(c)),
                                },
                            ),
                            after,
                        ),
                    ),
                    Some((Err(failure), after)) => Some(
                        (
                            Err(RawErr { failure, note: Some(NoteView::IfConditionMet(c)) }),
                            after,
                        ),
                    ),
                }
            } else {
                Some(
                    (
                        Ok(RawOk { lines, line: None, note: Some(NoteView::IfConditionSkipped(c)) }),
                        mem,
                    ),
                )
            },
            KindView::End => match next(f, scene, lines, mem) {
                None => None,
                Some((Err(failure), after)) => Some((raw_done(Err(failure)), after)),
                Some((Ok((Some(line), _)), after)) => Some(
                    (raw_done(Err(failure_of(location, Some(line), kind))), after),
                ),
                Some((Ok((None, behind)), after)) => Some((raw_done(Ok(behind)), after)),
            },
        }
    }
}

/// The next line that is not skipped, and the position behind it; or the
/// rejection that stands in its way.
pub open spec fn next(fuel: nat, scene: Scene, lines: LinesView, mem: Memory) -> Option<
    (Result<(Option<LineView>, LinesView), FailureView>, Memory),
>
    decreases fuel,
{
    if fuel == 0 {
        None
    } else if lines.next_line() is None {
        Some((Ok((None, lines)), mem))
    } else if lines.disabled {
        Some((Ok((lines.next_line(), lines.advanced())), mem))
    } else {
        let f = (fuel - 1) as nat;
        let check = lines.without_negatives();
        match match_any_of(f, lines.ignored, scene.as_ignoring(), check, mem) {
            None => None,
            Some((Some(behind), after)) => next(f, scene, behind.with_negatives(), after),
            Some((None, after)) => match first_match(
                f,
                lines.rejected,
                scene.as_ignoring(),
                check,
                after,
            ) {
                None => None,
                Some((Some(location), done)) => Some(
                    (Err(rejection_of(location, lines.next_line())), done),
                ),
                Some((None, done)) => Some((Ok((lines.next_line(), lines.advanced())), done)),
            },
        }
    }
}

/// The position behind the first of the patterns that matches.
pub open spec fn match_any_of(
    fuel: nat,
    ps: Seq<PatternView>,
    scene: Scene,
    lines: LinesView,
    mem: Memory,
) -> Option<(Option<LinesView>, Memory)>
    decreases fuel,
{
    if fuel == 0 {
        None
    } else if ps.len() == 0 {
        Some((None, mem))
    } else {
        let f = (fuel - 1) as nat;
        match match_pattern(f, ps[0], scene, lines, mem) {
            None => None,
            Some((Ok(behind), after)) => Some((Some(behind), after)),
            Some((Err(_), after)) => match_any_of(f, ps.skip(1), scene, lines, after),
        }
    }
}

/// Where the first of the patterns that matches stands.
pub open spec fn first_match(
    fuel: nat,
    ps: Seq<PatternView>,
    scene: Scene,
    lines: LinesView,
    mem: Memory,
) -> Option<(Option<ScriptLocation>, Memory)>
    decreases fuel,
{
    if fuel == 0 {
        None
    } else if ps.len() == 0 {
        Some((None, mem))
    } else {
        let f = (fuel - 1) as nat;
        match match_pattern(f, ps[0], scene, lines, mem) {
            None => None,
            Some((Ok(_), after)) => Some((Some(ps[0].location), after)),
            Some((Err(_), after)) => first_match(f, ps.skip(1), scene, lines, after),
        }
    }
}

/// Matching all of the patterns, in order.
pub open spec fn match_all(
    fuel: nat,
    ps: Seq<PatternView>,
    scene: Scene,
    lines: LinesView,
    mem: Memory,
) -> Option<(Matched, Memory)>
    decreases fuel,
{
    if fuel == 0 {
        None
    } else if ps.len() == 0 {
        Some((Ok(lines), mem))
    } else {
        let f = (fuel - 1) as nat;
        match match_pattern(f, ps[0], scene, lines, mem) {
            None => None,
            Some((Ok(behind), after)) => match_all(f, ps.skip(1), scene, behind, after),
            Some((Err(failure), after)) => Some((Err(failure), after)),
        }
    }
}

/// Matching a pattern as often as it matches.
pub open spec fn match_more(
    fuel: nat,
    p: PatternView,
    scene: Scene,
    lines: LinesView,
    mem: Memory,
) -> Option<(LinesView, Memory)>
    decreases fuel,
{
    if fuel == 0 {
        None
    } else {
        let f = (fuel - 1) as nat;
        match match_pattern(f, p, scene, lines, mem) {
            None => None,
            Some((Ok(behind), after)) => match_more(f, p, scene, behind, after),
            Some((Err(_), after)) => Some((lines, after)),
        }
    }
}

/// Matching any number of lines and then a pattern, with as few lines before
/// it as possible.
pub open spec fn match_until(
    fuel: nat,
    p: PatternView,
    scene: Scene,
    lines: LinesView,
    mem: Memory,
) -> Option<(Matched, Memory)>
    decreases fuel,
{
    if fuel == 0 {
        None
    } else {
        let f = (fuel - 1) as nat;
        match match_pattern(f, p, scene, lines, mem) {
            None => None,
            Some((Ok(behind), after)) => Some((Ok(behind), after)),
            Some((Err(failure), after)) => match next(f, scene, lines, after) {
                None => None,
                Some((Err(rejection), done)) => Some((Err(rejection), done)),
                Some((Ok((Some(_), behind)), done)) => match_until(f, p, scene, behind, done),
                Some((Ok((None, _)), done)) => Some((Err(failure), done)),
            },
        }
    }
}

/// Matching all of the patterns whose indices are in `left`, in any order:
/// each time the first of them that matches.
pub open spec fn match_unordered(
    fuel: nat,
    kind: KindView,
    location: ScriptLocation,
    ps: Seq<PatternView>,
    left: Seq<int>,
    scene: Scene,
    lines: LinesView,
    mem: Memory,
) -> Option<(Matched, Memory)>
    decreases fuel,
{
    if fuel == 0 {
        None
    } else if left.len() == 0 {
        Some((Ok(lines), mem))
    } else {
        let f = (fuel - 1) as nat;
        match match_one_of(f, ps, left, 0, scene, lines, mem) {
            None => None,
            Some((Some((k, behind)), after)) => match_unordered(
                f,
                kind,
                location,
                ps,
                left.remove(k),
                scene,
                behind,
                Memory { trace: drop_before_last(after.trace, k), ..after },
            ),
            Some((None, after)) => Some(
                (Err(failure_of(location, lines.next_line(), kind)), after),
            ),
        }
    }
}

/// The first of the patterns whose indices are in `left`, from the `k`-th on,
/// that matches; and the position behind it.
pub open spec fn match_one_of(
    fuel: nat,
    ps: Seq<PatternView>,
    left: Seq<int>,
    k: int,
    scene: Scene,
    lines: LinesView,
    mem: Memory,
) -> Option<(Option<(int, LinesView)>, Memory)>
    decreases fuel,
{
    if fuel == 0 {
        None
    } else if k >= left.len() {
        Some((None, mem))
    } else {
        let f = (fuel - 1) as nat;
        match match_pattern(f, ps[left[k]], scene, lines, mem) {
            None => None,
            Some((Ok(behind), after)) => Some((Some((k, behind)), after)),
            Some((Err(_), after)) => match_one_of(f, ps, left, k + 1, scene, lines, after),
        }
    }
}

} // verus!
