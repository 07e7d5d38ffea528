//! Matching a productive pattern comes to an end.
use crate::failure::{FailureView, LineView};
use crate::output::bounds::{
    all_productive, kind_productive, lemma_any_of_progress, lemma_next_progress,
    lemma_one_of_progress, lemma_pattern_progress, lemma_with_patterns, lines_productive,
    productive, least_lines, Env,
};
use crate::output::fuel::{
    law_match_is_independent_of_bound, lemma_more_all, lemma_more_any_of, lemma_more_first,
    lemma_more_more, lemma_more_next, lemma_more_one_of, lemma_more_unordered, lemma_more_until,
};
use crate::output::matching::{
    drop_before_last, first_match, match_all, match_any_of, match_kind, match_more, match_one_of,
    match_pattern, match_unordered, match_until, next, raw_match, LinesView, Matched, Memory, Scene,
};
use crate::output::pattern::{is_leaf, KindView, PatternView};
use crate::script::{condition_met, ScriptLocation};
use vstd::prelude::*;

verus! {

/// Whether matching a pattern comes to an end.
pub open spec fn match_ends(p: PatternView, scene: Scene, lines: LinesView, mem: Memory) -> bool {
    exists|fuel: nat| #[trigger] match_pattern(fuel, p, scene, lines, mem) is Some
}

/// What matching a pattern that comes to an end gives, and what it leaves.
pub open spec fn match_outcome(
    p: PatternView,
    scene: Scene,
    lines: LinesView,
    mem: Memory,
) -> (Matched, Memory) {
    let fuel = choose|fuel: nat| #[trigger] match_pattern(fuel, p, scene, lines, mem) is Some;
    match_pattern(fuel, p, scene, lines, mem)->Some_0
}

/// Whether matching a kind of pattern comes to an end.
pub open spec fn kind_match_ends(
    kind: KindView,
    location: ScriptLocation,
    scene: Scene,
    lines: LinesView,
    mem: Memory,
) -> bool {
    exists|fuel: nat| #[trigger] match_kind(fuel, kind, location, scene, lines, mem) is Some
}

/// What matching a kind of pattern that comes to an end gives, and what it
/// leaves.
pub open spec fn kind_match_outcome(
    kind: KindView,
    location: ScriptLocation,
    scene: Scene,
    lines: LinesView,
    mem: Memory,
) -> (Matched, Memory) {
    let fuel = choose|fuel: nat| #[trigger]
        match_kind(fuel, kind, location, scene, lines, mem) is Some;
    match_kind(fuel, kind, location, scene, lines, mem)->Some_0
}

/// Whether finding the next line comes to an end.
pub open spec fn next_has_end(scene: Scene, lines: LinesView, mem: Memory) -> bool {
    exists|fuel: nat| #[trigger] next(fuel, scene, lines, mem) is Some
}

/// The next line that is not skipped, and what finding it leaves.
pub open spec fn next_outcome(scene: Scene, lines: LinesView, mem: Memory) -> (
    Result<(Option<LineView>, LinesView), FailureView>,
    Memory,
) {
    let fuel = choose|fuel: nat| #[trigger] next(fuel, scene, lines, mem) is Some;
    next(fuel, scene, lines, mem)->Some_0
}

/// The outcome of a match is what it gives under any bound that suffices.
pub proof fn law_outcome_is_the_match(
    fuel: nat,
    p: PatternView,
    scene: Scene,
    lines: LinesView,
    mem: Memory,
)
    requires
        match_pattern(fuel, p, scene, lines, mem) is Some,
    ensures
        match_ends(p, scene, lines, mem),
        match_pattern(fuel, p, scene, lines, mem) == Some(match_outcome(p, scene, lines, mem)),
{
    let other = choose|f: nat| #[trigger] match_pattern(f, p, scene, lines, mem) is Some;
    if fuel <= other {
        law_match_is_independent_of_bound(fuel, other, p, scene, lines, mem);
    } else {
        law_match_is_independent_of_bound(other, fuel, p, scene, lines, mem);
    }
}

/// A position within its output, with productive patterns to skip and reject.
pub open spec fn position_ok(lines: LinesView, env: Env) -> bool {
    lines.current <= lines.lines.len() && lines_productive(lines, env)
}

/// Whether finding the next line always comes to an end.
spec fn next_ends(disabled: bool) -> bool {
    forall|scene: Scene, lines: LinesView, mem: Memory|
        lines.disabled == disabled && position_ok(lines, scene.env) ==> #[trigger] next_has_end(
            scene,
            lines,
            mem,
        )
}

spec fn larger(a: nat, b: nat) -> nat {
    if a < b {
        b
    } else {
        a
    }
}

proof fn enough_next(scene: Scene, lines: LinesView, mem: Memory) -> (fuel: nat)
    requires
        next_ends(lines.disabled),
        position_ok(lines, scene.env),
    ensures
        next(fuel, scene, lines, mem) is Some,
{
    assert(next_has_end(scene, lines, mem));
    choose|fuel: nat| #[trigger] next(fuel, scene, lines, mem) is Some
}

proof fn enough_pattern(p: PatternView, scene: Scene, lines: LinesView, mem: Memory) -> (fuel: nat)
    requires
        next_ends(lines.disabled),
        position_ok(lines, scene.env),
        productive(p, scene.env),
    ensures
        match_pattern(fuel, p, scene, lines, mem) is Some,
    decreases p, lines.left(), 0int, 0int,
{
    lemma_with_patterns(lines, p, scene.env);
    let f = enough_kind(
        p.kind,
        p.location,
        scene,
        lines.with_patterns(p.ignore, p.reject),
        mem,
    );
    f + 1
}

proof fn enough_kind(
    kind: KindView,
    location: ScriptLocation,
    scene: Scene,
    lines: LinesView,
    mem: Memory,
) -> (fuel: nat)
    requires
        next_ends(lines.disabled),
        position_ok(lines, scene.env),
        kind_productive(kind, scene.env),
    ensures
        match_kind(fuel, kind, location, scene, lines, mem) is Some,
    decreases kind, 0nat, 1int, 0int,
{
    let inner = if is_leaf(kind) {
        mem
    } else {
        Memory { expects: mem.expects, trace: Seq::empty() }
    };
    let f = enough_raw(kind, location, scene, lines, inner);
    f + 1
}

proof fn enough_raw(
    kind: KindView,
    location: ScriptLocation,
    scene: Scene,
    lines: LinesView,
    mem: Memory,
) -> (fuel: nat)
    requires
        next_ends(lines.disabled),
        position_ok(lines, scene.env),
        kind_productive(kind, scene.env),
    ensures
        raw_match(fuel, kind, location, scene, lines, mem) is Some,
    decreases kind, 0nat, 0int, 0int,
{
    match kind {
        KindView::Nothing => 1,
        KindView::Literal(_) => enough_next(scene, lines, mem) + 1,
        KindView::Pattern(_) => enough_next(scene, lines, mem) + 1,
        KindView::End => enough_next(scene, lines, mem) + 1,
        KindView::Sequence(ps) => enough_all(ps, scene, lines, mem) + 1,
        KindView::Repeat(p) => {
            let f = enough_pattern(*p, scene, lines, mem);
            if let Some((Ok(behind), after)) = match_pattern(f, *p, scene, lines, mem) {
                lemma_pattern_progress(f, *p, scene, lines, mem);
                let g = enough_more(*p, scene, behind, after);
                let m = larger(f, g);
                law_match_is_independent_of_bound(f, m, *p, scene, lines, mem);
                lemma_more_more(g, m, *p, scene, behind, after);
                m + 1
            } else {
                f + 1
            }
        },
        KindView::Optional(p) => enough_pattern(*p, scene, lines, mem) + 1,
        KindView::Not(p) => enough_pattern(*p, scene, lines, mem) + 1,
        KindView::Unordered(ps) => {
            let left = Seq::new(ps.len(), |i: int| i);
            enough_unordered(kind, location, ps, left, scene, lines, mem) + 1
        },
        KindView::Choice(ps) => enough_any_of(ps, scene, lines, mem) + 1,
        KindView::Any(p) => enough_until(*p, scene, lines, mem) + 1,
        KindView::If(c, p) => {
            if condition_met(c, scene.env) {
                enough_pattern(*p, scene, lines, mem) + 1
            } else {
                1
            }
        },
    }
}

proof fn enough_any_of(
    ps: Seq<PatternView>,
    scene: Scene,
    lines: LinesView,
    mem: Memory,
) -> (fuel: nat)
    requires
        next_ends(lines.disabled),
        position_ok(lines, scene.env),
        all_productive(ps, scene.env),
    ensures
        match_any_of(fuel, ps, scene, lines, mem) is Some,
    decreases ps, 0nat, 0int, 0int,
{
    if ps.len() == 0 {
        1
    } else {
        let f = enough_pattern(ps[0], scene, lines, mem);
        if let Some((Err(_), after)) = match_pattern(f, ps[0], scene, lines, mem) {
            let rest = ps.skip(1);
            assert(forall|i: int| 0 <= i < rest.len() ==> #[trigger] rest[i] == ps[i + 1]);
            let g = enough_any_of(rest, scene, lines, after);
            let m = larger(f, g);
            law_match_is_independent_of_bound(f, m, ps[0], scene, lines, mem);
            lemma_more_any_of(g, m, rest, scene, lines, after);
            m + 1
        } else {
            f + 1
        }
    }
}

proof fn enough_first(
    ps: Seq<PatternView>,
    scene: Scene,
    lines: LinesView,
    mem: Memory,
) -> (fuel: nat)
    requires
        next_ends(lines.disabled),
        position_ok(lines, scene.env),
        all_productive(ps, scene.env),
    ensures
        first_match(fuel, ps, scene, lines, mem) is Some,
    decreases ps.len(),
{
    if ps.len() == 0 {
        1
    } else {
        let f = enough_pattern(ps[0], scene, lines, mem);
        if let Some((Err(_), after)) = match_pattern(f, ps[0], scene, lines, mem) {
            let rest = ps.skip(1);
            assert(forall|i: int| 0 <= i < rest.len() ==> #[trigger] rest[i] == ps[i + 1]);
            let g = enough_first(rest, scene, lines, after);
            let m = larger(f, g);
            law_match_is_independent_of_bound(f, m, ps[0], scene, lines, mem);
            lemma_more_first(g, m, rest, scene, lines, after);
            m + 1
        } else {
            f + 1
        }
    }
}

proof fn enough_all(
    ps: Seq<PatternView>,
    scene: Scene,
    lines: LinesView,
    mem: Memory,
) -> (fuel: nat)
    requires
        next_ends(lines.disabled),
        position_ok(lines, scene.env),
        all_productive(ps, scene.env),
    ensures
        match_all(fuel, ps, scene, lines, mem) is Some,
    decreases ps, 0nat, 0int, 0int,
{
    if ps.len() == 0 {
        1
    } else {
        let f = enough_pattern(ps[0], scene, lines, mem);
        if let Some((Ok(behind), after)) = match_pattern(f, ps[0], scene, lines, mem) {
            let rest = ps.skip(1);
            assert(forall|i: int| 0 <= i < rest.len() ==> #[trigger] rest[i] == ps[i + 1]);
            lemma_pattern_progress(f, ps[0], scene, lines, mem);
            let g = enough_all(rest, scene, behind, after);
            let m = larger(f, g);
            law_match_is_independent_of_bound(f, m, ps[0], scene, lines, mem);
            lemma_more_all(g, m, rest, scene, behind, after);
            m + 1
        } else {
            f + 1
        }
    }
}

proof fn enough_more(p: PatternView, scene: Scene, lines: LinesView, mem: Memory) -> (fuel: nat)
    requires
        next_ends(lines.disabled),
        position_ok(lines, scene.env),
        productive(p, scene.env),
        least_lines(p.kind, scene.env) >= 1,
    ensures
        match_more(fuel, p, scene, lines, mem) is Some,
    decreases p, lines.left(), 1int, 0int,
{
    let f = enough_pattern(p, scene, lines, mem);
    if let Some((Ok(behind), after)) = match_pattern(f, p, scene, lines, mem) {
        lemma_pattern_progress(f, p, scene, lines, mem);
        let g = enough_more(p, scene, behind, after);
        let m = larger(f, g);
        law_match_is_independent_of_bound(f, m, p, scene, lines, mem);
        lemma_more_more(g, m, p, scene, behind, after);
        m + 1
    } else {
        f + 1
    }
}

proof fn enough_until(p: PatternView, scene: Scene, lines: LinesView, mem: Memory) -> (fuel: nat)
    requires
        next_ends(lines.disabled),
        position_ok(lines, scene.env),
        productive(p, scene.env),
    ensures
        match_until(fuel, p, scene, lines, mem) is Some,
    decreases p, lines.left(), 1int, 0int,
{
    let f = enough_pattern(p, scene, lines, mem);
    if let Some((Err(_), after)) = match_pattern(f, p, scene, lines, mem) {
        let g = enough_next(scene, lines, after);
        let m = larger(f, g);
        law_match_is_independent_of_bound(f, m, p, scene, lines, mem);
        lemma_more_next(g, m, scene, lines, after);
        if let Some((Ok((Some(_), behind)), done)) = next(g, scene, lines, after) {
            lemma_next_progress(g, scene, lines, after);
            let h = enough_until(p, scene, behind, done);
            let n = larger(m, h);
            law_match_is_independent_of_bound(f, n, p, scene, lines, mem);
            lemma_more_next(g, n, scene, lines, after);
            lemma_more_until(h, n, p, scene, behind, done);
            n + 1
        } else {
            m + 1
        }
    } else {
        f + 1
    }
}

proof fn enough_unordered(
    kind: KindView,
    location: ScriptLocation,
    ps: Seq<PatternView>,
    left: Seq<int>,
    scene: Scene,
    lines: LinesView,
    mem: Memory,
) -> (fuel: nat)
    requires
        next_ends(lines.disabled),
        position_ok(lines, scene.env),
        all_productive(ps, scene.env),
        forall|i: int| 0 <= i < left.len() ==> 0 <= #[trigger] left[i] < ps.len(),
    ensures
        match_unordered(fuel, kind, location, ps, left, scene, lines, mem) is Some,
    decreases ps, left.len(), 1int, 0int,
{
    if left.len() == 0 {
        1
    } else {
        let f = enough_one_of(ps, left, 0, scene, lines, mem);
        if let Some((Some((k, behind)), after)) = match_one_of(f, ps, left, 0, scene, lines, mem) {
            lemma_one_of_progress(f, ps, left, 0, scene, lines, mem);
            let rest = left.remove(k);
            let kept = Memory { trace: drop_before_last(after.trace, k), ..after };
            assert forall|i: int| 0 <= i < rest.len() implies 0 <= #[trigger] rest[i] < ps.len() by {
                if i < k {
                    assert(rest[i] == left[i]);
                } else {
                    assert(rest[i] == left[i + 1]);
                }
            }
            let g = enough_unordered(kind, location, ps, rest, scene, behind, kept);
            let m = larger(f, g);
            lemma_more_one_of(f, m, ps, left, 0, scene, lines, mem);
            lemma_more_unordered(g, m, kind, location, ps, rest, scene, behind, kept);
            m + 1
        } else {
            f + 1
        }
    }
}

proof fn enough_one_of(
    ps: Seq<PatternView>,
    left: Seq<int>,
    k: int,
    scene: Scene,
    lines: LinesView,
    mem: Memory,
) -> (fuel: nat)
    requires
        next_ends(lines.disabled),
        position_ok(lines, scene.env),
        all_productive(ps, scene.env),
        0 <= k <= left.len(),
        forall|i: int| 0 <= i < left.len() ==> 0 <= #[trigger] left[i] < ps.len(),
    ensures
        match_one_of(fuel, ps, left, k, scene, lines, mem) is Some,
    decreases ps, left.len(), 0int, left.len() - k,
{
    if k == left.len() {
        1
    } else {
        let p = ps[left[k]];
        let f = enough_pattern(p, scene, lines, mem);
        if let Some((Err(_), after)) = match_pattern(f, p, scene, lines, mem) {
            let g = enough_one_of(ps, left, k + 1, scene, lines, after);
            let m = larger(f, g);
            law_match_is_independent_of_bound(f, m, p, scene, lines, mem);
            lemma_more_one_of(g, m, ps, left, k + 1, scene, lines, after);
            m + 1
        } else {
            f + 1
        }
    }
}

proof fn lemma_next_ends_disabled()
    ensures
        next_ends(true),
{
    assert forall|scene: Scene, lines: LinesView, mem: Memory|
        lines.disabled && position_ok(lines, scene.env) implies #[trigger] next_has_end(
        scene,
        lines,
        mem,
    ) by {
        assert(next(1, scene, lines, mem) is Some);
    }
}

proof fn enough_next_enabled(scene: Scene, lines: LinesView, mem: Memory) -> (fuel: nat)
    requires
        position_ok(lines, scene.env),
    ensures
        next(fuel, scene, lines, mem) is Some,
    decreases lines.left(),
{
    if lines.next_line() is None || lines.disabled {
        1
    } else {
        lemma_next_ends_disabled();
        let check = lines.without_negatives();
        let quiet = scene.as_ignoring();
        assert(all_productive(lines.ignored, scene.env));
        let f = enough_any_of(lines.ignored, quiet, check, mem);
        match match_any_of(f, lines.ignored, quiet, check, mem) {
            Some((Some(behind), after)) => {
                lemma_any_of_progress(f, lines.ignored, quiet, check, mem, 1);
                let g = enough_next_enabled(scene, behind.with_negatives(), after);
                let m = larger(f, g);
                lemma_more_any_of(f, m, lines.ignored, quiet, check, mem);
                lemma_more_next(g, m, scene, behind.with_negatives(), after);
                m + 1
            },
            Some((None, after)) => {
                let g = enough_first(lines.rejected, quiet, check, after);
                let m = larger(f, g);
                lemma_more_any_of(f, m, lines.ignored, quiet, check, mem);
                lemma_more_first(g, m, lines.rejected, quiet, check, after);
                m + 1
            },
            None => 0,
        }
    }
}

/// Matching comes to an end where every part of the pattern that may be
/// matched again and again takes up a line each time.
pub proof fn law_productive_match_ends(
    p: PatternView,
    scene: Scene,
    lines: LinesView,
    mem: Memory,
)
    requires
        productive(p, scene.env),
        position_ok(lines, scene.env),
    ensures
        match_ends(p, scene, lines, mem),
{
    assert(next_ends(lines.disabled)) by {
        assert forall|scene: Scene, lines: LinesView, mem: Memory|
            position_ok(lines, scene.env) implies #[trigger] next_has_end(scene, lines, mem) by {
            let fuel = enough_next_enabled(scene, lines, mem);
            assert(next(fuel, scene, lines, mem) is Some);
        }
    }
    let fuel = enough_pattern(p, scene, lines, mem);
    assert(match_pattern(fuel, p, scene, lines, mem) is Some);
}

} // verus!
