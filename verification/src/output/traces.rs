//! Matching a pattern leaves a trace.
use crate::output::matching::{
    first_match, match_any_of, match_kind, match_one_of, match_pattern, next, raw_match, LinesView,
    Memory, Scene,
};
use crate::output::pattern::{is_leaf, KindView, PatternView};
use crate::script::ScriptLocation;
use vstd::prelude::*;

verus! {

/// Matching a pattern adds to the trace.
pub proof fn law_match_is_traced(
    fuel: nat,
    p: PatternView,
    scene: Scene,
    lines: LinesView,
    mem: Memory,
)
    ensures
        match_pattern(fuel, p, scene, lines, mem) matches Some((_, after)) ==> after.trace.len()
            > mem.trace.len(),
    decreases fuel,
{
    if fuel > 0 {
        lemma_kind_traced(
            (fuel - 1) as nat,
            p.kind,
            p.location,
            scene,
            lines.with_patterns(p.ignore, p.reject),
            mem,
        );
    }
}

proof fn lemma_kind_traced(
    fuel: nat,
    kind: KindView,
    location: ScriptLocation,
    scene: Scene,
    lines: LinesView,
    mem: Memory,
)
    ensures
        match_kind(fuel, kind, location, scene, lines, mem) matches Some((_, after))
            ==> after.trace.len() > mem.trace.len(),
    decreases fuel,
{
    if fuel > 0 && is_leaf(kind) {
        let f = (fuel - 1) as nat;
        if f > 0 {
            lemma_next_traced((f - 1) as nat, scene, lines, mem);
        }
        assert(raw_match(f, kind, location, scene, lines, mem) matches Some((_, after))
            ==> after.trace.len() >= mem.trace.len());
    }
}

proof fn lemma_next_traced(fuel: nat, scene: Scene, lines: LinesView, mem: Memory)
    ensures
        next(fuel, scene, lines, mem) matches Some((_, after)) ==> after.trace.len()
            >= mem.trace.len(),
    decreases fuel,
{
    if fuel > 0 && lines.next_line() is Some && !lines.disabled {
        let f = (fuel - 1) as nat;
        let check = lines.without_negatives();
        let quiet = scene.as_ignoring();
        lemma_any_of_traced(f, lines.ignored, quiet, check, mem);
        match match_any_of(f, lines.ignored, quiet, check, mem) {
            Some((Some(behind), after)) => {
                lemma_next_traced(f, scene, behind.with_negatives(), after);
            },
            Some((None, after)) => {
                lemma_first_traced(f, lines.rejected, quiet, check, after);
            },
            None => {},
        }
    }
}

proof fn lemma_any_of_traced(
    fuel: nat,
    ps: Seq<PatternView>,
    scene: Scene,
    lines: LinesView,
    mem: Memory,
)
    ensures
        match_any_of(fuel, ps, scene, lines, mem) matches Some((_, after)) ==> after.trace.len()
            >= mem.trace.len(),
    decreases fuel,
{
    if fuel > 0 && ps.len() > 0 {
        let f = (fuel - 1) as nat;
        law_match_is_traced(f, ps[0], scene, lines, mem);
        if let Some((Err(_), after)) = match_pattern(f, ps[0], scene, lines, mem) {
            lemma_any_of_traced(f, ps.skip(1), scene, lines, after);
        }
    }
}

proof fn lemma_first_traced(
    fuel: nat,
    ps: Seq<PatternView>,
    scene: Scene,
    lines: LinesView,
    mem: Memory,
)
    ensures
        first_match(fuel, ps, scene, lines, mem) matches Some((_, after)) ==> after.trace.len()
            >= mem.trace.len(),
    decreases fuel,
{
    if fuel > 0 && ps.len() > 0 {
        let f = (fuel - 1) as nat;
        law_match_is_traced(f, ps[0], scene, lines, mem);
        if let Some((Err(_), after)) = match_pattern(f, ps[0], scene, lines, mem) {
            lemma_first_traced(f, ps.skip(1), scene, lines, after);
        }
    }
}

/// Each pattern that was tried adds to the trace.
pub(crate) proof fn lemma_one_of_traced(
    fuel: nat,
    ps: Seq<PatternView>,
    left: Seq<int>,
    k: int,
    scene: Scene,
    lines: LinesView,
    mem: Memory,
)
    ensures
        match_one_of(fuel, ps, left, k, scene, lines, mem) matches Some((Some((j, _)), after))
            ==> after.trace.len() >= mem.trace.len() + (j - k) + 1,
    decreases fuel,
{
    if fuel > 0 && k < left.len() {
        let f = (fuel - 1) as nat;
        law_match_is_traced(f, ps[left[k]], scene, lines, mem);
        if let Some((Err(_), after)) = match_pattern(f, ps[left[k]], scene, lines, mem) {
            lemma_one_of_traced(f, ps, left, k + 1, scene, lines, after);
        }
    }
}

} // verus!
