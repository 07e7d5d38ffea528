//! Matching does not depend on the bound on its depth, once that suffices.
use crate::output::matching::{
    first_match, match_all, match_any_of, match_kind, match_more, match_one_of, match_pattern,
    match_unordered, match_until, next, raw_match, drop_before_last, LinesView, Memory, Scene,
};
use crate::output::pattern::{is_leaf, KindView, PatternView};
use crate::script::{condition_met, ScriptLocation};
use vstd::prelude::*;

verus! {

/// A larger bound gives the same match.
pub proof fn law_match_is_independent_of_bound(
    f: nat,
    g: nat,
    p: PatternView,
    scene: Scene,
    lines: LinesView,
    mem: Memory,
)
    requires
        f <= g,
        match_pattern(f, p, scene, lines, mem) is Some,
    ensures
        match_pattern(g, p, scene, lines, mem) == match_pattern(f, p, scene, lines, mem),
    decreases f,
{
    lemma_more_kind(
        (f - 1) as nat,
        (g - 1) as nat,
        p.kind,
        p.location,
        scene,
        lines.with_patterns(p.ignore, p.reject),
        mem,
    );
}

pub(crate) proof fn lemma_more_kind(
    f: nat,
    g: nat,
    kind: KindView,
    location: ScriptLocation,
    scene: Scene,
    lines: LinesView,
    mem: Memory,
)
    requires
        f <= g,
        match_kind(f, kind, location, scene, lines, mem) is Some,
    ensures
        match_kind(g, kind, location, scene, lines, mem) == match_kind(
            f,
            kind,
            location,
            scene,
            lines,
            mem,
        ),
    decreases f,
{
    let inner = if is_leaf(kind) {
        mem
    } else {
        Memory { expects: mem.expects, trace: Seq::empty() }
    };
    lemma_more_raw((f - 1) as nat, (g - 1) as nat, kind, location, scene, lines, inner);
}

pub(crate) proof fn lemma_more_raw(
    fuel: nat,
    more: nat,
    kind: KindView,
    location: ScriptLocation,
    scene: Scene,
    lines: LinesView,
    mem: Memory,
)
    requires
        fuel <= more,
        raw_match(fuel, kind, location, scene, lines, mem) is Some,
    ensures
        raw_match(more, kind, location, scene, lines, mem) == raw_match(
            fuel,
            kind,
            location,
            scene,
            lines,
            mem,
        ),
    decreases fuel,
{
    let f = (fuel - 1) as nat;
    let g = (more - 1) as nat;
    match kind {
        KindView::Nothing => {},
        KindView::Literal(_) => {
            lemma_more_next(f, g, scene, lines, mem);
        },
        KindView::Pattern(_) => {
            lemma_more_next(f, g, scene, lines, mem);
        },
        KindView::End => {
            lemma_more_next(f, g, scene, lines, mem);
        },
        KindView::Sequence(ps) => {
            lemma_more_all(f, g, ps, scene, lines, mem);
        },
        KindView::Repeat(p) => {
            law_match_is_independent_of_bound(f, g, *p, scene, lines, mem);
            if let Some((Ok(behind), after)) = match_pattern(f, *p, scene, lines, mem) {
                lemma_more_more(f, g, *p, scene, behind, after);
            }
        },
        KindView::Optional(p) => {
            law_match_is_independent_of_bound(f, g, *p, scene, lines, mem);
        },
        KindView::Not(p) => {
            law_match_is_independent_of_bound(f, g, *p, scene, lines, mem);
        },
        KindView::Unordered(ps) => {
            lemma_more_unordered(
                f,
                g,
                kind,
                location,
                ps,
                Seq::new(ps.len(), |i: int| i),
                scene,
                lines,
                mem,
            );
        },
        KindView::Choice(ps) => {
            lemma_more_any_of(f, g, ps, scene, lines, mem);
        },
        KindView::Any(p) => {
            lemma_more_until(f, g, *p, scene, lines, mem);
        },
        KindView::If(c, p) => {
            if condition_met(c, scene.env) {
                law_match_is_independent_of_bound(f, g, *p, scene, lines, mem);
            }
        },
    }
}

pub(crate) proof fn lemma_more_next(fuel: nat, more: nat, scene: Scene, lines: LinesView, mem: Memory)
    requires
        fuel <= more,
        next(fuel, scene, lines, mem) is Some,
    ensures
        next(more, scene, lines, mem) == next(fuel, scene, lines, mem),
    decreases fuel,
{
    if lines.next_line() is Some && !lines.disabled {
        let f = (fuel - 1) as nat;
        let g = (more - 1) as nat;
        let check = lines.without_negatives();
        let quiet = scene.as_ignoring();
        lemma_more_any_of(f, g, lines.ignored, quiet, check, mem);
        match match_any_of(f, lines.ignored, quiet, check, mem) {
            Some((Some(behind), after)) => {
                lemma_more_next(f, g, scene, behind.with_negatives(), after);
            },
            Some((None, after)) => {
                lemma_more_first(f, g, lines.rejected, quiet, check, after);
            },
            None => {},
        }
    }
}

pub(crate) proof fn lemma_more_any_of(
    fuel: nat,
    more: nat,
    ps: Seq<PatternView>,
    scene: Scene,
    lines: LinesView,
    mem: Memory,
)
    requires
        fuel <= more,
        match_any_of(fuel, ps, scene, lines, mem) is Some,
    ensures
        match_any_of(more, ps, scene, lines, mem) == match_any_of(fuel, ps, scene, lines, mem),
    decreases fuel,
{
    if ps.len() > 0 {
        let f = (fuel - 1) as nat;
        let g = (more - 1) as nat;
        law_match_is_independent_of_bound(f, g, ps[0], scene, lines, mem);
        if let Some((Err(_), after)) = match_pattern(f, ps[0], scene, lines, mem) {
            lemma_more_any_of(f, g, ps.skip(1), scene, lines, after);
        }
    }
}

pub(crate) proof fn lemma_more_first(
    fuel: nat,
    more: nat,
    ps: Seq<PatternView>,
    scene: Scene,
    lines: LinesView,
    mem: Memory,
)
    requires
        fuel <= more,
        first_match(fuel, ps, scene, lines, mem) is Some,
    ensures
        first_match(more, ps, scene, lines, mem) == first_match(fuel, ps, scene, lines, mem),
    decreases fuel,
{
    if ps.len() > 0 {
        let f = (fuel - 1) as nat;
        let g = (more - 1) as nat;
        law_match_is_independent_of_bound(f, g, ps[0], scene, lines, mem);
        if let Some((Err(_), after)) = match_pattern(f, ps[0], scene, lines, mem) {
            lemma_more_first(f, g, ps.skip(1), scene, lines, after);
        }
    }
}

pub(crate) proof fn lemma_more_all(
    fuel: nat,
    more: nat,
    ps: Seq<PatternView>,
    scene: Scene,
    lines: LinesView,
    mem: Memory,
)
    requires
        fuel <= more,
        match_all(fuel, ps, scene, lines, mem) is Some,
    ensures
        match_all(more, ps, scene, lines, mem) == match_all(fuel, ps, scene, lines, mem),
    decreases fuel,
{
    if ps.len() > 0 {
        let f = (fuel - 1) as nat;
        let g = (more - 1) as nat;
        law_match_is_independent_of_bound(f, g, ps[0], scene, lines, mem);
        if let Some((Ok(behind), after)) = match_pattern(f, ps[0], scene, lines, mem) {
            lemma_more_all(f, g, ps.skip(1), scene, behind, after);
        }
    }
}

pub(crate) proof fn lemma_more_more(
    fuel: nat,
    more: nat,
    p: PatternView,
    scene: Scene,
    lines: LinesView,
    mem: Memory,
)
    requires
        fuel <= more,
        match_more(fuel, p, scene, lines, mem) is Some,
    ensures
        match_more(more, p, scene, lines, mem) == match_more(fuel, p, scene, lines, mem),
    decreases fuel,
{
    let f = (fuel - 1) as nat;
    let g = (more - 1) as nat;
    law_match_is_independent_of_bound(f, g, p, scene, lines, mem);
    if let Some((Ok(behind), after)) = match_pattern(f, p, scene, lines, mem) {
        lemma_more_more(f, g, p, scene, behind, after);
    }
}

pub(crate) proof fn lemma_more_until(
    fuel: nat,
    more: nat,
    p: PatternView,
    scene: Scene,
    lines: LinesView,
    mem: Memory,
)
    requires
        fuel <= more,
        match_until(fuel, p, scene, lines, mem) is Some,
    ensures
        match_until(more, p, scene, lines, mem) == match_until(fuel, p, scene, lines, mem),
    decreases fuel,
{
    let f = (fuel - 1) as nat;
    let g = (more - 1) as nat;
    law_match_is_independent_of_bound(f, g, p, scene, lines, mem);
    if let Some((Err(_), after)) = match_pattern(f, p, scene, lines, mem) {
        lemma_more_next(f, g, scene, lines, after);
        if let Some((Ok((Some(_), behind)), done)) = next(f, scene, lines, after) {
            lemma_more_until(f, g, p, scene, behind, done);
        }
    }
}

pub(crate) proof fn lemma_more_unordered(
    fuel: nat,
    more: nat,
    kind: KindView,
    location: ScriptLocation,
    ps: Seq<PatternView>,
    left: Seq<int>,
    scene: Scene,
    lines: LinesView,
    mem: Memory,
)
    requires
        fuel <= more,
        match_unordered(fuel, kind, location, ps, left, scene, lines, mem) is Some,
    ensures
        match_unordered(more, kind, location, ps, left, scene, lines, mem) == match_unordered(
            fuel,
            kind,
            location,
            ps,
            left,
            scene,
            lines,
            mem,
        ),
    decreases fuel,
{
    if left.len() > 0 {
        let f = (fuel - 1) as nat;
        let g = (more - 1) as nat;
        lemma_more_one_of(f, g, ps, left, 0, scene, lines, mem);
        if let Some((Some((k, behind)), after)) = match_one_of(f, ps, left, 0, scene, lines, mem) {
            lemma_more_unordered(
                f,
                g,
                kind,
                location,
                ps,
                left.remove(k),
                scene,
                behind,
                Memory { trace: drop_before_last(after.trace, k), ..after },
            );
        }
    }
}

pub(crate) proof fn lemma_more_one_of(
    fuel: nat,
    more: nat,
    ps: Seq<PatternView>,
    left: Seq<int>,
    k: int,
    scene: Scene,
    lines: LinesView,
    mem: Memory,
)
    requires
        fuel <= more,
        match_one_of(fuel, ps, left, k, scene, lines, mem) is Some,
    ensures
        match_one_of(more, ps, left, k, scene, lines, mem) == match_one_of(
            fuel,
            ps,
            left,
            k,
            scene,
            lines,
            mem,
        ),
    decreases fuel,
{
    if k < left.len() {
        let f = (fuel - 1) as nat;
        let g = (more - 1) as nat;
        law_match_is_independent_of_bound(f, g, ps[left[k]], scene, lines, mem);
        if let Some((Err(_), after)) = match_pattern(f, ps[left[k]], scene, lines, mem) {
            lemma_more_one_of(f, g, ps, left, k + 1, scene, lines, after);
        }
    }
}

} // verus!
