//! How many lines a pattern takes up.
use crate::output::matching::{
    drop_before_last, match_all, match_any_of, match_kind, match_more, match_one_of, match_pattern,
    match_unordered, match_until, next, raw_match, LinesView, Memory, Scene,
};
use crate::output::pattern::{is_leaf, KindView, PatternView};
use crate::script::{condition_met, ScriptLocation};
use vstd::prelude::*;

verus! {

/// The least number of lines that a kind of pattern matches.
pub open spec fn min_lines(kind: KindView) -> nat
    decreases kind,
{
    match kind {
        KindView::Literal(_) => 1,
        KindView::Pattern(_) => 1,
        KindView::Repeat(p) => min_lines(p.kind),
        KindView::Any(p) => min_lines(p.kind),
        KindView::Unordered(ps) => min_sum(ps),
        KindView::Sequence(ps) => min_sum(ps),
        KindView::Choice(ps) => min_least(ps),
        _ => 0,
    }
}

/// The least number of lines that all of the patterns match together.
pub open spec fn min_sum(ps: Seq<PatternView>) -> nat
    decreases ps,
{
    if ps.len() == 0 {
        0
    } else {
        min_sum(ps.drop_last()) + min_lines(ps.last().kind)
    }
}

/// The least number of lines that any of the patterns matches.
pub open spec fn min_least(ps: Seq<PatternView>) -> nat
    decreases ps,
{
    if ps.len() == 0 {
        0
    } else {
        let last = min_lines(ps.last().kind);
        if ps.len() == 1 || last <= min_least(ps.drop_last()) {
            last
        } else {
            min_least(ps.drop_last())
        }
    }
}

/// The variables that are set, and their values.
pub type Env = Map<Seq<char>, Seq<char>>;

/// The least number of lines that a kind of pattern matches where its
/// conditions are evaluated with the given variables.
pub open spec fn least_lines(kind: KindView, env: Env) -> nat
    decreases kind,
{
    match kind {
        KindView::Literal(_) => 1,
        KindView::Pattern(_) => 1,
        KindView::Repeat(p) => least_lines(p.kind, env),
        KindView::Any(p) => least_lines(p.kind, env),
        KindView::Unordered(ps) => least_sum(ps, env),
        KindView::Sequence(ps) => least_sum(ps, env),
        KindView::Choice(ps) => least_of(ps, env),
        KindView::If(c, p) => if condition_met(c, env) {
            least_lines(p.kind, env)
        } else {
            0
        },
        _ => 0,
    }
}

/// The least number of lines that all of the patterns match together where
/// their conditions are evaluated.
pub open spec fn least_sum(ps: Seq<PatternView>, env: Env) -> nat
    decreases ps,
{
    if ps.len() == 0 {
        0
    } else {
        least_sum(ps.drop_last(), env) + least_lines(ps.last().kind, env)
    }
}

/// The least number of lines that any of the patterns matches where their
/// conditions are evaluated.
pub open spec fn least_of(ps: Seq<PatternView>, env: Env) -> nat
    decreases ps,
{
    if ps.len() == 0 {
        0
    } else {
        let last = least_lines(ps.last().kind, env);
        if ps.len() == 1 || last <= least_of(ps.drop_last(), env) {
            last
        } else {
            least_of(ps.drop_last(), env)
        }
    }
}

/// Evaluating conditions does not make a pattern take up fewer lines.
proof fn lemma_min_lines_least(kind: KindView, env: Env)
    ensures
        min_lines(kind) <= least_lines(kind, env),
    decreases kind, 1int,
{
    match kind {
        KindView::Repeat(p) => {
            lemma_min_lines_least(p.kind, env);
        },
        KindView::Any(p) => {
            lemma_min_lines_least(p.kind, env);
        },
        KindView::Unordered(ps) => {
            lemma_min_lists_least(ps, env);
        },
        KindView::Sequence(ps) => {
            lemma_min_lists_least(ps, env);
        },
        KindView::Choice(ps) => {
            lemma_min_lists_least(ps, env);
        },
        _ => {},
    }
}

proof fn lemma_min_lists_least(ps: Seq<PatternView>, env: Env)
    ensures
        min_sum(ps) <= least_sum(ps, env),
        min_least(ps) <= least_of(ps, env),
    decreases ps, 0int,
{
    if ps.len() > 0 {
        lemma_min_lists_least(ps.drop_last(), env);
        lemma_min_lines_least(ps[ps.len() - 1].kind, env);
    }
}

/// Whether every part of a pattern that may be matched again and again takes
/// up a line each time, with the given variables: what is repeated, and what
/// is skipped.
pub open spec fn productive(p: PatternView, env: Env) -> bool
    decreases p,
{
    &&& kind_productive(p.kind, env)
    &&& forall|i: int|
        0 <= i < p.ignore.len() ==> productive(#[trigger] p.ignore[i], env) && least_lines(
            p.ignore[i].kind, env) >= 1
    &&& forall|i: int| 0 <= i < p.reject.len() ==> productive(#[trigger] p.reject[i], env)
}

/// Whether every part of a kind of pattern that may be matched again and
/// again takes up a line each time.
pub open spec fn kind_productive(kind: KindView, env: Env) -> bool
    decreases kind,
{
    match kind {
        KindView::Repeat(p) => productive(*p, env) && least_lines(p.kind, env) >= 1,
        KindView::Any(p) => productive(*p, env),
        KindView::Optional(p) => productive(*p, env),
        KindView::Not(p) => productive(*p, env),
        KindView::If(c, p) => condition_met(c, env) ==> productive(*p, env),
        KindView::Unordered(ps) => forall|i: int|
            0 <= i < ps.len() ==> productive(#[trigger] ps[i], env),
        KindView::Choice(ps) => forall|i: int| 0 <= i < ps.len() ==> productive(#[trigger] ps[i], env),
        KindView::Sequence(ps) => forall|i: int|
            0 <= i < ps.len() ==> productive(#[trigger] ps[i], env),
        _ => true,
    }
}

/// Whether all of the patterns are productive.
pub open spec fn all_productive(ps: Seq<PatternView>, env: Env) -> bool {
    forall|i: int| 0 <= i < ps.len() ==> productive(#[trigger] ps[i], env)
}

/// Whether what is skipped and rejected at a position is productive.
pub open spec fn lines_productive(lines: LinesView, env: Env) -> bool {
    &&& forall|i: int|
        0 <= i < lines.ignored.len() ==> productive(#[trigger] lines.ignored[i], env) && least_lines(
            lines.ignored[i].kind, env) >= 1
    &&& all_productive(lines.rejected, env)
}

/// A position at least `n` lines behind another in the same output.
pub open spec fn behind_by(lines: LinesView, behind: LinesView, n: nat) -> bool {
    &&& behind.lines == lines.lines
    &&& behind.disabled == lines.disabled
    &&& behind.current >= lines.current + n
    &&& lines.current <= lines.lines.len() ==> behind.current <= lines.lines.len()
}

/// The least number of lines that the patterns with the given indices match
/// together.
spec fn least_left(ps: Seq<PatternView>, left: Seq<int>, env: Env) -> nat
    decreases left.len(),
{
    if left.len() == 0 {
        0
    } else {
        least_left(ps, left.drop_last(), env) + least_lines(ps[left.last()].kind, env)
    }
}

proof fn lemma_least_left_remove(ps: Seq<PatternView>, left: Seq<int>, k: int, env: Env)
    requires
        0 <= k < left.len(),
    ensures
        least_left(ps, left, env) == least_left(ps, left.remove(k), env) + least_lines(ps[left[k]].kind, env),
    decreases left.len(),
{
    if k == left.len() - 1 {
        assert(left.remove(k) =~= left.drop_last());
    } else {
        lemma_least_left_remove(ps, left.drop_last(), k, env);
        assert(left.remove(k).drop_last() =~= left.drop_last().remove(k));
        assert(left.remove(k).last() == left.last());
        assert(left.drop_last()[k] == left[k]);
    }
}

proof fn lemma_least_left_all(ps: Seq<PatternView>, n: int, env: Env)
    requires
        0 <= n <= ps.len(),
    ensures
        least_left(ps, Seq::new(n as nat, |i: int| i), env) == least_sum(ps.take(n), env),
    decreases n,
{
    let left = Seq::new(n as nat, |i: int| i);
    if n > 0 {
        lemma_least_left_all(ps, n - 1, env);
        assert(left.drop_last() =~= Seq::new((n - 1) as nat, |i: int| i));
        assert(ps.take(n).drop_last() =~= ps.take(n - 1));
        assert(ps.take(n).last() == ps[n - 1]);
    }
}

proof fn lemma_least_sum_front(ps: Seq<PatternView>, env: Env)
    requires
        ps.len() > 0,
    ensures
        least_sum(ps, env) == least_lines(ps[0].kind, env) + least_sum(ps.skip(1), env),
    decreases ps.len(),
{
    if ps.len() == 1 {
        assert(ps.drop_last() =~= Seq::empty());
        assert(ps.skip(1) =~= Seq::empty());
        assert(least_sum(ps.drop_last(), env) == 0);
        assert(least_sum(ps.skip(1), env) == 0);
    } else {
        lemma_least_sum_front(ps.drop_last(), env);
        assert(ps.drop_last().skip(1) =~= ps.skip(1).drop_last());
        assert(ps.skip(1).last() == ps.last());
        assert(ps.drop_last()[0] == ps[0]);
    }
}

proof fn lemma_least_of(ps: Seq<PatternView>, i: int, env: Env)
    requires
        0 <= i < ps.len(),
    ensures
        least_of(ps, env) <= least_lines(ps[i].kind, env),
    decreases ps.len(),
{
    if i < ps.len() - 1 {
        lemma_least_of(ps.drop_last(), i, env);
        assert(ps.drop_last()[i] == ps[i]);
    }
}

/// What holds of the position behind a match.
pub(crate) open spec fn progress(
    lines: LinesView,
    behind: LinesView,
    n: nat,
    good: bool,
    env: Env,
) -> bool {
    &&& behind_by(lines, behind, n)
    &&& good && lines_productive(lines, env) ==> lines_productive(behind, env)
}

pub(crate) proof fn lemma_with_patterns(lines: LinesView, p: PatternView, env: Env)
    requires
        productive(p, env),
        lines_productive(lines, env),
    ensures
        lines_productive(lines.with_patterns(p.ignore, p.reject), env),
{
    let l = lines.with_patterns(p.ignore, p.reject);
    assert forall|i: int| 0 <= i < l.ignored.len() implies productive(#[trigger] l.ignored[i], env)
        && least_lines(l.ignored[i].kind, env) >= 1 by {
        if i < lines.ignored.len() {
            assert(l.ignored[i] == lines.ignored[i]);
        } else {
            assert(l.ignored[i] == p.ignore[i - lines.ignored.len()]);
        }
    }
    assert forall|i: int| 0 <= i < l.rejected.len() implies productive(#[trigger] l.rejected[i], env) by {
        if i < lines.rejected.len() {
            assert(l.rejected[i] == lines.rejected[i]);
        } else {
            assert(l.rejected[i] == p.reject[i - lines.rejected.len()]);
        }
    }
}

pub(crate) proof fn lemma_pattern_progress(
    fuel: nat,
    p: PatternView,
    scene: Scene,
    lines: LinesView,
    mem: Memory,
)
    ensures
        match_pattern(fuel, p, scene, lines, mem) matches Some((Ok(behind), _)) ==> progress(
            lines,
            behind,
            least_lines(p.kind, scene.env),
            productive(p, scene.env),
            scene.env,
        ),
    decreases fuel,
{
    if fuel > 0 {
        lemma_kind_progress(
            (fuel - 1) as nat,
            p.kind,
            p.location,
            scene,
            lines.with_patterns(p.ignore, p.reject),
            mem,
        );
        if productive(p, scene.env) && lines_productive(lines, scene.env) {
            lemma_with_patterns(lines, p, scene.env);
        }
    }
}

proof fn lemma_kind_progress(
    fuel: nat,
    kind: KindView,
    location: ScriptLocation,
    scene: Scene,
    lines: LinesView,
    mem: Memory,
)
    ensures
        match_kind(fuel, kind, location, scene, lines, mem) matches Some((Ok(behind), _))
            ==> progress(
            lines,
            behind,
            least_lines(kind, scene.env),
            kind_productive(kind, scene.env),
            scene.env,
        ),
    decreases fuel,
{
    if fuel > 0 {
        let inner = if is_leaf(kind) {
            mem
        } else {
            Memory { expects: mem.expects, trace: Seq::empty() }
        };
        lemma_raw_progress((fuel - 1) as nat, kind, location, scene, lines, inner);
    }
}

proof fn lemma_raw_progress(
    fuel: nat,
    kind: KindView,
    location: ScriptLocation,
    scene: Scene,
    lines: LinesView,
    mem: Memory,
)
    ensures
        raw_match(fuel, kind, location, scene, lines, mem) matches Some((Ok(ok), _)) ==> progress(
            lines,
            ok.lines,
            least_lines(kind, scene.env),
            kind_productive(kind, scene.env),
            scene.env,
        ),
    decreases fuel,
{
    if fuel > 0 {
        let f = (fuel - 1) as nat;
        match kind {
            KindView::Nothing => {},
            KindView::Literal(_) => {
                lemma_next_progress(f, scene, lines, mem);
            },
            KindView::Pattern(_) => {
                lemma_next_progress(f, scene, lines, mem);
            },
            KindView::End => {
                lemma_next_progress(f, scene, lines, mem);
            },
            KindView::Sequence(ps) => {
                lemma_all_progress(f, ps, scene, lines, mem);
            },
            KindView::Repeat(p) => {
                lemma_pattern_progress(f, *p, scene, lines, mem);
                if let Some((Ok(behind), after)) = match_pattern(f, *p, scene, lines, mem) {
                    lemma_more_progress(f, *p, scene, behind, after);
                }
            },
            KindView::Optional(p) => {
                lemma_pattern_progress(f, *p, scene, lines, mem);
            },
            KindView::Not(_) => {},
            KindView::Unordered(ps) => {
                let left = Seq::new(ps.len(), |i: int| i);
                lemma_unordered_progress(f, kind, location, ps, left, scene, lines, mem);
                lemma_least_left_all(ps, ps.len() as int, scene.env);
                assert(ps.take(ps.len() as int) =~= ps);
            },
            KindView::Choice(ps) => {
                assert forall|i: int| 0 <= i < ps.len() implies least_lines(
                    (#[trigger] ps[i]).kind, scene.env) >= least_of(ps, scene.env) by {
                    lemma_least_of(ps, i, scene.env);
                }
                lemma_any_of_progress(f, ps, scene, lines, mem, least_of(ps, scene.env));
            },
            KindView::Any(p) => {
                lemma_until_progress(f, *p, scene, lines, mem);
            },
            KindView::If(c, p) => {
                if condition_met(c, scene.env) {
                    lemma_pattern_progress(f, *p, scene, lines, mem);
                }
            },
        }
    }
}

pub(crate) proof fn lemma_next_progress(fuel: nat, scene: Scene, lines: LinesView, mem: Memory)
    ensures
        next(fuel, scene, lines, mem) matches Some((Ok((line, behind)), _)) ==> progress(
            lines,
            behind,
            if line is Some {
                1
            } else {
                0
            },
            true,
            scene.env,
        ),
    decreases fuel,
{
    if fuel > 0 && lines.next_line() is Some && !lines.disabled {
        let f = (fuel - 1) as nat;
        let check = lines.without_negatives();
        let quiet = scene.as_ignoring();
        lemma_any_of_progress(f, lines.ignored, quiet, check, mem, 0);
        if let Some((Some(behind), after)) = match_any_of(f, lines.ignored, quiet, check, mem) {
            lemma_next_progress(f, scene, behind.with_negatives(), after);
        }
    }
}

pub(crate) proof fn lemma_any_of_progress(
    fuel: nat,
    ps: Seq<PatternView>,
    scene: Scene,
    lines: LinesView,
    mem: Memory,
    n: nat,
)
    requires
        forall|i: int| 0 <= i < ps.len() ==> least_lines((#[trigger] ps[i]).kind, scene.env) >= n,
    ensures
        match_any_of(fuel, ps, scene, lines, mem) matches Some((Some(behind), _)) ==> progress(
            lines,
            behind,
            n,
            all_productive(ps, scene.env),
            scene.env,
        ),
    decreases fuel,
{
    if fuel > 0 && ps.len() > 0 {
        let f = (fuel - 1) as nat;
        lemma_pattern_progress(f, ps[0], scene, lines, mem);
        if let Some((Err(_), after)) = match_pattern(f, ps[0], scene, lines, mem) {
            let rest = ps.skip(1);
            assert(forall|i: int| 0 <= i < rest.len() ==> #[trigger] rest[i] == ps[i + 1]);
            lemma_any_of_progress(f, rest, scene, lines, after, n);
        }
    }
}

proof fn lemma_all_progress(
    fuel: nat,
    ps: Seq<PatternView>,
    scene: Scene,
    lines: LinesView,
    mem: Memory,
)
    ensures
        match_all(fuel, ps, scene, lines, mem) matches Some((Ok(behind), _)) ==> progress(
            lines,
            behind,
            least_sum(ps, scene.env),
            all_productive(ps, scene.env),
            scene.env,
        ),
    decreases fuel,
{
    if fuel > 0 && ps.len() > 0 {
        let f = (fuel - 1) as nat;
        lemma_pattern_progress(f, ps[0], scene, lines, mem);
        lemma_least_sum_front(ps, scene.env);
        if let Some((Ok(behind), after)) = match_pattern(f, ps[0], scene, lines, mem) {
            let rest = ps.skip(1);
            lemma_all_progress(f, rest, scene, behind, after);
            assert(forall|i: int| 0 <= i < rest.len() ==> #[trigger] rest[i] == ps[i + 1]);
        }
    }
}

proof fn lemma_more_progress(
    fuel: nat,
    p: PatternView,
    scene: Scene,
    lines: LinesView,
    mem: Memory,
)
    ensures
        match_more(fuel, p, scene, lines, mem) matches Some((behind, _)) ==> progress(
            lines,
            behind,
            0,
            productive(p, scene.env),
            scene.env,
        ),
    decreases fuel,
{
    if fuel > 0 {
        let f = (fuel - 1) as nat;
        lemma_pattern_progress(f, p, scene, lines, mem);
        if let Some((Ok(behind), after)) = match_pattern(f, p, scene, lines, mem) {
            lemma_more_progress(f, p, scene, behind, after);
        }
    }
}

proof fn lemma_until_progress(
    fuel: nat,
    p: PatternView,
    scene: Scene,
    lines: LinesView,
    mem: Memory,
)
    ensures
        match_until(fuel, p, scene, lines, mem) matches Some((Ok(behind), _)) ==> progress(
            lines,
            behind,
            least_lines(p.kind, scene.env),
            productive(p, scene.env),
            scene.env,
        ),
    decreases fuel,
{
    if fuel > 0 {
        let f = (fuel - 1) as nat;
        lemma_pattern_progress(f, p, scene, lines, mem);
        if let Some((Err(_), after)) = match_pattern(f, p, scene, lines, mem) {
            lemma_next_progress(f, scene, lines, after);
            if let Some((Ok((Some(_), behind)), done)) = next(f, scene, lines, after) {
                lemma_until_progress(f, p, scene, behind, done);
            }
        }
    }
}

proof fn lemma_unordered_progress(
    fuel: nat,
    kind: KindView,
    location: ScriptLocation,
    ps: Seq<PatternView>,
    left: Seq<int>,
    scene: Scene,
    lines: LinesView,
    mem: Memory,
)
    requires
        forall|i: int| 0 <= i < left.len() ==> 0 <= #[trigger] left[i] < ps.len(),
    ensures
        match_unordered(fuel, kind, location, ps, left, scene, lines, mem) matches Some(
            (Ok(behind), _),
        ) ==> progress(lines, behind, least_left(ps, left, scene.env), all_productive(ps, scene.env),
        scene.env,
    ),
    decreases fuel,
{
    if fuel > 0 && left.len() > 0 {
        let f = (fuel - 1) as nat;
        lemma_one_of_progress(f, ps, left, 0, scene, lines, mem);
        if let Some((Some((k, behind)), after)) = match_one_of(f, ps, left, 0, scene, lines, mem) {
            lemma_least_left_remove(ps, left, k, scene.env);
            assert forall|i: int| 0 <= i < left.remove(k).len() implies 0 <= #[trigger] left.remove(
                k,
            )[i] < ps.len() by {
                if i < k {
                    assert(left.remove(k)[i] == left[i]);
                } else {
                    assert(left.remove(k)[i] == left[i + 1]);
                }
            }
            lemma_unordered_progress(
                f,
                kind,
                location,
                ps,
                left.remove(k),
                scene,
                behind,
                Memory { trace: drop_before_last(after.trace, k), ..after },
            );
        }
    }
}

pub(crate) proof fn lemma_one_of_progress(
    fuel: nat,
    ps: Seq<PatternView>,
    left: Seq<int>,
    k: int,
    scene: Scene,
    lines: LinesView,
    mem: Memory,
)
    requires
        0 <= k,
        forall|i: int| 0 <= i < left.len() ==> 0 <= #[trigger] left[i] < ps.len(),
    ensures
        match_one_of(fuel, ps, left, k, scene, lines, mem) matches Some((Some((j, behind)), _)) ==> k
            <= j < left.len() && progress(
            lines,
            behind,
            least_lines(ps[left[j]].kind, scene.env),
            all_productive(ps, scene.env),
            scene.env,
        ),
    decreases fuel,
{
    if fuel > 0 && k < left.len() {
        let f = (fuel - 1) as nat;
        lemma_pattern_progress(f, ps[left[k]], scene, lines, mem);
        if let Some((Err(_), after)) = match_pattern(f, ps[left[k]], scene, lines, mem) {
            lemma_one_of_progress(f, ps, left, k + 1, scene, lines, after);
        }
    }
}

/// A pattern that matches takes up at least as many lines as the least number
/// that it is said to match, and none beyond the end of the output.
pub proof fn law_match_takes_min_lines(
    fuel: nat,
    p: PatternView,
    scene: Scene,
    lines: LinesView,
    mem: Memory,
)
    ensures
        match_pattern(fuel, p, scene, lines, mem) matches Some((Ok(behind), _)) ==> behind_by(
            lines,
            behind,
            min_lines(p.kind),
        ),
{
    lemma_pattern_progress(fuel, p, scene, lines, mem);
    lemma_min_lines_least(p.kind, scene.env);
}

} // verus!
