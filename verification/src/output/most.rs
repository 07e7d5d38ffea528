//! How many lines a pattern takes up at most.
use crate::output::matching::{
    drop_before_last, match_all, match_any_of, match_kind, match_more, match_one_of, match_pattern,
    match_unordered, match_until, next, raw_match, LinesView, Memory, Scene,
};
use crate::output::pattern::{
    is_leaf, lemma_kind_lists, patterns_model, KindView, OutputPattern, OutputPatternType,
    PatternView,
};
use crate::script::{condition_met, ScriptLocation};
use vstd::prelude::*;

verus! {

/// The number, or the largest that can be counted.
pub open spec fn capped(n: nat) -> nat {
    if n < usize::MAX {
        n
    } else {
        usize::MAX as nat
    }
}

/// The largest number of lines that a kind of pattern matches, where
/// `usize::MAX` stands for a number without a bound.
pub open spec fn max_lines(kind: KindView) -> nat
    decreases kind,
{
    match kind {
        KindView::Literal(_) => 1,
        KindView::Pattern(_) => 1,
        KindView::Repeat(p) => if max_lines(p.kind) == 0 {
            0
        } else {
            usize::MAX as nat
        },
        KindView::Optional(p) => max_lines(p.kind),
        KindView::If(_, p) => max_lines(p.kind),
        KindView::Unordered(ps) => capped(max_sum(ps)),
        KindView::Sequence(ps) => capped(max_sum(ps)),
        KindView::Choice(ps) => max_most(ps),
        KindView::Any(_) => usize::MAX as nat,
        _ => 0,
    }
}

/// The largest number of lines that all of the patterns match together.
pub open spec fn max_sum(ps: Seq<PatternView>) -> nat
    decreases ps,
{
    if ps.len() == 0 {
        0
    } else {
        max_sum(ps.drop_last()) + max_lines(ps.last().kind)
    }
}

/// The largest number of lines that any of the patterns matches.
pub open spec fn max_most(ps: Seq<PatternView>) -> nat
    decreases ps,
{
    if ps.len() == 0 {
        0
    } else {
        let last = max_lines(ps.last().kind);
        if last >= max_most(ps.drop_last()) {
            last
        } else {
            max_most(ps.drop_last())
        }
    }
}

fn sum_of_max(patterns: &Vec<OutputPattern>) -> (r: usize)
    ensures
        r == capped(max_sum(patterns_model(patterns@))),
    decreases patterns, 0int,
{
    let ghost ps = patterns_model(patterns@);
    let mut sum: usize = 0;
    let mut i: usize = 0;
    proof {
        assert(ps.take(0) =~= Seq::empty());
    }
    while i < patterns.len()
        invariant
            i <= patterns@.len(),
            ps == patterns_model(patterns@),
            sum == capped(max_sum(ps.take(i as int))),
        decreases patterns@.len() - i,
    {
        proof {
            assert(ps.take(i + 1).drop_last() =~= ps.take(i as int));
        }
        let most: usize = patterns[i].max_matches();
        sum = sum.saturating_add(most);
        i += 1;
    }
    proof {
        assert(ps.take(i as int) =~= ps);
    }
    sum
}

fn most_of_max(patterns: &Vec<OutputPattern>) -> (r: usize)
    ensures
        r == max_most(patterns_model(patterns@)),
    decreases patterns, 0int,
{
    let ghost ps = patterns_model(patterns@);
    let mut most: usize = 0;
    let mut i: usize = 0;
    proof {
        assert(ps.take(0) =~= Seq::empty());
    }
    while i < patterns.len()
        invariant
            i <= patterns@.len(),
            ps == patterns_model(patterns@),
            most == max_most(ps.take(i as int)),
        decreases patterns@.len() - i,
    {
        proof {
            assert(ps.take(i + 1).drop_last() =~= ps.take(i as int));
        }
        let this: usize = patterns[i].max_matches();
        if this >= most {
            most = this;
        }
        i += 1;
    }
    proof {
        assert(ps.take(i as int) =~= ps);
    }
    most
}

impl OutputPattern {
    /// The maximum number of lines this pattern will match (or usize::MAX if unbounded).
    pub fn max_matches(&self) -> (r: usize)
        ensures
            r == max_lines(self.model().kind),
        decreases self, 1int,
    {
        self.pattern.max_matches()
    }
}

impl OutputPatternType {
    /// The maximum number of lines this pattern will match (or usize::MAX if unbounded).
    pub fn max_matches(&self) -> (r: usize)
        ensures
            r == max_lines(self.model()),
        decreases self, 1int,
    {
        proof {
            lemma_kind_lists(*self);
        }
        match self {
            OutputPatternType::Nothing => 0,
            OutputPatternType::Literal(_) => 1,
            OutputPatternType::Pattern(_) => 1,
            OutputPatternType::Repeat(pattern) => {
                if pattern.max_matches() == 0 {
                    0
                } else {
                    usize::MAX
                }
            },
            OutputPatternType::Optional(pattern) => pattern.max_matches(),
            OutputPatternType::Unordered(patterns) => sum_of_max(patterns),
            OutputPatternType::Choice(patterns) => most_of_max(patterns),
            OutputPatternType::Sequence(patterns) => sum_of_max(patterns),
            OutputPatternType::Not(_) => 0,
            OutputPatternType::Any(_) => usize::MAX,
            OutputPatternType::If(_, pattern) => pattern.max_matches(),
            OutputPatternType::End => 0,
        }
    }
}

/// Whether nothing is skipped while a pattern is matched.
pub open spec fn skips_nothing(p: PatternView) -> bool
    decreases p,
{
    p.ignore.len() == 0 && kind_skips_nothing(p.kind)
}

/// Whether nothing is skipped while a kind of pattern is matched.
pub open spec fn kind_skips_nothing(kind: KindView) -> bool
    decreases kind,
{
    match kind {
        KindView::Repeat(p) => skips_nothing(*p),
        KindView::Any(p) => skips_nothing(*p),
        KindView::Optional(p) => skips_nothing(*p),
        KindView::Not(p) => skips_nothing(*p),
        KindView::If(_, p) => skips_nothing(*p),
        KindView::Unordered(ps) => forall|i: int|
            0 <= i < ps.len() ==> skips_nothing(#[trigger] ps[i]),
        KindView::Choice(ps) => forall|i: int|
            0 <= i < ps.len() ==> skips_nothing(#[trigger] ps[i]),
        KindView::Sequence(ps) => forall|i: int|
            0 <= i < ps.len() ==> skips_nothing(#[trigger] ps[i]),
        _ => true,
    }
}

spec fn all_skip_nothing(ps: Seq<PatternView>) -> bool {
    forall|i: int| 0 <= i < ps.len() ==> skips_nothing(#[trigger] ps[i])
}

/// Whether nothing is skipped at a position.
pub open spec fn nothing_skipped(lines: LinesView) -> bool {
    lines.disabled || lines.ignored.len() == 0
}

/// A position at most `n` lines behind another, if `n` is a bound.
spec fn at_most(lines: LinesView, behind: LinesView, n: nat) -> bool {
    &&& n < usize::MAX ==> behind.current <= lines.current + n
    &&& behind.disabled == lines.disabled
    &&& nothing_skipped(behind)
}

spec fn max_left(ps: Seq<PatternView>, left: Seq<int>) -> nat
    decreases left.len(),
{
    if left.len() == 0 {
        0
    } else {
        max_left(ps, left.drop_last()) + max_lines(ps[left.last()].kind)
    }
}

proof fn lemma_max_left_remove(ps: Seq<PatternView>, left: Seq<int>, k: int)
    requires
        0 <= k < left.len(),
    ensures
        max_left(ps, left) == max_left(ps, left.remove(k)) + max_lines(ps[left[k]].kind),
    decreases left.len(),
{
    if k == left.len() - 1 {
        assert(left.remove(k) =~= left.drop_last());
    } else {
        lemma_max_left_remove(ps, left.drop_last(), k);
        assert(left.remove(k).drop_last() =~= left.drop_last().remove(k));
        assert(left.remove(k).last() == left.last());
        assert(left.drop_last()[k] == left[k]);
    }
}

proof fn lemma_max_left_all(ps: Seq<PatternView>, n: int)
    requires
        0 <= n <= ps.len(),
    ensures
        max_left(ps, Seq::new(n as nat, |i: int| i)) == max_sum(ps.take(n)),
    decreases n,
{
    let left = Seq::new(n as nat, |i: int| i);
    if n > 0 {
        lemma_max_left_all(ps, n - 1);
        assert(left.drop_last() =~= Seq::new((n - 1) as nat, |i: int| i));
        assert(ps.take(n).drop_last() =~= ps.take(n - 1));
        assert(ps.take(n).last() == ps[n - 1]);
    }
}

proof fn lemma_max_sum_front(ps: Seq<PatternView>)
    requires
        ps.len() > 0,
    ensures
        max_sum(ps) == max_lines(ps[0].kind) + max_sum(ps.skip(1)),
    decreases ps.len(),
{
    if ps.len() == 1 {
        assert(ps.drop_last() =~= Seq::empty());
        assert(ps.skip(1) =~= Seq::empty());
        assert(max_sum(ps.drop_last()) == 0);
        assert(max_sum(ps.skip(1)) == 0);
    } else {
        lemma_max_sum_front(ps.drop_last());
        assert(ps.drop_last().skip(1) =~= ps.skip(1).drop_last());
        assert(ps.skip(1).last() == ps.last());
        assert(ps.drop_last()[0] == ps[0]);
    }
}

proof fn lemma_max_most(ps: Seq<PatternView>, i: int)
    requires
        0 <= i < ps.len(),
    ensures
        max_lines(ps[i].kind) <= max_most(ps),
    decreases ps.len(),
{
    if i < ps.len() - 1 {
        lemma_max_most(ps.drop_last(), i);
        assert(ps.drop_last()[i] == ps[i]);
    }
}

/// A pattern that matches, with nothing skipped on the way, takes up at most
/// as many lines as the largest number that it is said to match.
pub proof fn law_match_takes_max_lines(
    fuel: nat,
    p: PatternView,
    scene: Scene,
    lines: LinesView,
    mem: Memory,
)
    requires
        nothing_skipped(lines),
        lines.disabled || skips_nothing(p),
    ensures
        match_pattern(fuel, p, scene, lines, mem) matches Some((Ok(behind), _)) ==> (max_lines(
            p.kind,
        ) < usize::MAX ==> behind.current <= lines.current + max_lines(p.kind)),
{
    lemma_pattern_most(fuel, p, scene, lines, mem);
}

proof fn lemma_pattern_most(
    fuel: nat,
    p: PatternView,
    scene: Scene,
    lines: LinesView,
    mem: Memory,
)
    requires
        nothing_skipped(lines),
        lines.disabled || skips_nothing(p),
    ensures
        match_pattern(fuel, p, scene, lines, mem) matches Some((Ok(behind), _)) ==> at_most(
            lines,
            behind,
            max_lines(p.kind),
        ),
    decreases fuel,
{
    if fuel > 0 {
        let with = lines.with_patterns(p.ignore, p.reject);
        lemma_kind_most((fuel - 1) as nat, p.kind, p.location, scene, with, mem);
    }
}

proof fn lemma_kind_most(
    fuel: nat,
    kind: KindView,
    location: ScriptLocation,
    scene: Scene,
    lines: LinesView,
    mem: Memory,
)
    requires
        nothing_skipped(lines),
        lines.disabled || kind_skips_nothing(kind),
    ensures
        match_kind(fuel, kind, location, scene, lines, mem) matches Some((Ok(behind), _)) ==> at_most(
            lines,
            behind,
            max_lines(kind),
        ),
    decreases fuel,
{
    if fuel > 0 {
        let inner = if is_leaf(kind) {
            mem
        } else {
            Memory { expects: mem.expects, trace: Seq::empty() }
        };
        lemma_raw_most((fuel - 1) as nat, kind, location, scene, lines, inner);
    }
}

proof fn lemma_raw_most(
    fuel: nat,
    kind: KindView,
    location: ScriptLocation,
    scene: Scene,
    lines: LinesView,
    mem: Memory,
)
    requires
        nothing_skipped(lines),
        lines.disabled || kind_skips_nothing(kind),
    ensures
        raw_match(fuel, kind, location, scene, lines, mem) matches Some((Ok(ok), _)) ==> at_most(
            lines,
            ok.lines,
            max_lines(kind),
        ),
    decreases fuel,
{
    if fuel > 0 {
        let f = (fuel - 1) as nat;
        match kind {
            KindView::Nothing => {},
            KindView::Literal(_) => {
                lemma_next_most(f, scene, lines, mem);
            },
            KindView::Pattern(_) => {
                lemma_next_most(f, scene, lines, mem);
            },
            KindView::End => {
                lemma_next_most(f, scene, lines, mem);
            },
            KindView::Sequence(ps) => {
                assert(lines.disabled || all_skip_nothing(ps));
                lemma_all_most(f, ps, scene, lines, mem);
            },
            KindView::Repeat(p) => {
                lemma_pattern_most(f, *p, scene, lines, mem);
                if let Some((Ok(behind), after)) = match_pattern(f, *p, scene, lines, mem) {
                    lemma_more_most(f, *p, scene, behind, after);
                }
            },
            KindView::Optional(p) => {
                lemma_pattern_most(f, *p, scene, lines, mem);
            },
            KindView::Not(_) => {},
            KindView::Unordered(ps) => {
                assert(lines.disabled || all_skip_nothing(ps));
                let left = Seq::new(ps.len(), |i: int| i);
                lemma_unordered_most(f, kind, location, ps, left, scene, lines, mem);
                lemma_max_left_all(ps, ps.len() as int);
                assert(ps.take(ps.len() as int) =~= ps);
            },
            KindView::Choice(ps) => {
                assert(lines.disabled || all_skip_nothing(ps));
                assert forall|i: int| 0 <= i < ps.len() implies max_lines(
                    (#[trigger] ps[i]).kind,
                ) <= max_most(ps) by {
                    lemma_max_most(ps, i);
                }
                lemma_any_of_most(f, ps, scene, lines, mem, max_most(ps));
            },
            KindView::Any(p) => {
                lemma_until_most(f, *p, scene, lines, mem);
            },
            KindView::If(c, p) => {
                if condition_met(c, scene.env) {
                    lemma_pattern_most(f, *p, scene, lines, mem);
                }
            },
        }
    }
}

proof fn lemma_next_most(fuel: nat, scene: Scene, lines: LinesView, mem: Memory)
    requires
        nothing_skipped(lines),
    ensures
        next(fuel, scene, lines, mem) matches Some((Ok((line, behind)), _)) ==> at_most(
            lines,
            behind,
            if line is Some {
                1
            } else {
                0
            },
        ),
{
    if fuel > 0 && !lines.disabled {
        let f = (fuel - 1) as nat;
        assert(match_any_of(
            f,
            lines.ignored,
            scene.as_ignoring(),
            lines.without_negatives(),
            mem,
        ) matches Some((found, _)) ==> found is None);
    }
}

proof fn lemma_any_of_most(
    fuel: nat,
    ps: Seq<PatternView>,
    scene: Scene,
    lines: LinesView,
    mem: Memory,
    n: nat,
)
    requires
        nothing_skipped(lines),
        lines.disabled || all_skip_nothing(ps),
        forall|i: int| 0 <= i < ps.len() ==> max_lines((#[trigger] ps[i]).kind) <= n,
    ensures
        match_any_of(fuel, ps, scene, lines, mem) matches Some((Some(behind), _)) ==> at_most(
            lines,
            behind,
            n,
        ),
    decreases fuel,
{
    if fuel > 0 && ps.len() > 0 {
        let f = (fuel - 1) as nat;
        lemma_pattern_most(f, ps[0], scene, lines, mem);
        if let Some((Err(_), after)) = match_pattern(f, ps[0], scene, lines, mem) {
            let rest = ps.skip(1);
            assert(forall|i: int| 0 <= i < rest.len() ==> #[trigger] rest[i] == ps[i + 1]);
            lemma_any_of_most(f, rest, scene, lines, after, n);
        }
    }
}

proof fn lemma_all_most(
    fuel: nat,
    ps: Seq<PatternView>,
    scene: Scene,
    lines: LinesView,
    mem: Memory,
)
    requires
        nothing_skipped(lines),
        lines.disabled || all_skip_nothing(ps),
    ensures
        match_all(fuel, ps, scene, lines, mem) matches Some((Ok(behind), _)) ==> at_most(
            lines,
            behind,
            max_sum(ps),
        ),
    decreases fuel,
{
    if fuel > 0 && ps.len() > 0 {
        let f = (fuel - 1) as nat;
        lemma_pattern_most(f, ps[0], scene, lines, mem);
        lemma_max_sum_front(ps);
        if let Some((Ok(behind), after)) = match_pattern(f, ps[0], scene, lines, mem) {
            let rest = ps.skip(1);
            assert(forall|i: int| 0 <= i < rest.len() ==> #[trigger] rest[i] == ps[i + 1]);
            lemma_all_most(f, rest, scene, behind, after);
        }
    }
}

proof fn lemma_more_most(
    fuel: nat,
    p: PatternView,
    scene: Scene,
    lines: LinesView,
    mem: Memory,
)
    requires
        nothing_skipped(lines),
        lines.disabled || skips_nothing(p),
    ensures
        match_more(fuel, p, scene, lines, mem) matches Some((behind, _)) ==> at_most(
            lines,
            behind,
            if max_lines(p.kind) == 0 {
                0
            } else {
                usize::MAX as nat
            },
        ),
    decreases fuel,
{
    if fuel > 0 {
        let f = (fuel - 1) as nat;
        lemma_pattern_most(f, p, scene, lines, mem);
        if let Some((Ok(behind), after)) = match_pattern(f, p, scene, lines, mem) {
            lemma_more_most(f, p, scene, behind, after);
        }
    }
}

proof fn lemma_until_most(
    fuel: nat,
    p: PatternView,
    scene: Scene,
    lines: LinesView,
    mem: Memory,
)
    requires
        nothing_skipped(lines),
        lines.disabled || skips_nothing(p),
    ensures
        match_until(fuel, p, scene, lines, mem) matches Some((Ok(behind), _)) ==> at_most(
            lines,
            behind,
            usize::MAX as nat,
        ),
    decreases fuel,
{
    if fuel > 0 {
        let f = (fuel - 1) as nat;
        lemma_pattern_most(f, p, scene, lines, mem);
        if let Some((Err(_), after)) = match_pattern(f, p, scene, lines, mem) {
            lemma_next_most(f, scene, lines, after);
            if let Some((Ok((Some(_), behind)), done)) = next(f, scene, lines, after) {
                lemma_until_most(f, p, scene, behind, done);
            }
        }
    }
}

proof fn lemma_unordered_most(
    fuel: nat,
    kind: KindView,
    location: ScriptLocation,
    ps: Seq<PatternView>,
    left: Seq<int>,
    scene: Scene,
    lines: LinesView,
    mem: Memory,
)
    requires
        nothing_skipped(lines),
        lines.disabled || all_skip_nothing(ps),
        forall|i: int| 0 <= i < left.len() ==> 0 <= #[trigger] left[i] < ps.len(),
    ensures
        match_unordered(fuel, kind, location, ps, left, scene, lines, mem) matches Some(
            (Ok(behind), _),
        ) ==> at_most(lines, behind, max_left(ps, left)),
    decreases fuel,
{
    if fuel > 0 && left.len() > 0 {
        let f = (fuel - 1) as nat;
        lemma_one_of_most(f, ps, left, 0, scene, lines, mem);
        if let Some((Some((k, behind)), after)) = match_one_of(f, ps, left, 0, scene, lines, mem) {
            lemma_max_left_remove(ps, left, k);
            assert forall|i: int| 0 <= i < left.remove(k).len() implies 0 <= #[trigger] left.remove(
                k,
            )[i] < ps.len() by {
                if i < k {
                    assert(left.remove(k)[i] == left[i]);
                } else {
                    assert(left.remove(k)[i] == left[i + 1]);
                }
            }
            lemma_unordered_most(
                f,
                kind,
                location,
                ps,
                left.remove(k),
                scene,
                behind,
                Memory { trace: drop_before_last(after.trace, k), ..after },
            );
        }
    }
}

proof fn lemma_one_of_most(
    fuel: nat,
    ps: Seq<PatternView>,
    left: Seq<int>,
    k: int,
    scene: Scene,
    lines: LinesView,
    mem: Memory,
)
    requires
        nothing_skipped(lines),
        lines.disabled || all_skip_nothing(ps),
        0 <= k,
        forall|i: int| 0 <= i < left.len() ==> 0 <= #[trigger] left[i] < ps.len(),
    ensures
        match_one_of(fuel, ps, left, k, scene, lines, mem) matches Some((Some((j, behind)), _)) ==> k
            <= j < left.len() && at_most(lines, behind, max_lines(ps[left[j]].kind)),
    decreases fuel,
{
    if fuel > 0 && k < left.len() {
        let f = (fuel - 1) as nat;
        lemma_pattern_most(f, ps[left[k]], scene, lines, mem);
        if let Some((Err(_), after)) = match_pattern(f, ps[left[k]], scene, lines, mem) {
            lemma_one_of_most(f, ps, left, k + 1, scene, lines, after);
        }
    }
}

} // verus!
