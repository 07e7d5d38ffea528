//! How many lines a pattern takes up, and whether it can be matched.
use crate::output::bounds::{
    all_productive, kind_productive, least_lines, least_of, least_sum, min_least, min_lines,
    min_sum, productive, Env,
};
use crate::output::pattern::{
    all_prepared, kind_prepared, lemma_kind_lists, lemma_patterns_list, patterns_model, prepared,
    KindView, OutputPattern, OutputPatternType, PatternView,
};
use crate::script::ScriptRunContext;
use vstd::prelude::*;

verus! {

/// Whether the least number of lines, of the pattern and of the parts that it
/// is made up from, can be counted.
pub open spec fn min_fits(kind: KindView) -> bool
    decreases kind,
{
    match kind {
        KindView::Repeat(p) => min_fits(p.kind),
        KindView::Any(p) => min_fits(p.kind),
        KindView::Unordered(ps) => min_sum(ps) <= usize::MAX && forall|i: int|
            0 <= i < ps.len() ==> min_fits((#[trigger] ps[i]).kind),
        KindView::Sequence(ps) => min_sum(ps) <= usize::MAX && forall|i: int|
            0 <= i < ps.len() ==> min_fits((#[trigger] ps[i]).kind),
        KindView::Choice(ps) => forall|i: int|
            0 <= i < ps.len() ==> min_fits((#[trigger] ps[i]).kind),
        _ => true,
    }
}

proof fn lemma_min_sum_take(ps: Seq<PatternView>, i: int)
    requires
        0 <= i < ps.len(),
    ensures
        min_sum(ps.take(i + 1)) == min_sum(ps.take(i)) + min_lines(ps[i].kind),
{
    assert(ps.take(i + 1).drop_last() =~= ps.take(i));
}

proof fn lemma_min_sum_monotone(ps: Seq<PatternView>, i: int)
    requires
        0 <= i <= ps.len(),
    ensures
        min_sum(ps.take(i)) <= min_sum(ps),
    decreases ps.len() - i,
{
    if i < ps.len() {
        lemma_min_sum_take(ps, i);
        lemma_min_sum_monotone(ps, i + 1);
    } else {
        assert(ps.take(i) =~= ps);
    }
}

fn sum_of_min(patterns: &Vec<OutputPattern>) -> (r: usize)
    requires
        min_sum(patterns_model(patterns@)) <= usize::MAX,
        forall|i: int|
            0 <= i < patterns@.len() ==> min_fits(
                (#[trigger] patterns_model(patterns@)[i]).kind,
            ),
    ensures
        r == min_sum(patterns_model(patterns@)),
    decreases patterns, 0int,
{
    let ghost ps = patterns_model(patterns@);
    let mut sum: usize = 0;
    let mut i: usize = 0;
    proof {
        assert(ps.take(0) =~= Seq::empty());
    }
    while i < patterns.len()
        invariant
            i <= patterns@.len(),
            ps == patterns_model(patterns@),
            min_sum(ps) <= usize::MAX,
            forall|j: int| 0 <= j < patterns@.len() ==> min_fits((#[trigger] ps[j]).kind),
            sum == min_sum(ps.take(i as int)),
        decreases patterns@.len() - i,
    {
        proof {
            assert(min_fits(ps[i as int].kind));
            lemma_min_sum_take(ps, i as int);
            lemma_min_sum_monotone(ps, i + 1);
        }
        let least: usize = patterns[i].min_matches();
        sum = sum + least;
        i += 1;
    }
    proof {
        assert(ps.take(i as int) =~= ps);
    }
    sum
}

fn least_of_min(patterns: &Vec<OutputPattern>) -> (r: usize)
    requires
        forall|i: int|
            0 <= i < patterns@.len() ==> min_fits(
                (#[trigger] patterns_model(patterns@)[i]).kind,
            ),
    ensures
        r == min_least(patterns_model(patterns@)),
    decreases patterns, 0int,
{
    let ghost ps = patterns_model(patterns@);
    let mut least: usize = 0;
    let mut i: usize = 0;
    proof {
        assert(ps.take(0) =~= Seq::empty());
    }
    while i < patterns.len()
        invariant
            i <= patterns@.len(),
            ps == patterns_model(patterns@),
            forall|j: int| 0 <= j < patterns@.len() ==> min_fits((#[trigger] ps[j]).kind),
            least == min_least(ps.take(i as int)),
        decreases patterns@.len() - i,
    {
        proof {
            assert(min_fits(ps[i as int].kind));
            assert(ps.take(i + 1).drop_last() =~= ps.take(i as int));
        }
        let this: usize = patterns[i].min_matches();
        if i == 0 || this <= least {
            least = this;
        }
        i += 1;
    }
    proof {
        assert(ps.take(i as int) =~= ps);
    }
    least
}

impl OutputPattern {
    /// The minimum number of lines this pattern will match.
    pub fn min_matches(&self) -> (r: usize)
        requires
            min_fits(self.model().kind),
        ensures
            r == min_lines(self.model().kind),
        decreases self, 1int,
    {
        self.pattern.min_matches()
    }
}

impl OutputPatternType {
    /// The minimum number of lines this pattern will match.
    pub fn min_matches(&self) -> (r: usize)
        requires
            min_fits(self.model()),
        ensures
            r == min_lines(self.model()),
        decreases self, 1int,
    {
        proof {
            lemma_kind_lists(*self);
        }
        match self {
            OutputPatternType::Nothing => 0,
            OutputPatternType::Literal(_) => 1,
            OutputPatternType::Pattern(_) => 1,
            OutputPatternType::Repeat(pattern) => pattern.min_matches(),
            OutputPatternType::Optional(_) => 0,
            OutputPatternType::Unordered(patterns) => sum_of_min(patterns),
            OutputPatternType::Choice(patterns) => least_of_min(patterns),
            OutputPatternType::Sequence(patterns) => sum_of_min(patterns),
            OutputPatternType::Not(_) => 0,
            OutputPatternType::Any(pattern) => pattern.min_matches(),
            OutputPatternType::If(_, _) => 0,
            OutputPatternType::End => 0,
        }
    }
}

proof fn lemma_least_sum_take(ps: Seq<PatternView>, i: int, env: Env)
    requires
        0 <= i < ps.len(),
    ensures
        least_sum(ps.take(i + 1), env) == least_sum(ps.take(i), env) + least_lines(
            ps[i].kind,
            env,
        ),
{
    assert(ps.take(i + 1).drop_last() =~= ps.take(i));
}

proof fn lemma_least_sum_monotone(ps: Seq<PatternView>, i: int, env: Env)
    requires
        0 <= i <= ps.len(),
    ensures
        least_sum(ps.take(i), env) <= least_sum(ps, env),
    decreases ps.len() - i,
{
    if i < ps.len() {
        lemma_least_sum_take(ps, i, env);
        lemma_least_sum_monotone(ps, i + 1, env);
    } else {
        assert(ps.take(i) =~= ps);
    }
}

/// Whether one of the patterns takes up a line.
fn any_takes_a_line(patterns: &Vec<OutputPattern>, context: &ScriptRunContext) -> (r: bool)
    ensures
        r == (least_sum(patterns_model(patterns@), context.variables()) >= 1),
    decreases patterns, 0int,
{
    let ghost ps = patterns_model(patterns@);
    let mut i: usize = 0;
    proof {
        assert(ps.take(0) =~= Seq::empty());
    }
    while i < patterns.len()
        invariant
            i <= patterns@.len(),
            ps == patterns_model(patterns@),
            least_sum(ps.take(i as int), context.variables()) == 0,
        decreases patterns@.len() - i,
    {
        proof {
            lemma_least_sum_take(ps, i as int, context.variables());
            lemma_least_sum_monotone(ps, i + 1, context.variables());
        }
        let takes = patterns[i].takes_a_line(context);
        if takes {
            return true;
        }
        i += 1;
    }
    proof {
        assert(ps.take(i as int) =~= ps);
    }
    false
}

/// Whether all of the patterns take up a line.
pub(crate) fn all_take_a_line(patterns: &Vec<OutputPattern>, context: &ScriptRunContext) -> (r: bool)
    ensures
        r == (forall|i: int|
            0 <= i < patterns@.len() ==> least_lines(
                (#[trigger] patterns_model(patterns@)[i]).kind, context.variables()) >= 1),
    decreases patterns, 0int,
{
    let ghost ps = patterns_model(patterns@);
    let mut i: usize = 0;
    while i < patterns.len()
        invariant
            i <= patterns@.len(),
            ps == patterns_model(patterns@),
            forall|j: int| 0 <= j < i ==> least_lines((#[trigger] ps[j]).kind, context.variables()) >= 1,
        decreases patterns@.len() - i,
    {
        let takes = patterns[i].takes_a_line(context);
        if !takes {
            proof {
                assert(least_lines(ps[i as int].kind, context.variables()) == 0);
            }
            return false;
        }
        i += 1;
    }
    true
}

proof fn lemma_least_takes_a_line(ps: Seq<PatternView>, env: Env)
    ensures
        (least_of(ps, env) >= 1) == (ps.len() > 0 && forall|i: int|
            0 <= i < ps.len() ==> least_lines((#[trigger] ps[i]).kind, env) >= 1),
    decreases ps.len(),
{
    if ps.len() > 0 {
        let front = ps.drop_last();
        lemma_least_takes_a_line(front, env);
        assert(forall|i: int| 0 <= i < front.len() ==> #[trigger] front[i] == ps[i]);
        assert(ps.last() == ps[ps.len() - 1]);
        if least_of(ps, env) >= 1 && ps.len() > 1 {
            assert forall|i: int| 0 <= i < ps.len() implies least_lines(
                (#[trigger] ps[i]).kind, env) >= 1 by {
                if i < front.len() {
                    assert(least_lines(front[i].kind, env) >= 1);
                }
            }
        }
        if forall|i: int| 0 <= i < ps.len() ==> least_lines((#[trigger] ps[i]).kind, env) >= 1 {
            assert(least_lines(ps[ps.len() - 1].kind, env) >= 1);
            assert forall|i: int| 0 <= i < front.len() implies least_lines(
                (#[trigger] front[i]).kind, env) >= 1 by {
                assert(least_lines(ps[i].kind, env) >= 1);
            }
        }
    }
}

impl OutputPattern {
    /// Whether the pattern takes up a line whenever it matches.
    pub fn takes_a_line(&self, context: &ScriptRunContext) -> (r: bool)
        ensures
            r == (least_lines(self.model().kind, context.variables()) >= 1),
        decreases self, 1int,
    {
        self.pattern.takes_a_line(context)
    }
}

impl OutputPatternType {
    /// Whether the pattern takes up a line whenever it matches.
    pub fn takes_a_line(&self, context: &ScriptRunContext) -> (r: bool)
        ensures
            r == (least_lines(self.model(), context.variables()) >= 1),
        decreases self, 1int,
    {
        proof {
            lemma_kind_lists(*self);
        }
        match self {
            OutputPatternType::Literal(_) => true,
            OutputPatternType::Pattern(_) => true,
            OutputPatternType::Repeat(pattern) => pattern.takes_a_line(context),
            OutputPatternType::Any(pattern) => pattern.takes_a_line(context),
            OutputPatternType::Unordered(patterns) => any_takes_a_line(patterns, context),
            OutputPatternType::Sequence(patterns) => any_takes_a_line(patterns, context),
            OutputPatternType::Choice(patterns) => {
                proof {
                    lemma_least_takes_a_line(patterns_model(patterns@), context.variables());
                }
                patterns.len() > 0 && all_take_a_line(patterns, context)
            },
            OutputPatternType::If(condition, pattern) => condition.matches(context)
                && pattern.takes_a_line(context),
            _ => false,
        }
    }
}

/// Whether all of the patterns are prepared.
fn all_are_prepared(patterns: &Vec<OutputPattern>) -> (r: bool)
    ensures
        r == all_prepared(patterns_model(patterns@)),
    decreases patterns, 0int,
{
    let ghost ps = patterns_model(patterns@);
    let mut i: usize = 0;
    while i < patterns.len()
        invariant
            i <= patterns@.len(),
            ps == patterns_model(patterns@),
            forall|j: int| 0 <= j < i ==> prepared(#[trigger] ps[j]),
        decreases patterns@.len() - i,
    {
        let done = patterns[i].is_prepared();
        if !done {
            proof {
                assert(!prepared(ps[i as int]));
            }
            return false;
        }
        i += 1;
    }
    true
}

impl OutputPattern {
    /// Whether every grok pattern in the pattern is prepared.
    pub fn is_prepared(&self) -> (r: bool)
        ensures
            r == prepared(self.model()),
        decreases self, 1int,
    {
        proof {
            lemma_patterns_list(self.ignore);
            lemma_patterns_list(self.reject);
        }
        let kind = self.pattern.is_prepared();
        let skipped = all_are_prepared(&self.ignore.patterns);
        let rejected = all_are_prepared(&self.reject.patterns);
        proof {
            let p = self.model();
            assert(p.ignore == patterns_model(self.ignore.patterns@));
            assert(p.reject == patterns_model(self.reject.patterns@));
            assert(p.kind == self.pattern.model());
            assert(prepared(p) == (kind_prepared(p.kind) && all_prepared(p.ignore)
                && all_prepared(p.reject)));
        }
        kind && skipped && rejected
    }
}

impl OutputPatternType {
    /// Whether every grok pattern in the pattern is prepared.
    pub fn is_prepared(&self) -> (r: bool)
        ensures
            r == kind_prepared(self.model()),
        decreases self, 1int,
    {
        proof {
            lemma_kind_lists(*self);
            match self.model() {
                KindView::Unordered(ps) => {
                    assert(kind_prepared(self.model()) == all_prepared(ps));
                },
                KindView::Choice(ps) => {
                    assert(kind_prepared(self.model()) == all_prepared(ps));
                },
                KindView::Sequence(ps) => {
                    assert(kind_prepared(self.model()) == all_prepared(ps));
                },
                _ => {},
            }
        }
        match self {
            OutputPatternType::Pattern(pattern) => pattern.is_prepared(),
            OutputPatternType::Repeat(pattern) => pattern.is_prepared(),
            OutputPatternType::Any(pattern) => pattern.is_prepared(),
            OutputPatternType::Optional(pattern) => pattern.is_prepared(),
            OutputPatternType::Not(pattern) => pattern.is_prepared(),
            OutputPatternType::If(_, pattern) => pattern.is_prepared(),
            OutputPatternType::Unordered(patterns) => all_are_prepared(patterns),
            OutputPatternType::Choice(patterns) => all_are_prepared(patterns),
            OutputPatternType::Sequence(patterns) => all_are_prepared(patterns),
            _ => true,
        }
    }
}

/// Whether all of the patterns are prepared and productive.
pub(crate) fn all_ready(patterns: &Vec<OutputPattern>, context: &ScriptRunContext) -> (r: bool)
    ensures
        r == (all_prepared(patterns_model(patterns@)) && all_productive(
            patterns_model(patterns@), context.variables())),
    decreases patterns, 0int,
{
    let ghost ps = patterns_model(patterns@);
    let mut i: usize = 0;
    while i < patterns.len()
        invariant
            i <= patterns@.len(),
            ps == patterns_model(patterns@),
            forall|j: int|
                0 <= j < i ==> prepared(#[trigger] ps[j]) && productive(
                    ps[j],
                    context.variables(),
                ),
        decreases patterns@.len() - i,
    {
        let ready = patterns[i].is_ready(context);
        if !ready {
            proof {
                assert(!(prepared(ps[i as int]) && productive(ps[i as int], context.variables())));
            }
            return false;
        }
        i += 1;
    }
    true
}

impl OutputPattern {
    /// Whether the pattern is prepared and productive.
    pub fn is_ready(&self, context: &ScriptRunContext) -> (r: bool)
        ensures
            r == (prepared(self.model()) && productive(self.model(), context.variables())),
        decreases self, 1int,
    {
        proof {
            lemma_patterns_list(self.ignore);
            lemma_patterns_list(self.reject);
        }
        let kind = self.pattern.is_ready(context);
        let skipped = all_ready(&self.ignore.patterns, context) && all_take_a_line(
            &self.ignore.patterns,
            context,
        );
        let rejected = all_ready(&self.reject.patterns, context);
        proof {
            let p = self.model();
            assert(p.ignore == patterns_model(self.ignore.patterns@));
            assert(p.reject == patterns_model(self.reject.patterns@));
            assert(p.kind == self.pattern.model());
            assert(prepared(p) == (kind_prepared(p.kind) && all_prepared(p.ignore)
                && all_prepared(p.reject)));
            let env = context.variables();
            assert(productive(p, env) == (kind_productive(p.kind, env) && all_productive(
                p.ignore,
                env,
            ) && (forall|i: int|
                0 <= i < p.ignore.len() ==> least_lines((#[trigger] p.ignore[i]).kind, env) >= 1)
                && all_productive(p.reject, env)));
        }
        kind && skipped && rejected
    }
}

impl OutputPatternType {
    /// Whether the pattern is prepared and productive.
    pub fn is_ready(&self, context: &ScriptRunContext) -> (r: bool)
        ensures
            r == (kind_prepared(self.model()) && kind_productive(self.model(), context.variables())),
        decreases self, 1int,
    {
        proof {
            let env = context.variables();
            lemma_kind_lists(*self);
            match self.model() {
                KindView::Unordered(ps) => {
                    assert(kind_prepared(self.model()) == all_prepared(ps));
                    assert(kind_productive(self.model(), env) == all_productive(ps, env));
                },
                KindView::Choice(ps) => {
                    assert(kind_prepared(self.model()) == all_prepared(ps));
                    assert(kind_productive(self.model(), env) == all_productive(ps, env));
                },
                KindView::Sequence(ps) => {
                    assert(kind_prepared(self.model()) == all_prepared(ps));
                    assert(kind_productive(self.model(), env) == all_productive(ps, env));
                },
                _ => {},
            }
        }
        match self {
            OutputPatternType::Pattern(pattern) => pattern.is_prepared(),
            OutputPatternType::Repeat(pattern) => pattern.is_ready(context)
                && pattern.takes_a_line(context),
            OutputPatternType::Any(pattern) => pattern.is_ready(context),
            OutputPatternType::Optional(pattern) => pattern.is_ready(context),
            OutputPatternType::Not(pattern) => pattern.is_ready(context),
            OutputPatternType::If(condition, pattern) => {
                if condition.matches(context) {
                    pattern.is_ready(context)
                } else {
                    pattern.is_prepared()
                }
            },
            OutputPatternType::Unordered(patterns) => all_ready(patterns, context),
            OutputPatternType::Choice(patterns) => all_ready(patterns, context),
            OutputPatternType::Sequence(patterns) => all_ready(patterns, context),
            _ => true,
        }
    }
}

} // verus!
