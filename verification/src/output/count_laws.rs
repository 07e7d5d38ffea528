//! How many lines patterns are said to take up.
use crate::output::bounds::{min_least, min_lines, min_sum};
use crate::output::grok::GrokView;
use crate::output::most::{max_lines, max_most, max_sum};
use crate::output::pattern::{KindView, PatternView};
use crate::script::IfConditionView;
use vstd::prelude::*;

verus! {

/// Patterns that all have to match take up as many lines as they do one by
/// one.
pub proof fn law_counts_add_up(a: Seq<PatternView>, b: Seq<PatternView>, p: PatternView)
    ensures
        min_sum(a + b) == min_sum(a) + min_sum(b),
        max_sum(a + b) == max_sum(a) + max_sum(b),
        min_sum(seq![p]) == min_lines(p.kind),
        max_sum(seq![p]) == max_lines(p.kind),
        min_lines(KindView::Sequence(a)) == min_sum(a),
        min_lines(KindView::Unordered(a)) == min_sum(a),
        max_sum(a) <= usize::MAX ==> max_lines(KindView::Sequence(a)) == max_sum(a) && max_lines(
            KindView::Unordered(a),
        ) == max_sum(a),
        max_sum(a) > usize::MAX ==> max_lines(KindView::Sequence(a)) == usize::MAX && max_lines(
            KindView::Unordered(a),
        ) == usize::MAX,
    decreases b.len(),
{
    if b.len() == 0 {
        assert(a + b =~= a);
    } else {
        law_counts_add_up(a, b.drop_last(), p);
        assert((a + b).drop_last() =~= a + b.drop_last());
        assert((a + b).last() == b.last());
    }
    let one = seq![p];
    assert(one.drop_last() =~= Seq::empty());
    assert(one.last() == p);
    assert(min_sum(one.drop_last()) == 0);
    assert(max_sum(one.drop_last()) == 0);
}

/// A choice takes up at least as many lines as one of its patterns does, and
/// none of them fewer; and at most as many as one of them does, and none more.
pub proof fn law_choices_count_their_patterns(ps: Seq<PatternView>)
    requires
        ps.len() > 0,
    ensures
        forall|i: int|
            0 <= i < ps.len() ==> min_lines(KindView::Choice(ps)) <= min_lines(
                (#[trigger] ps[i]).kind,
            ),
        exists|i: int|
            0 <= i < ps.len() && min_lines(KindView::Choice(ps)) == min_lines(
                (#[trigger] ps[i]).kind,
            ),
        forall|i: int|
            0 <= i < ps.len() ==> max_lines((#[trigger] ps[i]).kind) <= max_lines(
                KindView::Choice(ps),
            ),
        exists|i: int|
            0 <= i < ps.len() && max_lines((#[trigger] ps[i]).kind) == max_lines(
                KindView::Choice(ps),
            ),
{
    lemma_least_and_most(ps);
    assert(min_lines(KindView::Choice(ps)) == min_least(ps));
    assert(max_lines(KindView::Choice(ps)) == max_most(ps));
}

proof fn lemma_least_and_most(ps: Seq<PatternView>)
    requires
        ps.len() > 0,
    ensures
        forall|i: int| 0 <= i < ps.len() ==> min_least(ps) <= min_lines((#[trigger] ps[i]).kind),
        exists|i: int| 0 <= i < ps.len() && min_least(ps) == min_lines((#[trigger] ps[i]).kind),
        forall|i: int| 0 <= i < ps.len() ==> max_lines((#[trigger] ps[i]).kind) <= max_most(ps),
        exists|i: int| 0 <= i < ps.len() && max_lines((#[trigger] ps[i]).kind) == max_most(ps),
    decreases ps.len(),
{
    let n = ps.len() - 1;
    let front = ps.drop_last();
    assert(ps[n] == ps.last());
    if n > 0 {
        lemma_least_and_most(front);
        assert forall|i: int| 0 <= i < ps.len() implies min_least(ps) <= min_lines(
            (#[trigger] ps[i]).kind,
        ) by {
            if i < n {
                assert(front[i] == ps[i]);
            }
        }
        assert forall|i: int| 0 <= i < ps.len() implies max_lines((#[trigger] ps[i]).kind)
            <= max_most(ps) by {
            if i < n {
                assert(front[i] == ps[i]);
            }
        }
        let i = choose|i: int|
            0 <= i < front.len() && min_least(front) == min_lines((#[trigger] front[i]).kind);
        let j = choose|j: int|
            0 <= j < front.len() && max_lines((#[trigger] front[j]).kind) == max_most(front);
        assert(ps[i] == front[i]);
        assert(ps[j] == front[j]);
    } else {
        assert(max_most(front) == 0);
    }
}

/// A line is one line. What is repeated takes up its own lines at least and
/// any number at most, unless it takes up none; any lines take up those of
/// what stands behind them at least; what is optional or stands under a
/// condition takes up none at least; and nothing else takes up lines.
pub proof fn law_patterns_count_their_lines(
    s: Seq<char>,
    g: GrokView,
    p: PatternView,
    c: IfConditionView,
)
    ensures
        min_lines(KindView::Literal(s)) == 1 && max_lines(KindView::Literal(s)) == 1,
        min_lines(KindView::Pattern(g)) == 1 && max_lines(KindView::Pattern(g)) == 1,
        min_lines(KindView::End) == 0 && max_lines(KindView::End) == 0,
        min_lines(KindView::Nothing) == 0 && max_lines(KindView::Nothing) == 0,
        ({
            let b = Box::new(p);
            &&& min_lines(KindView::Repeat(b)) == min_lines(p.kind)
            &&& max_lines(p.kind) > 0 ==> max_lines(KindView::Repeat(b)) == usize::MAX
            &&& max_lines(p.kind) == 0 ==> max_lines(KindView::Repeat(b)) == 0
            &&& min_lines(KindView::Any(b)) == min_lines(p.kind)
            &&& max_lines(KindView::Any(b)) == usize::MAX
            &&& min_lines(KindView::Optional(b)) == 0
            &&& max_lines(KindView::Optional(b)) == max_lines(p.kind)
            &&& min_lines(KindView::If(c, b)) == 0
            &&& max_lines(KindView::If(c, b)) == max_lines(p.kind)
            &&& min_lines(KindView::Not(b)) == 0 && max_lines(KindView::Not(b)) == 0
        }),
{
}

} // verus!
