//! Preparing patterns for matching.
use crate::output::bounds::{min_least, min_lines, min_sum};
use crate::output::grok::{definitions, prepared_grok};
use crate::output::pattern::{
    kind_prepared, lemma_kind_lists, lemma_patterns_list, patterns_model, prepared, KindView,
    OutputPattern, OutputPatternType, OutputPatterns, PatternView,
};
use crate::script::ScriptLocation;
use std::sync::Arc;
use vstd::prelude::*;

verus! {

/// A pattern that does not compile.
#[derive(Debug)]
pub struct OutputPatternPrepareError {
    /// Where the pattern stands.
    pub location: ScriptLocation,
    /// The source of the pattern.
    pub pattern: String,
    /// What is wrong with it.
    pub error: String,
}

/// The mathematical value of an [`OutputPatternPrepareError`].
pub struct PrepareErrorView {
    /// Where the pattern stands.
    pub location: ScriptLocation,
    /// The source of the pattern.
    pub pattern: Seq<char>,
    /// What is wrong with it.
    pub error: Seq<char>,
}

impl View for OutputPatternPrepareError {
    type V = PrepareErrorView;

    open spec fn view(&self) -> PrepareErrorView {
        PrepareErrorView {
            location: self.location,
            pattern: self.pattern@,
            error: self.error@,
        }
    }
}

/// The definitions of a set of grok patterns.
pub type Definitions = Map<Seq<char>, Seq<char>>;

/// A pattern with every grok pattern in it prepared, or the first of them
/// that does not compile: among what is skipped, what is rejected, and what
/// is matched.
pub open spec fn prepare_pattern(p: PatternView, d: Definitions) -> Result<
    PatternView,
    PrepareErrorView,
>
    decreases p, 1int,
{
    match prepare_list(p.ignore, d) {
        Err(e) => Err(e),
        Ok(ignore) => match prepare_list(p.reject, d) {
            Err(e) => Err(e),
            Ok(reject) => match prepare_kind(p.kind, p.location, d) {
                Err(e) => Err(e),
                Ok(kind) => Ok(PatternView { location: p.location, kind, ignore, reject }),
            },
        },
    }
}

/// A kind of pattern with every grok pattern in it prepared.
pub open spec fn prepare_kind(kind: KindView, location: ScriptLocation, d: Definitions) -> Result<
    KindView,
    PrepareErrorView,
>
    decreases kind, 1int,
{
    match kind {
        KindView::Pattern(g) => match prepared_grok(g, d) {
            Err(error) => Err(PrepareErrorView { location, pattern: g.pattern, error }),
            Ok(g) => Ok(KindView::Pattern(g)),
        },
        KindView::Sequence(ps) => match prepare_list(ps, d) {
            Err(e) => Err(e),
            Ok(ps) => Ok(KindView::Sequence(ps)),
        },
        KindView::Unordered(ps) => match prepare_list(ps, d) {
            Err(e) => Err(e),
            Ok(ps) => Ok(KindView::Unordered(ps)),
        },
        KindView::Choice(ps) => match prepare_list(ps, d) {
            Err(e) => Err(e),
            Ok(ps) => Ok(KindView::Choice(ps)),
        },
        KindView::If(c, p) => match prepare_pattern(*p, d) {
            Err(e) => Err(e),
            Ok(p) => Ok(KindView::If(c, Box::new(p))),
        },
        KindView::Not(p) => match prepare_pattern(*p, d) {
            Err(e) => Err(e),
            Ok(p) => Ok(KindView::Not(Box::new(p))),
        },
        KindView::Any(p) => match prepare_pattern(*p, d) {
            Err(e) => Err(e),
            Ok(p) => Ok(KindView::Any(Box::new(p))),
        },
        KindView::Repeat(p) => match prepare_pattern(*p, d) {
            Err(e) => Err(e),
            Ok(p) => Ok(KindView::Repeat(Box::new(p))),
        },
        KindView::Optional(p) => match prepare_pattern(*p, d) {
            Err(e) => Err(e),
            Ok(p) => Ok(KindView::Optional(Box::new(p))),
        },
        KindView::Literal(s) => Ok(KindView::Literal(s)),
        KindView::End => Ok(KindView::End),
        KindView::Nothing => Ok(KindView::Nothing),
    }
}

/// A list of patterns with every grok pattern in it prepared.
pub open spec fn prepare_list(ps: Seq<PatternView>, d: Definitions) -> Result<
    Seq<PatternView>,
    PrepareErrorView,
>
    decreases ps, 2int,
{
    if ps.len() == 0 {
        Ok(Seq::empty())
    } else {
        match prepare_list(ps.drop_last(), d) {
            Err(e) => Err(e),
            Ok(front) => match prepare_pattern(ps.last(), d) {
                Err(e) => Err(e),
                Ok(last) => Ok(front.push(last)),
            },
        }
    }
}

/// A pattern that was prepared can be matched, and takes up as many lines as
/// before.
pub proof fn law_preparing_prepares(p: PatternView, d: Definitions)
    ensures
        prepare_pattern(p, d) matches Ok(q) ==> prepared(q) && min_lines(q.kind) == min_lines(
            p.kind,
        ),
    decreases p, 1int,
{
    lemma_list_prepared(p.ignore, d);
    lemma_list_prepared(p.reject, d);
    lemma_kind_prepared(p.kind, p.location, d);
}

proof fn lemma_kind_prepared(kind: KindView, location: ScriptLocation, d: Definitions)
    ensures
        prepare_kind(kind, location, d) matches Ok(k) ==> kind_prepared(k) && min_lines(k)
            == min_lines(kind),
    decreases kind, 1int,
{
    match kind {
        KindView::Sequence(ps) => {
            lemma_list_prepared(ps, d);
        },
        KindView::Unordered(ps) => {
            lemma_list_prepared(ps, d);
        },
        KindView::Choice(ps) => {
            lemma_list_prepared(ps, d);
        },
        KindView::If(_, p) => {
            law_preparing_prepares(*p, d);
        },
        KindView::Not(p) => {
            law_preparing_prepares(*p, d);
        },
        KindView::Any(p) => {
            law_preparing_prepares(*p, d);
        },
        KindView::Repeat(p) => {
            law_preparing_prepares(*p, d);
        },
        KindView::Optional(p) => {
            law_preparing_prepares(*p, d);
        },
        _ => {},
    }
}

proof fn lemma_list_prepared(ps: Seq<PatternView>, d: Definitions)
    ensures
        prepare_list(ps, d) matches Ok(qs) ==> {
            &&& qs.len() == ps.len()
            &&& forall|i: int| 0 <= i < qs.len() ==> prepared(#[trigger] qs[i])
            &&& min_sum(qs) == min_sum(ps)
            &&& min_least(qs) == min_least(ps)
        },
    decreases ps, 2int,
{
    if ps.len() > 0 {
        lemma_list_prepared(ps.drop_last(), d);
        law_preparing_prepares(ps.last(), d);
        if let Ok(front) = prepare_list(ps.drop_last(), d) {
            if let Ok(last) = prepare_pattern(ps.last(), d) {
                assert(front.push(last).drop_last() =~= front);
                assert(front.push(last).last() == last);
            }
        }
    }
}

/// What is wrong with the first pattern that is wrong is what is wrong.
proof fn lemma_list_fault(ps: Seq<PatternView>, d: Definitions, k: int)
    requires
        0 <= k <= ps.len(),
        prepare_list(ps.take(k), d) is Err,
    ensures
        prepare_list(ps, d) == prepare_list(ps.take(k), d),
    decreases ps.len() - k,
{
    if k < ps.len() {
        assert(ps.take(k + 1).drop_last() =~= ps.take(k));
        lemma_list_fault(ps, d, k + 1);
    } else {
        assert(ps.take(k) =~= ps);
    }
}

fn prepare_all(patterns: &Vec<OutputPattern>, grok: &grok::Grok) -> (r: Result<
    Vec<OutputPattern>,
    OutputPatternPrepareError,
>)
    ensures
        match r {
            Ok(v) => prepare_list(patterns_model(patterns@), definitions(grok)) == Ok::<
                Seq<PatternView>,
                PrepareErrorView,
            >(patterns_model(v@)),
            Err(e) => prepare_list(patterns_model(patterns@), definitions(grok)) == Err::<
                Seq<PatternView>,
                PrepareErrorView,
            >(e@),
        },
    decreases patterns, 0int,
{
    let ghost d = definitions(grok);
    let ghost ps = patterns_model(patterns@);
    let mut out: Vec<OutputPattern> = Vec::new();
    let mut i: usize = 0;
    proof {
        assert(ps.take(0) =~= Seq::empty());
        assert(patterns_model(out@) =~= Seq::empty());
    }
    while i < patterns.len()
        invariant
            i <= patterns@.len(),
            d == definitions(grok),
            ps == patterns_model(patterns@),
            prepare_list(ps.take(i as int), d) == Ok::<Seq<PatternView>, PrepareErrorView>(
                patterns_model(out@),
            ),
        decreases patterns@.len() - i,
    {
        proof {
            assert(ps.take(i + 1).drop_last() =~= ps.take(i as int));
            assert(ps.take(i + 1).last() == patterns@[i as int].model());
        }
        let ghost had = out@;
        match patterns[i].prepare(grok) {
            Ok(p) => {
                out.push(p);
                proof {
                    assert(patterns_model(out@) =~= patterns_model(had).push(p.model()));
                }
            },
            Err(e) => {
                proof {
                    lemma_list_fault(ps, d, i + 1);
                }
                return Err(e);
            },
        }
        i += 1;
    }
    proof {
        assert(ps.take(i as int) =~= ps);
    }
    Ok(out)
}

impl OutputPattern {
    /// The pattern with every grok pattern in it prepared, or the first of
    /// them that does not compile.
    pub fn prepare(&self, grok: &grok::Grok) -> (r: Result<
        OutputPattern,
        OutputPatternPrepareError,
    >)
        ensures
            match r {
                Ok(p) => prepare_pattern(self.model(), definitions(grok)) == Ok::<
                    PatternView,
                    PrepareErrorView,
                >(p.model()),
                Err(e) => prepare_pattern(self.model(), definitions(grok)) == Err::<
                    PatternView,
                    PrepareErrorView,
                >(e@),
            },
        decreases self, 1int,
    {
        proof {
            lemma_patterns_list(self.ignore);
            lemma_patterns_list(self.reject);
        }
        let ignore = match prepare_all(&self.ignore.patterns, grok) {
            Ok(v) => OutputPatterns::new(v),
            Err(e) => {
                return Err(e);
            },
        };
        let reject = match prepare_all(&self.reject.patterns, grok) {
            Ok(v) => OutputPatterns::new(v),
            Err(e) => {
                return Err(e);
            },
        };
        match self.pattern.prepare(&self.location, grok) {
            Ok(pattern) => Ok(
                OutputPattern { location: self.location.clone(), pattern, ignore, reject },
            ),
            Err(e) => Err(e),
        }
    }

    fn prepare_boxed(&self, grok: &grok::Grok) -> (r: Result<
        Box<OutputPattern>,
        OutputPatternPrepareError,
    >)
        ensures
            match r {
                Ok(p) => prepare_pattern(self.model(), definitions(grok)) == Ok::<
                    PatternView,
                    PrepareErrorView,
                >(p.model()),
                Err(e) => prepare_pattern(self.model(), definitions(grok)) == Err::<
                    PatternView,
                    PrepareErrorView,
                >(e@),
            },
        decreases self, 2int,
    {
        match self.prepare(grok) {
            Ok(p) => Ok(Box::new(p)),
            Err(e) => Err(e),
        }
    }
}

impl OutputPatternType {
    fn prepare(&self, location: &ScriptLocation, grok: &grok::Grok) -> (r: Result<
        OutputPatternType,
        OutputPatternPrepareError,
    >)
        ensures
            match r {
                Ok(k) => prepare_kind(self.model(), *location, definitions(grok)) == Ok::<
                    KindView,
                    PrepareErrorView,
                >(k.model()),
                Err(e) => prepare_kind(self.model(), *location, definitions(grok)) == Err::<
                    KindView,
                    PrepareErrorView,
                >(e@),
            },
        decreases self, 1int,
    {
        proof {
            lemma_kind_lists(*self);
        }
        let r = match self {
            OutputPatternType::Pattern(pattern) => match pattern.prepare(grok) {
                Ok(p) => Ok(OutputPatternType::Pattern(Arc::new(p))),
                Err(error) => Err(
                    OutputPatternPrepareError {
                        location: location.clone(),
                        pattern: pattern.source().to_owned(),
                        error,
                    },
                ),
            },
            OutputPatternType::Sequence(patterns) => match prepare_all(patterns, grok) {
                Ok(v) => Ok(OutputPatternType::Sequence(v)),
                Err(e) => Err(e),
            },
            OutputPatternType::Unordered(patterns) => match prepare_all(patterns, grok) {
                Ok(v) => Ok(OutputPatternType::Unordered(v)),
                Err(e) => Err(e),
            },
            OutputPatternType::Choice(patterns) => match prepare_all(patterns, grok) {
                Ok(v) => Ok(OutputPatternType::Choice(v)),
                Err(e) => Err(e),
            },
            OutputPatternType::If(condition, pattern) => match pattern.prepare_boxed(grok) {
                Ok(p) => Ok(OutputPatternType::If(condition.clone(), p)),
                Err(e) => Err(e),
            },
            OutputPatternType::Not(pattern) => match pattern.prepare_boxed(grok) {
                Ok(p) => Ok(OutputPatternType::Not(p)),
                Err(e) => Err(e),
            },
            OutputPatternType::Any(pattern) => match pattern.prepare_boxed(grok) {
                Ok(p) => Ok(OutputPatternType::Any(p)),
                Err(e) => Err(e),
            },
            OutputPatternType::Repeat(pattern) => match pattern.prepare_boxed(grok) {
                Ok(p) => Ok(OutputPatternType::Repeat(p)),
                Err(e) => Err(e),
            },
            OutputPatternType::Optional(pattern) => match pattern.prepare_boxed(grok) {
                Ok(p) => Ok(OutputPatternType::Optional(p)),
                Err(e) => Err(e),
            },
            OutputPatternType::Literal(literal) => Ok(OutputPatternType::Literal(literal.clone())),
            OutputPatternType::End => Ok(OutputPatternType::End),
            OutputPatternType::Nothing => Ok(OutputPatternType::Nothing),
        };
        proof {
            if r is Ok {
                lemma_kind_lists(r->Ok_0);
            }
        }
        r
    }
}

} // verus!
