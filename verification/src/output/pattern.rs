//! What command output is matched against.
use crate::output::grok::{GrokPattern, GrokView};
use crate::script::{share, IfCondition, IfConditionView, ScriptLocation};
use crate::util::text::{debug_str, push_str, str_debug};
use std::sync::Arc;
use vstd::prelude::*;

verus! {

/// A shared list of patterns.
pub struct OutputPatterns {
    /// The patterns, in order.
    pub patterns: Arc<Vec<OutputPattern>>,
}

/// A pattern of output lines.
pub struct OutputPattern {
    /// Where the pattern stands.
    pub location: ScriptLocation,
    /// What it matches.
    pub pattern: OutputPatternType,
    /// What is skipped while it is matched.
    pub ignore: OutputPatterns,
    /// What may not occur while it is matched.
    pub reject: OutputPatterns,
}

/// What a pattern matches.
pub enum OutputPatternType {
    /// The end of the output
    End,
    /// Matches no lines of output, always succeeds
    Nothing,
    /// Any lines, followed by a pattern.
    Any(Box<OutputPattern>),
    /// A literal string
    Literal(String),
    /// A grok pattern
    Pattern(Arc<GrokPattern>),
    /// A pattern that matches one or more of the given pattern
    Repeat(Box<OutputPattern>),
    /// A pattern that matches zero or one of the given pattern
    Optional(Box<OutputPattern>),
    /// A pattern that all of its subpatterns, but in any order
    Unordered(Vec<OutputPattern>),
    /// A pattern that matches one of the given patterns
    Choice(Vec<OutputPattern>),
    /// A pattern that matches a sequence of patterns
    Sequence(Vec<OutputPattern>),
    /// A negative look-ahead pattern
    Not(Box<OutputPattern>),
    /// A pattern that matches a condition
    If(IfCondition, Box<OutputPattern>),
}

/// The mathematical value of an [`OutputPattern`].
pub struct PatternView {
    /// Where the pattern stands.
    pub location: ScriptLocation,
    /// What it matches.
    pub kind: KindView,
    /// What is skipped while it is matched.
    pub ignore: Seq<PatternView>,
    /// What may not occur while it is matched.
    pub reject: Seq<PatternView>,
}

/// The mathematical value of an [`OutputPatternType`].
pub enum KindView {
    /// The end of the output.
    End,
    /// No lines.
    Nothing,
    /// Any lines, followed by a pattern.
    Any(Box<PatternView>),
    /// A literal line.
    Literal(Seq<char>),
    /// A line that a grok pattern matches.
    Pattern(GrokView),
    /// One or more times the pattern.
    Repeat(Box<PatternView>),
    /// The pattern or nothing.
    Optional(Box<PatternView>),
    /// All of the patterns, in any order.
    Unordered(Seq<PatternView>),
    /// One of the patterns.
    Choice(Seq<PatternView>),
    /// All of the patterns, in order.
    Sequence(Seq<PatternView>),
    /// No lines, where the pattern does not match.
    Not(Box<PatternView>),
    /// The pattern, where the condition is met.
    If(IfConditionView, Box<PatternView>),
}

/// A literal, a grok pattern, the end or nothing: what holds no patterns.
pub open spec fn is_leaf(kind: KindView) -> bool {
    kind is End || kind is Nothing || kind is Literal || kind is Pattern
}

impl OutputPatterns {
    /// The mathematical value of the list.
    pub open spec fn model(&self) -> Seq<PatternView>
        decreases self,
    {
        Seq::new(
            self.patterns@.len(),
            |i: int|
                if 0 <= i < self.patterns@.len() {
                    self.patterns@[i].model()
                } else {
                    arbitrary()
                },
        )
    }
}

impl OutputPattern {
    /// The mathematical value of the pattern.
    pub open spec fn model(&self) -> PatternView
        decreases self,
    {
        PatternView {
            location: self.location,
            kind: self.pattern.model(),
            ignore: self.ignore.model(),
            reject: self.reject.model(),
        }
    }
}

impl OutputPatternType {
    /// The mathematical value of what is matched.
    pub open spec fn model(&self) -> KindView
        decreases self,
    {
        match self {
            OutputPatternType::End => KindView::End,
            OutputPatternType::Nothing => KindView::Nothing,
            OutputPatternType::Any(p) => KindView::Any(Box::new(p.model())),
            OutputPatternType::Literal(s) => KindView::Literal(s@),
            OutputPatternType::Pattern(p) => KindView::Pattern(p@),
            OutputPatternType::Repeat(p) => KindView::Repeat(Box::new(p.model())),
            OutputPatternType::Optional(p) => KindView::Optional(Box::new(p.model())),
            OutputPatternType::Unordered(v) => KindView::Unordered(
                Seq::new(
                    v@.len(),
                    |i: int|
                        if 0 <= i < v@.len() {
                            v@[i].model()
                        } else {
                            arbitrary()
                        },
                ),
            ),
            OutputPatternType::Choice(v) => KindView::Choice(
                Seq::new(
                    v@.len(),
                    |i: int|
                        if 0 <= i < v@.len() {
                            v@[i].model()
                        } else {
                            arbitrary()
                        },
                ),
            ),
            OutputPatternType::Sequence(v) => KindView::Sequence(
                Seq::new(
                    v@.len(),
                    |i: int|
                        if 0 <= i < v@.len() {
                            v@[i].model()
                        } else {
                            arbitrary()
                        },
                ),
            ),
            OutputPatternType::Not(p) => KindView::Not(Box::new(p.model())),
            OutputPatternType::If(c, p) => KindView::If(c@, Box::new(p.model())),
        }
    }
}

/// The mathematical values of a sequence of patterns.
pub open spec fn patterns_model(v: Seq<OutputPattern>) -> Seq<PatternView> {
    Seq::new(v.len(), |i: int| v[i].model())
}

impl Clone for OutputPatterns {
    fn clone(&self) -> (r: Self)
        ensures
            r == *self,
    {
        OutputPatterns { patterns: share(&self.patterns) }
    }
}

fn copy_patterns(v: &Vec<OutputPattern>) -> (r: Vec<OutputPattern>)
    ensures
        patterns_model(r@) == patterns_model(v@),
    decreases v, 0int,
{
    let mut out: Vec<OutputPattern> = Vec::new();
    let mut i: usize = 0;
    while i < v.len()
        invariant
            i <= v@.len(),
            out@.len() == i,
            forall|j: int| 0 <= j < i ==> (#[trigger] out@[j]).model() == v@[j].model(),
        decreases v@.len() - i,
    {
        let p = v[i].copy();
        out.push(p);
        i += 1;
    }
    proof {
        assert(patterns_model(out@) =~= patterns_model(v@));
    }
    out
}

impl OutputPattern {
    fn copy(&self) -> (r: Self)
        ensures
            r.model() == self.model(),
        decreases self, 1int,
    {
        OutputPattern {
            location: self.location.clone(),
            pattern: self.pattern.copy(),
            ignore: self.ignore.clone(),
            reject: self.reject.clone(),
        }
    }
}

impl OutputPatternType {
    fn copy(&self) -> (r: Self)
        ensures
            r.model() == self.model(),
        decreases self, 1int,
    {
        let r = match self {
            OutputPatternType::End => OutputPatternType::End,
            OutputPatternType::Nothing => OutputPatternType::Nothing,
            OutputPatternType::Any(p) => OutputPatternType::Any(Box::new(p.copy())),
            OutputPatternType::Literal(s) => OutputPatternType::Literal(s.clone()),
            OutputPatternType::Pattern(p) => OutputPatternType::Pattern(share(p)),
            OutputPatternType::Repeat(p) => OutputPatternType::Repeat(Box::new(p.copy())),
            OutputPatternType::Optional(p) => OutputPatternType::Optional(Box::new(p.copy())),
            OutputPatternType::Unordered(v) => OutputPatternType::Unordered(copy_patterns(v)),
            OutputPatternType::Choice(v) => OutputPatternType::Choice(copy_patterns(v)),
            OutputPatternType::Sequence(v) => OutputPatternType::Sequence(copy_patterns(v)),
            OutputPatternType::Not(p) => OutputPatternType::Not(Box::new(p.copy())),
            OutputPatternType::If(c, p) => OutputPatternType::If(c.clone(), Box::new(p.copy())),
        };
        proof {
            lemma_kind_lists(*self);
            lemma_kind_lists(r);
        }
        r
    }
}

/// The lists of patterns in a kind are those that its value holds.
pub proof fn lemma_kind_lists(k: OutputPatternType)
    ensures
        k matches OutputPatternType::Unordered(v) ==> k.model() == KindView::Unordered(
            patterns_model(v@),
        ),
        k matches OutputPatternType::Choice(v) ==> k.model() == KindView::Choice(
            patterns_model(v@),
        ),
        k matches OutputPatternType::Sequence(v) ==> k.model() == KindView::Sequence(
            patterns_model(v@),
        ),
{
    match k {
        OutputPatternType::Unordered(v) => {
            assert(k.model()->Unordered_0 =~= patterns_model(v@));
        },
        OutputPatternType::Choice(v) => {
            assert(k.model()->Choice_0 =~= patterns_model(v@));
        },
        OutputPatternType::Sequence(v) => {
            assert(k.model()->Sequence_0 =~= patterns_model(v@));
        },
        _ => {},
    }
}

impl Clone for OutputPattern {
    fn clone(&self) -> (r: Self)
        ensures
            r.model() == self.model(),
    {
        self.copy()
    }
}

impl Clone for OutputPatternType {
    fn clone(&self) -> (r: Self)
        ensures
            r.model() == self.model(),
    {
        self.copy()
    }
}

/// The word that a kind of pattern is written with.
pub open spec fn keyword_text(kind: KindView) -> Seq<char> {
    match kind {
        KindView::Literal(_) => "\"...\""@,
        KindView::Pattern(_) => "? ..."@,
        KindView::Repeat(_) => "repeat"@,
        KindView::Optional(_) => "optional"@,
        KindView::Unordered(_) => "unordered"@,
        KindView::Choice(_) => "choice"@,
        KindView::Sequence(_) => "sequence"@,
        KindView::Not(_) => "not"@,
        KindView::Any(_) => "*"@,
        KindView::If(_, _) => "if"@,
        KindView::End => "end"@,
        KindView::Nothing => "none"@,
    }
}

/// Whether a kind of pattern is written as a block of patterns.
pub open spec fn container(kind: KindView) -> bool {
    !is_leaf(kind) && !(kind is Any)
}

/// How a kind of pattern is presented in a trace.
pub open spec fn trace_text(kind: KindView) -> Seq<char>
    decreases kind,
{
    match kind {
        KindView::Any(p) => if p.kind is End {
            "*"@
        } else {
            "* ... "@ + trace_text(p.kind)
        },
        KindView::End => "<eof>"@,
        KindView::Pattern(g) => "pattern "@ + str_debug(g.original),
        KindView::Literal(s) => str_debug(s),
        KindView::Nothing => "None"@,
        _ => keyword_text(kind) + " { ... }"@,
    }
}

impl OutputPatternType {
    /// The word that the pattern is written with.
    pub fn keyword(&self) -> (r: &'static str)
        ensures
            r@ == keyword_text(self.model()),
    {
        match self {
            OutputPatternType::Literal(_) => "\"...\"",
            OutputPatternType::Pattern(_) => "? ...",
            OutputPatternType::Repeat(_) => "repeat",
            OutputPatternType::Optional(_) => "optional",
            OutputPatternType::Unordered(_) => "unordered",
            OutputPatternType::Choice(_) => "choice",
            OutputPatternType::Sequence(_) => "sequence",
            OutputPatternType::Not(_) => "not",
            OutputPatternType::Any(_) => "*",
            OutputPatternType::If(_, _) => "if",
            OutputPatternType::End => "end",
            OutputPatternType::Nothing => "none",
        }
    }

    /// Whether the pattern is written as a block of patterns.
    pub fn is_container(&self) -> (r: bool)
        ensures
            r == container(self.model()),
    {
        match self {
            OutputPatternType::Literal(_) => false,
            OutputPatternType::Pattern(_) => false,
            OutputPatternType::Repeat(_) => true,
            OutputPatternType::Optional(_) => true,
            OutputPatternType::Unordered(_) => true,
            OutputPatternType::Choice(_) => true,
            OutputPatternType::Sequence(_) => true,
            OutputPatternType::Not(_) => true,
            OutputPatternType::Any(_) => false,
            OutputPatternType::If(_, _) => true,
            OutputPatternType::End => false,
            OutputPatternType::Nothing => false,
        }
    }

    /// How the pattern is presented in a trace.
    pub fn trace_string(&self) -> (r: String)
        ensures
            r@ == trace_text(self.model()),
        decreases self,
    {
        match self {
            OutputPatternType::Any(pattern) => {
                proof {
                    assert(pattern.model().kind == pattern.pattern.model());
                }
                if matches!(pattern.pattern, OutputPatternType::End) {
                    "*".to_owned()
                } else {
                    let mut out = "* ... ".to_owned();
                    let until = pattern.pattern.trace_string();
                    push_str(&mut out, until.as_str());
                    out
                }
            },
            OutputPatternType::End => "<eof>".to_owned(),
            OutputPatternType::Pattern(pattern) => {
                let mut out = "pattern ".to_owned();
                push_str(&mut out, debug_str(pattern.display_source()).as_str());
                out
            },
            OutputPatternType::Literal(literal) => debug_str(literal.as_str()),
            OutputPatternType::Nothing => "None".to_owned(),
            _ => {
                let mut out = self.keyword().to_owned();
                push_str(&mut out, " { ... }");
                out
            },
        }
    }
}

/// Whether every grok pattern in a pattern was prepared.
pub open spec fn prepared(p: PatternView) -> bool
    decreases p,
{
    &&& kind_prepared(p.kind)
    &&& forall|i: int| 0 <= i < p.ignore.len() ==> prepared(#[trigger] p.ignore[i])
    &&& forall|i: int| 0 <= i < p.reject.len() ==> prepared(#[trigger] p.reject[i])
}

/// Whether every grok pattern in a kind of pattern was prepared.
pub open spec fn kind_prepared(kind: KindView) -> bool
    decreases kind,
{
    match kind {
        KindView::Pattern(g) => g.prepared is Some,
        KindView::Repeat(p) => prepared(*p),
        KindView::Any(p) => prepared(*p),
        KindView::Optional(p) => prepared(*p),
        KindView::Not(p) => prepared(*p),
        KindView::If(_, p) => prepared(*p),
        KindView::Unordered(ps) => forall|i: int| 0 <= i < ps.len() ==> prepared(#[trigger] ps[i]),
        KindView::Choice(ps) => forall|i: int| 0 <= i < ps.len() ==> prepared(#[trigger] ps[i]),
        KindView::Sequence(ps) => forall|i: int| 0 <= i < ps.len() ==> prepared(#[trigger] ps[i]),
        _ => true,
    }
}

/// Whether every grok pattern in the patterns was prepared.
pub open spec fn all_prepared(ps: Seq<PatternView>) -> bool {
    forall|i: int| 0 <= i < ps.len() ==> prepared(#[trigger] ps[i])
}

/// A list's value holds the values of its patterns.
pub proof fn lemma_patterns_list(list: OutputPatterns)
    ensures
        list.model() == patterns_model(list.patterns@),
{
    assert(list.model() =~= patterns_model(list.patterns@));
}

impl Default for OutputPatterns {
    fn default() -> (r: Self)
        ensures
            r.model() == Seq::<PatternView>::empty(),
    {
        let r = OutputPatterns { patterns: Arc::new(Vec::new()) };
        proof {
            assert(r.model() =~= Seq::<PatternView>::empty());
        }
        r
    }
}

impl OutputPatterns {
    /// The list of the given patterns.
    pub fn new(patterns: Vec<OutputPattern>) -> (r: Self)
        ensures
            r.model() == patterns_model(patterns@),
    {
        let r = OutputPatterns { patterns: Arc::new(patterns) };
        proof {
            lemma_patterns_list(r);
        }
        r
    }

    /// Whether there are no patterns.
    pub fn is_empty(&self) -> (r: bool)
        ensures
            r == (self.model().len() == 0),
    {
        self.patterns.len() == 0
    }

    /// The number of patterns.
    pub fn len(&self) -> (r: usize)
        ensures
            r == self.model().len(),
    {
        self.patterns.len()
    }

    /// Adds patterns at the end.
    pub fn extend(&mut self, patterns: &OutputPatterns)
        ensures
            final(self).model() == old(self).model() + patterns.model(),
    {
        let ghost before = self.model();
        if self.is_empty() {
            self.patterns = share(&patterns.patterns);
            proof {
                assert(self.model() =~= before + patterns.model());
            }
            return ;
        }
        let mut all = copy_patterns(&self.patterns);
        let mut more = copy_patterns(&patterns.patterns);
        let ghost first = all@;
        let ghost second = more@;
        all.append(&mut more);
        self.patterns = Arc::new(all);
        proof {
            lemma_patterns_list(*self);
            lemma_patterns_list(*old(self));
            lemma_patterns_list(*patterns);
            assert(patterns_model(first + second) =~= patterns_model(first) + patterns_model(
                second,
            ));
        }
    }
}

/// A pattern without further patterns to skip or to reject.
pub open spec fn bare(location: ScriptLocation, kind: KindView) -> PatternView {
    PatternView { location, kind, ignore: Seq::empty(), reject: Seq::empty() }
}

/// The pattern that matches the patterns in order. A single one stands for
/// itself.
pub open spec fn sequence_of(location: ScriptLocation, ps: Seq<PatternView>) -> PatternView {
    if ps.len() == 1 {
        ps[0]
    } else {
        bare(location, KindView::Sequence(ps))
    }
}

impl OutputPattern {
    /// A pattern without further patterns to skip or to reject.
    pub fn bare(location: ScriptLocation, pattern: OutputPatternType) -> (r: Self)
        ensures
            r.model() == bare(location, pattern.model()),
    {
        OutputPattern {
            location,
            pattern,
            ignore: OutputPatterns::default(),
            reject: OutputPatterns::default(),
        }
    }

    /// The pattern that matches the patterns in order. A single one stands
    /// for itself.
    pub fn new_sequence(location: ScriptLocation, patterns: Vec<OutputPattern>) -> (r: Self)
        ensures
            r.model() == sequence_of(location, patterns_model(patterns@)),
    {
        let mut patterns = patterns;
        if patterns.len() == 1 {
            patterns.remove(0)
        } else {
            let kind = OutputPatternType::Sequence(patterns);
            proof {
                lemma_kind_lists(kind);
            }
            OutputPattern::bare(location, kind)
        }
    }
}

} // verus!
