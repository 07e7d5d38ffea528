//! Presenting patterns.
use crate::failure::{condition_debug, debug_condition};
use crate::output::pattern::{
    lemma_kind_lists, patterns_model, KindView, OutputPattern, OutputPatternType, PatternView,
};
use crate::script::{IfCondition, IfConditionView};
use crate::util::text::{debug_str, push_str, str_debug};
use vstd::prelude::*;

verus! {

/// A pattern as plain data.
pub enum PatternTree {
    /// A line, as it is written.
    Text(String),
    /// A block with one pattern.
    Block(&'static str, Box<PatternTree>),
    /// A block with a list of patterns.
    List(&'static str, Vec<PatternTree>),
    /// A pattern under a condition.
    If(IfCondition, Box<PatternTree>),
}

/// The mathematical value of a [`PatternTree`].
pub enum PatternTreeView {
    /// A line, as it is written.
    Text(Seq<char>),
    /// A block with one pattern.
    Block(Seq<char>, Box<PatternTreeView>),
    /// A block with a list of patterns.
    List(Seq<char>, Seq<PatternTreeView>),
    /// A pattern under a condition.
    If(IfConditionView, Box<PatternTreeView>),
}

impl PatternTree {
    /// The mathematical value of the tree.
    pub open spec fn model(&self) -> PatternTreeView
        decreases self,
    {
        match self {
            PatternTree::Text(s) => PatternTreeView::Text(s@),
            PatternTree::Block(name, t) => PatternTreeView::Block(name@, Box::new(t.model())),
            PatternTree::List(name, v) => PatternTreeView::List(
                name@,
                Seq::new(
                    v@.len(),
                    |i: int|
                        if 0 <= i < v@.len() {
                            v@[i].model()
                        } else {
                            arbitrary()
                        },
                ),
            ),
            PatternTree::If(c, t) => PatternTreeView::If(c@, Box::new(t.model())),
        }
    }
}

/// A kind of pattern as plain data.
pub open spec fn tree_of(kind: KindView) -> PatternTreeView
    decreases kind, 0int,
{
    match kind {
        KindView::Literal(s) => PatternTreeView::Text("! "@ + s),
        KindView::Pattern(g) => PatternTreeView::Text(g.original),
        KindView::End => PatternTreeView::Text("end"@),
        KindView::Nothing => PatternTreeView::Text("none"@),
        KindView::Repeat(p) => PatternTreeView::Block("repeat"@, Box::new(tree_of(p.kind))),
        KindView::Optional(p) => PatternTreeView::Block("optional"@, Box::new(tree_of(p.kind))),
        KindView::Not(p) => PatternTreeView::Block("not"@, Box::new(tree_of(p.kind))),
        KindView::Any(p) => PatternTreeView::Block("any"@, Box::new(tree_of(p.kind))),
        KindView::Unordered(ps) => PatternTreeView::List("unordered"@, trees_of(ps)),
        KindView::Choice(ps) => PatternTreeView::List("choice"@, trees_of(ps)),
        KindView::Sequence(ps) => PatternTreeView::List("sequence"@, trees_of(ps)),
        KindView::If(c, p) => PatternTreeView::If(c, Box::new(tree_of(p.kind))),
    }
}

/// Patterns as plain data.
pub open spec fn trees_of(ps: Seq<PatternView>) -> Seq<PatternTreeView>
    decreases ps, 1int,
{
    if ps.len() == 0 {
        Seq::empty()
    } else {
        trees_of(ps.drop_last()).push(tree_of(ps.last().kind))
    }
}

spec fn trees_model(v: Seq<PatternTree>) -> Seq<PatternTreeView> {
    Seq::new(v.len(), |i: int| v[i].model())
}

fn list_of(name: &'static str, patterns: &Vec<OutputPattern>) -> (r: PatternTree)
    ensures
        r.model() == PatternTreeView::List(name@, trees_of(patterns_model(patterns@))),
    decreases patterns, 0int,
{
    let ghost ps = patterns_model(patterns@);
    let mut out: Vec<PatternTree> = Vec::new();
    let mut i: usize = 0;
    proof {
        assert(ps.take(0) =~= Seq::empty());
        assert(trees_model(out@) =~= Seq::empty());
    }
    while i < patterns.len()
        invariant
            i <= patterns@.len(),
            ps == patterns_model(patterns@),
            trees_model(out@) == trees_of(ps.take(i as int)),
        decreases patterns@.len() - i,
    {
        let ghost had = out@;
        proof {
            assert(ps.take(i + 1).drop_last() =~= ps.take(i as int));
            assert(ps.take(i + 1).last() == patterns@[i as int].model());
        }
        let tree = patterns[i].to_tree();
        out.push(tree);
        proof {
            assert(trees_model(out@) =~= trees_model(had).push(tree.model()));
        }
        i += 1;
    }
    proof {
        assert(ps.take(i as int) =~= ps);
    }
    let r = PatternTree::List(name, out);
    proof {
        assert(r.model()->List_1 =~= trees_model(out@));
    }
    r
}

impl OutputPattern {
    /// The pattern as plain data.
    pub fn to_tree(&self) -> (r: PatternTree)
        ensures
            r.model() == tree_of(self.model().kind),
        decreases self, 0int,
    {
        self.pattern.to_tree()
    }

    fn boxed_tree(&self) -> (r: Box<PatternTree>)
        ensures
            r.model() == tree_of(self.model().kind),
        decreases self, 1int,
    {
        Box::new(self.to_tree())
    }

    /// The pattern, for debugging.
    pub fn to_debug(&self) -> (r: String)
        ensures
            r@ == kind_debug(self.model().kind),
        decreases self, 0int,
    {
        self.pattern.to_debug()
    }
}

impl OutputPatternType {
    /// The kind of pattern as plain data.
    pub fn to_tree(&self) -> (r: PatternTree)
        ensures
            r.model() == tree_of(self.model()),
        decreases self, 0int,
    {
        proof {
            lemma_kind_lists(*self);
        }
        match self {
            OutputPatternType::Literal(literal) => {
                let mut text = "! ".to_owned();
                push_str(&mut text, literal.as_str());
                PatternTree::Text(text)
            },
            OutputPatternType::Pattern(pattern) => PatternTree::Text(
                pattern.display_source().to_owned(),
            ),
            OutputPatternType::Repeat(pattern) => PatternTree::Block(
                "repeat",
                pattern.boxed_tree(),
            ),
            OutputPatternType::Optional(pattern) => PatternTree::Block(
                "optional",
                pattern.boxed_tree(),
            ),
            OutputPatternType::Unordered(patterns) => list_of("unordered", patterns),
            OutputPatternType::Choice(patterns) => list_of("choice", patterns),
            OutputPatternType::Sequence(patterns) => list_of("sequence", patterns),
            OutputPatternType::Not(pattern) => PatternTree::Block("not", pattern.boxed_tree()),
            OutputPatternType::Any(pattern) => PatternTree::Block("any", pattern.boxed_tree()),
            OutputPatternType::If(condition, pattern) => PatternTree::If(
                condition.clone(),
                pattern.boxed_tree(),
            ),
            OutputPatternType::End => PatternTree::Text("end".to_owned()),
            OutputPatternType::Nothing => PatternTree::Text("none".to_owned()),
        }
    }
}

/// A name, and what stands in brackets behind it.
pub open spec fn in_brackets(name: Seq<char>, inner: Seq<char>) -> Seq<char> {
    name + "("@ + inner + ")"@
}

/// A kind of pattern, for debugging.
pub open spec fn kind_debug(kind: KindView) -> Seq<char>
    decreases kind, 0int,
{
    match kind {
        KindView::Literal(s) => str_debug(s),
        KindView::Pattern(g) => in_brackets("Pattern"@, "/"@ + str_debug(g.pattern) + "/"@),
        KindView::Repeat(p) => in_brackets("Repeat"@, kind_debug(p.kind)),
        KindView::Optional(p) => in_brackets("Optional"@, kind_debug(p.kind)),
        KindView::Not(p) => in_brackets("Not"@, kind_debug(p.kind)),
        KindView::Any(p) => in_brackets("Any"@, kind_debug(p.kind)),
        KindView::Unordered(ps) => in_brackets("Unordered"@, "["@ + kinds_debug(ps) + "]"@),
        KindView::Choice(ps) => in_brackets("Choice"@, "["@ + kinds_debug(ps) + "]"@),
        KindView::Sequence(ps) => in_brackets("Sequence"@, "["@ + kinds_debug(ps) + "]"@),
        KindView::If(c, p) => in_brackets(
            "If"@,
            condition_debug(c) + ", "@ + kind_debug(p.kind),
        ),
        KindView::End => "End"@,
        KindView::Nothing => "None"@,
    }
}

/// Patterns, for debugging, with commas between them.
pub open spec fn kinds_debug(ps: Seq<PatternView>) -> Seq<char>
    decreases ps, 1int,
{
    if ps.len() == 0 {
        Seq::empty()
    } else if ps.len() == 1 {
        kind_debug(ps[0].kind)
    } else {
        kinds_debug(ps.drop_last()) + ", "@ + kind_debug(ps.last().kind)
    }
}

fn bracketed(name: &str, inner: &str) -> (r: String)
    ensures
        r@ == in_brackets(name@, inner@),
{
    let mut out: String = name.to_owned();
    push_str(&mut out, "(");
    push_str(&mut out, inner);
    push_str(&mut out, ")");
    out
}

fn debug_patterns(patterns: &Vec<OutputPattern>) -> (r: String)
    ensures
        r@ == "["@ + kinds_debug(patterns_model(patterns@)) + "]"@,
    decreases patterns, 0int,
{
    let ghost ps = patterns_model(patterns@);
    let mut out = String::new();
    let mut i: usize = 0;
    proof {
        assert(ps.take(0) =~= Seq::empty());
        assert(out@ =~= Seq::empty());
    }
    while i < patterns.len()
        invariant
            i <= patterns@.len(),
            ps == patterns_model(patterns@),
            out@ == kinds_debug(ps.take(i as int)),
        decreases patterns@.len() - i,
    {
        let text = patterns[i].to_debug();
        proof {
            assert(ps.take(i + 1).drop_last() =~= ps.take(i as int));
            assert(ps.take(i + 1).last() == patterns@[i as int].model());
            if i == 0 {
                assert(ps.take(1)[0] == patterns@[0].model());
                assert(Seq::<char>::empty() + text@ =~= text@);
            }
        }
        if i > 0 {
            push_str(&mut out, ", ");
        }
        push_str(&mut out, text.as_str());
        i += 1;
    }
    proof {
        assert(ps.take(i as int) =~= ps);
    }
    let mut list = "[".to_owned();
    push_str(&mut list, out.as_str());
    push_str(&mut list, "]");
    list
}

impl OutputPatternType {
    /// The kind of pattern, for debugging.
    pub fn to_debug(&self) -> (r: String)
        ensures
            r@ == kind_debug(self.model()),
        decreases self, 0int,
    {
        proof {
            lemma_kind_lists(*self);
        }
        match self {
            OutputPatternType::Literal(literal) => debug_str(literal.as_str()),
            OutputPatternType::Pattern(pattern) => {
                let mut inner = "/".to_owned();
                push_str(&mut inner, debug_str(pattern.source()).as_str());
                push_str(&mut inner, "/");
                bracketed("Pattern", inner.as_str())
            },
            OutputPatternType::Repeat(p) => {
                let inner = p.to_debug();
                bracketed("Repeat", inner.as_str())
            },
            OutputPatternType::Optional(p) => {
                let inner = p.to_debug();
                bracketed("Optional", inner.as_str())
            },
            OutputPatternType::Not(p) => {
                let inner = p.to_debug();
                bracketed("Not", inner.as_str())
            },
            OutputPatternType::Any(p) => {
                let inner = p.to_debug();
                bracketed("Any", inner.as_str())
            },
            OutputPatternType::Unordered(v) => {
                let inner = debug_patterns(v);
                bracketed("Unordered", inner.as_str())
            },
            OutputPatternType::Choice(v) => {
                let inner = debug_patterns(v);
                bracketed("Choice", inner.as_str())
            },
            OutputPatternType::Sequence(v) => {
                let inner = debug_patterns(v);
                bracketed("Sequence", inner.as_str())
            },
            OutputPatternType::If(c, p) => {
                let mut inner = debug_condition(c);
                push_str(&mut inner, ", ");
                let then_text = p.to_debug();
                push_str(&mut inner, then_text.as_str());
                bracketed("If", inner.as_str())
            },
            OutputPatternType::End => "End".to_owned(),
            OutputPatternType::Nothing => "None".to_owned(),
        }
    }
}

} // verus!
