//! How a line is turned into a grok pattern, and how patterns are prepared.
use crate::output::grok::{
    escaped_text, grok_objection, pattern_of_bits, prepared_grok, sources_of, GrokBitView, GrokView,
    Sources,
};
use crate::output::pattern::{KindView, PatternView};
use crate::output::prepare::{prepare_kind, prepare_list, prepare_pattern, Definitions, PrepareErrorView};
use crate::script::ScriptLocation;
use vstd::prelude::*;

verus! {

/// Whether a character is an ASCII letter or digit.
pub open spec fn is_letter_or_digit(c: char) -> bool {
    'a' <= c <= 'z' || 'A' <= c <= 'Z' || '0' <= c <= '9'
}

/// Text is escaped character by character: ASCII letters and digits, and what
/// is not ASCII, stay, and any other character has a backslash put before it.
pub proof fn law_text_is_escaped(a: Seq<char>, b: Seq<char>, c: char)
    ensures
        escaped_text(a + b) == escaped_text(a) + escaped_text(b),
        escaped_text(seq![c]) == (if is_letter_or_digit(c) || c as int >= 128 {
            seq![c]
        } else {
            seq!['\\', c]
        }),
    decreases b.len(),
{
    if b.len() == 0 {
        assert(a + b =~= a);
        assert(escaped_text(a) + escaped_text(b) =~= escaped_text(a));
    } else {
        law_text_is_escaped(a, b.drop_last(), c);
        assert((a + b).drop_last() =~= a + b.drop_last());
        assert((a + b).last() == b.last());
        assert(escaped_text(a + b) =~= escaped_text(a) + escaped_text(b));
    }
    let one = seq![c];
    assert(one.drop_last() =~= Seq::empty());
    assert(one.last() == c);
    assert(escaped_text(one.drop_last()) =~= Seq::empty());
    assert(Seq::<char>::empty().push(c) =~= seq![c]);
    assert(Seq::<char>::empty().push('\\').push(c) =~= seq!['\\', c]);
}

/// The parts of a line are compiled one by one: their sources are put
/// together and their names kept in order, and the first part that is wrong
/// tells what is wrong with the line.
pub proof fn law_parts_add_up(a: Seq<GrokBitView>, b: Seq<GrokBitView>, escape: bool)
    ensures
        match sources_of(a, escape) {
            Err(e) => sources_of(a + b, escape) == Err::<Sources, Seq<char>>(e),
            Ok(x) => match sources_of(b, escape) {
                Err(e) => sources_of(a + b, escape) == Err::<Sources, Seq<char>>(e),
                Ok(y) => sources_of(a + b, escape) == Ok::<Sources, Seq<char>>(
                    Sources {
                        test: x.test + y.test,
                        full: x.full + y.full,
                        aliases: x.aliases + y.aliases,
                    },
                ),
            },
        },
    decreases b.len(),
{
    if b.len() == 0 {
        assert(a + b =~= a);
        if let Ok(x) = sources_of(a, escape) {
            assert(x.test + Seq::<char>::empty() =~= x.test);
            assert(x.full + Seq::<char>::empty() =~= x.full);
            assert(x.aliases + Seq::<Seq<char>>::empty() =~= x.aliases);
        }
    } else {
        law_parts_add_up(a, b.drop_last(), escape);
        assert((a + b).drop_last() =~= a + b.drop_last());
        assert((a + b).last() == b.last());
        if let (Ok(x), Ok(y), Ok(z)) = (
            sources_of(a, escape),
            sources_of(b.drop_last(), escape),
            sources_of(b, escape),
        ) {
            let whole = sources_of(a + b, escape)->Ok_0;
            assert(whole.test =~= x.test + z.test);
            assert(whole.full =~= x.full + z.full);
            assert(whole.aliases =~= x.aliases + z.aliases);
        }
    }
}

/// Text is compiled escaped or as it is. A grok pattern is compiled as it is
/// and tried out as any one character, and its name is kept if it has one.
/// Nothing else can be compiled.
pub proof fn law_parts_are_compiled(text: Seq<char>, name: Seq<char>, c: char, escape: bool)
    ensures
        sources_of(seq![GrokBitView::Text(text)], escape) == Ok::<Sources, Seq<char>>(
            if escape {
                Sources {
                    test: escaped_text(text),
                    full: escaped_text(text),
                    aliases: Seq::empty(),
                }
            } else {
                Sources { test: text, full: text, aliases: Seq::empty() }
            },
        ),
        name.len() > 0 ==> sources_of(seq![GrokBitView::Name(text, name)], escape) == Ok::<
            Sources,
            Seq<char>,
        >(Sources { test: seq!['.'], full: text, aliases: seq![name] }),
        sources_of(seq![GrokBitView::Name(text, Seq::empty())], escape) == Ok::<
            Sources,
            Seq<char>,
        >(Sources { test: seq!['.'], full: text, aliases: Seq::empty() }),
        sources_of(seq![GrokBitView::BadCharacter(c)], escape) is Err,
        sources_of(seq![GrokBitView::BadPattern], escape) is Err,
        sources_of(seq![GrokBitView::BadDefinition], escape) is Err,
        sources_of(Seq::empty(), escape) == Ok::<Sources, Seq<char>>(
            Sources { test: Seq::empty(), full: Seq::empty(), aliases: Seq::empty() },
        ),
{
    let none = Seq::<GrokBitView>::empty();
    let bit = GrokBitView::Text(text);
    assert(seq![bit].drop_last() =~= none);
    assert(seq![GrokBitView::Name(text, name)].drop_last() =~= none);
    assert(seq![GrokBitView::Name(text, Seq::empty())].drop_last() =~= none);
    assert(seq![GrokBitView::BadCharacter(c)].drop_last() =~= none);
    assert(seq![GrokBitView::BadPattern].drop_last() =~= none);
    assert(seq![GrokBitView::BadDefinition].drop_last() =~= none);
    assert(Seq::<char>::empty() + text =~= text);
    assert(Seq::<char>::empty() + escaped_text(text) =~= escaped_text(text));
    assert(Seq::<char>::empty().push('.') =~= seq!['.']);
    assert(Seq::<Seq<char>>::empty().push(name) =~= seq![name]);
}

/// A line is compiled where none of its parts is wrong, and where there is no
/// objection to it with its grok patterns tried out, up to the end of the
/// line. The pattern reaches to the end of the line, and is prepared later.
pub proof fn law_patterns_reach_the_end_of_the_line(
    bits: Seq<GrokBitView>,
    original: Seq<char>,
    escape: bool,
)
    ensures
        match (sources_of(bits, escape), pattern_of_bits(bits, original, escape)) {
            (Ok(s), Ok(g)) => {
                &&& grok_objection(Map::empty(), s.test + seq!['$']) is None
                &&& g.original == original
                &&& g.pattern == s.full + seq!['$']
                &&& g.aliases == s.aliases
                &&& g.prepared is None
            },
            (Ok(s), Err(e)) => grok_objection(Map::empty(), s.test + seq!['$']) == Some(e),
            (Err(e), Err(f)) => e == f,
            (Err(_), Ok(_)) => false,
        },
{
    if let Ok(s) = sources_of(bits, escape) {
        assert(s.test.push('$') =~= s.test + seq!['$']);
        assert(s.full.push('$') =~= s.full + seq!['$']);
    }
}

/// A grok pattern is prepared once, with the definitions at hand, unless there
/// is an objection to it. Its source, its names and its text stay.
pub proof fn law_grok_patterns_are_prepared_once(g: GrokView, d: Definitions)
    ensures
        g.prepared is Some ==> prepared_grok(g, d) == Ok::<GrokView, Seq<char>>(g),
        g.prepared is None ==> match (prepared_grok(g, d), grok_objection(d, g.pattern)) {
            (Ok(h), None) => {
                &&& h.original == g.original
                &&& h.pattern == g.pattern
                &&& h.aliases == g.aliases
                &&& h.prepared == Some(d)
            },
            (Err(e), Some(f)) => e == f,
            _ => false,
        },
{
}

/// Patterns are alike that differ in what was prepared only: in where they
/// stand, in their kind, and in what is skipped and rejected.
pub open spec fn are_alike(p: PatternView, q: PatternView) -> bool
    decreases p, 1int,
{
    &&& p.location == q.location
    &&& all_are_alike(p.ignore, q.ignore)
    &&& all_are_alike(p.reject, q.reject)
    &&& kinds_are_alike(p.kind, q.kind)
}

/// Kinds of patterns are alike that differ in what was prepared only.
pub open spec fn kinds_are_alike(a: KindView, b: KindView) -> bool
    decreases a, 1int,
{
    match (a, b) {
        (KindView::End, KindView::End) => true,
        (KindView::Nothing, KindView::Nothing) => true,
        (KindView::Literal(s), KindView::Literal(t)) => s == t,
        (KindView::Pattern(g), KindView::Pattern(h)) => {
            &&& g.original == h.original
            &&& g.pattern == h.pattern
            &&& g.aliases == h.aliases
        },
        (KindView::Any(p), KindView::Any(q)) => are_alike(*p, *q),
        (KindView::Repeat(p), KindView::Repeat(q)) => are_alike(*p, *q),
        (KindView::Optional(p), KindView::Optional(q)) => are_alike(*p, *q),
        (KindView::Not(p), KindView::Not(q)) => are_alike(*p, *q),
        (KindView::If(c, p), KindView::If(d, q)) => c == d && are_alike(*p, *q),
        (KindView::Sequence(ps), KindView::Sequence(qs)) => all_are_alike(ps, qs),
        (KindView::Choice(ps), KindView::Choice(qs)) => all_are_alike(ps, qs),
        (KindView::Unordered(ps), KindView::Unordered(qs)) => all_are_alike(ps, qs),
        _ => false,
    }
}

/// Lists of patterns are alike that differ in what was prepared only.
pub open spec fn all_are_alike(ps: Seq<PatternView>, qs: Seq<PatternView>) -> bool
    decreases ps, 2int,
{
    if ps.len() == 0 || qs.len() == 0 {
        ps.len() == qs.len()
    } else {
        all_are_alike(ps.drop_last(), qs.drop_last()) && are_alike(ps.last(), qs.last())
    }
}

/// Preparing a pattern changes nothing about it but that it is prepared.
pub proof fn law_preparing_keeps_patterns(p: PatternView, d: Definitions)
    ensures
        prepare_pattern(p, d) matches Ok(q) ==> are_alike(p, q),
    decreases p, 1int,
{
    lemma_preparing_keeps_lists(p.ignore, d);
    lemma_preparing_keeps_lists(p.reject, d);
    lemma_preparing_keeps_kinds(p.kind, p.location, d);
}

proof fn lemma_preparing_keeps_kinds(kind: KindView, location: ScriptLocation, d: Definitions)
    ensures
        prepare_kind(kind, location, d) matches Ok(q) ==> kinds_are_alike(kind, q),
    decreases kind, 1int,
{
    match kind {
        KindView::Any(p) => law_preparing_keeps_patterns(*p, d),
        KindView::Repeat(p) => law_preparing_keeps_patterns(*p, d),
        KindView::Optional(p) => law_preparing_keeps_patterns(*p, d),
        KindView::Not(p) => law_preparing_keeps_patterns(*p, d),
        KindView::If(_, p) => law_preparing_keeps_patterns(*p, d),
        KindView::Sequence(ps) => lemma_preparing_keeps_lists(ps, d),
        KindView::Choice(ps) => lemma_preparing_keeps_lists(ps, d),
        KindView::Unordered(ps) => lemma_preparing_keeps_lists(ps, d),
        _ => {},
    }
}

proof fn lemma_preparing_keeps_lists(ps: Seq<PatternView>, d: Definitions)
    ensures
        prepare_list(ps, d) matches Ok(qs) ==> all_are_alike(ps, qs),
    decreases ps, 2int,
{
    if ps.len() > 0 {
        lemma_preparing_keeps_lists(ps.drop_last(), d);
        law_preparing_keeps_patterns(ps.last(), d);
        if let (Ok(front), Ok(last)) = (
            prepare_list(ps.drop_last(), d),
            prepare_pattern(ps.last(), d),
        ) {
            assert(front.push(last).drop_last() =~= front);
        }
    }
}

/// Patterns are prepared in their order, and the first that does not compile
/// tells what is wrong with them all.
pub proof fn law_patterns_are_prepared_in_order(
    a: Seq<PatternView>,
    b: Seq<PatternView>,
    p: PatternView,
    d: Definitions,
)
    ensures
        match prepare_list(a, d) {
            Err(e) => prepare_list(a + b, d) == Err::<Seq<PatternView>, PrepareErrorView>(e),
            Ok(x) => match prepare_list(b, d) {
                Err(e) => prepare_list(a + b, d) == Err::<Seq<PatternView>, PrepareErrorView>(e),
                Ok(y) => prepare_list(a + b, d) == Ok::<Seq<PatternView>, PrepareErrorView>(x + y),
            },
        },
        match prepare_pattern(p, d) {
            Err(e) => prepare_list(seq![p], d) == Err::<Seq<PatternView>, PrepareErrorView>(e),
            Ok(q) => prepare_list(seq![p], d) == Ok::<Seq<PatternView>, PrepareErrorView>(seq![q]),
        },
    decreases b.len(),
{
    let none = Seq::<PatternView>::empty();
    if b.len() == 0 {
        assert(a + b =~= a);
        if let Ok(x) = prepare_list(a, d) {
            assert(x + none =~= x);
        }
    } else {
        law_patterns_are_prepared_in_order(a, b.drop_last(), p, d);
        assert((a + b).drop_last() =~= a + b.drop_last());
        assert((a + b).last() == b.last());
        if let (Ok(x), Ok(y), Ok(z)) = (
            prepare_list(a, d),
            prepare_list(b.drop_last(), d),
            prepare_pattern(b.last(), d),
        ) {
            assert((x + y).push(z) =~= x + y.push(z));
        }
    }
    assert(seq![p].drop_last() =~= none);
    assert(seq![p].last() == p);
    assert(prepare_list(none, d) == Ok::<Seq<PatternView>, PrepareErrorView>(none));
    if let Ok(q) = prepare_pattern(p, d) {
        assert(none.push(q) =~= seq![q]);
    }
}

/// What is wrong with a pattern that does not compile is told with its place
/// and its source.
pub proof fn law_objections_are_told(g: GrokView, location: ScriptLocation, d: Definitions)
    ensures
        g.prepared is None ==> match (
            grok_objection(d, g.pattern),
            prepare_kind(KindView::Pattern(g), location, d),
        ) {
            (Some(e), Err(told)) => {
                &&& told.location == location
                &&& told.pattern == g.pattern
                &&& told.error == e
            },
            (None, Ok(kind)) => kind == KindView::Pattern(GrokView { prepared: Some(d), ..g }),
            _ => false,
        },
{
}

} // verus!
