//! What blocks of patterns promise.
use crate::output::ends::{law_outcome_is_the_match, match_ends, match_outcome};
use crate::output::laws::{lemma_literal_undisturbed, undisturbed, within_block};
use crate::output::matching::{
    first_match, has_escape, literal_matches, match_any_of, match_kind, match_more, match_one_of,
    match_pattern, match_unordered, next, raw_match, LinesView, Memory, Scene,
};
use crate::output::pattern::{bare, KindView, PatternView};
use crate::script::{condition_met, IfConditionView, ScriptLocation};
use crate::util::text::trimmed_end;
use vstd::prelude::*;
use vstd::seq_lib::{group_to_multiset_ensures, to_multiset_remove};

verus! {

/// Whether a pattern was found to match at a position, up to another.
pub open spec fn matches_to(
    p: PatternView,
    scene: Scene,
    lines: LinesView,
    behind: LinesView,
) -> bool {
    exists|fuel: nat, mem: Memory|
        (#[trigger] match_pattern(fuel, p, scene, lines, mem)) matches Some((Ok(end), _)) && end
            == behind
}

/// Whether a pattern was found not to match at a position.
pub open spec fn fails_at(p: PatternView, scene: Scene, lines: LinesView) -> bool {
    exists|fuel: nat, mem: Memory|
        (#[trigger] match_pattern(fuel, p, scene, lines, mem)) matches Some((Err(_), _))
}

/// A position that was reached, with what was remembered there.
pub struct Reached {
    /// The position.
    pub at: LinesView,
    /// What was remembered.
    pub mem: Memory,
}

/// Whether a pattern matches from one position to another.
pub open spec fn one_match(p: PatternView, scene: Scene, a: Reached, b: Reached) -> bool {
    exists|fuel: nat|
        (#[trigger] match_pattern(fuel, p, scene, a.at, a.mem)) matches Some((Ok(end), mem)) && end
            == b.at && mem == b.mem
}

/// Whether a pattern does not match at a position.
pub open spec fn no_match(p: PatternView, scene: Scene, a: Reached) -> bool {
    exists|fuel: nat|
        (#[trigger] match_pattern(fuel, p, scene, a.at, a.mem)) matches Some((Err(_), _))
}

/// Whether the positions are those between consecutive matches of a pattern,
/// as many as there are: at the last the pattern does not match any more.
pub open spec fn consecutive_matches(p: PatternView, scene: Scene, chain: Seq<Reached>) -> bool {
    &&& chain.len() > 0
    &&& forall|i: int|
        0 <= i < chain.len() - 1 ==> one_match(p, scene, #[trigger] chain[i], chain[i + 1])
    &&& no_match(p, scene, chain.last())
}

proof fn lemma_more_matches(
    fuel: nat,
    p: PatternView,
    scene: Scene,
    lines: LinesView,
    mem: Memory,
) -> (chain: Seq<Reached>)
    ensures
        match_more(fuel, p, scene, lines, mem) matches Some((last, _)) ==> consecutive_matches(
            p,
            scene,
            chain,
        ) && chain[0] == (Reached { at: lines, mem }) && chain.last().at == last,
    decreases fuel,
{
    let here = Reached { at: lines, mem };
    if fuel > 0 {
        let f = (fuel - 1) as nat;
        match match_pattern(f, p, scene, lines, mem) {
            Some((Ok(behind), after)) => {
                let rest = lemma_more_matches(f, p, scene, behind, after);
                let chain = seq![here] + rest;
                if match_more(fuel, p, scene, lines, mem) is Some {
                    lemma_chain_first(f, p, scene, here, rest);
                }
                chain
            },
            Some((Err(_), _)) => {
                assert(no_match(p, scene, here));
                seq![here]
            },
            None => seq![here],
        }
    } else {
        seq![here]
    }
}

proof fn lemma_chain_first(
    fuel: nat,
    p: PatternView,
    scene: Scene,
    here: Reached,
    rest: Seq<Reached>,
)
    requires
        consecutive_matches(p, scene, rest),
        match_pattern(fuel, p, scene, here.at, here.mem) matches Some((Ok(end), mem)) && end
            == rest[0].at && mem == rest[0].mem,
    ensures
        consecutive_matches(p, scene, seq![here] + rest),
        (seq![here] + rest)[0] == here,
        (seq![here] + rest).last() == rest.last(),
{
    let chain = seq![here] + rest;
    assert(one_match(p, scene, here, rest[0]));
    assert forall|i: int| 0 <= i < chain.len() - 1 implies one_match(
        p,
        scene,
        #[trigger] chain[i],
        chain[i + 1],
    ) by {
        if i > 0 {
            assert(chain[i] == rest[i - 1]);
            assert(chain[i + 1] == rest[i]);
        }
    }
}

/// A `repeat` block matches exactly where its pattern matches. What it takes
/// up are one or more consecutive matches of the pattern, as many as possible:
/// where it ends, the pattern does not match any more.
pub proof fn law_repeat_goes_on(
    fuel: nat,
    p: PatternView,
    location: ScriptLocation,
    scene: Scene,
    lines: LinesView,
    mem: Memory,
)
    ensures
        match_kind(fuel, KindView::Repeat(Box::new(p)), location, scene, lines, mem) matches Some(
            (r, _),
        ) ==> {
            &&& match_ends(p, scene, lines, within_block(mem))
            &&& r is Ok <==> match_outcome(p, scene, lines, within_block(mem)).0 is Ok
            &&& r matches Ok(last) ==> exists|chain: Seq<Reached>|
                #[trigger] consecutive_matches(p, scene, chain) && chain.len() >= 2 && chain[0]
                    == (Reached { at: lines, mem: within_block(mem) }) && chain.last().at == last
        },
{
    let kind = KindView::Repeat(Box::new(p));
    let inner = within_block(mem);
    let here = Reached { at: lines, mem: inner };
    if fuel > 1 {
        let f = (fuel - 2) as nat;
        assert(raw_match((fuel - 1) as nat, kind, location, scene, lines, inner) is None
            ==> match_kind(fuel, kind, location, scene, lines, mem) is None);
        if match_pattern(f, p, scene, lines, inner) is Some {
            law_outcome_is_the_match(f, p, scene, lines, inner);
        }
        if let Some((Ok(first), after)) = match_pattern(f, p, scene, lines, inner) {
            let rest = lemma_more_matches(f, p, scene, first, after);
            if match_more(f, p, scene, first, after) is Some {
                lemma_chain_first(f, p, scene, here, rest);
                assert(consecutive_matches(p, scene, seq![here] + rest));
            }
        }
    } else if fuel == 1 {
        assert(raw_match(0, kind, location, scene, lines, inner) is None);
    }
}

proof fn lemma_any_of(
    fuel: nat,
    ps: Seq<PatternView>,
    scene: Scene,
    lines: LinesView,
    mem: Memory,
)
    ensures
        match match_any_of(fuel, ps, scene, lines, mem) {
            Some((Some(behind), _)) => exists|i: int|
                0 <= i < ps.len() && matches_to(#[trigger] ps[i], scene, lines, behind) && (forall|
                    j: int,
                |
                    0 <= j < i ==> fails_at(#[trigger] ps[j], scene, lines)),
            Some((None, _)) => forall|i: int|
                0 <= i < ps.len() ==> fails_at(#[trigger] ps[i], scene, lines),
            None => true,
        },
    decreases fuel,
{
    if fuel > 0 && ps.len() > 0 {
        let f = (fuel - 1) as nat;
        let rest = ps.skip(1);
        match match_pattern(f, ps[0], scene, lines, mem) {
            Some((Ok(behind), _)) => {
                assert(matches_to(ps[0], scene, lines, behind));
            },
            Some((Err(_), after)) => {
                assert(fails_at(ps[0], scene, lines));
                lemma_any_of(f, rest, scene, lines, after);
                match match_any_of(f, rest, scene, lines, after) {
                    Some((Some(behind), _)) => {
                        let i = choose|i: int|
                            0 <= i < rest.len() && matches_to(
                                #[trigger] rest[i],
                                scene,
                                lines,
                                behind,
                            ) && (forall|j: int|
                                0 <= j < i ==> fails_at(#[trigger] rest[j], scene, lines));
                        assert(ps[i + 1] == rest[i]);
                        assert forall|j: int| 0 <= j < i + 1 implies fails_at(
                            #[trigger] ps[j],
                            scene,
                            lines,
                        ) by {
                            if j > 0 {
                                assert(rest[j - 1] == ps[j]);
                            }
                        }
                    },
                    Some((None, _)) => {
                        assert forall|i: int| 0 <= i < ps.len() implies fails_at(
                            #[trigger] ps[i],
                            scene,
                            lines,
                        ) by {
                            if i > 0 {
                                assert(rest[i - 1] == ps[i]);
                            }
                        }
                    },
                    None => {},
                }
            },
            None => {},
        }
    }
}

/// A `choice` block matches what the first of its patterns that matches does,
/// and does not match where none of them does.
pub proof fn law_choice_is_the_first_match(
    fuel: nat,
    ps: Seq<PatternView>,
    location: ScriptLocation,
    scene: Scene,
    lines: LinesView,
    mem: Memory,
)
    ensures
        match match_kind(fuel, KindView::Choice(ps), location, scene, lines, mem) {
            Some((Ok(behind), _)) => exists|i: int|
                0 <= i < ps.len() && matches_to(#[trigger] ps[i], scene, lines, behind) && (forall|
                    j: int,
                |
                    0 <= j < i ==> fails_at(#[trigger] ps[j], scene, lines)),
            Some((Err(_), _)) => forall|i: int|
                0 <= i < ps.len() ==> fails_at(#[trigger] ps[i], scene, lines),
            None => true,
        },
{
    let kind = KindView::Choice(ps);
    let inner = within_block(mem);
    if fuel > 1 {
        assert(raw_match((fuel - 1) as nat, kind, location, scene, lines, inner) is None
            ==> match_kind(fuel, kind, location, scene, lines, mem) is None);
        lemma_any_of((fuel - 2) as nat, ps, scene, lines, inner);
    } else if fuel == 1 {
        assert(raw_match(0, kind, location, scene, lines, inner) is None);
    }
}

/// An `if` block whose condition is not met matches and takes up no lines; one
/// whose condition is met matches what its pattern does.
pub proof fn law_if_requires_under_condition(
    fuel: nat,
    c: IfConditionView,
    p: PatternView,
    location: ScriptLocation,
    scene: Scene,
    lines: LinesView,
    mem: Memory,
)
    requires
        fuel >= 2,
    ensures
        ({
            let r = match_kind(
                fuel,
                KindView::If(c, Box::new(p)),
                location,
                scene,
                lines,
                mem,
            );
            if condition_met(c, scene.env) {
                match match_pattern((fuel - 2) as nat, p, scene, lines, within_block(mem)) {
                    None => r is None,
                    Some((matched, _)) => r matches Some((same, _)) && same == matched,
                }
            } else {
                r matches Some((Ok(behind), _)) && behind == lines
            }
        }),
{
    let kind = KindView::If(c, Box::new(p));
    let inner = within_block(mem);
    let raw = raw_match((fuel - 1) as nat, kind, location, scene, lines, inner);
    assert(raw is None ==> match_kind(fuel, kind, location, scene, lines, mem) is None);
    assert(raw is Some ==> match_kind(fuel, kind, location, scene, lines, mem) is Some);
}

proof fn lemma_first_match_none(
    fuel: nat,
    ps: Seq<PatternView>,
    scene: Scene,
    lines: LinesView,
    mem: Memory,
)
    requires
        first_match(fuel, ps, scene, lines, mem) matches Some((None, _)),
    ensures
        forall|i: int| 0 <= i < ps.len() ==> fails_at(#[trigger] ps[i], scene, lines),
    decreases fuel,
{
    if ps.len() > 0 {
        let f = (fuel - 1) as nat;
        let rest = ps.skip(1);
        let after = match_pattern(f, ps[0], scene, lines, mem)->Some_0.1;
        assert(fails_at(ps[0], scene, lines));
        lemma_first_match_none(f, rest, scene, lines, after);
        assert forall|i: int| 0 <= i < ps.len() implies fails_at(
            #[trigger] ps[i],
            scene,
            lines,
        ) by {
            if i > 0 {
                assert(rest[i - 1] == ps[i]);
            }
        }
    }
}

/// A position at which nothing that is to be skipped or rejected matches.
pub open spec fn clean_at(scene: Scene, at: LinesView) -> bool {
    let quiet = scene.as_ignoring();
    let check = at.without_negatives();
    &&& forall|i: int| 0 <= i < at.ignored.len() ==> fails_at(#[trigger] at.ignored[i], quiet, check)
    &&& forall|i: int|
        0 <= i < at.rejected.len() ==> fails_at(#[trigger] at.rejected[i], quiet, check)
}

/// The line that a pattern is held against is one at which no pattern that is
/// to be skipped or rejected matches.
pub proof fn law_lines_are_clean(fuel: nat, scene: Scene, lines: LinesView, mem: Memory)
    requires
        !lines.disabled,
    ensures
        next(fuel, scene, lines, mem) matches Some((Ok((Some(line), behind)), _)) ==> exists|
            at: LinesView,
        |
            #[trigger] clean_at(scene, at) && at.next_line() == Some(line) && behind
                == at.advanced(),
    decreases fuel,
{
    if fuel > 0 && lines.next_line() is Some {
        let f = (fuel - 1) as nat;
        let quiet = scene.as_ignoring();
        let check = lines.without_negatives();
        lemma_any_of(f, lines.ignored, quiet, check, mem);
        match match_any_of(f, lines.ignored, quiet, check, mem) {
            Some((Some(behind), after)) => {
                law_lines_are_clean(f, scene, behind.with_negatives(), after);
            },
            Some((None, after)) => {
                if let Some((None, _)) = first_match(f, lines.rejected, quiet, check, after) {
                    lemma_first_match_none(f, lines.rejected, quiet, check, after);
                    assert(clean_at(scene, lines));
                }
            },
            None => {},
        }
    }
}

/// A line that matches a literal only if it is the literal.
pub open spec fn plain_line(text: Seq<char>) -> bool {
    trimmed_end(text) == text && !has_escape(text)
}

/// The next lines of output.
pub open spec fn lines_ahead(lines: LinesView, count: int) -> Seq<Seq<char>> {
    lines.lines.subrange(lines.current, lines.current + count)
}

/// The patterns of literal lines.
pub open spec fn literal_lines(location: ScriptLocation, literals: Seq<Seq<char>>) -> Seq<
    PatternView,
> {
    literals.map_values(|s: Seq<char>| bare(location, KindView::Literal(s)))
}

/// The literals at some indices.
spec fn literals_left(literals: Seq<Seq<char>>, left: Seq<int>) -> Seq<Seq<char>> {
    left.map_values(|i: int| literals[i])
}

spec fn indices_ok(literals: Seq<Seq<char>>, left: Seq<int>) -> bool {
    forall|k: int| 0 <= k < left.len() ==> 0 <= #[trigger] left[k] < literals.len()
}

/// The first of the literals that are left which the next line is.
proof fn lemma_one_of(
    fuel: nat,
    literals: Seq<Seq<char>>,
    left: Seq<int>,
    k: int,
    location: ScriptLocation,
    scene: Scene,
    lines: LinesView,
    mem: Memory,
)
    requires
        undisturbed(lines),
        indices_ok(literals, left),
        0 <= k <= left.len(),
        fuel >= left.len() - k + 6,
        lines.next_line() matches Some(line) ==> plain_line(line.text),
    ensures
        match match_one_of(fuel, literal_lines(location, literals), left, k, scene, lines, mem) {
            Some((Some((n, behind)), _)) => {
                &&& k <= n < left.len()
                &&& lines.next_line() matches Some(line) && literals[left[n]] == line.text
                &&& behind == lines.advanced()
            },
            Some((None, _)) => forall|n: int|
                k <= n < left.len() ==> !(lines.next_line() matches Some(line)
                    && #[trigger] literals[left[n]] == line.text),
            None => false,
        },
    decreases left.len() - k,
{
    if k < left.len() {
        let f = (fuel - 1) as nat;
        let literal = literals[left[k]];
        let ps = literal_lines(location, literals);
        assert(ps[left[k]] == bare(location, KindView::Literal(literal)));
        lemma_literal_undisturbed(f, literal, location, scene, lines, mem);
        let (r, after) = match_pattern(f, ps[left[k]], scene, lines, mem)->Some_0;
        if let Some(line) = lines.next_line() {
            assert(literal_matches(literal, line.text) == (literal == line.text));
        }
        if r is Err {
            lemma_one_of(f, literals, left, k + 1, location, scene, lines, after);
        }
    }
}

proof fn lemma_unordered(
    fuel: nat,
    kind: KindView,
    literals: Seq<Seq<char>>,
    left: Seq<int>,
    location: ScriptLocation,
    scene: Scene,
    lines: LinesView,
    mem: Memory,
)
    requires
        undisturbed(lines),
        indices_ok(literals, left),
        0 <= lines.current <= lines.lines.len(),
        forall|i: int| 0 <= i < lines.lines.len() ==> plain_line(#[trigger] lines.lines[i]),
        fuel >= 2 * left.len() + 7,
    ensures
        ({
            let fits = left.len() <= lines.left() && lines_ahead(
                lines,
                left.len() as int,
            ).to_multiset() == literals_left(literals, left).to_multiset();
            match match_unordered(
                fuel,
                kind,
                location,
                literal_lines(location, literals),
                left,
                scene,
                lines,
                mem,
            ) {
                Some((Ok(behind), _)) => fits && behind == (LinesView {
                    current: lines.current + left.len(),
                    ..lines
                }),
                Some((Err(_), _)) => !fits,
                None => false,
            }
        }),
    decreases left.len(),
{
    broadcast use group_to_multiset_ensures;

    let n = left.len() as int;
    let wanted = literals_left(literals, left);
    if n == 0 {
        assert(lines_ahead(lines, 0) =~= wanted);
        assert(lines == (LinesView { current: lines.current + n, ..lines }));
    } else {
        let f = (fuel - 1) as nat;
        let ps = literal_lines(location, literals);
        lemma_one_of(f, literals, left, 0, location, scene, lines, mem);
        match match_one_of(f, ps, left, 0, scene, lines, mem) {
            Some((Some((k, behind)), after)) => {
                let rest = left.remove(k);
                let cleaned = Memory {
                    trace: crate::output::matching::drop_before_last(after.trace, k),
                    ..after
                };
                assert(indices_ok(literals, rest)) by {
                    assert forall|j: int| 0 <= j < rest.len() implies 0 <= #[trigger] rest[j]
                        < literals.len() by {
                        assert(rest[j] == left[if j < k {
                            j
                        } else {
                            j + 1
                        }]);
                    }
                }
                lemma_unordered(f, kind, literals, rest, location, scene, behind, cleaned);
                assert(literals_left(literals, rest) =~= wanted.remove(k));
                to_multiset_remove(wanted, k);
                let r = match_unordered(f, kind, location, ps, rest, scene, behind, cleaned);
                assert(match_unordered(fuel, kind, location, ps, left, scene, lines, mem) == r);
                assert(behind.current == lines.current + 1);
                assert(behind.left() == lines.left() - 1);
                let text = lines.lines[lines.current];
                assert(wanted[k] == text);
                assert(wanted.contains(text));
                if n <= lines.left() {
                    let ahead = lines_ahead(lines, n);
                    assert(ahead[0] == text);
                    assert(ahead.contains(text));
                    assert(ahead.remove(0) =~= lines_ahead(behind, n - 1));
                    to_multiset_remove(ahead, 0);
                    if lines_ahead(behind, n - 1).to_multiset() == wanted.remove(k).to_multiset() {
                        assert(ahead.to_multiset() =~= ahead.to_multiset().remove(text).insert(
                            text,
                        ));
                        assert(wanted.to_multiset() =~= wanted.to_multiset().remove(text).insert(
                            text,
                        ));
                    }
                }
            },
            Some((None, _)) => {
                if n <= lines.left() {
                    let ahead = lines_ahead(lines, n);
                    let text = lines.lines[lines.current];
                    assert(ahead[0] == text);
                    assert(ahead.contains(text));
                    if wanted.contains(text) {
                        let j = choose|j: int| 0 <= j < wanted.len() && wanted[j] == text;
                        assert(literals[left[j]] == text);
                    }
                    assert(ahead.to_multiset().count(text) > 0);
                    assert(wanted.to_multiset().count(text) == 0);
                }
            },
            None => {},
        }
    }
}

/// An `unordered` block of literal lines matches its lines in any order, and
/// nothing else: exactly where the next lines of output are these lines, each
/// as often. It then takes up these lines. Nothing is skipped or rejected, and
/// no line of the output holds trailing white space or escape sequences.
pub proof fn law_unordered_takes_any_order(
    fuel: nat,
    literals: Seq<Seq<char>>,
    location: ScriptLocation,
    scene: Scene,
    lines: LinesView,
    mem: Memory,
)
    requires
        undisturbed(lines),
        0 <= lines.current <= lines.lines.len(),
        forall|i: int| 0 <= i < lines.lines.len() ==> plain_line(#[trigger] lines.lines[i]),
        fuel >= 2 * literals.len() + 9,
    ensures
        ({
            let fits = literals.len() <= lines.left() && lines_ahead(
                lines,
                literals.len() as int,
            ).to_multiset() == literals.to_multiset();
            match match_kind(
                fuel,
                KindView::Unordered(literal_lines(location, literals)),
                location,
                scene,
                lines,
                mem,
            ) {
                Some((Ok(behind), _)) => fits && behind == (LinesView {
                    current: lines.current + literals.len(),
                    ..lines
                }),
                Some((Err(_), _)) => !fits,
                None => false,
            }
        }),
{
    let ps = literal_lines(location, literals);
    let kind = KindView::Unordered(ps);
    let all = Seq::new(ps.len(), |i: int| i);
    let inner = within_block(mem);
    assert(literals_left(literals, all) =~= literals);
    lemma_unordered(
        (fuel - 2) as nat,
        kind,
        literals,
        all,
        location,
        scene,
        lines,
        inner,
    );
    assert(raw_match((fuel - 1) as nat, kind, location, scene, lines, inner) is Some);
}

} // verus!
