//! What the kinds of patterns promise.
use crate::failure::{FailureView, LineView};
use crate::output::matching::{
    literal_matches, match_all, match_any_of, match_kind, match_pattern, match_until, next,
    raw_match, first_match, LinesView, Matched, Memory, Scene,
};
use crate::output::pattern::{bare, KindView, PatternView};
use crate::script::ScriptLocation;
use vstd::prelude::*;

verus! {

/// The memory that a block of patterns starts with.
pub open spec fn within_block(mem: Memory) -> Memory {
    Memory { expects: mem.expects, trace: Seq::empty() }
}

/// A `not` block matches exactly where its pattern does not, and takes up no
/// lines.
pub proof fn law_not_looks_ahead(
    fuel: nat,
    p: PatternView,
    location: ScriptLocation,
    scene: Scene,
    lines: LinesView,
    mem: Memory,
)
    requires
        match_pattern(fuel, p, scene, lines, within_block(mem)) is Some,
    ensures
        match_kind(fuel + 2, KindView::Not(Box::new(p)), location, scene, lines, mem) is Some,
        ({
            let inner = match_pattern(fuel, p, scene, lines, within_block(mem))->Some_0.0;
            let outer = match_kind(
                fuel + 2,
                KindView::Not(Box::new(p)),
                location,
                scene,
                lines,
                mem,
            )->Some_0.0;
            &&& outer is Ok <==> inner is Err
            &&& outer matches Ok(behind) ==> behind == lines
        }),
{
    let kind = KindView::Not(Box::new(p));
    assert(raw_match(fuel + 1, kind, location, scene, lines, within_block(mem)) is Some);
}

/// An `optional` block always matches: what its pattern matches, or nothing.
pub proof fn law_optional_always_matches(
    fuel: nat,
    p: PatternView,
    location: ScriptLocation,
    scene: Scene,
    lines: LinesView,
    mem: Memory,
)
    requires
        match_pattern(fuel, p, scene, lines, within_block(mem)) is Some,
    ensures
        match_kind(fuel + 2, KindView::Optional(Box::new(p)), location, scene, lines, mem) is Some,
        ({
            let inner = match_pattern(fuel, p, scene, lines, within_block(mem))->Some_0.0;
            let outer = match_kind(
                fuel + 2,
                KindView::Optional(Box::new(p)),
                location,
                scene,
                lines,
                mem,
            )->Some_0.0;
            outer == match inner {
                Ok(behind) => Ok(behind),
                Err(_) => Matched::Ok(lines),
            }
        }),
{
    let kind = KindView::Optional(Box::new(p));
    assert(raw_match(fuel + 1, kind, location, scene, lines, within_block(mem)) is Some);
}

/// A `*` takes up as few lines as possible: none where what follows it
/// matches at once.
pub proof fn law_wildcard_is_lazy(
    fuel: nat,
    p: PatternView,
    scene: Scene,
    lines: LinesView,
    mem: Memory,
)
    requires
        match_pattern(fuel, p, scene, lines, mem) is Some,
        match_pattern(fuel, p, scene, lines, mem)->Some_0.0 is Ok,
    ensures
        match_until(fuel + 1, p, scene, lines, mem) == match_pattern(fuel, p, scene, lines, mem),
{
}

/// Nothing is skipped or rejected at a position.
pub open spec fn undisturbed(lines: LinesView) -> bool {
    lines.disabled || (lines.ignored.len() == 0 && lines.rejected.len() == 0)
}

/// Where nothing is skipped or rejected, the next line is the next line.
proof fn lemma_next_undisturbed(fuel: nat, scene: Scene, lines: LinesView, mem: Memory)
    requires
        undisturbed(lines),
        fuel >= 2,
    ensures
        next(fuel, scene, lines, mem) == Some(
            (
                Ok::<(Option<LineView>, LinesView), FailureView>(
                    if lines.next_line() is None {
                        (None, lines)
                    } else {
                        (lines.next_line(), lines.advanced())
                    },
                ),
                mem,
            ),
        ),
{
    if lines.next_line() is Some && !lines.disabled {
        let f = (fuel - 1) as nat;
        let check = lines.without_negatives();
        let quiet = scene.as_ignoring();
        assert(match_any_of(f, lines.ignored, quiet, check, mem) == Some((None::<LinesView>, mem)));
        assert(first_match(f, lines.rejected, quiet, check, mem) == Some(
            (None::<ScriptLocation>, mem),
        ));
    }
}

proof fn lemma_end_undisturbed(
    fuel: nat,
    location: ScriptLocation,
    scene: Scene,
    lines: LinesView,
    mem: Memory,
)
    requires
        undisturbed(lines),
        fuel >= 5,
    ensures
        match_pattern(fuel, bare(location, KindView::End), scene, lines, mem) is Some,
        ({
            let r = match_pattern(fuel, bare(location, KindView::End), scene, lines, mem)->Some_0.0;
            match r {
                Ok(behind) => lines.next_line() is None && behind == lines,
                Err(_) => lines.next_line() is Some,
            }
        }),
{
    let p = bare(location, KindView::End);
    let with = lines.with_patterns(p.ignore, p.reject);
    assert(with.ignored =~= lines.ignored);
    assert(with.rejected =~= lines.rejected);
    assert(with == lines);
    lemma_next_undisturbed((fuel - 3) as nat, scene, lines, mem);
    assert(raw_match((fuel - 2) as nat, KindView::End, location, scene, lines, mem) is Some);
    assert(match_kind((fuel - 1) as nat, KindView::End, location, scene, lines, mem) is Some);
}

/// A `*` at the end matches any output to its end, where nothing is skipped or
/// rejected.
pub proof fn law_wildcard_matches_any_output(
    location: ScriptLocation,
    scene: Scene,
    lines: LinesView,
    mem: Memory,
)
    requires
        undisturbed(lines),
        0 <= lines.current <= lines.lines.len(),
    ensures
        ({
            let r = match_until(
                lines.left() + 6,
                bare(location, KindView::End),
                scene,
                lines,
                mem,
            );
            r matches Some((Ok(behind), _)) && behind == (LinesView {
                current: lines.lines.len() as int,
                ..lines
            })
        }),
    decreases lines.left(),
{
    let p = bare(location, KindView::End);
    let f = (lines.left() + 5) as nat;
    lemma_end_undisturbed(f, location, scene, lines, mem);
    if lines.next_line() is Some {
        let after = match_pattern(f, p, scene, lines, mem)->Some_0.1;
        lemma_next_undisturbed(f, scene, lines, after);
        law_wildcard_matches_any_output(location, scene, lines.advanced(), after);
    }
}

/// The patterns of literal lines, and the end of the output.
pub open spec fn exact_lines(location: ScriptLocation, literals: Seq<Seq<char>>) -> Seq<PatternView> {
    literals.map_values(|s: Seq<char>| bare(location, KindView::Literal(s))).push(
        bare(location, KindView::End),
    )
}

pub(crate) proof fn lemma_literal_undisturbed(
    fuel: nat,
    literal: Seq<char>,
    location: ScriptLocation,
    scene: Scene,
    lines: LinesView,
    mem: Memory,
)
    requires
        undisturbed(lines),
        fuel >= 5,
    ensures
        match_pattern(fuel, bare(location, KindView::Literal(literal)), scene, lines, mem) is Some,
        ({
            let r = match_pattern(
                fuel,
                bare(location, KindView::Literal(literal)),
                scene,
                lines,
                mem,
            )->Some_0.0;
            let fits = lines.next_line() is Some && literal_matches(
                literal,
                lines.next_line()->Some_0.text,
            );
            match r {
                Ok(behind) => fits && behind == lines.advanced(),
                Err(_) => !fits,
            }
        }),
{
    let kind = KindView::Literal(literal);
    let p = bare(location, kind);
    let with = lines.with_patterns(p.ignore, p.reject);
    assert(with.ignored =~= lines.ignored);
    assert(with.rejected =~= lines.rejected);
    assert(with == lines);
    lemma_next_undisturbed((fuel - 3) as nat, scene, lines, mem);
    assert(raw_match((fuel - 2) as nat, kind, location, scene, lines, mem) is Some);
    assert(match_kind((fuel - 1) as nat, kind, location, scene, lines, mem) is Some);
}

/// Where nothing is skipped or rejected, a list of literal lines matches
/// output exactly where the lines left are as many and match one by one; and
/// it then takes up all of them.
pub proof fn law_literal_lines_match_exact_output(
    literals: Seq<Seq<char>>,
    location: ScriptLocation,
    scene: Scene,
    lines: LinesView,
    mem: Memory,
)
    requires
        undisturbed(lines),
        0 <= lines.current <= lines.lines.len(),
    ensures
        match_all(
            literals.len() + 7,
            exact_lines(location, literals),
            scene,
            lines,
            mem,
        ) is Some,
        ({
            let r = match_all(
                literals.len() + 7,
                exact_lines(location, literals),
                scene,
                lines,
                mem,
            )->Some_0.0;
            let fits = lines.left() == literals.len() && forall|i: int|
                0 <= i < literals.len() ==> literal_matches(
                    #[trigger] literals[i],
                    lines.lines[lines.current + i],
                );
            match r {
                Ok(behind) => fits && behind.current == lines.lines.len(),
                Err(_) => !fits,
            }
        }),
    decreases literals.len(),
{
    let ps = exact_lines(location, literals);
    let f = (literals.len() + 6) as nat;
    if literals.len() == 0 {
        lemma_end_undisturbed(f, location, scene, lines, mem);
        assert(ps[0] == bare(location, KindView::End));
        assert(ps.skip(1) =~= Seq::empty());
        if let Some((Ok(behind), after)) = match_pattern(f, ps[0], scene, lines, mem) {
            assert(match_all(f, ps.skip(1), scene, behind, after) == Some(
                (Matched::Ok(behind), after),
            ));
        }
    } else {
        assert(ps[0] == bare(location, KindView::Literal(literals[0])));
        lemma_literal_undisturbed(f, literals[0], location, scene, lines, mem);
        let rest = literals.skip(1);
        assert(ps.skip(1) =~= exact_lines(location, rest));
        let (r, after) = match_pattern(f, ps[0], scene, lines, mem)->Some_0;
        if r is Ok {
            let behind = lines.advanced();
            law_literal_lines_match_exact_output(rest, location, scene, behind, after);
            let rest_fits = forall|i: int|
                0 <= i < rest.len() ==> literal_matches(
                    #[trigger] rest[i],
                    behind.lines[behind.current + i],
                );
            let fits = forall|i: int|
                0 <= i < literals.len() ==> literal_matches(
                    #[trigger] literals[i],
                    lines.lines[lines.current + i],
                );
            if rest_fits {
                assert forall|i: int| 0 <= i < literals.len() implies literal_matches(
                    #[trigger] literals[i],
                    lines.lines[lines.current + i],
                ) by {
                    if i > 0 {
                        assert(rest[i - 1] == literals[i]);
                        assert(behind.lines[behind.current + (i - 1)] == lines.lines[lines.current
                            + i]);
                    }
                }
            }
            if fits {
                assert forall|i: int| 0 <= i < rest.len() implies literal_matches(
                    #[trigger] rest[i],
                    behind.lines[behind.current + i],
                ) by {
                    assert(literals[i + 1] == rest[i]);
                    assert(lines.lines[lines.current + (i + 1)] == behind.lines[behind.current
                        + i]);
                }
            }
        } else {
            if lines.next_line() is Some {
                assert(!literal_matches(literals[0], lines.lines[lines.current + 0]));
            }
        }
    }
}

} // verus!
