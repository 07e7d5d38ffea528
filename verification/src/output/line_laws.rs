//! What patterns of single lines promise, and what skipping and rejecting do.
use crate::failure::{FailureView, LineView, NoteView};
use crate::output::ansi::ansi_stripped;
use crate::output::grok::{match_result, GrokView};
use crate::output::laws::undisturbed;
use crate::output::matching::{
    first_match, learn, match_all, match_any_of, match_kind, match_pattern, match_until, next,
    raw_match, LinesView, Matched, Memory, Scene,
};
use crate::output::pattern::{KindView, PatternView};
use crate::script::ScriptLocation;
use crate::util::assoc::entry;
use crate::util::text::{trimmed_end, white};
use crate::util::text_laws::{is_blank, law_trim_end};
use vstd::prelude::*;

verus! {

/// Whether a line is a literal and white space behind it.
pub open spec fn is_with_blank_end(text: Seq<char>, literal: Seq<char>) -> bool {
    (literal.len() > 0 ==> !white(literal.last())) && exists|blank: Seq<char>|
        is_blank(blank) && text == #[trigger] (literal + blank)
}

proof fn lemma_trimmed_end_is(text: Seq<char>) -> (blank: Seq<char>)
    ensures
        is_blank(blank),
        text == trimmed_end(text) + blank,
        trimmed_end(text).len() > 0 ==> !white(trimmed_end(text).last()),
    decreases text.len(),
{
    if text.len() > 0 && white(text.last()) {
        let blank = lemma_trimmed_end_is(text.drop_last());
        let all = blank.push(text.last());
        assert(text =~= text.drop_last().push(text.last()));
        assert(trimmed_end(text) == trimmed_end(text.drop_last()));
        assert(text =~= trimmed_end(text) + all);
        all
    } else {
        let none = Seq::<char>::empty();
        assert(text =~= text + none);
        none
    }
}

/// A literal matches a line of output if and only if the line is the literal
/// with white space behind it, or the line holds an escape character and is
/// the literal once its escape sequences are stripped. It then takes up the
/// line, and otherwise the failure names it. There must be a line.
pub proof fn law_literal_is_the_line(
    fuel: nat,
    literal: Seq<char>,
    location: ScriptLocation,
    scene: Scene,
    lines: LinesView,
    mem: Memory,
)
    requires
        fuel >= 2,
    ensures
        ({
            let r = match_kind(fuel, KindView::Literal(literal), location, scene, lines, mem);
            match next((fuel - 2) as nat, scene, lines, mem) {
                Some((Ok((Some(line), behind)), _)) => {
                    let fits = is_with_blank_end(line.text, literal) || (exists|i: int|
                        0 <= i < line.text.len() && line.text[i] == '\x1b') && ansi_stripped(
                        line.text,
                    ) == literal;
                    match r {
                        Some((Ok(end), _)) => fits && end == behind,
                        Some((Err(failure), _)) => !fits && failure.output_line == Some(line)
                            && failure.location == location,
                        None => false,
                    }
                },
                Some((Ok((None, _)), _)) => r matches Some((Err(failure), _))
                    && failure.output_line is None && failure.location == location,
                Some((Err(rejection), _)) => r matches Some((Err(failure), _)) && failure
                    == rejection,
                None => r is None,
            }
        }),
{
    let kind = KindView::Literal(literal);
    let raw = raw_match((fuel - 1) as nat, kind, location, scene, lines, mem);
    assert(raw is None ==> match_kind(fuel, kind, location, scene, lines, mem) is None);
    assert(raw is Some ==> match_kind(fuel, kind, location, scene, lines, mem) is Some);
    if let Some((Ok((Some(line), _)), _)) = next((fuel - 2) as nat, scene, lines, mem) {
        let text = line.text;
        let blank = lemma_trimmed_end_is(text);
        if trimmed_end(text) == literal {
            assert(text == literal + blank);
        }
        if is_with_blank_end(text, literal) {
            let other = choose|blank: Seq<char>| is_blank(blank) && text == #[trigger] (literal
                + blank);
            law_trim_end(literal, other);
        }
        if text.contains('\x1b') {
            let i = choose|i: int| 0 <= i < text.len() && text[i] == '\x1b';
            assert(text[i] == '\x1b');
        }
    }
}

/// The names that were found a value for, and their values.
pub type Found = Map<Seq<char>, Seq<char>>;

/// What a line has that a grok pattern is held against: itself, or where
/// nothing is found and it holds an escape character, itself without escape
/// sequences.
pub open spec fn is_found(g: GrokView, text: Seq<char>, found: Option<Found>) -> bool {
    let as_it_is = match_result(g.prepared->Some_0, g.pattern, text);
    if as_it_is is None && (exists|i: int| 0 <= i < text.len() && text[i] == '\x1b') {
        found == match_result(g.prepared->Some_0, g.pattern, ansi_stripped(text))
    } else {
        found == as_it_is
    }
}

/// Whether what was found agrees with the values that names had before.
pub open spec fn agrees(expects: Found, aliases: Seq<Seq<char>>, found: Found) -> bool {
    forall|i: int|
        0 <= i < aliases.len() && found.contains_key(#[trigger] aliases[i]) && expects.contains_key(
            aliases[i],
        ) ==> expects[aliases[i]] == found[aliases[i]]
}

/// Whether names that nothing was found for keep their values.
pub open spec fn keeps_others(
    had: Found,
    aliases: Seq<Seq<char>>,
    found: Found,
    after: Found,
) -> bool {
    forall|name: Seq<char>|
        #![trigger after.contains_key(name)]
        #![trigger after[name]]
        !(found.contains_key(name) && aliases.contains(name)) ==> after.contains_key(name)
            == had.contains_key(name) && (had.contains_key(name) ==> after[name] == had[name])
}

proof fn lemma_learn(expects: Found, aliases: Seq<Seq<char>>, found: Found)
    ensures
        ({
            let (after, conflict) = learn(expects, aliases, found);
            &&& conflict is None <==> agrees(expects, aliases, found)
            &&& conflict is None ==> forall|i: int|
                0 <= i < aliases.len() && found.contains_key(#[trigger] aliases[i])
                    ==> after.contains_key(aliases[i]) && after[aliases[i]] == found[aliases[i]]
            &&& keeps_others(expects, aliases, found, after)
        }),
    decreases aliases.len(),
{
    if aliases.len() > 0 {
        let name = aliases[0];
        let rest = aliases.skip(1);
        assert(aliases.contains(name));
        assert forall|n: Seq<char>| rest.contains(n) implies aliases.contains(n) by {
            let i = choose|i: int| 0 <= i < rest.len() && rest[i] == n;
            assert(aliases[i + 1] == n);
        }
        match entry(found, name) {
            None => {
                lemma_learn(expects, rest, found);
                lemma_agrees_first(expects, aliases, found);
                lemma_learned_first(expects, aliases, found, expects);
            },
            Some(value) => {
                let more = expects.insert(name, value);
                lemma_agrees_first(expects, aliases, found);
                if !(expects.contains_key(name) && expects[name] != value) {
                    lemma_learn(more, rest, found);
                    lemma_agrees_more(expects, rest, found, name);
                    lemma_learned_first(expects, aliases, found, more);
                }
            },
        }
    }
}

proof fn lemma_agrees_first(expects: Found, aliases: Seq<Seq<char>>, found: Found)
    requires
        aliases.len() > 0,
    ensures
        agrees(expects, aliases, found) == ((found.contains_key(aliases[0])
            && expects.contains_key(aliases[0]) ==> expects[aliases[0]] == found[aliases[0]])
            && agrees(expects, aliases.skip(1), found)),
{
    let rest = aliases.skip(1);
    if agrees(expects, aliases, found) {
        assert forall|i: int|
            0 <= i < rest.len() && found.contains_key(#[trigger] rest[i]) && expects.contains_key(
                rest[i],
            ) implies expects[rest[i]] == found[rest[i]] by {
            assert(rest[i] == aliases[i + 1]);
        }
    }
    if agrees(expects, rest, found) && (found.contains_key(aliases[0]) && expects.contains_key(
        aliases[0],
    ) ==> expects[aliases[0]] == found[aliases[0]]) {
        assert forall|i: int|
            0 <= i < aliases.len() && found.contains_key(#[trigger] aliases[i])
                && expects.contains_key(aliases[i]) implies expects[aliases[i]]
            == found[aliases[i]] by {
            if i > 0 {
                assert(aliases[i] == rest[i - 1]);
            }
        }
    }
}

proof fn lemma_agrees_more(expects: Found, rest: Seq<Seq<char>>, found: Found, name: Seq<char>)
    requires
        found.contains_key(name),
        expects.contains_key(name) ==> expects[name] == found[name],
    ensures
        agrees(expects.insert(name, found[name]), rest, found) == agrees(expects, rest, found),
{
    let more = expects.insert(name, found[name]);
    if agrees(expects, rest, found) {
        assert forall|i: int|
            0 <= i < rest.len() && found.contains_key(#[trigger] rest[i]) && more.contains_key(
                rest[i],
            ) implies more[rest[i]] == found[rest[i]] by {
            if rest[i] != name {
                assert(expects.contains_key(rest[i]));
            }
        }
    }
    if agrees(more, rest, found) {
        assert forall|i: int|
            0 <= i < rest.len() && found.contains_key(#[trigger] rest[i]) && expects.contains_key(
                rest[i],
            ) implies expects[rest[i]] == found[rest[i]] by {
            assert(more.contains_key(rest[i]));
        }
    }
}

/// The first name keeps its value while the others are learned.
proof fn lemma_learned_first(
    expects: Found,
    aliases: Seq<Seq<char>>,
    found: Found,
    more: Found,
)
    requires
        aliases.len() > 0,
        found.contains_key(aliases[0]) ==> more.contains_key(aliases[0]) && more[aliases[0]]
            == found[aliases[0]],
        ({
            let rest = aliases.skip(1);
            let (after, conflict) = learn(more, rest, found);
            &&& conflict is None ==> forall|i: int|
                0 <= i < rest.len() && found.contains_key(#[trigger] rest[i])
                    ==> after.contains_key(rest[i]) && after[rest[i]] == found[rest[i]]
            &&& keeps_others(more, rest, found, after)
        }),
    ensures
        ({
            let (after, conflict) = learn(more, aliases.skip(1), found);
            conflict is None ==> forall|i: int|
                0 <= i < aliases.len() && found.contains_key(#[trigger] aliases[i])
                    ==> after.contains_key(aliases[i]) && after[aliases[i]] == found[aliases[i]]
        }),
{
    let rest = aliases.skip(1);
    let (after, conflict) = learn(more, rest, found);
    if conflict is None {
        assert forall|i: int|
            0 <= i < aliases.len() && found.contains_key(
                #[trigger] aliases[i],
            ) implies after.contains_key(aliases[i]) && after[aliases[i]] == found[aliases[i]] by {
            if i > 0 {
                assert(aliases[i] == rest[i - 1]);
            } else if rest.contains(aliases[0]) {
                let j = choose|j: int| 0 <= j < rest.len() && rest[j] == aliases[0];
                assert(found.contains_key(rest[j]));
            } else {
                assert(after.contains_key(aliases[0]) == more.contains_key(aliases[0]));
            }
        }
    }
}

/// A grok pattern matches a line of output if and only if its source is found
/// in the line, or in the line without its escape sequences, and no name that
/// it keeps a value for had another value before. It then takes up the line,
/// and each of its names that took part has the value that was found; other
/// names keep theirs.
pub proof fn law_grok_names_keep_one_value(
    fuel: nat,
    g: GrokView,
    found: Option<Found>,
    location: ScriptLocation,
    scene: Scene,
    lines: LinesView,
    mem: Memory,
)
    requires
        fuel >= 2,
        next((fuel - 2) as nat, scene, lines, mem) matches Some((Ok((Some(line), _)), _))
            && is_found(g, line.text, found),
    ensures
        ({
            let (line, behind, had) = match next((fuel - 2) as nat, scene, lines, mem)->Some_0 {
                (Ok((line, behind)), after) => (line->Some_0, behind, after.expects),
                _ => arbitrary(),
            };
            match match_kind(fuel, KindView::Pattern(g), location, scene, lines, mem) {
                Some((Ok(end), after)) => {
                    &&& end == behind
                    &&& found is Some
                    &&& agrees(had, g.aliases, found->Some_0)
                    &&& forall|i: int|
                        0 <= i < g.aliases.len() && found->Some_0.contains_key(
                            #[trigger] g.aliases[i],
                        ) ==> after.expects.contains_key(g.aliases[i]) && after.expects[g.aliases[i]]
                            == found->Some_0[g.aliases[i]]
                    &&& keeps_others(had, g.aliases, found->Some_0, after.expects)
                },
                Some((Err(failure), _)) => {
                    &&& failure.output_line == Some(line)
                    &&& failure.location == location
                    &&& found is None || !agrees(had, g.aliases, found->Some_0)
                },
                None => false,
            }
        }),
{
    let kind = KindView::Pattern(g);
    let raw = raw_match((fuel - 1) as nat, kind, location, scene, lines, mem);
    assert(raw is None ==> match_kind(fuel, kind, location, scene, lines, mem) is None);
    assert(raw is Some ==> match_kind(fuel, kind, location, scene, lines, mem) is Some);
    if let Some((Ok((Some(line), _)), after)) = next((fuel - 2) as nat, scene, lines, mem) {
        let text = line.text;
        if text.contains('\x1b') {
            let i = choose|i: int| 0 <= i < text.len() && text[i] == '\x1b';
            assert(text[i] == '\x1b');
        }
        if found is Some {
            lemma_learn(after.expects, g.aliases, found->Some_0);
        }
    }
}

/// The end matches if and only if no line is left, what is skipped aside; and
/// `none` always matches and takes up nothing.
pub proof fn law_end_and_nothing(
    fuel: nat,
    location: ScriptLocation,
    scene: Scene,
    lines: LinesView,
    mem: Memory,
)
    requires
        fuel >= 2,
    ensures
        ({
            let r = match_kind(fuel, KindView::End, location, scene, lines, mem);
            match next((fuel - 2) as nat, scene, lines, mem) {
                Some((Ok((None, behind)), _)) => r matches Some((Ok(end), _)) && end == behind,
                Some((Ok((Some(line), _)), _)) => r matches Some((Err(failure), _))
                    && failure.output_line == Some(line) && failure.location == location,
                Some((Err(rejection), _)) => r matches Some((Err(failure), _)) && failure
                    == rejection,
                None => r is None,
            }
        }),
        match_kind(fuel, KindView::Nothing, location, scene, lines, mem) matches Some((Ok(end), _))
            && end == lines,
{
    let kind = KindView::End;
    let raw = raw_match((fuel - 1) as nat, kind, location, scene, lines, mem);
    assert(raw is None ==> match_kind(fuel, kind, location, scene, lines, mem) is None);
    assert(raw is Some ==> match_kind(fuel, kind, location, scene, lines, mem) is Some);
    assert(raw_match(
        (fuel - 1) as nat,
        KindView::Nothing,
        location,
        scene,
        lines,
        mem,
    ) is Some);
}

/// A position behind one more line of the same output.
pub open spec fn one_line_behind(lines: LinesView, behind: LinesView) -> bool {
    &&& behind.lines == lines.lines
    &&& behind.current == lines.current + 1
    &&& behind.ignored == lines.ignored
    &&& behind.rejected == lines.rejected
    &&& behind.disabled == lines.disabled
}

/// Where nothing is skipped or rejected, the next line is the line at the
/// position, under its number, and the position moves behind it; at the end
/// there is none.
pub proof fn law_lines_come_in_order(fuel: nat, scene: Scene, lines: LinesView, mem: Memory)
    requires
        undisturbed(lines),
        fuel >= 2,
        0 <= lines.current,
    ensures
        next(fuel, scene, lines, mem) matches Some((Ok((line, behind)), after)) && after == mem && (
        if lines.current < lines.lines.len() {
            line == Some(
                LineView { number: lines.current, text: lines.lines[lines.current] },
            ) && one_line_behind(lines, behind)
        } else {
            line is None && behind == lines
        }),
{
    if lines.next_line() is Some && !lines.disabled {
        let f = (fuel - 1) as nat;
        let check = lines.without_negatives();
        let quiet = scene.as_ignoring();
        assert(match_any_of(f, lines.ignored, quiet, check, mem) == Some((None::<LinesView>, mem)));
        assert(first_match(f, lines.rejected, quiet, check, mem) == Some(
            (None::<ScriptLocation>, mem),
        ));
    }
}

/// The same position, where patterns to skip or to reject are tried: nothing
/// is skipped or rejected meanwhile.
pub open spec fn for_trial(lines: LinesView, trial: LinesView) -> bool {
    &&& trial.lines == lines.lines
    &&& trial.current == lines.current
    &&& trial.ignored == lines.ignored
    &&& trial.rejected == lines.rejected
    &&& trial.disabled
}

/// Where the first pattern that is to be skipped matches, what it matches is
/// skipped: the next line is the one behind it.
pub proof fn law_ignored_output_is_skipped(
    fuel: nat,
    scene: Scene,
    lines: LinesView,
    trial: LinesView,
    skipped: LinesView,
    mem: Memory,
    after: Memory,
)
    requires
        fuel >= 3,
        !lines.disabled,
        0 <= lines.current < lines.lines.len(),
        lines.ignored.len() > 0,
        for_trial(lines, trial),
        match_pattern(
            (fuel - 2) as nat,
            lines.ignored[0],
            Scene { ignoring: true, ..scene },
            trial,
            mem,
        ) == Some((Matched::Ok(skipped), after)),
    ensures
        next(fuel, scene, lines, mem) == next(
            (fuel - 1) as nat,
            scene,
            LinesView { disabled: false, ..skipped },
            after,
        ),
{
    assert(lines.without_negatives() == trial);
    assert(match_any_of(
        (fuel - 1) as nat,
        lines.ignored,
        scene.as_ignoring(),
        trial,
        mem,
    ) == Some((Some(skipped), after)));
}

/// Where nothing that is to be skipped matches, and the first pattern that is
/// to be rejected matches, the output is rejected: the failure names the
/// pattern and the line.
pub proof fn law_rejected_output_is_refused(
    fuel: nat,
    scene: Scene,
    lines: LinesView,
    trial: LinesView,
    mem: Memory,
    tried: Memory,
)
    requires
        fuel >= 3,
        !lines.disabled,
        0 <= lines.current < lines.lines.len(),
        lines.rejected.len() > 0,
        for_trial(lines, trial),
        match_any_of(
            (fuel - 1) as nat,
            lines.ignored,
            Scene { ignoring: true, ..scene },
            trial,
            mem,
        ) == Some((None::<LinesView>, tried)),
        match_pattern(
            (fuel - 2) as nat,
            lines.rejected[0],
            Scene { ignoring: true, ..scene },
            trial,
            tried,
        ) matches Some((Ok(_), _)),
    ensures
        next(fuel, scene, lines, mem) matches Some((Err(failure), _)) && failure.location
            == lines.rejected[0].location && failure.output_line == Some(
            LineView { number: lines.current, text: lines.lines[lines.current] },
        ) && failure.pattern_type == "reject"@,
{
    assert(lines.without_negatives() == trial);
    let quiet = scene.as_ignoring();
    let (_, after) = match_pattern(
        (fuel - 2) as nat,
        lines.rejected[0],
        quiet,
        trial,
        tried,
    )->Some_0;
    assert(first_match((fuel - 1) as nat, lines.rejected, quiet, trial, tried) == Some(
        (Some(lines.rejected[0].location), after),
    ));
}

/// What a pattern skips and rejects is skipped and rejected while it is
/// matched, behind what is skipped and rejected already.
pub proof fn law_own_patterns_are_in_force(
    fuel: nat,
    p: PatternView,
    scene: Scene,
    lines: LinesView,
    within: LinesView,
    mem: Memory,
)
    requires
        fuel >= 1,
        within == (LinesView {
            ignored: lines.ignored + p.ignore,
            rejected: lines.rejected + p.reject,
            ..lines
        }),
    ensures
        match_pattern(fuel, p, scene, lines, mem) == match_kind(
            (fuel - 1) as nat,
            p.kind,
            p.location,
            scene,
            within,
            mem,
        ),
{
}

/// A sequence matches where its patterns match one behind the other: what is
/// left behind the first is matched by the rest, and the first that does not
/// match is why the sequence does not.
pub proof fn law_sequences_go_on(
    fuel: nat,
    p: PatternView,
    rest: Seq<PatternView>,
    scene: Scene,
    lines: LinesView,
    mem: Memory,
)
    requires
        fuel >= 1,
    ensures
        match match_pattern((fuel - 1) as nat, p, scene, lines, mem) {
            Some((Ok(behind), after)) => match_all(fuel, seq![p] + rest, scene, lines, mem)
                == match_all((fuel - 1) as nat, rest, scene, behind, after),
            Some((Err(failure), after)) => match_all(fuel, seq![p] + rest, scene, lines, mem)
                == Some((Matched::Err(failure), after)),
            None => match_all(fuel, seq![p] + rest, scene, lines, mem) is None,
        },
        match_all(fuel, Seq::empty(), scene, lines, mem) == Some((Matched::Ok(lines), mem)),
{
    assert((seq![p] + rest)[0] == p);
    assert((seq![p] + rest).skip(1) =~= rest);
}

/// A `*` passes over one more line where what follows it does not match yet,
/// and where no line is left, the failure is that of what follows it.
pub proof fn law_wildcards_pass_lines(
    fuel: nat,
    p: PatternView,
    scene: Scene,
    lines: LinesView,
    mem: Memory,
    failure: FailureView,
    tried: Memory,
)
    requires
        fuel >= 1,
        match_pattern((fuel - 1) as nat, p, scene, lines, mem) == Some(
            (Matched::Err(failure), tried),
        ),
    ensures
        match next((fuel - 1) as nat, scene, lines, tried) {
            Some((Ok((Some(_), behind)), after)) => match_until(fuel, p, scene, lines, mem)
                == match_until((fuel - 1) as nat, p, scene, behind, after),
            Some((Ok((None, _)), after)) => match_until(fuel, p, scene, lines, mem) == Some(
                (Matched::Err(failure), after),
            ),
            Some((Err(rejection), after)) => match_until(fuel, p, scene, lines, mem) == Some(
                (Matched::Err(rejection), after),
            ),
            None => match_until(fuel, p, scene, lines, mem) is None,
        },
{
}

/// A pattern that stands in a sequence block or follows a `*` is matched as it
/// is by itself: the blocks add nothing but a trace.
pub proof fn law_blocks_match_their_patterns(
    fuel: nat,
    ps: Seq<PatternView>,
    p: PatternView,
    location: ScriptLocation,
    scene: Scene,
    lines: LinesView,
    mem: Memory,
    inner: Memory,
)
    requires
        fuel >= 2,
        inner.expects == mem.expects,
        inner.trace.len() == 0,
    ensures
        match match_all((fuel - 2) as nat, ps, scene, lines, inner) {
            Some((r, after)) => match_kind(
                fuel,
                KindView::Sequence(ps),
                location,
                scene,
                lines,
                mem,
            ) matches Some((same, done)) && same == r && done.expects == after.expects,
            None => match_kind(fuel, KindView::Sequence(ps), location, scene, lines, mem) is None,
        },
        match match_until((fuel - 2) as nat, p, scene, lines, inner) {
            Some((r, after)) => match_kind(
                fuel,
                KindView::Any(Box::new(p)),
                location,
                scene,
                lines,
                mem,
            ) matches Some((same, done)) && same == r && done.expects == after.expects,
            None => match_kind(
                fuel,
                KindView::Any(Box::new(p)),
                location,
                scene,
                lines,
                mem,
            ) is None,
        },
{
    assert(inner.trace =~= Seq::empty());
    assert(inner == (Memory { expects: mem.expects, trace: Seq::empty() }));
    let sequence = KindView::Sequence(ps);
    let any = KindView::Any(Box::new(p));
    let raw = raw_match((fuel - 1) as nat, sequence, location, scene, lines, inner);
    assert(raw is None ==> match_kind(fuel, sequence, location, scene, lines, mem) is None);
    assert(raw is Some ==> match_kind(fuel, sequence, location, scene, lines, mem) is Some);
    let raw = raw_match((fuel - 1) as nat, any, location, scene, lines, inner);
    assert(raw is None ==> match_kind(fuel, any, location, scene, lines, mem) is None);
    assert(raw is Some ==> match_kind(fuel, any, location, scene, lines, mem) is Some);
}

/// Where the value found for a name is not the one that it had, the trace says
/// so with both values.
pub proof fn law_conflicts_are_noted(
    fuel: nat,
    g: GrokView,
    location: ScriptLocation,
    scene: Scene,
    lines: LinesView,
    mem: Memory,
    name: Seq<char>,
    found: Found,
)
    requires
        fuel >= 2,
        g.aliases == seq![name],
        found.contains_key(name),
        next((fuel - 2) as nat, scene, lines, mem) matches Some((Ok((Some(line), _)), after))
            && is_found(g, line.text, Some(found)) && after.expects.contains_key(name)
            && after.expects[name] != found[name],
    ensures
        ({
            let had = next((fuel - 2) as nat, scene, lines, mem)->Some_0.1.expects[name];
            match_kind(fuel, KindView::Pattern(g), location, scene, lines, mem) matches Some(
                (Err(_), after),
            ) && after.trace.len() > 0 && !after.trace.last().succeeded && after.trace.last().note
                == Some(NoteView::AliasMismatch(had, found[name]))
        }),
{
    let kind = KindView::Pattern(g);
    let raw = raw_match((fuel - 1) as nat, kind, location, scene, lines, mem);
    if let Some((Ok((Some(line), _)), after)) = next((fuel - 2) as nat, scene, lines, mem) {
        let text = line.text;
        if text.contains('\x1b') {
            let i = choose|i: int| 0 <= i < text.len() && text[i] == '\x1b';
            assert(text[i] == '\x1b');
        }
        assert(learn(after.expects, g.aliases, found).1 == Some(
            (after.expects[name], found[name]),
        ));
        assert(raw is Some);
        assert(match_kind(fuel, kind, location, scene, lines, mem) is Some);
    }
}

} // verus!
