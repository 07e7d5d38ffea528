//! Which scripts are read, and what is told of those that are not.
use crate::parser::v0::parse::parsed_lines;
use crate::parser::v0::patterns::ProblemView;
use crate::parser::{
    all_errors, block_includes, included, includes_of, parsed_script, script_for, ReadResult,
    ScriptReadError,
};
use crate::script::{
    plain_error, script_lines, IfConditionView, InternalCommandView, Script, ScriptBlockView,
    ScriptCommandView, ScriptErrorType, ScriptFile, ScriptLocation,
};
use crate::util::shell::ShellBitView;
use crate::util::text::lines_of;
use vstd::prelude::*;

verus! {

/// A script is read line by line where its first line is one of the three
/// headers, and is of no known version where it is not.
pub proof fn law_first_line_tells_the_version(file: ScriptFile, script: Seq<char>)
    ensures
        ({
            let lines = lines_of(script);
            let known = lines.len() > 0 && (lines[0] == "#!/usr/bin/env crok --v0"@ || lines[0]
                == "#!/usr/bin/env clitest --v0"@ || lines[0] == "#!/usr/bin/env clitest"@);
            parsed_script(file, script) == if known {
                parsed_lines(script_lines(file, script))
            } else {
                Err(
                    ProblemView::Script(
                        plain_error(
                            ScriptErrorType::InvalidVersion,
                            ScriptLocation { file, line: 1 },
                        ),
                    ),
                )
            }
        }),
{
}

/// The scripts that a script runs are listed in the order in which its parts
/// stand.
pub proof fn law_scripts_are_listed_in_order(a: Seq<ScriptBlockView>, b: Seq<ScriptBlockView>)
    ensures
        includes_of(a + b) == includes_of(a) + includes_of(b),
    decreases b.len(),
{
    if b.len() == 0 {
        assert(a + b =~= a);
        assert(includes_of(a) + includes_of(b) =~= includes_of(a));
    } else {
        law_scripts_are_listed_in_order(a, b.drop_last());
        assert((a + b).drop_last() =~= a + b.drop_last());
        assert((a + b).last() == b.last());
        assert(includes_of(a + b) =~= includes_of(a) + includes_of(b));
    }
}

/// A script is run where a command says so, and where one does so within a
/// block, whatever runs the block. No other part runs a script.
pub proof fn law_scripts_are_found_in_blocks(
    location: ScriptLocation,
    path: Seq<char>,
    command: ScriptCommandView,
    other: InternalCommandView,
    condition: IfConditionView,
    name: Seq<char>,
    values: Seq<ShellBitView>,
    blocks: Seq<ScriptBlockView>,
)
    ensures
        ({
            let one = |b: ScriptBlockView| includes_of(seq![b]);
            let run = InternalCommandView::Include(path);
            &&& one(ScriptBlockView::InternalCommand(location, run)) == seq![(location, path)]
            &&& !(other is Include) ==> one(
                ScriptBlockView::InternalCommand(location, other),
            ).len() == 0
            &&& one(ScriptBlockView::Background(blocks)) == includes_of(blocks)
            &&& one(ScriptBlockView::Defer(blocks)) == includes_of(blocks)
            &&& one(ScriptBlockView::Retry(blocks)) == includes_of(blocks)
            &&& one(ScriptBlockView::If(condition, blocks)) == includes_of(blocks)
            &&& one(ScriptBlockView::For(name, values, blocks)) == includes_of(blocks)
            &&& one(ScriptBlockView::Command(command)).len() == 0
        }),
{
    let none = Seq::<(ScriptLocation, Seq<char>)>::empty();
    assert(includes_of(Seq::empty()) =~= none);
    let run = InternalCommandView::Include(path);
    lemma_one(ScriptBlockView::InternalCommand(location, run));
    lemma_one(ScriptBlockView::InternalCommand(location, other));
    lemma_one(ScriptBlockView::Background(blocks));
    lemma_one(ScriptBlockView::Defer(blocks));
    lemma_one(ScriptBlockView::Retry(blocks));
    lemma_one(ScriptBlockView::If(condition, blocks));
    lemma_one(ScriptBlockView::For(name, values, blocks));
    lemma_one(ScriptBlockView::Command(command));
}

proof fn lemma_one(b: ScriptBlockView)
    ensures
        includes_of(seq![b]) == block_includes(b),
{
    let one = seq![b];
    assert(one.drop_last() =~= Seq::empty());
    assert(one.last() == b);
    assert(includes_of(Seq::<ScriptBlockView>::empty()) =~= Seq::empty());
    assert(includes_of(one) =~= block_includes(b));
}

/// All errors are told of the files that were not read, in their order, and
/// none of those that were.
pub proof fn law_all_errors_are_told(
    a: Seq<(String, ReadResult)>,
    b: Seq<(String, ReadResult)>,
    name: String,
    script: Script,
    errors: Vec<ScriptReadError>,
)
    ensures
        all_errors(a + b) == all_errors(a) + all_errors(b),
        all_errors(seq![(name, Ok::<Script, Vec<ScriptReadError>>(script))]).len() == 0,
        all_errors(seq![(name, Err::<Script, Vec<ScriptReadError>>(errors))]) == errors@,
    decreases b.len(),
{
    let none = Seq::<ScriptReadError>::empty();
    if b.len() == 0 {
        assert(a + b =~= a);
        assert(all_errors(a) + all_errors(b) =~= all_errors(a));
    } else {
        law_all_errors_are_told(a, b.drop_last(), name, script, errors);
        assert((a + b).drop_last() =~= a + b.drop_last());
        assert((a + b).last() == b.last());
        assert(all_errors(a + b) =~= all_errors(a) + all_errors(b));
    }
    let good = seq![(name, Ok::<Script, Vec<ScriptReadError>>(script))];
    let bad = seq![(name, Err::<Script, Vec<ScriptReadError>>(errors))];
    assert(good.drop_last() =~= Seq::empty());
    assert(bad.drop_last() =~= Seq::empty());
    assert(all_errors(Seq::<(String, ReadResult)>::empty()) =~= none);
    assert(good.last().1 is Ok);
    assert(bad.last().1 == Err::<Script, Vec<ScriptReadError>>(errors));
    assert(none + none =~= none);
    assert(none + errors@ =~= errors@);
}

/// A path stands for the script that was read last under it, and for none
/// where no script was read under it.
pub proof fn law_last_script_of_a_path_counts(
    results: Seq<(String, ReadResult)>,
    path: Seq<char>,
    k: int,
)
    requires
        -1 <= k,
        forall|i: int| k < i < results.len() ==> !((#[trigger] results[i]).0@ == path && results[i].1
            is Ok),
    ensures
        0 <= k < results.len() && results[k].0@ == path && results[k].1 is Ok ==> included(
            results,
            path,
        ) == Some(results[k].1->Ok_0),
        k == -1 ==> included(results, path) is None,
    decreases results.len(),
{
    let front = results.drop_last();
    if k < results.len() - 1 && results.len() > 0 {
        assert(!(results[results.len() - 1].0@ == path && results[results.len() - 1].1 is Ok));
        assert forall|i: int| k < i < front.len() implies !((#[trigger] front[i]).0@ == path
            && front[i].1 is Ok) by {
            assert(front[i] == results[i]);
        }
        law_last_script_of_a_path_counts(front, path, k);
    }
}

/// A list gives for a path the script that stands under it.
pub proof fn law_scripts_are_found_by_path(
    scripts: Seq<(String, Script)>,
    path: Seq<char>,
    k: int,
)
    requires
        -1 <= k,
        forall|i: int| k < i < scripts.len() ==> (#[trigger] scripts[i]).0@ != path,
    ensures
        0 <= k < scripts.len() && scripts[k].0@ == path ==> script_for(scripts, path) == Some(
            scripts[k].1,
        ),
        k == -1 ==> script_for(scripts, path) is None,
    decreases scripts.len(),
{
    let front = scripts.drop_last();
    if k < scripts.len() - 1 && scripts.len() > 0 {
        assert(scripts[scripts.len() - 1].0@ != path);
        assert forall|i: int| k < i < front.len() implies (#[trigger] front[i]).0@ != path by {
            assert(front[i] == scripts[i]);
        }
        law_scripts_are_found_by_path(front, path, k);
    }
}

} // verus!
