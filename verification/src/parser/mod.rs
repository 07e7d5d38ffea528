//! Reading scripts.
use crate::parser::v0::parse::parsed_lines;
use crate::parser::v0::patterns::ProblemView;
use crate::script::{
    blocks_model, lemma_block_lists, plain_error, script_lines, ForCondition, InternalCommand,
    InternalCommandView, Script, ScriptBlock, ScriptBlockView, ScriptError, ScriptErrorType,
    ScriptFile, ScriptLocation,
};
use crate::util::join::{joined_path, parent_path};
use crate::util::path::{NicePathBuf, Platform};
use crate::util::text::{lines, lines_of, str_eq, strings_view};
use vstd::prelude::*;

pub mod file_laws;
pub mod v0;

verus! {

/// Whether a line is a header of the first version of the language.
pub open spec fn v0_header(line: Seq<char>) -> bool {
    line == "#!/usr/bin/env crok --v0"@ || line == "#!/usr/bin/env clitest --v0"@ || line
        == "#!/usr/bin/env clitest"@
}

fn is_v0_header(line: &str) -> (r: bool)
    ensures
        r == v0_header(line@),
{
    str_eq(line, "#!/usr/bin/env crok --v0") || str_eq(line, "#!/usr/bin/env clitest --v0")
        || str_eq(line, "#!/usr/bin/env clitest")
}

/// Whether a script begins with a known header.
pub open spec fn has_header(script: Seq<char>) -> bool {
    lines_of(script).len() > 0 && v0_header(lines_of(script)[0])
}

/// What reading a script gives: its parts, or what is wrong with it.
pub open spec fn parsed_script(file: ScriptFile, script: Seq<char>) -> Result<
    Seq<ScriptBlockView>,
    ProblemView,
> {
    if has_header(script) {
        parsed_lines(script_lines(file, script))
    } else {
        Err(
            ProblemView::Script(
                plain_error(
                    ScriptErrorType::InvalidVersion,
                    ScriptLocation { file, line: 1 },
                ),
            ),
        )
    }
}

/// Whether a script begins with a known header.
fn is_known_version(script: &str) -> (r: bool)
    ensures
        r == has_header(script@),
{
    let all = lines(script);
    proof {
        assert(strings_view(all@).len() == all@.len());
        if all@.len() > 0 {
            assert(strings_view(all@)[0] == all@[0]@);
        }
    }
    all.len() > 0 && is_v0_header(all[0].as_str())
}

/// Parses a script. It must not hold what cannot be read at all.
pub fn parse_script(file: ScriptFile, script: &str) -> (r: Result<Script, ScriptError>)
    requires
        parsed_script(file, script@) != Err::<Seq<ScriptBlockView>, ProblemView>(
            ProblemView::Unreadable,
        ),
    ensures
        match r {
            Ok(s) => parsed_script(file, script@) == Ok::<Seq<ScriptBlockView>, ProblemView>(
                blocks_model(s.commands@),
            ) && s.file == file && s.includes@.len() == 0,
            Err(e) => parsed_script(file, script@) == Err::<Seq<ScriptBlockView>, ProblemView>(
                ProblemView::Script(e@),
            ),
        },
{
    if is_known_version(script) {
        v0::parse::parse_script(file, script)
    } else {
        Err(ScriptError::new(ScriptErrorType::InvalidVersion, ScriptLocation::new(file, 1)))
    }
}

/// Parses a script, or gives `None` where it holds what cannot be read at all.
pub fn checked_parse_script(file: ScriptFile, script: &str) -> (r: Option<
    Result<Script, ScriptError>,
>)
    ensures
        match r {
            Some(Ok(s)) => parsed_script(file, script@) == Ok::<Seq<ScriptBlockView>, ProblemView>(
                blocks_model(s.commands@),
            ) && s.file == file && s.includes@.len() == 0,
            Some(Err(e)) => parsed_script(file, script@) == Err::<
                Seq<ScriptBlockView>,
                ProblemView,
            >(ProblemView::Script(e@)),
            None => parsed_script(file, script@) == Err::<Seq<ScriptBlockView>, ProblemView>(
                ProblemView::Unreadable,
            ),
        },
{
    if is_known_version(script) {
        match v0::parse::checked_parse_script(file.clone(), script) {
            Some(_) => Some(parse_script(file, script)),
            None => None,
        }
    } else {
        Some(parse_script(file, script))
    }
}

/// Why a script file was not read.
#[allow(inconsistent_fields)]
#[derive(Debug)]
pub enum ScriptReadError {
    /// The script is in error.
    ParseError {
        /// The file.
        file: ScriptFile,
        /// What is wrong with it.
        error: ScriptError,
    },
    /// The file cannot be read.
    IoError {
        /// The file.
        file: ScriptFile,
        /// Why not.
        error: String,
    },
}

/// The scripts that a part of a script runs: where it says so, and under
/// which path.
pub open spec fn block_includes(b: ScriptBlockView) -> Seq<(ScriptLocation, Seq<char>)>
    decreases b, 0int,
{
    match b {
        ScriptBlockView::InternalCommand(location, InternalCommandView::Include(path)) => seq![
            (location, path),
        ],
        ScriptBlockView::Background(v) => includes_of(v),
        ScriptBlockView::Defer(v) => includes_of(v),
        ScriptBlockView::If(_, v) => includes_of(v),
        ScriptBlockView::For(_, _, v) => includes_of(v),
        ScriptBlockView::Retry(v) => includes_of(v),
        _ => Seq::empty(),
    }
}

/// The scripts that the parts of a script run, in order.
pub open spec fn includes_of(blocks: Seq<ScriptBlockView>) -> Seq<(ScriptLocation, Seq<char>)>
    decreases blocks, 1int,
{
    if blocks.len() == 0 {
        Seq::empty()
    } else {
        includes_of(blocks.drop_last()) + block_includes(blocks.last())
    }
}

/// The values of a list of paths.
pub open spec fn paths_view(v: Seq<(ScriptLocation, String)>) -> Seq<(ScriptLocation, Seq<char>)> {
    v.map_values(|e: (ScriptLocation, String)| (e.0, e.1@))
}

fn collect_includes(blocks: &Vec<ScriptBlock>) -> (r: Vec<(ScriptLocation, String)>)
    ensures
        paths_view(r@) == includes_of(blocks_model(blocks@)),
    decreases blocks, 0int,
{
    let ghost bs = blocks_model(blocks@);
    let mut out: Vec<(ScriptLocation, String)> = Vec::new();
    let mut i: usize = 0;
    proof {
        assert(bs.take(0) =~= Seq::empty());
        assert(paths_view(out@) =~= Seq::empty());
    }
    while i < blocks.len()
        invariant
            i <= blocks@.len(),
            bs == blocks_model(blocks@),
            paths_view(out@) == includes_of(bs.take(i as int)),
        decreases blocks@.len() - i,
    {
        let ghost had = out@;
        proof {
            assert(bs.take(i + 1).drop_last() =~= bs.take(i as int));
            assert(bs.take(i + 1).last() == blocks@[i as int].model());
        }
        let mut more = includes_in(&blocks[i]);
        let ghost added = more@;
        out.append(&mut more);
        proof {
            assert(paths_view(had + added) =~= paths_view(had) + paths_view(added));
        }
        i += 1;
    }
    proof {
        assert(bs.take(i as int) =~= bs);
    }
    out
}

fn includes_in(block: &ScriptBlock) -> (r: Vec<(ScriptLocation, String)>)
    ensures
        paths_view(r@) == block_includes(block.model()),
    decreases block, 0int,
{
    proof {
        lemma_block_lists(*block);
    }
    match block {
        ScriptBlock::InternalCommand(location, InternalCommand::Include(path)) => {
            let mut out: Vec<(ScriptLocation, String)> = Vec::new();
            out.push((location.clone(), path.clone()));
            proof {
                assert(paths_view(out@) =~= seq![(*location, path@)]);
            }
            out
        },
        ScriptBlock::Background(v) => collect_includes(v),
        ScriptBlock::Defer(v) => collect_includes(v),
        ScriptBlock::If(_, v) => collect_includes(v),
        ScriptBlock::For(ForCondition::Env(_, _), v) => collect_includes(v),
        ScriptBlock::Retry(v) => collect_includes(v),
        _ => {
            let out: Vec<(ScriptLocation, String)> = Vec::new();
            proof {
                assert(paths_view(out@) =~= Seq::empty());
            }
            out
        },
    }
}

impl Script {
    /// The scripts that the script runs, in order: where it says so, and
    /// under which path.
    pub fn includes(&self) -> (r: Vec<(ScriptLocation, String)>)
        ensures
            paths_view(r@) == includes_of(blocks_model(self.commands@)),
    {
        collect_includes(&self.commands)
    }
}

/// The path of the file that a script is read from. The path that a script
/// names another by stands behind the directory of the first.
pub fn script_path(parent: Option<&ScriptFile>, file: &ScriptFile, platform: Platform) -> (r:
    NicePathBuf)
    requires
        parent matches Some(p) ==> parent_path(p.file@, platform) is Some,
    ensures
        r@ == (match parent {
            Some(p) => joined_path(parent_path(p.file@, platform)->Some_0, file.file@, platform),
            None => file.file@,
        }),
{
    if let Some(p) = parent {
        if let Some(dir) = p.file.parent(platform) {
            return dir.join(file.file.path.as_str(), platform);
        }
    }
    NicePathBuf::new(file.file.path.as_str())
}

/// What reading a script file gave.
pub type ReadResult = Result<Script, Vec<ScriptReadError>>;

/// The errors of all files that were not read, in order.
pub open spec fn all_errors(results: Seq<(String, ReadResult)>) -> Seq<ScriptReadError>
    decreases results.len(),
{
    if results.len() == 0 {
        Seq::empty()
    } else {
        all_errors(results.drop_last()) + match results.last().1 {
            Ok(_) => Seq::empty(),
            Err(errors) => errors@,
        }
    }
}

/// The script that a path stands for: the last that was read under it.
pub open spec fn included(results: Seq<(String, ReadResult)>, path: Seq<char>) -> Option<Script>
    decreases results.len(),
{
    if results.len() == 0 {
        None
    } else {
        match results.last() {
            (name, Ok(script)) if name@ == path => Some(script),
            _ => included(results.drop_last(), path),
        }
    }
}

/// The script that a list gives for a path.
pub open spec fn script_for(scripts: Seq<(String, Script)>, path: Seq<char>) -> Option<Script>
    decreases scripts.len(),
{
    if scripts.len() == 0 {
        None
    } else if scripts.last().0@ == path {
        Some(scripts.last().1)
    } else {
        script_for(scripts.drop_last(), path)
    }
}

/// No path stands twice in a list.
pub open spec fn paths_unique(scripts: Seq<(String, Script)>) -> bool {
    forall|i: int, j: int|
        0 <= i < j < scripts.len() ==> (#[trigger] scripts[i]).0@ != (#[trigger] scripts[j]).0@
}

proof fn lemma_script_for_remove(scripts: Seq<(String, Script)>, k: int, path: Seq<char>)
    requires
        0 <= k < scripts.len(),
        scripts[k].0@ != path,
    ensures
        script_for(scripts.remove(k), path) == script_for(scripts, path),
    decreases scripts.len(),
{
    if k == scripts.len() - 1 {
        assert(scripts.remove(k) =~= scripts.drop_last());
    } else {
        assert(scripts.remove(k).drop_last() =~= scripts.drop_last().remove(k));
        assert(scripts.remove(k).last() == scripts.last());
        assert(scripts.drop_last()[k] == scripts[k]);
        lemma_script_for_remove(scripts.drop_last(), k, path);
    }
}

/// Sets the script for a path.
fn put_script(scripts: &mut Vec<(String, Script)>, path: String, script: Script)
    requires
        paths_unique(old(scripts)@),
    ensures
        paths_unique(final(scripts)@),
        forall|p: Seq<char>|
            #[trigger] script_for(final(scripts)@, p) == (if p == path@ {
                Some(script)
            } else {
                script_for(old(scripts)@, p)
            }),
{
    let ghost before = scripts@;
    let mut i: usize = 0;
    while i < scripts.len()
        invariant
            i <= scripts@.len(),
            scripts@ == before,
            forall|j: int| 0 <= j < i ==> (#[trigger] before[j]).0@ != path@,
        ensures
            i < scripts@.len() ==> before[i as int].0@ == path@,
        decreases scripts@.len() - i,
    {
        if str_eq(scripts[i].0.as_str(), path.as_str()) {
            break ;
        }
        i += 1;
    }
    if i < scripts.len() {
        scripts.remove(i);
        proof {
            assert forall|p: Seq<char>| p != path@ implies #[trigger] script_for(scripts@, p)
                == script_for(before, p) by {
                lemma_script_for_remove(before, i as int, p);
            }
            assert forall|j: int| 0 <= j < scripts@.len() implies (#[trigger] scripts@[j]).0@
                != path@ by {
                if j < i {
                    assert(scripts@[j] == before[j]);
                } else {
                    assert(scripts@[j] == before[j + 1]);
                    assert(before[i as int].0@ != before[j + 1].0@);
                }
            }
            assert(paths_unique(scripts@)) by {
                assert forall|a: int, b: int| 0 <= a < b < scripts@.len() implies (
                #[trigger] scripts@[a]).0@ != (#[trigger] scripts@[b]).0@ by {
                    let x = if a < i {
                        a
                    } else {
                        a + 1
                    };
                    let y = if b < i {
                        b
                    } else {
                        b + 1
                    };
                    assert(scripts@[a] == before[x]);
                    assert(scripts@[b] == before[y]);
                }
            }
        }
    }
    let ghost kept = scripts@;
    scripts.push((path, script));
    proof {
        assert(scripts@.drop_last() =~= kept);
        assert forall|p: Seq<char>| #[trigger] script_for(scripts@, p) == (if p == path@ {
            Some(script)
        } else {
            script_for(before, p)
        }) by {
            if p != path@ {
                assert(script_for(kept, p) == script_for(before, p));
            }
        }
    }
}

/// What was read: the scripts by their paths, and the errors of all that were
/// not read.
fn gather_scripts(results: Vec<(String, ReadResult)>) -> (r: (
    Vec<(String, Script)>,
    Vec<ScriptReadError>,
))
    ensures
        paths_unique(r.0@),
        forall|path: Seq<char>| #[trigger] script_for(r.0@, path) == included(results@, path),
        r.1@ == all_errors(results@),
{
    let ghost all = results@;
    let n: usize = results.len();
    let mut source = results;
    let mut errors: Vec<ScriptReadError> = Vec::new();
    let mut found: Vec<(String, Script)> = Vec::new();
    let mut i: usize = 0;
    proof {
        assert(all.take(0) =~= Seq::empty());
        assert(errors@ =~= Seq::empty());
    }
    while i < n
        invariant
            i <= n == all.len(),
            source@.len() == n,
            forall|j: int| i <= j < n ==> source@[j] == all[j],
            errors@ == all_errors(all.take(i as int)),
            paths_unique(found@),
            forall|path: Seq<char>|
                #[trigger] script_for(found@, path) == included(all.take(i as int), path),
        decreases n - i,
    {
        proof {
            assert(all.take(i + 1).drop_last() =~= all.take(i as int));
            assert(all.take(i + 1).last() == all[i as int]);
        }
        let mut entry: (String, ReadResult) = (String::new(), Err(Vec::new()));
        std::mem::swap(&mut source[i], &mut entry);
        let ghost had = found@;
        match entry.1 {
            Ok(script) => {
                put_script(&mut found, entry.0, script);
                proof {
                    assert(errors@ =~= all_errors(all.take(i + 1)));
                }
            },
            Err(more) => {
                let mut more = more;
                errors.append(&mut more);
            },
        }
        proof {
            assert forall|path: Seq<char>| #[trigger] script_for(found@, path) == included(
                all.take(i + 1),
                path,
            ) by {
                assert(script_for(had, path) == included(all.take(i as int), path));
            }
        }
        i += 1;
    }
    proof {
        assert(all.take(n as int) =~= all);
    }
    (found, errors)
}

/// A script with the scripts that it runs, where reading these gave
/// `results`; or the errors of all that were not read.
pub fn attach_includes(script: Script, results: Vec<(String, ReadResult)>) -> (r: ReadResult)
    ensures
        match r {
            Ok(s) => all_errors(results@).len() == 0 && s.commands == script.commands && s.file
                == script.file && paths_unique(s.includes@) && (forall|path: Seq<char>|
                #[trigger] script_for(s.includes@, path) == included(results@, path)),
            Err(errors) => all_errors(results@).len() > 0 && errors@ == all_errors(results@),
        },
{
    let (found, errors) = gather_scripts(results);
    if errors.len() == 0 {
        Ok(Script { commands: script.commands, file: script.file, includes: found })
    } else {
        Err(errors)
    }
}

/// Whether all files were read.
pub open spec fn all_read(results: Seq<(String, ReadResult)>) -> bool {
    forall|i: int| 0 <= i < results.len() ==> (#[trigger] results[i]).1 is Ok
}

/// Whether each file that was not read has an error.
pub open spec fn errors_told(results: Seq<(String, ReadResult)>) -> bool {
    forall|i: int|
        0 <= i < results.len() ==> ((#[trigger] results[i]).1 matches Err(errors) ==> errors@.len()
            > 0)
}

/// Whether a file is among those that were to be read.
pub open spec fn is_file(results: Seq<(String, ReadResult)>, path: Seq<char>) -> bool {
    exists|i: int| 0 <= i < results.len() && (#[trigger] results[i]).0@ == path
}

/// Whether a list has a script for a path.
pub open spec fn is_key(scripts: Seq<(String, Script)>, path: Seq<char>) -> bool {
    exists|i: int| 0 <= i < scripts.len() && (#[trigger] scripts[i]).0@ == path
}

proof fn lemma_script_for_key(scripts: Seq<(String, Script)>, path: Seq<char>)
    ensures
        script_for(scripts, path) is Some <==> is_key(scripts, path),
    decreases scripts.len(),
{
    if scripts.len() > 0 {
        let front = scripts.drop_last();
        lemma_script_for_key(front, path);
        if is_key(front, path) {
            let i = choose|i: int| 0 <= i < front.len() && (#[trigger] front[i]).0@ == path;
            assert(scripts[i].0@ == path);
        }
        if is_key(scripts, path) {
            let i = choose|i: int| 0 <= i < scripts.len() && (#[trigger] scripts[i]).0@ == path;
            if i < front.len() {
                assert(front[i].0@ == path);
            }
        }
        if scripts.last().0@ == path {
            assert(scripts[scripts.len() - 1].0@ == path);
        }
    }
}

proof fn lemma_included_file(results: Seq<(String, ReadResult)>, path: Seq<char>)
    requires
        all_read(results),
    ensures
        included(results, path) is Some <==> is_file(results, path),
    decreases results.len(),
{
    if results.len() > 0 {
        let front = results.drop_last();
        assert(all_read(front)) by {
            assert forall|i: int| 0 <= i < front.len() implies (#[trigger] front[i]).1 is Ok by {
                assert(results[i].1 is Ok);
            }
        }
        lemma_included_file(front, path);
        assert(results[results.len() - 1].1 is Ok);
        if is_file(front, path) {
            let i = choose|i: int| 0 <= i < front.len() && (#[trigger] front[i]).0@ == path;
            assert(results[i].0@ == path);
        }
        if is_file(results, path) {
            let i = choose|i: int| 0 <= i < results.len() && (#[trigger] results[i]).0@ == path;
            if i < front.len() {
                assert(front[i].0@ == path);
            }
        }
        if results.last().0@ == path {
            assert(results[results.len() - 1].0@ == path);
        }
    }
}

/// There are no errors exactly where all files were read.
proof fn lemma_no_errors(results: Seq<(String, ReadResult)>)
    requires
        errors_told(results),
    ensures
        all_errors(results).len() == 0 <==> all_read(results),
    decreases results.len(),
{
    if results.len() > 0 {
        let front = results.drop_last();
        assert(errors_told(front)) by {
            assert forall|i: int| 0 <= i < front.len() implies ((#[trigger] front[i]).1 matches Err(
                errors,
            ) ==> errors@.len() > 0) by {
                assert(results[i] == front[i]);
            }
        }
        lemma_no_errors(front);
        let last = results[results.len() - 1];
        assert(last == results.last());
        if all_read(results) {
            assert(last.1 is Ok);
            assert forall|i: int| 0 <= i < front.len() implies (#[trigger] front[i]).1 is Ok by {
                assert(results[i].1 is Ok);
            }
        }
        if all_read(front) && last.1 is Ok {
            assert forall|i: int| 0 <= i < results.len() implies (#[trigger] results[i]).1 is Ok by {
                if i < front.len() {
                    assert(front[i].1 is Ok);
                }
            }
        }
    }
}

/// Scripts by the paths of their files.
pub struct Scripts {
    /// The scripts. No path stands twice.
    pub scripts: Vec<(String, Script)>,
}

/// The scripts of some files, where reading these gave `results`; or the
/// errors of all that were not read. Where each file that was not read has an
/// error, the scripts are given exactly if all files were read, one for each
/// file and no others.
pub fn parse_script_files(results: Vec<(String, ReadResult)>) -> (r: Result<
    Scripts,
    Vec<ScriptReadError>,
>)
    ensures
        match r {
            Ok(s) => all_errors(results@).len() == 0 && paths_unique(s.scripts@) && (forall|
                path: Seq<char>,
            | #[trigger]
                script_for(s.scripts@, path) == included(results@, path)),
            Err(errors) => all_errors(results@).len() > 0 && errors@ == all_errors(results@),
        },
        errors_told(results@) ==> match r {
            Ok(s) => all_read(results@) && (forall|path: Seq<char>|
                #[trigger] is_key(s.scripts@, path) == is_file(results@, path)),
            Err(_) => !all_read(results@),
        },
{
    let (scripts, errors) = gather_scripts(results);
    proof {
        if errors_told(results@) {
            lemma_no_errors(results@);
            if all_read(results@) {
                assert forall|path: Seq<char>| #[trigger] is_key(scripts@, path) == is_file(
                    results@,
                    path,
                ) by {
                    lemma_script_for_key(scripts@, path);
                    lemma_included_file(results@, path);
                    assert(script_for(scripts@, path) == included(results@, path));
                }
            }
        }
    }
    if errors.len() == 0 {
        Ok(Scripts { scripts })
    } else {
        Err(errors)
    }
}

} // verus!
