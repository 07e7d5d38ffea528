//! Reading the commands of a script.
use crate::output::pattern::{
    bare, patterns_model, sequence_of, KindView, OutputPattern, OutputPatterns, PatternView,
};
use crate::parser::v0::meta::{meta_lines, parse_script_v0_meta};
use crate::parser::v0::normalize::{normalize_segments, normalized};
use crate::parser::v0::patterns::{
    condition_of, debug_list, list_debug, parse_if_condition, parse_script_v0_segments,
    parse_segments_between, refuse_with, refused_with, segments_patterns, BuilderView, Problem,
    ProblemView,
};
use crate::parser::v0::segment::{
    segment_script, segments_model, segments_of, BlockType, BlockTypeView, ScriptV0Segment,
    SegmentView,
};
use crate::command::{CommandLine, CommandLineView};
use crate::script::{
    blocks_model, lemma_block_lists, script_lines, script_lines_view, CommandExit, ForCondition,
    InternalCommand, InternalCommandView, Script, ScriptBlock, ScriptBlockView, ScriptCommand,
    ScriptCommandView, ScriptError, ScriptErrorType, ScriptFile, ScriptLine, ScriptLineView,
    ScriptLocation,
};
use crate::util::shell::{bits_view, ShellBit, ShellBitView};
use crate::util::text::{push_str, str_eq, push_char};
use vstd::prelude::*;

verus! {

/// A command of which nothing special is expected.
pub open spec fn plain_command(command: CommandLineView) -> ScriptCommandView {
    ScriptCommandView {
        command,
        pattern: bare(command.location, KindView::Sequence(Seq::empty())),
        exit: CommandExit::Success,
        expect_failure: false,
        set_var: None,
        set_vars: Map::empty(),
        timeout: None,
        expect: Map::empty(),
    }
}

impl ScriptCommand {
    /// A command of which nothing special is expected.
    pub fn new(command: CommandLine) -> (r: Self)
        ensures
            r.model() == plain_command(command@),
    {
        let location = command.location.clone();
        let pattern = OutputPattern::new_sequence(location, Vec::new());
        let r = ScriptCommand {
            command,
            pattern,
            exit: CommandExit::Success,
            expect_failure: false,
            set_var: None,
            set_vars: Vec::new(),
            timeout: None,
            expect: Vec::new(),
        };
        proof {
            let none = Seq::<OutputPattern>::empty();
            assert(patterns_model(none) =~= Seq::empty());
            assert(r.model().set_vars =~= Map::<Seq<char>, ShellBitView>::empty());
            assert(r.model().expect =~= Map::<Seq<char>, ShellBitView>::empty());
        }
        r
    }
}

/// The command that a `;` line stands for.
pub open spec fn internal_command(
    location: ScriptLocation,
    name: Seq<char>,
    args: Seq<ShellBitView>,
) -> Result<InternalCommandView, ProblemView> {
    if name == "pattern"@ {
        if args.len() >= 2 {
            Ok(InternalCommandView::Pattern(args[0].text(), args[1].text()))
        } else {
            Err(ProblemView::Unreadable)
        }
    } else if name == "using"@ && args.len() == 1 && args[0].text() == "tempdir"@ {
        Ok(InternalCommandView::UsingTempdir)
    } else if name == "using"@ && args.len() == 2 && args[0].text() == "dir"@ {
        Ok(InternalCommandView::UsingDir(args[1], false))
    } else if name == "using"@ && args.len() == 3 && args[0].text() == "new"@ && args[1].text()
        == "dir"@ {
        Ok(InternalCommandView::UsingDir(args[2], true))
    } else if name == "cd"@ && args.len() == 1 {
        Ok(InternalCommandView::ChangeDir(args[0]))
    } else if name == "set"@ && args.len() == 2 {
        Ok(InternalCommandView::SetVariable(args[0].text(), args[1]))
    } else if name == "exit"@ && args.len() == 1 && args[0].text() == "script"@ {
        Ok(InternalCommandView::ExitScript)
    } else if name == "include"@ && args.len() == 1 {
        Ok(InternalCommandView::Include(args[0].text()))
    } else {
        Err(
            refused_with(
                ScriptErrorType::InvalidInternalCommand,
                location,
                name.push(' ') + list_debug(args),
            ),
        )
    }
}

/// Reads the command that a `;` line stands for.
fn parse_internal_command(location: &ScriptLocation, name: &str, args: &Vec<ShellBit>) -> (r: Result<
    InternalCommand,
    Problem,
>)
    ensures
        match r {
            Ok(c) => internal_command(*location, name@, bits_view(args@)) == Ok::<
                InternalCommandView,
                ProblemView,
            >(c@),
            Err(e) => internal_command(*location, name@, bits_view(args@)) == Err::<
                InternalCommandView,
                ProblemView,
            >(e@),
        },
{
    let ghost view = bits_view(args@);
    let n: usize = args.len();
    proof {
        assert(forall|i: int| 0 <= i < n ==> #[trigger] view[i] == args@[i]@);
        reveal_strlit("pattern");
        reveal_strlit("using");
        reveal_strlit("cd");
        reveal_strlit("set");
        reveal_strlit("exit");
        reveal_strlit("include");
    }
    if str_eq(name, "pattern") {
        return if n >= 2 {
            Ok(InternalCommand::Pattern(args[0].as_str().to_owned(), args[1].as_str().to_owned()))
        } else {
            Err(Problem::Unreadable)
        };
    }
    if str_eq(name, "using") {
        if n == 1 && args[0].is_text("tempdir") {
            return Ok(InternalCommand::UsingTempdir);
        }
        if n == 2 && args[0].is_text("dir") {
            return Ok(InternalCommand::UsingDir(args[1].clone(), false));
        }
        if n == 3 && args[0].is_text("new") && args[1].is_text("dir") {
            return Ok(InternalCommand::UsingDir(args[2].clone(), true));
        }
    }
    if str_eq(name, "cd") && n == 1 {
        return Ok(InternalCommand::ChangeDir(args[0].clone()));
    }
    if str_eq(name, "set") && n == 2 {
        return Ok(InternalCommand::SetVariable(args[0].as_str().to_owned(), args[1].clone()));
    }
    if str_eq(name, "exit") && n == 1 && args[0].is_text("script") {
        return Ok(InternalCommand::ExitScript);
    }
    if str_eq(name, "include") && n == 1 {
        return Ok(InternalCommand::Include(args[0].as_str().to_owned()));
    }
    let mut data: String = name.to_owned();
    push_char(&mut data, ' ');
    push_str(&mut data, debug_list(args).as_str());
    Err(refuse_with(ScriptErrorType::InvalidInternalCommand, location, data))
}

/// The parts that a block in braces stands for, where `blocks` are the parts
/// within it and `held` the patterns.
pub open spec fn control_block(
    location: ScriptLocation,
    name: Seq<char>,
    args: Seq<ShellBitView>,
    blocks: Seq<ScriptBlockView>,
    held: Result<BuilderView, ProblemView>,
) -> Result<Seq<ScriptBlockView>, ProblemView> {
    if name == "if"@ {
        match condition_of(location, args) {
            Err(e) => Err(e),
            Ok(c) => Ok(seq![ScriptBlockView::If(c, blocks)]),
        }
    } else if name == "for"@ {
        if args.len() >= 3 && args[1].text() == "in"@ {
            Ok(seq![ScriptBlockView::For(args[0].text(), args.skip(2), blocks)])
        } else {
            Err(
                refused_with(
                    ScriptErrorType::InvalidBlockType,
                    location,
                    "for "@ + list_debug(args),
                ),
            )
        }
    } else if name == "background"@ {
        Ok(seq![ScriptBlockView::Background(blocks)])
    } else if name == "retry"@ {
        Ok(seq![ScriptBlockView::Retry(blocks)])
    } else if name == "defer"@ {
        Ok(seq![ScriptBlockView::Defer(blocks)])
    } else if name == "ignore"@ {
        match held {
            Err(e) => Err(e),
            Ok(n) => Ok(seq![ScriptBlockView::GlobalIgnore(n.patterns)]),
        }
    } else if name == "reject"@ {
        match held {
            Err(e) => Err(e),
            Ok(n) => Ok(seq![ScriptBlockView::GlobalReject(n.patterns)]),
        }
    } else if name == "pattern"@ {
        Ok(Seq::empty())
    } else {
        Err(refused_with(ScriptErrorType::InvalidBlockType, location, name))
    }
}

/// The index of the first command at or behind an index, or the end.
pub open spec fn command_index(ss: Seq<SegmentView>, i: int) -> int
    decreases ss.len() - i,
{
    if i >= ss.len() {
        ss.len() as int
    } else if ss[i].holds_command() {
        i
    } else {
        command_index(ss, i + 1)
    }
}

/// What is skipped and rejected from the start, by patterns before the first
/// command.
pub open spec fn preamble_blocks(held: BuilderView) -> Seq<ScriptBlockView> {
    (if held.ignore.len() > 0 {
        seq![ScriptBlockView::GlobalIgnore(held.ignore)]
    } else {
        Seq::empty()
    }) + (if held.reject.len() > 0 {
        seq![ScriptBlockView::GlobalReject(held.reject)]
    } else {
        Seq::empty()
    })
}

/// Whether a segment is a block of meta lines.
pub open spec fn is_meta_block(s: SegmentView) -> bool {
    s matches SegmentView::Block(b) && b.block_type is Meta
}

/// The command that a command block stands for, with the segments up to the
/// next command.
pub open spec fn command_of(
    location: ScriptLocation,
    line: CommandLineView,
    below: Seq<SegmentView>,
) -> Result<ScriptCommandView, ProblemView> {
    let has_meta = below.len() > 0 && is_meta_block(below[0]);
    let meta = if has_meta {
        meta_lines(below[0]->Block_0.lines, plain_command(line))
    } else {
        Ok(plain_command(line))
    };
    match meta {
        Err(e) => Err(e),
        Ok(command) => match segments_patterns(
            if has_meta {
                below.skip(1)
            } else {
                below
            },
        ) {
            Err(e) => Err(e),
            Ok(held) => Ok(
                ScriptCommandView {
                    pattern: PatternView {
                        ignore: held.ignore,
                        reject: held.reject,
                        ..sequence_of(location, held.patterns)
                    },
                    ..command
                },
            ),
        },
    }
}

/// A successful read with more parts in front.
pub open spec fn blocks_first(
    front: Result<Seq<ScriptBlockView>, ProblemView>,
    rest: Result<Seq<ScriptBlockView>, ProblemView>,
) -> Result<Seq<ScriptBlockView>, ProblemView> {
    match front {
        Err(e) => Err(e),
        Ok(a) => match rest {
            Err(e) => Err(e),
            Ok(b) => Ok(a + b),
        },
    }
}

/// The parts that segments stand for.
pub open spec fn script_blocks(ss: Seq<SegmentView>) -> Result<Seq<ScriptBlockView>, ProblemView>
    decreases ss, ss.len() + 1,
{
    let first = command_index(ss, 0);
    proof {
        lemma_command_index(ss, 0);
    }
    match segments_patterns(ss.take(first)) {
        Err(e) => Err(e),
        Ok(held) => blocks_first(Ok(preamble_blocks(held)), command_blocks(ss, first)),
    }
}

/// The parts that the segments from an index on stand for.
pub open spec fn command_blocks(ss: Seq<SegmentView>, i: int) -> Result<
    Seq<ScriptBlockView>,
    ProblemView,
>
    decreases ss, ss.len() - i,
{
    if i < 0 || i >= ss.len() {
        Ok(Seq::empty())
    } else {
        match ss[i] {
            SegmentView::SubBlock(location, name, args, inner) => match script_blocks(inner) {
                Err(e) => Err(e),
                Ok(blocks) => blocks_first(
                    control_block(location, name, args, blocks, segments_patterns(inner)),
                    command_blocks(ss, i + 1),
                ),
            },
            SegmentView::Semi(location, name, args) => match internal_command(
                location,
                name,
                args,
            ) {
                Err(e) => Err(e),
                Ok(c) => blocks_first(
                    Ok(seq![ScriptBlockView::InternalCommand(location, c)]),
                    command_blocks(ss, i + 1),
                ),
            },
            SegmentView::Block(b) => match b.block_type {
                BlockTypeView::Command(line) => {
                    let next = command_index(ss, i + 1);
                    proof {
                        lemma_command_index(ss, i + 1);
                    }
                    match command_of(b.location, line, ss.subrange(i + 1, next)) {
                        Err(e) => Err(e),
                        Ok(c) => blocks_first(
                            Ok(seq![ScriptBlockView::Command(c)]),
                            command_blocks(ss, next),
                        ),
                    }
                },
                _ => Err(ProblemView::Unreadable),
            },
        }
    }
}

/// The first command lies within the segments, or at their end.
pub proof fn lemma_command_index(ss: Seq<SegmentView>, i: int)
    requires
        0 <= i <= ss.len(),
    ensures
        i <= command_index(ss, i) <= ss.len(),
    decreases ss.len() - i,
{
    if i < ss.len() && !ss[i].holds_command() {
        lemma_command_index(ss, i + 1);
    }
}

/// The index of the first command at or behind an index, or the end.
fn find_command(segments: &Vec<ScriptV0Segment>, from: usize) -> (r: usize)
    requires
        from <= segments@.len(),
    ensures
        r == command_index(segments_model(segments@), from as int),
        from <= r <= segments@.len(),
{
    let ghost ss = segments_model(segments@);
    let mut i: usize = from;
    while i < segments.len()
        invariant
            from <= i <= segments@.len(),
            ss == segments_model(segments@),
            command_index(ss, from as int) == command_index(ss, i as int),
        decreases segments@.len() - i,
    {
        if segments[i].contains_command() {
            return i;
        }
        i += 1;
    }
    i
}

/// Reads the part that a block in braces stands for.
fn parse_control_block(
    location: &ScriptLocation,
    name: &str,
    args: &Vec<ShellBit>,
    inner: &Vec<ScriptV0Segment>,
    blocks: Vec<ScriptBlock>,
) -> (r: Result<Option<ScriptBlock>, Problem>)
    ensures
        ({
            let goal = control_block(
                *location,
                name@,
                bits_view(args@),
                blocks_model(blocks@),
                segments_patterns(segments_model(inner@)),
            );
            match r {
                Ok(Some(b)) => goal == Ok::<Seq<ScriptBlockView>, ProblemView>(seq![b.model()]),
                Ok(None) => goal == Ok::<Seq<ScriptBlockView>, ProblemView>(Seq::empty()),
                Err(e) => goal == Err::<Seq<ScriptBlockView>, ProblemView>(e@),
            }
        }),
{
    let ghost view = bits_view(args@);
    proof {
        assert(forall|i: int| 0 <= i < args@.len() ==> #[trigger] view[i] == args@[i]@);
    }
    let block = if str_eq(name, "if") {
        match parse_if_condition(location, args) {
            Ok(condition) => ScriptBlock::If(condition, blocks),
            Err(e) => {
                return Err(e);
            },
        }
    } else if str_eq(name, "for") {
        if args.len() >= 3 && args[1].is_text("in") {
            let mut values: Vec<ShellBit> = Vec::new();
            let mut i: usize = 2;
            while i < args.len()
                invariant
                    2 <= i <= args@.len(),
                    view == bits_view(args@),
                    bits_view(values@) == view.subrange(2, i as int),
                decreases args@.len() - i,
            {
                let ghost had = values@;
                values.push(args[i].clone());
                i += 1;
                proof {
                    assert(bits_view(values@) =~= bits_view(had).push(view[i - 1]));
                    assert(view.subrange(2, i as int) =~= view.subrange(2, i - 1).push(
                        view[i - 1],
                    ));
                }
            }
            proof {
                assert(view.subrange(2, i as int) =~= view.skip(2));
            }
            ScriptBlock::For(ForCondition::Env(args[0].as_str().to_owned(), values), blocks)
        } else {
            let mut data = "for ".to_owned();
            push_str(&mut data, debug_list(args).as_str());
            return Err(refuse_with(ScriptErrorType::InvalidBlockType, location, data));
        }
    } else if str_eq(name, "background") {
        ScriptBlock::Background(blocks)
    } else if str_eq(name, "retry") {
        ScriptBlock::Retry(blocks)
    } else if str_eq(name, "defer") {
        ScriptBlock::Defer(blocks)
    } else if str_eq(name, "ignore") {
        match parse_script_v0_segments(inner) {
            Ok(held) => ScriptBlock::GlobalIgnore(OutputPatterns::new(held.patterns)),
            Err(e) => {
                return Err(e);
            },
        }
    } else if str_eq(name, "reject") {
        match parse_script_v0_segments(inner) {
            Ok(held) => ScriptBlock::GlobalReject(OutputPatterns::new(held.patterns)),
            Err(e) => {
                return Err(e);
            },
        }
    } else if str_eq(name, "pattern") {
        return Ok(None);
    } else {
        return Err(
            refuse_with(ScriptErrorType::InvalidBlockType, location, name.to_owned()),
        );
    };
    proof {
        lemma_block_lists(block);
    }
    Ok(Some(block))
}

/// Reads the command that a command block stands for, with the segments up to
/// the next command.
fn parse_command(
    location: &ScriptLocation,
    line: &CommandLine,
    segments: &Vec<ScriptV0Segment>,
    from: usize,
    to: usize,
) -> (r: Result<ScriptCommand, Problem>)
    requires
        from <= to <= segments@.len(),
    ensures
        ({
            let goal = command_of(
                *location,
                line@,
                segments_model(segments@).subrange(from as int, to as int),
            );
            match r {
                Ok(c) => goal == Ok::<ScriptCommandView, ProblemView>(c.model()),
                Err(e) => goal == Err::<ScriptCommandView, ProblemView>(e@),
            }
        }),
{
    let ghost ss = segments_model(segments@);
    let ghost below = ss.subrange(from as int, to as int);
    let mut command = ScriptCommand::new(line.clone());
    let mut start: usize = from;
    if from < to {
        proof {
            assert(below[0] == segments@[from as int].model());
        }
        if let ScriptV0Segment::Block(block) = &segments[from] {
            if block.block_type.is_meta() {
                start = from + 1;
                match parse_script_v0_meta(&block.lines, &mut command) {
                    Ok(_) => {},
                    Err(e) => {
                        return Err(e);
                    },
                }
            }
        }
    }
    proof {
        if start > from {
            assert(below.skip(1) =~= ss.subrange(start as int, to as int));
        }
    }
    let held = match parse_segments_between(segments, start, to) {
        Ok(held) => held,
        Err(e) => {
            return Err(e);
        },
    };
    let mut pattern = OutputPattern::new_sequence(location.clone(), held.patterns);
    pattern.ignore = OutputPatterns::new(held.ignore);
    pattern.reject = OutputPatterns::new(held.reject);
    command.pattern = pattern;
    Ok(command)
}

proof fn lemma_blocks_first(
    front: Seq<ScriptBlockView>,
    more: Seq<ScriptBlockView>,
    rest: Result<Seq<ScriptBlockView>, ProblemView>,
)
    ensures
        blocks_first(Ok(front + more), rest) == blocks_first(
            Ok(front),
            blocks_first(Ok(more), rest),
        ),
{
    if let Ok(b) = rest {
        assert(front + more + b =~= front + (more + b));
    }
}

proof fn lemma_blocks_push(v: Seq<ScriptBlock>, b: ScriptBlock)
    ensures
        blocks_model(v.push(b)) == blocks_model(v) + seq![b.model()],
{
    assert(blocks_model(v.push(b)) =~= blocks_model(v) + seq![b.model()]);
}

/// Reads the parts that segments stand for.
pub fn parse_normalized_script_v0_commands(segments: &Vec<ScriptV0Segment>) -> (r: Result<
    Vec<ScriptBlock>,
    Problem,
>)
    ensures
        match r {
            Ok(v) => script_blocks(segments_model(segments@)) == Ok::<
                Seq<ScriptBlockView>,
                ProblemView,
            >(blocks_model(v@)),
            Err(e) => script_blocks(segments_model(segments@)) == Err::<
                Seq<ScriptBlockView>,
                ProblemView,
            >(e@),
        },
    decreases segments,
{
    let ghost ss = segments_model(segments@);
    let ghost goal = script_blocks(ss);
    let n: usize = segments.len();
    let mut commands: Vec<ScriptBlock> = Vec::new();
    let first: usize = find_command(segments, 0);
    proof {
        assert(ss.subrange(0, first as int) =~= ss.take(first as int));
        assert(blocks_model(commands@) =~= Seq::empty());
    }
    let held = match parse_segments_between(segments, 0, first) {
        Ok(held) => held,
        Err(e) => {
            return Err(e);
        },
    };
    let ghost before = held.model();
    if held.ignore.len() > 0 {
        let block = ScriptBlock::GlobalIgnore(OutputPatterns::new(held.ignore));
        proof {
            lemma_blocks_push(commands@, block);
        }
        commands.push(block);
    }
    if held.reject.len() > 0 {
        let block = ScriptBlock::GlobalReject(OutputPatterns::new(held.reject));
        proof {
            lemma_blocks_push(commands@, block);
        }
        commands.push(block);
    }
    proof {
        assert(blocks_model(commands@) =~= preamble_blocks(before));
    }
    let mut i: usize = first;
    while i < n
        invariant
            i <= n == segments@.len(),
            ss == segments_model(segments@),
            goal == script_blocks(ss),
            goal == blocks_first(
                Ok(blocks_model(commands@)),
                command_blocks(ss, i as int),
            ),
        decreases n - i,
    {
        let ghost had = blocks_model(commands@);
        proof {
            assert(ss[i as int] == segments@[i as int].model());
        }
        match &segments[i] {
            ScriptV0Segment::SubBlock(location, name, args, inner) => {
                proof {
                    assert(ss[i as int]->SubBlock_3 =~= segments_model(inner@));
                }
                let blocks = match parse_normalized_script_v0_commands(inner) {
                    Ok(blocks) => blocks,
                    Err(e) => {
                        return Err(e);
                    },
                };
                match parse_control_block(location, name.as_str(), args, inner, blocks) {
                    Ok(Some(block)) => {
                        proof {
                            lemma_blocks_push(commands@, block);
                            lemma_blocks_first(
                                had,
                                seq![block.model()],
                                command_blocks(ss, i + 1),
                            );
                        }
                        commands.push(block);
                    },
                    Ok(None) => {
                        proof {
                            lemma_blocks_first(had, Seq::empty(), command_blocks(ss, i + 1));
                            assert(had + Seq::<ScriptBlockView>::empty() =~= had);
                        }
                    },
                    Err(e) => {
                        return Err(e);
                    },
                }
                i += 1;
            },
            ScriptV0Segment::Semi(location, name, args) => {
                let command = match parse_internal_command(location, name.as_str(), args) {
                    Ok(command) => command,
                    Err(e) => {
                        return Err(e);
                    },
                };
                let block = ScriptBlock::InternalCommand(location.clone(), command);
                proof {
                    lemma_blocks_push(commands@, block);
                    lemma_blocks_first(had, seq![block.model()], command_blocks(ss, i + 1));
                }
                commands.push(block);
                i += 1;
            },
            ScriptV0Segment::Block(block) => {
                let next: usize = find_command(segments, i + 1);
                let line = match &block.block_type {
                    BlockType::Command(line) => line,
                    _ => {
                        return Err(Problem::Unreadable);
                    },
                };
                let command = match parse_command(&block.location, line, segments, i + 1, next) {
                    Ok(command) => command,
                    Err(e) => {
                        return Err(e);
                    },
                };
                let part = ScriptBlock::Command(command);
                proof {
                    lemma_blocks_push(commands@, part);
                    lemma_blocks_first(
                        had,
                        seq![part.model()],
                        command_blocks(ss, next as int),
                    );
                }
                commands.push(part);
                i = next;
            },
        }
    }
    proof {
        let all = blocks_model(commands@);
        assert(all + Seq::<ScriptBlockView>::empty() =~= all);
    }
    Ok(commands)
}

/// What reading the lines of a script gives.
pub open spec fn parsed_lines(lines: Seq<ScriptLineView>) -> Result<
    Seq<ScriptBlockView>,
    ProblemView,
> {
    match segments_of(true, lines) {
        Err(e) => Err(ProblemView::Script(e)),
        Ok((segments, _)) => script_blocks(normalized(segments)),
    }
}

/// Reads a script, or says why it cannot be read.
fn read_script(file: &ScriptFile, script: &str) -> (r: Result<Vec<ScriptBlock>, Problem>)
    ensures
        match r {
            Ok(v) => parsed_lines(script_lines(*file, script@)) == Ok::<
                Seq<ScriptBlockView>,
                ProblemView,
            >(blocks_model(v@)),
            Err(e) => parsed_lines(script_lines(*file, script@)) == Err::<
                Seq<ScriptBlockView>,
                ProblemView,
            >(e@),
        },
{
    let lines = ScriptLine::parse(file.clone(), script);
    let mut slice: &[ScriptLine] = lines.as_slice();
    proof {
        let view = script_lines_view(lines@);
        assert forall|i: int| 0 <= i < view.len() implies (#[trigger] view[i]).location.line >= 1
            && !view[i].text.contains('\n') by {
            assert(view[i] == lines@[i]@);
        }
    }
    match segment_script(true, &mut slice) {
        Err(e) => Err(Problem::Script(e)),
        Ok(segments) => {
            let segments = normalize_segments(segments);
            parse_normalized_script_v0_commands(&segments)
        },
    }
}

/// Parses a script. It must not hold what cannot be read at all: a `pattern`
/// line without a name and an expression, patterns that follow no command, a
/// multi-line pattern whose indentation ends within a character, or a
/// length of time that can reach two to the power of 64 seconds.
pub fn parse_script(file_name: ScriptFile, script: &str) -> (r: Result<Script, ScriptError>)
    requires
        parsed_lines(script_lines(file_name, script@)) != Err::<Seq<ScriptBlockView>, ProblemView>(
            ProblemView::Unreadable,
        ),
    ensures
        match r {
            Ok(s) => parsed_lines(script_lines(file_name, script@)) == Ok::<
                Seq<ScriptBlockView>,
                ProblemView,
            >(blocks_model(s.commands@)) && s.file == file_name && s.includes@.len() == 0,
            Err(e) => parsed_lines(script_lines(file_name, script@)) == Err::<
                Seq<ScriptBlockView>,
                ProblemView,
            >(ProblemView::Script(e@)),
        },
{
    match read_script(&file_name, script) {
        Ok(commands) => Ok(Script { commands, file: file_name, includes: Vec::new() }),
        Err(Problem::Script(e)) => Err(e),
        Err(Problem::Unreadable) => vstd::pervasive::unreached(),
    }
}

/// Parses a script, or gives `None` where it holds what cannot be read at all.
pub fn checked_parse_script(file_name: ScriptFile, script: &str) -> (r: Option<
    Result<Script, ScriptError>,
>)
    ensures
        match r {
            Some(Ok(s)) => parsed_lines(script_lines(file_name, script@)) == Ok::<
                Seq<ScriptBlockView>,
                ProblemView,
            >(blocks_model(s.commands@)) && s.file == file_name && s.includes@.len() == 0,
            Some(Err(e)) => parsed_lines(script_lines(file_name, script@)) == Err::<
                Seq<ScriptBlockView>,
                ProblemView,
            >(ProblemView::Script(e@)),
            None => parsed_lines(script_lines(file_name, script@)) == Err::<
                Seq<ScriptBlockView>,
                ProblemView,
            >(ProblemView::Unreadable),
        },
{
    match read_script(&file_name, script) {
        Err(Problem::Unreadable) => None,
        _ => Some(parse_script(file_name, script)),
    }
}

} // verus!
