//! What reading the commands of a script promises.
use crate::command::CommandLineView;
use crate::output::pattern::{KindView, PatternView};
use crate::parser::v0::meta::meta_lines;
use crate::parser::v0::parse::{
    command_blocks, command_index, command_of, control_block, internal_command, is_meta_block,
    script_blocks,
};
use crate::parser::v0::pattern_laws::is_refused;
use crate::parser::v0::patterns::{
    condition_of, list_debug, segment_patterns, segments_patterns, BuilderView, ProblemView,
};
use crate::parser::v0::segment::{BlockTypeView, BlockView, SegmentView};
use crate::script::{
    CommandExit, InternalCommandView, ScriptBlockView, ScriptCommandView, ScriptErrorType,
    ScriptLocation,
};
use crate::util::shell::ShellBitView;
use vstd::prelude::*;

verus! {

/// Whether a pattern stands in a block of some name among segments: it is one
/// of the patterns that the block holds.
pub open spec fn stands_in(ss: Seq<SegmentView>, name: Seq<char>, p: PatternView) -> bool {
    exists|i: int| 0 <= i < ss.len() && #[trigger] block_has(ss[i], name, p)
}

/// Whether a segment is a block of some name that holds a pattern.
pub open spec fn block_has(s: SegmentView, name: Seq<char>, p: PatternView) -> bool {
    s matches SegmentView::SubBlock(_, n, _, inner) && n == name && (segments_patterns(
        inner,
    ) matches Ok(held) && held.patterns.contains(p))
}

proof fn lemma_ignore_reject()
    ensures
        "ignore"@ != "reject"@,
        "ignore"@ != "if"@,
        "reject"@ != "if"@,
{
    reveal_strlit("ignore");
    reveal_strlit("reject");
    reveal_strlit("if");
    assert("ignore"@[0] == 'i' && "reject"@[0] == 'r');
    assert("if"@.len() == 2 && "ignore"@.len() == 6 && "reject"@.len() == 6);
}

/// What is skipped and rejected among segments is what stands in their
/// `ignore` and `reject` blocks.
proof fn lemma_held(ss: Seq<SegmentView>, p: PatternView)
    ensures
        segments_patterns(ss) matches Ok(held) ==> (held.ignore.contains(p) <==> stands_in(
            ss,
            "ignore"@,
            p,
        )) && (held.reject.contains(p) <==> stands_in(ss, "reject"@, p)),
    decreases ss.len(),
{
    lemma_ignore_reject();
    if ss.len() > 0 && segments_patterns(ss) is Ok {
        let front = ss.drop_last();
        let s = ss.last();
        lemma_held(front, p);
        let before = segments_patterns(front)->Ok_0;
        let last = segment_patterns(s)->Ok_0;
        let held = segments_patterns(ss)->Ok_0;
        assert(held == before.joined(last));
        lemma_concat_contains(before.ignore, last.ignore, p);
        lemma_concat_contains(before.reject, last.reject, p);
        assert(last.ignore.contains(p) == block_has(s, "ignore"@, p));
        assert(last.reject.contains(p) == block_has(s, "reject"@, p));
        lemma_stands_in_push(front, s, "ignore"@, p);
        lemma_stands_in_push(front, s, "reject"@, p);
        assert(front.push(s) =~= ss);
    }
}

proof fn lemma_concat_contains(a: Seq<PatternView>, b: Seq<PatternView>, p: PatternView)
    ensures
        (a + b).contains(p) == (a.contains(p) || b.contains(p)),
{
    if a.contains(p) {
        let i = choose|i: int| 0 <= i < a.len() && a[i] == p;
        assert((a + b)[i] == p);
    }
    if b.contains(p) {
        let i = choose|i: int| 0 <= i < b.len() && b[i] == p;
        assert((a + b)[i + a.len()] == p);
    }
    if (a + b).contains(p) {
        let i = choose|i: int| 0 <= i < (a + b).len() && (a + b)[i] == p;
        if i < a.len() {
            assert(a[i] == p);
        } else {
            assert(b[i - a.len()] == p);
        }
    }
}

proof fn lemma_stands_in_push(
    front: Seq<SegmentView>,
    s: SegmentView,
    name: Seq<char>,
    p: PatternView,
)
    ensures
        stands_in(front.push(s), name, p) == (stands_in(front, name, p) || block_has(s, name, p)),
{
    let all = front.push(s);
    if stands_in(front, name, p) {
        let i = choose|i: int| 0 <= i < front.len() && #[trigger] block_has(front[i], name, p);
        assert(block_has(all[i], name, p));
    }
    if block_has(s, name, p) {
        assert(block_has(all[front.len() as int], name, p));
    }
    if stands_in(all, name, p) {
        let i = choose|i: int| 0 <= i < all.len() && #[trigger] block_has(all[i], name, p);
        if i < front.len() {
            assert(block_has(front[i], name, p));
        }
    }
}

/// Whether a part skips a pattern in the output of all commands behind it.
pub open spec fn skips(b: ScriptBlockView, p: PatternView) -> bool {
    b matches ScriptBlockView::GlobalIgnore(ps) && ps.contains(p)
}

/// Whether a part rejects a pattern in the output of all commands behind it.
pub open spec fn rejects(b: ScriptBlockView, p: PatternView) -> bool {
    b matches ScriptBlockView::GlobalReject(ps) && ps.contains(p)
}

/// What stands before the first command: segments none of which is a command
/// or holds one.
pub open spec fn is_preamble(ss: Seq<SegmentView>, first: int) -> bool {
    &&& 0 <= first <= ss.len()
    &&& first < ss.len() ==> ss[first].holds_command()
    &&& forall|i: int| 0 <= i < first ==> !(#[trigger] ss[i]).holds_command()
}

proof fn lemma_preamble_index(ss: Seq<SegmentView>, i: int, first: int)
    requires
        0 <= i <= first,
        is_preamble(ss, first),
    ensures
        command_index(ss, i) == first,
    decreases first - i,
{
    if i < first {
        assert(!ss[i].holds_command());
        lemma_preamble_index(ss, i + 1, first);
    }
}

/// The patterns of each `ignore` block in front of the first command are
/// skipped in the output of all commands, and those of each `reject` block
/// there are rejected; and nothing else is, by the parts that come before
/// those of the commands. The parts of the commands follow in order.
pub proof fn law_preamble_is_in_force(ss: Seq<SegmentView>, first: int, p: PatternView)
    requires
        is_preamble(ss, first),
    ensures
        script_blocks(ss) matches Ok(blocks) ==> ({
            let front = ss.take(first);
            exists|preamble: Seq<ScriptBlockView>, commands: Seq<ScriptBlockView>|
                {
                    &&& blocks == #[trigger] (preamble + commands)
                    &&& command_blocks(ss, first) == Ok::<Seq<ScriptBlockView>, ProblemView>(
                        commands,
                    )
                    &&& forall|i: int|
                        0 <= i < preamble.len() ==> (#[trigger] preamble[i]) is GlobalIgnore
                            || preamble[i] is GlobalReject
                    &&& (exists|i: int| 0 <= i < preamble.len() && #[trigger] skips(preamble[i], p))
                        <==> stands_in(front, "ignore"@, p)
                    &&& (exists|i: int|
                        0 <= i < preamble.len() && #[trigger] rejects(preamble[i], p))
                        <==> stands_in(front, "reject"@, p)
                }
        }),
{
    lemma_preamble_index(ss, 0, first);
    if let Ok(blocks) = script_blocks(ss) {
        let front = ss.take(first);
        let held = segments_patterns(front)->Ok_0;
        let commands = command_blocks(ss, first)->Ok_0;
        let ignore = ScriptBlockView::GlobalIgnore(held.ignore);
        let reject = ScriptBlockView::GlobalReject(held.reject);
        lemma_held(front, p);
        let preamble = (if held.ignore.len() > 0 {
            seq![ignore]
        } else {
            Seq::empty()
        }) + (if held.reject.len() > 0 {
            seq![reject]
        } else {
            Seq::empty()
        });
        assert(blocks =~= preamble + commands);
        if held.ignore.contains(p) {
            assert(preamble[0] == ignore);
            assert(skips(preamble[0], p));
        }
        if held.reject.contains(p) {
            let k = preamble.len() - 1;
            assert(preamble[k] == reject);
            assert(rejects(preamble[k], p));
        }
        if exists|i: int| 0 <= i < preamble.len() && #[trigger] skips(preamble[i], p) {
            let i = choose|i: int| 0 <= i < preamble.len() && #[trigger] skips(preamble[i], p);
            assert(preamble[i] == ignore);
        }
        if exists|i: int| 0 <= i < preamble.len() && #[trigger] rejects(preamble[i], p) {
            let i = choose|i: int| 0 <= i < preamble.len() && #[trigger] rejects(preamble[i], p);
            assert(preamble[i] == reject);
        }
    }
}

/// A command is matched against the patterns below it, up to the next command:
/// what stands in `ignore` blocks there is skipped, what stands in `reject`
/// blocks there is rejected, and the rest is matched in order. Its text is
/// that of its block. Without a `%` line it is expected to succeed, and
/// nothing else is expected of it.
pub proof fn law_commands_have_their_patterns(
    location: ScriptLocation,
    line: CommandLineView,
    below: Seq<SegmentView>,
    p: PatternView,
)
    requires
        below.len() > 0 ==> !is_meta_block(below[0]),
    ensures
        match segments_patterns(below) {
            Err(e) => command_of(location, line, below) == Err::<ScriptCommandView, ProblemView>(e),
            Ok(held) => command_of(location, line, below) matches Ok(c) && {
                &&& c.command == line
                &&& c.pattern.ignore.contains(p) <==> stands_in(below, "ignore"@, p)
                &&& c.pattern.reject.contains(p) <==> stands_in(below, "reject"@, p)
                &&& held.patterns.len() == 1 ==> c.pattern.kind == held.patterns[0].kind
                    && c.pattern.location == held.patterns[0].location
                &&& held.patterns.len() != 1 ==> c.pattern.kind == KindView::Sequence(held.patterns)
                    && c.pattern.location == location
                &&& c.exit == CommandExit::Success
                &&& !c.expect_failure
                &&& c.set_var is None
                &&& c.timeout is None
                &&& forall|name: Seq<char>| !(#[trigger] c.set_vars.contains_key(name))
                &&& forall|name: Seq<char>| !(#[trigger] c.expect.contains_key(name))
            },
        },
{
    lemma_held(below, p);
}

/// The `%` lines directly below a command are applied to it, and the patterns
/// are those behind them.
pub proof fn law_meta_lines_are_applied(
    location: ScriptLocation,
    line: CommandLineView,
    meta: BlockView,
    below: Seq<SegmentView>,
)
    requires
        meta.block_type is Meta,
        below.len() > 0 ==> !is_meta_block(below[0]),
        segments_patterns(below) is Ok,
    ensures
        command_of(location, line, below) matches Ok(plain) && ({
            let with = command_of(location, line, seq![SegmentView::Block(meta)] + below);
            match meta_lines(
                meta.lines,
                ScriptCommandView {
                    pattern: PatternView {
                        location: line.location,
                        kind: KindView::Sequence(Seq::empty()),
                        ignore: Seq::empty(),
                        reject: Seq::empty(),
                    },
                    ..plain
                },
            ) {
                Ok(c) => with == Ok::<ScriptCommandView, ProblemView>(
                    ScriptCommandView { pattern: plain.pattern, ..c },
                ),
                Err(e) => with == Err::<ScriptCommandView, ProblemView>(e),
            }
        }),
{
    let all = seq![SegmentView::Block(meta)] + below;
    assert(all[0] == SegmentView::Block(meta));
    assert(all.skip(1) =~= below);
}

/// Commands are read in order: a command with the patterns up to the next one,
/// then what follows.
pub proof fn law_commands_are_read_in_order(
    before: Seq<SegmentView>,
    b: BlockView,
    line: CommandLineView,
    below: Seq<SegmentView>,
    rest: Seq<SegmentView>,
)
    requires
        b.block_type == BlockTypeView::Command(line),
        forall|i: int| 0 <= i < below.len() ==> !(#[trigger] below[i]).holds_command(),
        rest.len() > 0 ==> rest[0].holds_command(),
    ensures
        ({
            let ss = before + seq![SegmentView::Block(b)] + below + rest;
            let i = before.len() as int;
            let next = i + 1 + below.len();
            match (command_of(b.location, line, below), command_blocks(ss, next)) {
                (Ok(c), Ok(more)) => command_blocks(ss, i) == Ok::<
                    Seq<ScriptBlockView>,
                    ProblemView,
                >(seq![ScriptBlockView::Command(c)] + more),
                (Err(e), _) => command_blocks(ss, i) == Err::<Seq<ScriptBlockView>, ProblemView>(e),
                (Ok(_), Err(e)) => command_blocks(ss, i) == Err::<
                    Seq<ScriptBlockView>,
                    ProblemView,
                >(e),
            }
        }),
{
    let ss = before + seq![SegmentView::Block(b)] + below + rest;
    let i = before.len() as int;
    let next = i + 1 + below.len();
    assert(ss[i] == SegmentView::Block(b));
    assert(ss.subrange(i + 1, next) =~= below);
    assert forall|k: int| i + 1 <= k < next implies !(#[trigger] ss[k]).holds_command() by {
        assert(ss[k] == below[k - i - 1]);
    }
    if next < ss.len() {
        assert(ss[next] == rest[0]);
    }
    lemma_next_command(ss, i + 1, next);
}

proof fn lemma_next_command(ss: Seq<SegmentView>, from: int, next: int)
    requires
        0 <= from <= next <= ss.len(),
        next < ss.len() ==> ss[next].holds_command(),
        forall|k: int| from <= k < next ==> !(#[trigger] ss[k]).holds_command(),
    ensures
        command_index(ss, from) == next,
    decreases next - from,
{
    if from < next {
        assert(!ss[from].holds_command());
        lemma_next_command(ss, from + 1, next);
    }
}

/// A `;` line and a block in braces are read where they stand, and what
/// follows behind them.
pub proof fn law_parts_are_read_in_order(ss: Seq<SegmentView>, i: int)
    requires
        0 <= i < ss.len(),
    ensures
        ss[i] matches SegmentView::Semi(location, name, args) ==> match (
            internal_command(location, name, args),
            command_blocks(ss, i + 1),
        ) {
            (Ok(c), Ok(more)) => command_blocks(ss, i) == Ok::<Seq<ScriptBlockView>, ProblemView>(
                seq![ScriptBlockView::InternalCommand(location, c)] + more,
            ),
            (Err(e), _) => command_blocks(ss, i) == Err::<Seq<ScriptBlockView>, ProblemView>(e),
            (Ok(_), Err(e)) => command_blocks(ss, i) == Err::<Seq<ScriptBlockView>, ProblemView>(
                e,
            ),
        },
        ss[i] matches SegmentView::SubBlock(location, name, args, inner) ==> match script_blocks(
            inner,
        ) {
            Err(e) => command_blocks(ss, i) == Err::<Seq<ScriptBlockView>, ProblemView>(e),
            Ok(blocks) => match (
                control_block(location, name, args, blocks, segments_patterns(inner)),
                command_blocks(ss, i + 1),
            ) {
                (Ok(part), Ok(more)) => command_blocks(ss, i) == Ok::<
                    Seq<ScriptBlockView>,
                    ProblemView,
                >(part + more),
                (Err(e), _) => command_blocks(ss, i) == Err::<Seq<ScriptBlockView>, ProblemView>(e),
                (Ok(_), Err(e)) => command_blocks(ss, i) == Err::<
                    Seq<ScriptBlockView>,
                    ProblemView,
                >(e),
            },
        },
        command_blocks(ss, ss.len() as int) matches Ok(none) && none.len() == 0,
{
}

/// The words of the control blocks, letter by letter.
proof fn lemma_control_words()
    ensures
        "if"@ == seq!['i', 'f'],
        "for"@ == seq!['f', 'o', 'r'],
        "background"@ == seq!['b', 'a', 'c', 'k', 'g', 'r', 'o', 'u', 'n', 'd'],
        "retry"@ == seq!['r', 'e', 't', 'r', 'y'],
        "defer"@ == seq!['d', 'e', 'f', 'e', 'r'],
        "ignore"@ == seq!['i', 'g', 'n', 'o', 'r', 'e'],
        "reject"@ == seq!['r', 'e', 'j', 'e', 'c', 't'],
        "pattern"@ == seq!['p', 'a', 't', 't', 'e', 'r', 'n'],
        "in"@ == seq!['i', 'n'],
{
    reveal_strlit("if");
    reveal_strlit("for");
    reveal_strlit("background");
    reveal_strlit("retry");
    reveal_strlit("defer");
    reveal_strlit("ignore");
    reveal_strlit("reject");
    reveal_strlit("pattern");
    reveal_strlit("in");
    assert("if"@ =~= seq!['i', 'f']);
    assert("for"@ =~= seq!['f', 'o', 'r']);
    assert("background"@ =~= seq!['b', 'a', 'c', 'k', 'g', 'r', 'o', 'u', 'n', 'd']);
    assert("retry"@ =~= seq!['r', 'e', 't', 'r', 'y']);
    assert("defer"@ =~= seq!['d', 'e', 'f', 'e', 'r']);
    assert("ignore"@ =~= seq!['i', 'g', 'n', 'o', 'r', 'e']);
    assert("reject"@ =~= seq!['r', 'e', 'j', 'e', 'c', 't']);
    assert("pattern"@ =~= seq!['p', 'a', 't', 't', 'e', 'r', 'n']);
    assert("in"@ =~= seq!['i', 'n']);
}

/// A block of commands does what its name says: its parts run under a
/// condition, for each of some values, in the background, until they succeed
/// or at the end. Other names are refused.
pub proof fn law_control_blocks_by_name(
    location: ScriptLocation,
    name: Seq<char>,
    args: Seq<ShellBitView>,
    blocks: Seq<ScriptBlockView>,
    held: Result<BuilderView, ProblemView>,
)
    ensures
        ({
            let r = control_block(location, name, args, blocks, held);
            let one = |b: ScriptBlockView| r == Ok::<Seq<ScriptBlockView>, ProblemView>(seq![b]);
            &&& name == "if"@ ==> match condition_of(location, args) {
                Ok(c) => one(ScriptBlockView::If(c, blocks)),
                Err(e) => r == Err::<Seq<ScriptBlockView>, ProblemView>(e),
            }
            &&& name == "for"@ && args.len() >= 3 && args[1].text() == "in"@ ==> one(
                ScriptBlockView::For(
                    args[0].text(),
                    args.subrange(2, args.len() as int),
                    blocks,
                ),
            )
            &&& name == "for"@ && !(args.len() >= 3 && args[1].text() == "in"@) ==> (
            r matches Err(e) && is_refused(
                e,
                ScriptErrorType::InvalidBlockType,
                location,
                Some(seq!['f', 'o', 'r', ' '] + list_debug(args)),
            ))
            &&& name == "background"@ ==> one(ScriptBlockView::Background(blocks))
            &&& name == "retry"@ ==> one(ScriptBlockView::Retry(blocks))
            &&& name == "defer"@ ==> one(ScriptBlockView::Defer(blocks))
            &&& name == "ignore"@ && held is Ok ==> one(
                ScriptBlockView::GlobalIgnore(held->Ok_0.patterns),
            )
            &&& name == "reject"@ && held is Ok ==> one(
                ScriptBlockView::GlobalReject(held->Ok_0.patterns),
            )
            &&& (name == "ignore"@ || name == "reject"@) && held is Err ==> r == Err::<
                Seq<ScriptBlockView>,
                ProblemView,
            >(held->Err_0)
            &&& name == "pattern"@ ==> (r matches Ok(none) && none.len() == 0)
            &&& name != "if"@ && name != "for"@ && name != "background"@ && name != "retry"@ && name
                != "defer"@ && name != "ignore"@ && name != "reject"@ && name != "pattern"@
                ==> (r matches Err(e) && is_refused(
                e,
                ScriptErrorType::InvalidBlockType,
                location,
                Some(name),
            ))
        }),
{
    lemma_control_words();
    assert("if"@.len() == 2 && "for"@.len() == 3 && "background"@.len() == 10 && "pattern"@.len()
        == 7);
    assert("retry"@.len() == 5 && "defer"@.len() == 5 && "retry"@[0] == 'r' && "defer"@[0] == 'd');
    assert("ignore"@.len() == 6 && "reject"@.len() == 6 && "ignore"@[0] == 'i' && "reject"@[0]
        == 'r');
    reveal_strlit("for ");
    assert("for "@ =~= seq!['f', 'o', 'r', ' ']);
    if args.len() >= 2 {
        assert(args.skip(2) =~= args.subrange(2, args.len() as int));
    }
}

/// A `;` line does what its words say. Words in another number or order are
/// refused.
pub proof fn law_internal_commands_by_words(
    location: ScriptLocation,
    name: Seq<char>,
    args: Seq<ShellBitView>,
)
    ensures
        ({
            let r = internal_command(location, name, args);
            let gives = |c: InternalCommandView| r == Ok::<InternalCommandView, ProblemView>(c);
            let n = args.len();
            &&& name == "pattern"@ && n >= 2 ==> gives(
                InternalCommandView::Pattern(args[0].text(), args[1].text()),
            )
            &&& name == "using"@ && n == 1 && args[0].text() == "tempdir"@ ==> gives(
                InternalCommandView::UsingTempdir,
            )
            &&& name == "using"@ && n == 2 && args[0].text() == "dir"@ ==> gives(
                InternalCommandView::UsingDir(args[1], false),
            )
            &&& name == "using"@ && n == 3 && args[0].text() == "new"@ && args[1].text() == "dir"@
                ==> gives(InternalCommandView::UsingDir(args[2], true))
            &&& name == "cd"@ && n == 1 ==> gives(InternalCommandView::ChangeDir(args[0]))
            &&& name == "set"@ && n == 2 ==> gives(
                InternalCommandView::SetVariable(args[0].text(), args[1]),
            )
            &&& name == "exit"@ && n == 1 && args[0].text() == "script"@ ==> gives(
                InternalCommandView::ExitScript,
            )
            &&& name == "include"@ && n == 1 ==> gives(InternalCommandView::Include(args[0].text()))
            &&& r is Ok <==> (name == "pattern"@ && n >= 2) || (name == "using"@ && ((n == 1
                && args[0].text() == "tempdir"@) || (n == 2 && args[0].text() == "dir"@) || (n == 3
                && args[0].text() == "new"@ && args[1].text() == "dir"@))) || (name == "cd"@ && n
                == 1) || (name == "set"@ && n == 2) || (name == "exit"@ && n == 1 && args[0].text()
                == "script"@) || (name == "include"@ && n == 1)
            &&& r is Err && name != "pattern"@ ==> is_refused(
                r->Err_0,
                ScriptErrorType::InvalidInternalCommand,
                location,
                Some(name + seq![' '] + list_debug(args)),
            )
        }),
{
    reveal_strlit("pattern");
    reveal_strlit("using");
    reveal_strlit("cd");
    reveal_strlit("set");
    reveal_strlit("exit");
    reveal_strlit("include");
    assert("pattern"@.len() == 7 && "using"@.len() == 5 && "cd"@.len() == 2 && "set"@.len() == 3
        && "exit"@.len() == 4 && "include"@.len() == 7);
    assert("pattern"@[0] == 'p' && "include"@[0] == 'i');
    assert(name.push(' ') =~= name + seq![' ']);
}

} // verus!
