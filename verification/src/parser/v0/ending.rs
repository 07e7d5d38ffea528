//! The output of a command is matched to its end.
use crate::output::matching::{
    match_all, match_kind, match_pattern, match_until, next, raw_match, LinesView, Memory, Scene,
};
use crate::output::pattern::{bare, sequence_of, KindView, PatternView};
use crate::parser::v0::normalize::{
    attach, end_block, gather, law_normalized_is_tidy, merge_block, normalized, segment_split,
    tidy, wildcard,
};
use crate::parser::v0::parse::{
    command_blocks, command_index, command_of, control_block, is_meta_block, lemma_command_index,
    parsed_lines, script_blocks,
};
use crate::parser::v0::patterns::{
    line_patterns, segment_patterns, segments_patterns, single_line, starts_multiline,
};
use crate::parser::v0::segment::{
    law_every_line_in_one_segment, lines_from, segments_of, segments_well_formed,
    BlockTypeView, BlockView, SegmentView,
};
use crate::script::{ScriptBlockView, ScriptLineView, ScriptLocation};
use crate::command::CommandLineView;
use crate::util::shell::ShellBitView;
use crate::util::text::{has_prefix, trimmed, trimmed_end, trimmed_start, white};
use vstd::prelude::*;

verus! {

/// Whether a segment is a block that ends the output of a command.
pub open spec fn is_end_block(s: SegmentView) -> bool {
    s matches SegmentView::Block(b) && b.block_type is Pattern && b.lines.len() == 1
        && b.lines[0].text == "end"@
}

/// Whether a segment ends the output of a command, or is a wildcard up to the
/// end.
pub open spec fn ends_output(s: SegmentView) -> bool {
    is_end_block(s) || (s matches SegmentView::SubBlock(_, name, args, inner) && name == "*"@
        && args.len() == 0 && inner.len() == 1 && is_end_block(inner[0]))
}

/// Where in the segments of a script a position stands.
enum Place {
    /// Behind no command that has output.
    Outside,
    /// In the patterns of a command.
    Open,
    /// Behind the end of the output of a command.
    Ended,
}

/// The place behind one more segment, if the segment may stand there: a
/// command may not follow one whose output was not ended. Wildcards count as
/// an end only if `wild`.
spec fn place_behind(wild: bool, at: Place, s: SegmentView) -> Option<Place> {
    if s.holds_command() {
        if at is Open {
            None
        } else if s is Block {
            Some(Place::Open)
        } else {
            Some(Place::Outside)
        }
    } else if s.is_empty() {
        Some(at)
    } else if at is Outside {
        Some(at)
    } else if is_end_block(s) || (wild && ends_output(s)) {
        Some(Place::Ended)
    } else {
        Some(Place::Open)
    }
}

/// The place behind segments.
spec fn walk(wild: bool, at: Place, ss: Seq<SegmentView>) -> Option<Place>
    decreases ss.len(),
{
    if ss.len() == 0 {
        Some(at)
    } else {
        match place_behind(wild, at, ss[0]) {
            None => None,
            Some(next) => walk(wild, next, ss.skip(1)),
        }
    }
}

/// Whether the output of each command is ended, where the segments start at
/// some place.
spec fn all_ended(wild: bool, at: Place, ss: Seq<SegmentView>) -> bool {
    walk(wild, at, ss) matches Some(end) && !(end is Open)
}

/// Whether one place is as good as another.
spec fn at_least(a: Place, b: Place) -> bool {
    a == b || (a is Open && b is Ended)
}

proof fn lemma_walk_push(wild: bool, at: Place, ss: Seq<SegmentView>, s: SegmentView)
    ensures
        walk(wild, at, ss.push(s)) == match walk(wild, at, ss) {
            None => None,
            Some(end) => place_behind(wild, end, s),
        },
    decreases ss.len(),
{
    if ss.len() == 0 {
        assert(ss.push(s).skip(1) =~= Seq::empty());
        assert(ss.push(s)[0] == s);
        match place_behind(wild, at, s) {
            None => {},
            Some(next) => {
                assert(walk(wild, next, Seq::empty()) == Some(next));
            },
        }
    } else {
        assert(ss.push(s).skip(1) =~= ss.skip(1).push(s));
        assert(ss.push(s)[0] == ss[0]);
        match place_behind(wild, at, ss[0]) {
            None => {},
            Some(next) => {
                lemma_walk_push(wild, next, ss.skip(1), s);
            },
        }
    }
}

proof fn lemma_walk_better(a: Place, b: Place, ss: Seq<SegmentView>)
    requires
        all_ended(true, a, ss),
        at_least(a, b),
    ensures
        all_ended(true, b, ss),
    decreases ss.len(),
{
    if ss.len() > 0 {
        let x = place_behind(true, a, ss[0])->Some_0;
        let y = place_behind(true, b, ss[0])->Some_0;
        assert(at_least(x, y));
        lemma_walk_better(x, y, ss.skip(1));
    }
}

/// A segment that holds no lines holds no command.
proof fn lemma_empty_no_command(s: SegmentView)
    requires
        s.is_empty(),
        tidy(s) || (s matches SegmentView::Block(b) && !(b.block_type is Command)),
    ensures
        !s.holds_command(),
    decreases s,
{
    if let SegmentView::SubBlock(_, _, _, inner) = s {
        assert forall|i: int| 0 <= i < inner.len() implies !(#[trigger] inner[i]).holds_command() by {
            assert(inner[i].is_empty());
            assert(tidy(inner[i]));
            lemma_empty_no_command(inner[i]);
        }
    }
}

/// What attaching wildcards starts from: blocks of commands and wildcards have
/// lines.
spec fn ready(s: SegmentView) -> bool {
    match s {
        SegmentView::Block(b) => b.block_type is Command || b.block_type is Any ==> b.lines.len()
            > 0,
        _ => tidy(s),
    }
}

spec fn all_ready(ss: Seq<SegmentView>) -> bool {
    forall|i: int| 0 <= i < ss.len() ==> ready(#[trigger] ss[i])
}

spec fn has_command(ss: Seq<SegmentView>) -> bool {
    exists|i: int| 0 <= i < ss.len() && (#[trigger] ss[i]).holds_command()
}

proof fn lemma_sub_command(
    location: ScriptLocation,
    name: Seq<char>,
    args: Seq<ShellBitView>,
    inner: Seq<SegmentView>,
)
    ensures
        SegmentView::SubBlock(location, name, args, inner).holds_command() == has_command(inner),
{
    let sub = SegmentView::SubBlock(location, name, args, inner);
    if has_command(inner) {
        let i = choose|i: int| 0 <= i < inner.len() && (#[trigger] inner[i]).holds_command();
        assert(sub->SubBlock_3[i].holds_command());
    }
    if sub.holds_command() {
        let i = choose|i: int|
            0 <= i < sub->SubBlock_3.len() && (#[trigger] sub->SubBlock_3[i]).holds_command();
        assert(inner[i].holds_command());
    }
}

proof fn lemma_has_command_first(ss: Seq<SegmentView>)
    requires
        ss.len() > 0,
    ensures
        has_command(ss) == (ss[0].holds_command() || has_command(ss.skip(1))),
{
    if has_command(ss) {
        let i = choose|i: int| 0 <= i < ss.len() && (#[trigger] ss[i]).holds_command();
        if i > 0 {
            assert(ss.skip(1)[i - 1].holds_command());
        }
    }
    if has_command(ss.skip(1)) {
        let i = choose|i: int| 0 <= i < ss.skip(1).len() && (#[trigger] ss.skip(1)[i]).holds_command();
        assert(ss[i + 1].holds_command());
    }
}

proof fn lemma_has_command_cons(s: SegmentView, ss: Seq<SegmentView>)
    ensures
        has_command(seq![s] + ss) == (s.holds_command() || has_command(ss)),
{
    lemma_has_command_first(seq![s] + ss);
    assert((seq![s] + ss).skip(1) =~= ss);
}

proof fn lemma_has_command_push(ss: Seq<SegmentView>, s: SegmentView)
    ensures
        has_command(ss.push(s)) == (has_command(ss) || s.holds_command()),
{
    if has_command(ss) {
        let i = choose|i: int| 0 <= i < ss.len() && (#[trigger] ss[i]).holds_command();
        assert(ss.push(s)[i].holds_command());
    }
    if s.holds_command() {
        assert(ss.push(s)[ss.len() as int].holds_command());
    }
    if has_command(ss.push(s)) {
        let i = choose|i: int| 0 <= i < ss.push(s).len() && (#[trigger] ss.push(s)[i]).holds_command();
        if i < ss.len() {
            assert(ss[i].holds_command());
        }
    }
}

/// Attaching wildcards keeps the commands, and the output of each ended.
proof fn lemma_attach_ended(at: Place, ss: Seq<SegmentView>)
    requires
        all_ready(ss),
    ensures
        has_command(attach(ss)) == has_command(ss),
        all_ended(false, at, ss) ==> all_ended(true, at, attach(ss)),
    decreases ss.len(),
{
    if ss.len() > 0 {
        let s = ss[0];
        let rest = ss.skip(1);
        assert(ready(s));
        assert(all_ready(rest)) by {
            assert forall|i: int| 0 <= i < rest.len() implies ready(#[trigger] rest[i]) by {
                assert(rest[i] == ss[i + 1]);
            }
        }
        lemma_has_command_first(ss);
        if s matches SegmentView::Block(b) && b.block_type is Any {
            if rest.len() > 0 && segment_split(rest[0]) is Some {
                let (first, left) = segment_split(rest[0])->Some_0;
                let after = rest.update(0, left);
                let head = wildcard(s.location(), seq![first]);
                assert(ready(rest[0]));
                lemma_stolen(at, s, rest[0], first, left);
                lemma_has_command_first(rest);
                lemma_has_command_first(after);
                assert(after.skip(1) =~= rest.skip(1));
                lemma_has_command_cons(head, attach(after));
                assert(all_ready(after)) by {
                    assert forall|i: int| 0 <= i < after.len() implies ready(
                        #[trigger] after[i],
                    ) by {
                        if i > 0 {
                            assert(ready(rest[i]));
                        }
                    }
                }
                let w = place_behind(true, at, head)->Some_0;
                lemma_attach_ended(w, after);
                assert((seq![head] + attach(after)).skip(1) =~= attach(after));
                if all_ended(false, at, ss) {
                    let x = place_behind(false, at, s)->Some_0;
                    let y = place_behind(false, x, rest[0])->Some_0;
                    let z = place_behind(false, w, left)->Some_0;
                    assert(walk(false, at, ss) == walk(false, x, rest));
                    assert(walk(false, x, rest) == walk(false, y, rest.skip(1)));
                    assert(walk(false, w, after) == walk(false, z, after.skip(1)));
                    lemma_walk_better_plain(y, z, rest.skip(1));
                }
            } else {
                let head = wildcard(s.location(), Seq::empty());
                assert(!head.holds_command());
                assert(!head.is_empty());
                lemma_has_command_cons(head, attach(rest));
                let w = place_behind(true, at, head)->Some_0;
                lemma_attach_ended(w, rest);
                assert((seq![head] + attach(rest)).skip(1) =~= attach(rest));
                if all_ended(false, at, ss) {
                    let x = place_behind(false, at, s)->Some_0;
                    assert(!s.holds_command());
                    assert(at_least(x, w));
                    lemma_walk_better_plain(x, w, rest);
                }
            }
        } else if s.is_empty() {
            lemma_empty_no_command(s);
            lemma_attach_ended(at, rest);
        } else {
            lemma_has_command_cons(s, attach(rest));
            assert((seq![s] + attach(rest)).skip(1) =~= attach(rest));
            if all_ended(false, at, ss) {
                let x = place_behind(false, at, s)->Some_0;
                let y = place_behind(true, at, s)->Some_0;
                assert(at_least(x, y));
                lemma_attach_ended(x, rest);
                lemma_walk_better(x, y, attach(rest));
            } else {
                lemma_attach_ended(at, rest);
            }
        }
    }
}

proof fn lemma_walk_better_plain(a: Place, b: Place, ss: Seq<SegmentView>)
    requires
        all_ended(false, a, ss),
        at_least(a, b),
    ensures
        all_ended(false, b, ss),
    decreases ss.len(),
{
    if ss.len() > 0 {
        let x = place_behind(false, a, ss[0])->Some_0;
        let y = place_behind(false, b, ss[0])->Some_0;
        assert(at_least(x, y));
        lemma_walk_better_plain(x, y, ss.skip(1));
    }
}

/// A wildcard that takes the end of the output ends it.
proof fn lemma_stolen(
    at: Place,
    any: SegmentView,
    s: SegmentView,
    first: SegmentView,
    left: SegmentView,
)
    requires
        any matches SegmentView::Block(b) && b.block_type is Any && b.lines.len() > 0,
        segment_split(s) == Some((first, left)),
    ensures
        !s.holds_command(),
        !left.holds_command(),
        !wildcard(any.location(), seq![first]).holds_command(),
        !wildcard(any.location(), seq![first]).is_empty(),
        place_behind(false, at, any) is Some,
        ({
            let x = place_behind(false, at, any)->Some_0;
            let w = place_behind(true, at, wildcard(any.location(), seq![first]))->Some_0;
            &&& place_behind(false, x, s) is Some
            &&& place_behind(false, w, left) is Some
            &&& at_least(place_behind(false, x, s)->Some_0, place_behind(false, w, left)->Some_0)
        }),
{
    let head = wildcard(any.location(), seq![first]);
    assert(!first.holds_command());
    assert forall|i: int| 0 <= i < seq![first].len() implies !(#[trigger] seq![
        first,
    ][i]).holds_command() by {}
    assert(!head.holds_command());
    assert(!head.is_empty());
    assert(seq![first][0] == first);
    match s {
        SegmentView::Block(b) => {
            assert(first->Block_0.lines =~= seq![b.lines[0]]);
        },
        _ => {},
    }
}

/// Whether no segment is empty beside commands.
spec fn solid(ss: Seq<SegmentView>) -> bool {
    has_command(ss) ==> forall|i: int| 0 <= i < ss.len() ==> !(#[trigger] ss[i]).is_empty()
}

/// Whether the output of each command within a segment is ended.
spec fn ended_within(s: SegmentView) -> bool
    decreases s,
{
    match s {
        SegmentView::SubBlock(_, _, _, inner) => {
            &&& solid(inner)
            &&& all_ended(true, Place::Outside, inner)
            &&& forall|i: int| 0 <= i < inner.len() ==> ended_within(#[trigger] inner[i])
        },
        _ => true,
    }
}

spec fn all_ended_within(ss: Seq<SegmentView>) -> bool {
    forall|i: int| 0 <= i < ss.len() ==> ended_within(#[trigger] ss[i])
}

proof fn lemma_within_cons(s: SegmentView, ss: Seq<SegmentView>)
    requires
        ended_within(s),
        all_ended_within(ss),
    ensures
        all_ended_within(seq![s] + ss),
{
    assert forall|i: int| 0 <= i < (seq![s] + ss).len() implies ended_within(
        #[trigger] (seq![s] + ss)[i],
    ) by {
        if i > 0 {
            assert((seq![s] + ss)[i] == ss[i - 1]);
        }
    }
}

proof fn lemma_attach_within(ss: Seq<SegmentView>)
    requires
        all_ended_within(ss),
    ensures
        all_ended_within(attach(ss)),
    decreases ss.len(),
{
    if ss.len() > 0 {
        let s = ss[0];
        let rest = ss.skip(1);
        assert(all_ended_within(rest)) by {
            assert forall|i: int| 0 <= i < rest.len() implies ended_within(#[trigger] rest[i]) by {
                assert(rest[i] == ss[i + 1]);
            }
        }
        if s matches SegmentView::Block(b) && b.block_type is Any {
            if rest.len() > 0 && segment_split(rest[0]) is Some {
                let (first, left) = segment_split(rest[0])->Some_0;
                let after = rest.update(0, left);
                assert(ended_within(rest[0]));
                assert(ended_within(left));
                assert(ended_within(first));
                assert(!first.holds_command());
                assert(all_ended_within(after)) by {
                    assert forall|i: int| 0 <= i < after.len() implies ended_within(
                        #[trigger] after[i],
                    ) by {
                        if i > 0 {
                            assert(ended_within(rest[i]));
                        }
                    }
                }
                lemma_attach_within(after);
                let one = seq![first];
                assert(one.skip(1) =~= Seq::empty());
                assert(walk(true, Place::Outside, one.skip(1)) == Some(Place::Outside));
                assert(walk(true, Place::Outside, one) == Some(Place::Outside));
                lemma_within_cons(wildcard(s.location(), one), attach(after));
            } else {
                lemma_attach_within(rest);
                assert(walk(true, Place::Outside, Seq::empty()) == Some(Place::Outside));
                lemma_within_cons(wildcard(s.location(), Seq::empty()), attach(rest));
            }
        } else {
            lemma_attach_within(rest);
            if !s.is_empty() {
                assert(ended_within(ss[0]));
                lemma_within_cons(s, attach(rest));
            }
        }
    }
}

/// What gathering gives is ready for wildcards, and only the output of its
/// last command may not be ended.
spec fn gathers_well(segments: Seq<SegmentView>) -> bool {
    let (out, open) = gather(segments);
    &&& all_ready(out)
    &&& all_ended_within(out)
    &&& has_command(out) == has_command(segments)
    &&& walk(false, Place::Outside, out) matches Some(end) && (end is Outside) == !open
}

proof fn lemma_push_end(out: Seq<SegmentView>, location: ScriptLocation)
    requires
        all_ready(out),
        all_ended_within(out),
        walk(false, Place::Outside, out) is Some,
        !(walk(false, Place::Outside, out)->Some_0 is Outside),
    ensures
        all_ready(out.push(end_block(location))),
        all_ended_within(out.push(end_block(location))),
        has_command(out.push(end_block(location))) == has_command(out),
        walk(false, Place::Outside, out.push(end_block(location))) == Some(Place::Ended),
{
    let e = end_block(location);
    lemma_walk_push(false, Place::Outside, out, e);
    lemma_has_command_push(out, e);
    assert(e->Block_0.lines[0].text == "end"@);
    assert(is_end_block(e));
}

proof fn lemma_push_segment(out: Seq<SegmentView>, s: SegmentView)
    requires
        all_ready(out),
        all_ended_within(out),
        ready(s),
        ended_within(s),
    ensures
        all_ready(out.push(s)),
        all_ended_within(out.push(s)),
        has_command(out.push(s)) == (has_command(out) || s.holds_command()),
        walk(false, Place::Outside, out.push(s)) == match walk(false, Place::Outside, out) {
            None => None,
            Some(end) => place_behind(false, end, s),
        },
{
    lemma_walk_push(false, Place::Outside, out, s);
    lemma_has_command_push(out, s);
}

proof fn lemma_push_merged(out: Seq<SegmentView>, b: BlockView)
    requires
        all_ready(out),
        all_ended_within(out),
        b.lines.len() > 0,
        !(b.block_type is Command),
        walk(false, Place::Outside, out) is Some,
    ensures
        all_ready(merge_block(out, b)),
        all_ended_within(merge_block(out, b)),
        has_command(merge_block(out, b)) == has_command(out),
        walk(false, Place::Outside, merge_block(out, b)) is Some,
        walk(false, Place::Outside, merge_block(out, b))->Some_0 is Outside <==> walk(
            false,
            Place::Outside,
            out,
        )->Some_0 is Outside,
{
    let s = SegmentView::Block(b);
    if out.len() > 0 && out.last() is Block && b.block_type.same_kind(
        out.last()->Block_0.block_type,
    ) {
        let last = out.last()->Block_0;
        let front = out.drop_last();
        let merged = SegmentView::Block(BlockView { lines: last.lines + b.lines, ..last });
        assert(out[out.len() - 1] == out.last());
        assert(front.push(out.last()) =~= out);
        assert(all_ready(front)) by {
            assert forall|i: int| 0 <= i < front.len() implies ready(#[trigger] front[i]) by {
                assert(ready(out[i]));
            }
        }
        assert(all_ended_within(front)) by {
            assert forall|i: int| 0 <= i < front.len() implies ended_within(
                #[trigger] front[i],
            ) by {
                assert(ended_within(out[i]));
            }
        }
        assert(!(last.block_type is Command));
        lemma_push_segment(front, out.last());
        lemma_push_segment(front, merged);
        assert(merge_block(out, b) == front.push(merged));
    } else {
        lemma_push_segment(out, s);
        assert(merge_block(out, b) == out.push(s));
    }
}

proof fn lemma_gathers_well(segments: Seq<SegmentView>)
    requires
        segments_well_formed(segments),
    ensures
        gathers_well(segments),
    decreases segments, 0int,
{
    if segments.len() > 0 {
        let s = segments.last();
        let front = segments.drop_last();
        assert(segments[segments.len() - 1].well_formed());
        assert(segments_well_formed(front)) by {
            assert forall|i: int| 0 <= i < front.len() implies (#[trigger] front[i]).well_formed() by {
                assert(front[i] == segments[i]);
            }
        }
        lemma_gathers_well(front);
        assert(front.push(s) =~= segments);
        lemma_has_command_push(front, s);
        let (before, open) = gather(front);
        let out = if s.holds_command() && open {
            before.push(end_block(s.location()))
        } else {
            before
        };
        if s.holds_command() && open {
            lemma_push_end(before, s.location());
        }
        match s {
            SegmentView::Block(b) => {
                if b.block_type is Command {
                    lemma_push_segment(out, s);
                    assert(merge_block(out, b) == out.push(s));
                } else if !(b.block_type is Ineffectual) {
                    lemma_push_merged(out, b);
                }
            },
            SegmentView::SubBlock(location, name, args, inner) => {
                assert(segments_well_formed(inner));
                lemma_normalizes_well(inner);
                law_normalized_is_tidy(inner);
                let sub = SegmentView::SubBlock(location, name, args, normalized(inner));
                lemma_sub_command(location, name, args, inner);
                lemma_sub_command(location, name, args, normalized(inner));
                assert(tidy(sub));
                lemma_push_segment(out, sub);
            },
            SegmentView::Semi(_, _, _) => {
                lemma_push_segment(out, s);
            },
        }
    }
}

proof fn lemma_normalizes_well(segments: Seq<SegmentView>)
    requires
        segments_well_formed(segments),
    ensures
        all_ended(true, Place::Outside, normalized(segments)),
        all_ended_within(normalized(segments)),
        has_command(normalized(segments)) == has_command(segments),
    decreases segments, 1int,
{
    lemma_gathers_well(segments);
    let (out, open) = gather(segments);
    if open {
        let location = segments.last().location();
        lemma_push_end(out, location);
        lemma_attach_ended(Place::Outside, out.push(end_block(location)));
        lemma_attach_within(out.push(end_block(location)));
    } else {
        lemma_attach_ended(Place::Outside, out);
        lemma_attach_within(out);
    }
}

proof fn lemma_walk_split(at: Place, ss: Seq<SegmentView>, k: int)
    requires
        0 <= k <= ss.len(),
        walk(true, at, ss) is Some,
    ensures
        walk(true, at, ss.take(k)) is Some,
        walk(true, at, ss) == walk(true, walk(true, at, ss.take(k))->Some_0, ss.skip(k)),
    decreases k,
{
    if k == 0 {
        assert(ss.take(0) =~= Seq::empty());
        assert(ss.skip(0) =~= ss);
    } else {
        let next = place_behind(true, at, ss[0])->Some_0;
        lemma_walk_split(next, ss.skip(1), k - 1);
        assert(ss.take(k).skip(1) =~= ss.skip(1).take(k - 1));
        assert(ss.skip(1).skip(k - 1) =~= ss.skip(k));
        assert(ss.take(k)[0] == ss[0]);
    }
}

/// The patterns of a command run up to the end of its output.
proof fn lemma_open_run(at: Place, ss: Seq<SegmentView>, j: int)
    requires
        0 <= j <= ss.len(),
        !(at is Outside),
        all_ended(true, at, ss.skip(j)),
        forall|i: int| 0 <= i < ss.len() ==> !(#[trigger] ss[i]).is_empty(),
    ensures
        ({
            let n = command_index(ss, j);
            &&& at is Open ==> n > j
            &&& n > j ==> ends_output(ss[n - 1])
        }),
    decreases ss.len() - j,
{
    lemma_command_index(ss, j);
    if j < ss.len() {
        assert(ss.skip(j)[0] == ss[j]);
        if !ss[j].holds_command() {
            let next = place_behind(true, at, ss[j])->Some_0;
            assert(ss.skip(j).skip(1) =~= ss.skip(j + 1));
            lemma_command_index(ss, j + 1);
            lemma_open_run(next, ss, j + 1);
        }
    }
}

proof fn lemma_command_run(ss: Seq<SegmentView>, i: int)
    requires
        all_ended(true, Place::Outside, ss),
        forall|k: int| 0 <= k < ss.len() ==> !(#[trigger] ss[k]).is_empty(),
        0 <= i < ss.len(),
        ss[i] is Block,
        ss[i].holds_command(),
    ensures
        i + 1 < command_index(ss, i + 1) <= ss.len(),
        ends_output(ss[command_index(ss, i + 1) - 1]),
{
    lemma_walk_split(Place::Outside, ss, i);
    let at = walk(true, Place::Outside, ss.take(i))->Some_0;
    let rest = ss.skip(i);
    assert(rest[0] == ss[i]);
    assert(rest.skip(1) =~= ss.skip(i + 1));
    assert(walk(true, at, rest) is Some);
    assert(place_behind(true, at, ss[i]) == Some(Place::Open));
    lemma_command_index(ss, i + 1);
    lemma_open_run(Place::Open, ss, i + 1);
}

/// Whether a pattern matches up to the end of the output: it is the end, a
/// wildcard up to the end, or a sequence whose last pattern is one of these.
pub open spec fn reaches_end(p: PatternView) -> bool
    decreases p,
{
    match p.kind {
        KindView::End => true,
        KindView::Any(q) => q.kind is End,
        KindView::Sequence(ps) => ps.len() > 0 && reaches_end(ps[ps.len() - 1]),
        _ => false,
    }
}

/// A word that is trimmed already.
proof fn lemma_end_trimmed()
    ensures
        trimmed("end"@) == "end"@,
{
    reveal_strlit("end");
    assert("end"@.len() == 3);
    assert(!white("end"@[0]));
    assert(!white("end"@[2]));
    assert(trimmed_start("end"@) == "end"@);
    assert(trimmed_end("end"@) == "end"@);
}

/// The pattern that ends the output of a command.
proof fn lemma_end_patterns(s: SegmentView)
    requires
        is_end_block(s),
    ensures
        segment_patterns(s) matches Ok(held) && held.ignore.len() == 0 && held.reject.len() == 0
            && held.patterns.len() == 1 && held.patterns[0].kind is End,
{
    let b = s->Block_0;
    let line = b.lines[0];
    lemma_end_trimmed();
    assert(line.trimmed() == "end"@);
    assert(starts_multiline(line) is None) by {
        reveal_strlit("end");
        reveal_strlit("!!!");
        reveal_strlit("???");
        reveal_strlit("\"\"\"");
        assert("end"@[0] == 'e');
    }
    assert(single_line(line) == Ok::<PatternView, crate::parser::v0::patterns::ProblemView>(
        bare(line.location, KindView::End),
    )) by {
        reveal_strlit("end");
        reveal_strlit("!");
        reveal_strlit("?");
        reveal_strlit("! ");
        reveal_strlit("? ");
        assert("end"@[0] == 'e');
        assert("end"@.len() == 3);
        assert("end"@.take(2)[0] == 'e');
        assert("! "@[0] == '!');
        assert("? "@[0] == '?');
        assert(!has_prefix("end"@, "! "@));
        assert(!has_prefix("end"@, "? "@));
        assert("!"@.len() == 1);
        assert("?"@.len() == 1);
    }
    assert(b.lines.skip(1) =~= Seq::empty());
    assert(line_patterns(b.lines.skip(1), None) == Ok::<
        Seq<PatternView>,
        crate::parser::v0::patterns::ProblemView,
    >(Seq::empty()));
}

/// A segment that ends the output of a command gives one pattern, which
/// reaches the end.
proof fn lemma_ending_patterns(s: SegmentView)
    requires
        ends_output(s),
    ensures
        segment_patterns(s) matches Ok(held) ==> held.patterns.len() == 1 && reaches_end(
            held.patterns[0],
        ),
        !is_meta_block(s),
{
    if is_end_block(s) {
        lemma_end_patterns(s);
    } else if let SegmentView::SubBlock(location, name, args, inner) = s {
        lemma_end_patterns(inner[0]);
        assert(inner.drop_last() =~= Seq::empty());
        assert(inner.last() == inner[0]);
        assert(segments_patterns(inner.drop_last()) is Ok);
        let held = segments_patterns(inner);
        let end = segment_patterns(inner[0])->Ok_0;
        assert(held matches Ok(n) && n.patterns =~= end.patterns);
        reveal_strlit("*");
        reveal_strlit("if");
        reveal_strlit("reject");
        reveal_strlit("ignore");
        reveal_strlit("repeat");
        reveal_strlit("choice");
        reveal_strlit("unordered");
        reveal_strlit("sequence");
        reveal_strlit("optional");
        reveal_strlit("not");
        assert("*"@.len() == 1);
        assert(sequence_of(location, held->Ok_0.patterns) == end.patterns[0]);
    }
}

/// The pattern of a command reaches the end of its output.
proof fn lemma_command_reaches_end(
    location: ScriptLocation,
    line: CommandLineView,
    below: Seq<SegmentView>,
)
    requires
        below.len() > 0,
        ends_output(below.last()),
    ensures
        command_of(location, line, below) matches Ok(c) ==> reaches_end(c.pattern),
{
    lemma_ending_patterns(below.last());
    let has_meta = is_meta_block(below[0]);
    let rest = if has_meta {
        below.skip(1)
    } else {
        below
    };
    assert(has_meta ==> below.len() > 1);
    assert(rest.last() == below.last());
    if let Ok(c) = command_of(location, line, below) {
        let held = segments_patterns(rest)->Ok_0;
        let front = segments_patterns(rest.drop_last())->Ok_0;
        let last = segment_patterns(rest.last())->Ok_0;
        assert(held == front.joined(last));
        assert(held.patterns.last() == last.patterns[0]);
        assert(held.patterns[held.patterns.len() - 1] == last.patterns[0]);
    }
}

/// Whether the pattern of each command in a part of a script reaches the end
/// of the output.
pub open spec fn commands_reach_end(b: ScriptBlockView) -> bool
    decreases b,
{
    match b {
        ScriptBlockView::Command(c) => reaches_end(c.pattern),
        ScriptBlockView::Background(v) => forall|i: int|
            0 <= i < v.len() ==> commands_reach_end(#[trigger] v[i]),
        ScriptBlockView::Defer(v) => forall|i: int|
            0 <= i < v.len() ==> commands_reach_end(#[trigger] v[i]),
        ScriptBlockView::If(_, v) => forall|i: int|
            0 <= i < v.len() ==> commands_reach_end(#[trigger] v[i]),
        ScriptBlockView::For(_, _, v) => forall|i: int|
            0 <= i < v.len() ==> commands_reach_end(#[trigger] v[i]),
        ScriptBlockView::Retry(v) => forall|i: int|
            0 <= i < v.len() ==> commands_reach_end(#[trigger] v[i]),
        _ => true,
    }
}

/// Whether the pattern of each command in parts of a script reaches the end
/// of the output.
pub open spec fn all_reach_end(blocks: Seq<ScriptBlockView>) -> bool {
    forall|i: int| 0 <= i < blocks.len() ==> commands_reach_end(#[trigger] blocks[i])
}

proof fn lemma_reach_end_concat(a: Seq<ScriptBlockView>, b: Seq<ScriptBlockView>)
    requires
        all_reach_end(a),
        all_reach_end(b),
    ensures
        all_reach_end(a + b),
{
    assert forall|i: int| 0 <= i < (a + b).len() implies commands_reach_end(
        #[trigger] (a + b)[i],
    ) by {
        if i < a.len() {
            assert((a + b)[i] == a[i]);
        } else {
            assert((a + b)[i] == b[i - a.len()]);
        }
    }
}

proof fn lemma_script_reaches_end(ss: Seq<SegmentView>)
    requires
        solid(ss),
        all_ended(true, Place::Outside, ss),
        all_ended_within(ss),
    ensures
        script_blocks(ss) matches Ok(blocks) ==> all_reach_end(blocks),
    decreases ss, ss.len() + 1,
{
    let first = command_index(ss, 0);
    lemma_command_index(ss, 0);
    if let Ok(blocks) = script_blocks(ss) {
        let held = segments_patterns(ss.take(first))->Ok_0;
        lemma_blocks_reach_end(ss, first);
        lemma_reach_end_concat(
            crate::parser::v0::parse::preamble_blocks(held),
            command_blocks(ss, first)->Ok_0,
        );
    }
}

proof fn lemma_blocks_reach_end(ss: Seq<SegmentView>, i: int)
    requires
        solid(ss),
        all_ended(true, Place::Outside, ss),
        all_ended_within(ss),
        0 <= i <= ss.len(),
    ensures
        command_blocks(ss, i) matches Ok(blocks) ==> all_reach_end(blocks),
    decreases ss, ss.len() - i,
{
    if i < ss.len() && command_blocks(ss, i) is Ok {
        match ss[i] {
            SegmentView::SubBlock(location, name, args, inner) => {
                assert(ended_within(ss[i]));
                lemma_script_reaches_end(inner);
                lemma_blocks_reach_end(ss, i + 1);
                let blocks = script_blocks(inner)->Ok_0;
                let here = control_block(location, name, args, blocks, segments_patterns(inner));
                assert(all_reach_end(here->Ok_0));
                lemma_reach_end_concat(here->Ok_0, command_blocks(ss, i + 1)->Ok_0);
            },
            SegmentView::Semi(location, name, args) => {
                lemma_blocks_reach_end(ss, i + 1);
                let c = crate::parser::v0::parse::internal_command(location, name, args)->Ok_0;
                let here = seq![ScriptBlockView::InternalCommand(location, c)];
                lemma_reach_end_concat(here, command_blocks(ss, i + 1)->Ok_0);
            },
            SegmentView::Block(b) => {
                if let BlockTypeView::Command(line) = b.block_type {
                    let next = command_index(ss, i + 1);
                    lemma_command_index(ss, i + 1);
                    lemma_blocks_reach_end(ss, next);
                    assert(has_command(ss)) by {
                        assert(ss[i].holds_command());
                    }
                    lemma_command_run(ss, i);
                    let below = ss.subrange(i + 1, next);
                    assert(below.last() == ss[next - 1]);
                    lemma_command_reaches_end(b.location, line, below);
                    let c = command_of(b.location, line, below)->Ok_0;
                    let here = seq![ScriptBlockView::Command(c)];
                    lemma_reach_end_concat(here, command_blocks(ss, next)->Ok_0);
                }
            },
        }
    }
}

/// The pattern of each command of a script that can be read, at any depth,
/// reaches the end of the output of the command.
pub proof fn law_patterns_reach_end(lines: Seq<ScriptLineView>)
    requires
        lines_from(lines, 1),
    ensures
        parsed_lines(lines) matches Ok(blocks) ==> all_reach_end(blocks),
{
    law_every_line_in_one_segment(lines);
    if let Ok((segments, _)) = segments_of(true, lines) {
        lemma_normalizes_well(segments);
        law_normalized_is_tidy(segments);
        lemma_script_reaches_end(normalized(segments));
    }
}

/// At the end of the output there is no next line.
proof fn lemma_no_next_line(fuel: nat, scene: Scene, lines: LinesView, mem: Memory)
    ensures
        next(fuel, scene, lines, mem) matches Some((Ok((None, behind)), _))
            ==> behind.next_line() is None,
    decreases fuel,
{
    if fuel > 0 && lines.next_line() is Some && !lines.disabled {
        let f = (fuel - 1) as nat;
        if let Some((Some(behind), after)) = crate::output::matching::match_any_of(
            f,
            lines.ignored,
            scene.as_ignoring(),
            lines.without_negatives(),
            mem,
        ) {
            lemma_no_next_line(f, scene, behind.with_negatives(), after);
        }
    }
}

/// A pattern that is the end matches only at the end.
proof fn lemma_end_leaves_nothing(
    fuel: nat,
    p: PatternView,
    scene: Scene,
    lines: LinesView,
    mem: Memory,
)
    requires
        p.kind is End,
    ensures
        match_pattern(fuel, p, scene, lines, mem) matches Some((Ok(behind), _))
            ==> behind.next_line() is None,
{
    let at = lines.with_patterns(p.ignore, p.reject);
    if fuel > 2 {
        lemma_no_next_line((fuel - 3) as nat, scene, at, mem);
        let raw = raw_match((fuel - 2) as nat, p.kind, p.location, scene, at, mem);
        assert(raw is None ==> match_kind((fuel - 1) as nat, p.kind, p.location, scene, at, mem)
            is None);
    } else if fuel == 2 {
        assert(raw_match(0, p.kind, p.location, scene, at, mem) is None);
        assert(match_kind(1, p.kind, p.location, scene, at, mem) is None);
    } else if fuel == 1 {
        assert(match_kind(0, p.kind, p.location, scene, at, mem) is None);
    }
}

proof fn lemma_until_leaves_nothing(
    fuel: nat,
    p: PatternView,
    scene: Scene,
    lines: LinesView,
    mem: Memory,
)
    requires
        p.kind is End,
    ensures
        match_until(fuel, p, scene, lines, mem) matches Some((Ok(behind), _))
            ==> behind.next_line() is None,
    decreases fuel,
{
    if fuel > 0 {
        let f = (fuel - 1) as nat;
        lemma_end_leaves_nothing(f, p, scene, lines, mem);
        if let Some((Err(_), after)) = match_pattern(f, p, scene, lines, mem) {
            if let Some((Ok((Some(_), behind)), done)) = next(f, scene, lines, after) {
                lemma_until_leaves_nothing(f, p, scene, behind, done);
            }
        }
    }
}

proof fn lemma_all_leave_nothing(
    fuel: nat,
    ps: Seq<PatternView>,
    scene: Scene,
    lines: LinesView,
    mem: Memory,
)
    requires
        ps.len() > 0,
        reaches_end(ps[ps.len() - 1]),
    ensures
        match_all(fuel, ps, scene, lines, mem) matches Some((Ok(behind), _))
            ==> behind.next_line() is None,
    decreases fuel,
{
    if fuel > 0 {
        let f = (fuel - 1) as nat;
        if let Some((Ok(behind), after)) = match_pattern(f, ps[0], scene, lines, mem) {
            if ps.len() == 1 {
                law_match_takes_up_all_output(f, ps[0], scene, lines, mem);
                assert(ps.skip(1) =~= Seq::empty());
            } else {
                assert(ps.skip(1)[ps.len() - 2] == ps[ps.len() - 1]);
                lemma_all_leave_nothing(f, ps.skip(1), scene, behind, after);
            }
        }
    }
}

/// A pattern that reaches the end matches only where no line of the output is
/// left behind it. With [`law_patterns_reach_end`]: the output of a command
/// matches only where each of its lines is matched or skipped.
pub proof fn law_match_takes_up_all_output(
    fuel: nat,
    p: PatternView,
    scene: Scene,
    lines: LinesView,
    mem: Memory,
)
    requires
        reaches_end(p),
    ensures
        match_pattern(fuel, p, scene, lines, mem) matches Some((Ok(behind), _))
            ==> behind.next_line() is None,
    decreases fuel,
{
    let at = lines.with_patterns(p.ignore, p.reject);
    let inner = Memory { expects: mem.expects, trace: Seq::empty() };
    if p.kind is End {
        lemma_end_leaves_nothing(fuel, p, scene, lines, mem);
    } else if fuel == 2 {
        assert(raw_match(0, p.kind, p.location, scene, at, inner) is None);
        assert(match_kind(1, p.kind, p.location, scene, at, mem) is None);
    } else if fuel == 1 {
        assert(match_kind(0, p.kind, p.location, scene, at, mem) is None);
    } else if fuel > 2 {
        let f = (fuel - 3) as nat;
        let raw = raw_match((fuel - 2) as nat, p.kind, p.location, scene, at, inner);
        assert(raw is None ==> match_kind((fuel - 1) as nat, p.kind, p.location, scene, at, mem)
            is None);
        match p.kind {
            KindView::Any(q) => {
                lemma_until_leaves_nothing(f, *q, scene, at, inner);
            },
            KindView::Sequence(ps) => {
                lemma_all_leave_nothing(f, ps, scene, at, inner);
            },
            _ => {},
        }
    }
}

} // verus!
