//! Bringing segments into the form that the parser reads.
use crate::parser::v0::segment::{
    block_first, block_rest, segments_model, segments_well_formed, BlockType, BlockTypeView,
    BlockView, ScriptV0Block, ScriptV0Segment, SegmentView,
};
use crate::script::{script_lines_view, ScriptLine, ScriptLineView, ScriptLocation};
use vstd::prelude::*;

verus! {

/// The part of a segment that a wildcard takes, and what is left: the first
/// line of a pattern block, or a whole block in braces without commands.
pub open spec fn segment_split(s: SegmentView) -> Option<(SegmentView, SegmentView)> {
    match s {
        SegmentView::Block(b) => match block_first(b) {
            Some(first) => Some((SegmentView::Block(first), SegmentView::Block(block_rest(b)))),
            None => None,
        },
        SegmentView::SubBlock(location, _, _, _) => if s.holds_command() {
            None
        } else {
            Some(
                (
                    s,
                    SegmentView::Block(
                        BlockView {
                            location,
                            block_type: BlockTypeView::Ineffectual,
                            lines: Seq::empty(),
                        },
                    ),
                ),
            )
        },
        SegmentView::Semi(_, _, _) => None,
    }
}

impl ScriptV0Segment {
    /// Used by wildcard handling.
    pub fn split_first(&mut self) -> (r: Option<Self>)
        ensures
            match r {
                Some(first) => segment_split(old(self).model()) == Some(
                    (first.model(), final(self).model()),
                ),
                None => segment_split(old(self).model()) is None && final(self).model() == old(
                    self,
                ).model(),
            },
    {
        if self.contains_command() {
            return None;
        }
        if let ScriptV0Segment::Block(block) = self {
            return match block.split_first() {
                Some(first) => Some(ScriptV0Segment::Block(first)),
                None => None,
            };
        }
        let mut whole = ScriptV0Segment::Block(
            ScriptV0Block {
                location: self.location().clone(),
                block_type: BlockType::Ineffectual,
                lines: Vec::new(),
            },
        );
        proof {
            assert(script_lines_view(whole->Block_0.lines@) =~= Seq::empty());
        }
        std::mem::swap(self, &mut whole);
        Some(whole)
    }
}

/// The block that ends the output of a command, in front of `location`.
pub open spec fn end_block(location: ScriptLocation) -> SegmentView {
    let before = ScriptLocation { file: location.file, line: (location.line - 1) as usize };
    SegmentView::Block(
        BlockView {
            location: before,
            block_type: BlockTypeView::Pattern,
            lines: seq![ScriptLineView { location: before, text: "end"@ }],
        },
    )
}

/// A block added to segments: to the last one, where that is a block of the
/// same kind that is no command.
pub open spec fn merge_block(out: Seq<SegmentView>, b: BlockView) -> Seq<SegmentView> {
    match out.last() {
        SegmentView::Block(last) if out.len() > 0 && !(b.block_type is Command)
            && b.block_type.same_kind(last.block_type) => out.drop_last().push(
            SegmentView::Block(BlockView { lines: last.lines + b.lines, ..last }),
        ),
        _ => out.push(SegmentView::Block(b)),
    }
}

/// The segments without ineffectual blocks, consecutive blocks of one kind
/// merged, and the output of each command ended; and whether the output of
/// the last command still has to be ended.
pub open spec fn gather(segments: Seq<SegmentView>) -> (Seq<SegmentView>, bool)
    decreases segments, 0int,
{
    if segments.len() == 0 {
        (Seq::empty(), false)
    } else {
        let s = segments.last();
        let (before, open) = gather(segments.drop_last());
        let out = if s.holds_command() && open {
            before.push(end_block(s.location()))
        } else {
            before
        };
        let needs_end = open && !s.holds_command();
        match s {
            SegmentView::Block(b) => if b.block_type is Ineffectual {
                (out, needs_end)
            } else {
                (merge_block(out, b), needs_end || b.block_type is Command)
            },
            SegmentView::SubBlock(location, name, args, inner) => (
                out.push(SegmentView::SubBlock(location, name, args, normalized(inner))),
                needs_end,
            ),
            SegmentView::Semi(_, _, _) => (out.push(s), needs_end),
        }
    }
}

/// A wildcard, with what it is followed by.
pub open spec fn wildcard(location: ScriptLocation, until: Seq<SegmentView>) -> SegmentView {
    SegmentView::SubBlock(location, "*"@, Seq::empty(), until)
}

/// The segments with each wildcard line made a block that holds what follows
/// it, and empty segments removed.
pub open spec fn attach(segments: Seq<SegmentView>) -> Seq<SegmentView>
    decreases segments.len(),
{
    if segments.len() == 0 {
        Seq::empty()
    } else {
        let s = segments[0];
        let rest = segments.skip(1);
        if s matches SegmentView::Block(b) && b.block_type is Any {
            if rest.len() > 0 && segment_split(rest[0]) is Some {
                let (first, left) = segment_split(rest[0])->Some_0;
                seq![wildcard(s.location(), seq![first])] + attach(rest.update(0, left))
            } else {
                seq![wildcard(s.location(), Seq::empty())] + attach(rest)
            }
        } else if s.is_empty() {
            attach(rest)
        } else {
            seq![s] + attach(rest)
        }
    }
}

/// The normal form of segments.
pub open spec fn normalized(segments: Seq<SegmentView>) -> Seq<SegmentView>
    decreases segments, 1int,
{
    let (out, needs_end) = gather(segments);
    attach(
        if needs_end {
            out.push(end_block(segments.last().location()))
        } else {
            out
        },
    )
}

/// Appends the block that ends the output of a command.
fn insert_virtual_end_block(location: ScriptLocation, segments: &mut Vec<ScriptV0Segment>)
    requires
        location.line >= 1,
    ensures
        segments_model(final(segments)@) == segments_model(old(segments)@).push(
            end_block(location),
        ),
{
    let line = ScriptLine::new(location.file.clone(), location.line - 1, "end");
    let ghost line_view = line@;
    let before = line.location.clone();
    let mut lines: Vec<ScriptLine> = Vec::new();
    lines.push(line);
    proof {
        assert(script_lines_view(lines@) =~= seq![line_view]);
    }
    segments.push(
        ScriptV0Segment::Block(
            ScriptV0Block { location: before, block_type: BlockType::Pattern, lines },
        ),
    );
    proof {
        assert(segments_model(segments@) =~= segments_model(old(segments)@).push(
            end_block(location),
        ));
    }
}

/// Adds a block to segments, merging it with the last one where that is a
/// block of the same kind that is no command.
fn push_block(segments: &mut Vec<ScriptV0Segment>, mut block: ScriptV0Block)
    ensures
        segments_model(final(segments)@) == merge_block(segments_model(old(segments)@), block@),
{
    let ghost before = segments_model(segments@);
    let ghost added = block@;
    let n: usize = segments.len();
    if n > 0 && !block.block_type.is_command() {
        proof {
            assert(before.last() == segments@[n - 1].model());
        }
        if let ScriptV0Segment::Block(last) = &mut segments[n - 1] {
            if block.block_type.is_same_type_as(&last.block_type) {
                let ghost had = last@;
                last.lines.append(&mut block.lines);
                proof {
                    assert(last@.lines =~= had.lines + added.lines);
                    assert(last@ == (BlockView { lines: had.lines + added.lines, ..had }));
                }
                proof {
                    assert(segments_model(segments@) =~= merge_block(before, added));
                }
                return ;
            }
        }
    }
    segments.push(ScriptV0Segment::Block(block));
    proof {
        assert(segments_model(segments@) =~= before.push(SegmentView::Block(added)));
    }
}

/// Makes each wildcard line a block that holds what follows it, and removes
/// empty segments.
fn attach_wildcards(segments: Vec<ScriptV0Segment>) -> (r: Vec<ScriptV0Segment>)
    ensures
        segments_model(r@) == attach(segments_model(segments@)),
{
    let mut v = segments;
    let ghost goal = attach(segments_model(v@));
    let mut i: usize = 0;
    proof {
        assert(segments_model(v@).skip(0) =~= segments_model(v@));
        assert(segments_model(v@).take(0) =~= Seq::empty());
        assert(Seq::<SegmentView>::empty() + goal =~= goal);
    }
    while i < v.len()
        invariant
            i <= v@.len(),
            goal == segments_model(v@).take(i as int) + attach(segments_model(v@).skip(i as int)),
        decreases v@.len() - i,
    {
        let ghost m = segments_model(v@);
        let ghost rest = m.skip(i as int);
        proof {
            assert(rest[0] == v@[i as int].model());
            assert(rest.skip(1) =~= m.skip(i + 1));
        }
        let location = v[i].location().clone();
        let is_any = match &v[i] {
            ScriptV0Segment::Block(block) => block.block_type.is_any(),
            _ => false,
        };
        if is_any {
            let mut until: Vec<ScriptV0Segment> = Vec::new();
            let ghost mut after = m;
            if i + 1 < v.len() {
                proof {
                    assert(rest.skip(1)[0] == v@[i + 1].model());
                }
                if let Some(first) = v[i + 1].split_first() {
                    until.push(first);
                }
                proof {
                    after = segments_model(v@);
                    if until@.len() == 1 {
                        assert(segments_model(until@) =~= seq![until@[0].model()]);
                        assert(after =~= m.update(i + 1, after[i + 1]));
                        assert(after.skip(i + 1) =~= rest.skip(1).update(0, after[i + 1]));
                    } else {
                        assert(segments_model(until@) =~= Seq::empty());
                        assert(after =~= m);
                    }
                }
            } else {
                proof {
                    assert(segments_model(until@) =~= Seq::empty());
                }
            }
            let ghost until_model = segments_model(until@);
            let args = Vec::new();
            let block = ScriptV0Segment::SubBlock(location, "*".to_owned(), args, until);
            proof {
                assert(crate::util::shell::bits_view(args@) =~= Seq::empty());
                assert(block.model()->SubBlock_3 =~= until_model);
                assert(block.model() == wildcard(location, until_model));
            }
            v[i] = block;
            proof {
                let now = segments_model(v@);
                assert(now.take(i + 1) =~= m.take(i as int).push(block.model()));
                assert(now.skip(i + 1) =~= after.skip(i + 1));
                assert(m.take(i as int) + (seq![block.model()] + attach(now.skip(i + 1)))
                    =~= now.take(i + 1) + attach(now.skip(i + 1)));
            }
            i += 1;
        } else if v[i].is_empty() {
            v.remove(i);
            proof {
                let now = segments_model(v@);
                assert(now.take(i as int) =~= m.take(i as int));
                assert(now.skip(i as int) =~= m.skip(i + 1));
            }
        } else {
            proof {
                assert(m.take(i + 1) =~= m.take(i as int).push(rest[0]));
                assert(m.take(i as int) + (seq![rest[0]] + attach(m.skip(i + 1))) =~= m.take(i + 1)
                    + attach(m.skip(i + 1)));
            }
            i += 1;
        }
    }
    proof {
        assert(segments_model(v@).skip(i as int) =~= Seq::empty());
        assert(segments_model(v@).take(i as int) + Seq::<SegmentView>::empty() =~= segments_model(
            v@,
        ));
    }
    v
}

/// Remove all ineffectual blocks, and merge consecutive blocks that are of the same type.
pub fn normalize_segments(segments: Vec<ScriptV0Segment>) -> (r: Vec<ScriptV0Segment>)
    requires
        segments_well_formed(segments_model(segments@)),
    ensures
        segments_model(r@) == normalized(segments_model(segments@)),
    decreases segments,
{
    let ghost model = segments_model(segments@);
    let n: usize = segments.len();
    if n == 0 {
        proof {
            assert(model =~= Seq::empty());
            assert(attach(Seq::empty()) =~= Seq::<SegmentView>::empty());
        }
        return segments;
    }
    let last = segments[n - 1].location().clone();
    let mut source = segments;
    let mut out: Vec<ScriptV0Segment> = Vec::new();
    let mut needs_end = false;
    let mut i: usize = 0;
    proof {
        assert(model.last() == segments@[n - 1].model());
        assert(model.take(0) =~= Seq::empty());
        assert(segments_model(out@) =~= Seq::empty());
    }
    while i < n
        invariant
            i <= n == segments@.len() == source@.len(),
            model == segments_model(segments@),
            segments_well_formed(model),
            forall|j: int| i <= j < n ==> source@[j] == segments@[j],
            gather(model.take(i as int)) == (segments_model(out@), needs_end),
        decreases n - i,
    {
        let location = source[i].location().clone();
        let is_command = source[i].contains_command();
        let ghost s = model[i as int];
        let ghost before = segments_model(out@);
        let ghost was_open = needs_end;
        proof {
            assert(s == segments@[i as int].model());
            assert(s.well_formed());
            assert(model.take(i + 1).drop_last() =~= model.take(i as int));
            assert(model.take(i + 1).last() == s);
        }
        if is_command && needs_end {
            insert_virtual_end_block(location.clone(), &mut out);
            needs_end = false;
        }
        let mut segment = ScriptV0Segment::Semi(location, String::new(), Vec::new());
        std::mem::swap(&mut source[i], &mut segment);
        proof {
            assert(segment == segments@[i as int]);
        }
        match segment {
            ScriptV0Segment::Block(block) => {
                if !block.block_type.is_ineffectual() {
                    if block.block_type.is_command() {
                        needs_end = true;
                    }
                    push_block(&mut out, block);
                }
            },
            ScriptV0Segment::SubBlock(location, name, args, inner) => {
                let ghost inner_model = segments_model(inner@);
                proof {
                    assert(s->SubBlock_3 =~= inner_model);
                    assert(segments_well_formed(inner_model));
                }
                let inner = normalize_segments(inner);
                let ghost had = segments_model(out@);
                let sub = ScriptV0Segment::SubBlock(location, name, args, inner);
                proof {
                    assert(sub.model()->SubBlock_3 =~= normalized(inner_model));
                }
                out.push(sub);
                proof {
                    assert(segments_model(out@) =~= had.push(sub.model()));
                }
            },
            ScriptV0Segment::Semi(location, name, args) => {
                let ghost had = segments_model(out@);
                out.push(ScriptV0Segment::Semi(location, name, args));
                proof {
                    assert(segments_model(out@) =~= had.push(s));
                }
            },
        }
        i += 1;
    }
    proof {
        assert(model.take(n as int) =~= model);
        assert(model[n - 1].well_formed());
    }
    if needs_end {
        insert_virtual_end_block(last, &mut out);
    }
    attach_wildcards(out)
}

/// Every block of the segment, at any depth, has lines, and these are
/// commands, patterns or meta lines.
pub open spec fn tidy(s: SegmentView) -> bool
    decreases s,
{
    match s {
        SegmentView::Block(b) => b.lines.len() > 0 && !(b.block_type is Ineffectual) && !(
        b.block_type is Any),
        SegmentView::SubBlock(_, _, _, inner) => forall|i: int|
            0 <= i < inner.len() ==> tidy(#[trigger] inner[i]),
        SegmentView::Semi(_, _, _) => true,
    }
}

/// What gathering leaves, and what a wildcard leaves of it.
spec fn gathered(s: SegmentView) -> bool {
    match s {
        SegmentView::Block(b) => b.lines.len() == 0 || !(b.block_type is Ineffectual),
        _ => tidy(s),
    }
}

proof fn lemma_cons_tidy(s: SegmentView, rest: Seq<SegmentView>)
    requires
        tidy(s),
        !s.is_empty(),
        forall|i: int| 0 <= i < rest.len() ==> tidy(#[trigger] rest[i]) && !rest[i].is_empty(),
    ensures
        forall|i: int|
            0 <= i < (seq![s] + rest).len() ==> tidy(#[trigger] (seq![s] + rest)[i]) && !(seq![s]
                + rest)[i].is_empty(),
{
    assert forall|i: int| 0 <= i < (seq![s] + rest).len() implies tidy(
        #[trigger] (seq![s] + rest)[i],
    ) && !(seq![s] + rest)[i].is_empty() by {
        if i > 0 {
            assert((seq![s] + rest)[i] == rest[i - 1]);
        }
    }
}

proof fn lemma_attach_tidy(segments: Seq<SegmentView>)
    requires
        forall|i: int| 0 <= i < segments.len() ==> gathered(#[trigger] segments[i]),
    ensures
        forall|i: int|
            0 <= i < attach(segments).len() ==> tidy(#[trigger] attach(segments)[i]) && !attach(
                segments,
            )[i].is_empty(),
    decreases segments.len(),
{
    if segments.len() > 0 {
        let s = segments[0];
        let rest = segments.skip(1);
        assert(gathered(s));
        assert forall|i: int| 0 <= i < rest.len() implies gathered(#[trigger] rest[i]) by {
            assert(rest[i] == segments[i + 1]);
        }
        if s matches SegmentView::Block(b) && b.block_type is Any {
            if rest.len() > 0 && segment_split(rest[0]) is Some {
                let (first, left) = segment_split(rest[0])->Some_0;
                let next = rest.update(0, left);
                let head = wildcard(s.location(), seq![first]);
                assert(gathered(rest[0]));
                assert(tidy(first));
                assert(gathered(left));
                lemma_attach_tidy(next);
                assert(tidy(head));
                assert(!head.is_empty());
                lemma_cons_tidy(head, attach(next));
            } else {
                let head = wildcard(s.location(), Seq::empty());
                lemma_attach_tidy(rest);
                assert(tidy(head));
                assert(!head.is_empty());
                lemma_cons_tidy(head, attach(rest));
            }
        } else {
            lemma_attach_tidy(rest);
            if !s.is_empty() {
                lemma_cons_tidy(s, attach(rest));
            }
        }
    }
}

proof fn lemma_gather_gathered(segments: Seq<SegmentView>)
    requires
        segments_well_formed(segments),
    ensures
        forall|i: int| 0 <= i < gather(segments).0.len() ==> gathered(#[trigger] gather(segments).0[i]),
    decreases segments, 0int,
{
    if segments.len() > 0 {
        let s = segments.last();
        let front = segments.drop_last();
        assert(segments[segments.len() - 1].well_formed());
        assert(segments_well_formed(front)) by {
            assert forall|i: int| 0 <= i < front.len() implies (#[trigger] front[i]).well_formed() by {
                assert(front[i] == segments[i]);
            }
        }
        lemma_gather_gathered(front);
        if let SegmentView::SubBlock(location, name, args, inner) = s {
            assert(segments_well_formed(inner));
            law_normalized_is_tidy(inner);
            assert(gathered(SegmentView::SubBlock(location, name, args, normalized(inner))));
        }
        let (before, open) = gather(front);
        let out = if s.holds_command() && open {
            before.push(end_block(s.location()))
        } else {
            before
        };
        assert(forall|i: int| 0 <= i < out.len() ==> gathered(#[trigger] out[i]));
        if let SegmentView::Block(b) = s {
            let merged = merge_block(out, b);
            if !(b.block_type is Ineffectual) {
                assert forall|i: int| 0 <= i < merged.len() implies gathered(
                    #[trigger] merged[i],
                ) by {
                    if i < out.len() {
                        assert(gathered(out[i]));
                    }
                }
            }
        }
    }
}

/// Normalizing leaves no empty segment, and at every depth only blocks of
/// commands, patterns or meta lines: no comments, and no wildcard lines that
/// are not blocks of their own.
pub proof fn law_normalized_is_tidy(segments: Seq<SegmentView>)
    requires
        segments_well_formed(segments),
    ensures
        forall|i: int|
            0 <= i < normalized(segments).len() ==> tidy(#[trigger] normalized(segments)[i])
                && !normalized(segments)[i].is_empty(),
    decreases segments, 1int,
{
    lemma_gather_gathered(segments);
    let (out, needs_end) = gather(segments);
    lemma_attach_tidy(
        if needs_end {
            out.push(end_block(segments.last().location()))
        } else {
            out
        },
    );
}

} // verus!
