//! Splitting a script into segments, the first stage of parsing.
use crate::command::{CommandLine, CommandLineView};
use crate::parser::v0::command_line::{
    command_continues, command_fault, lemma_continue_no_stray_newline,
    lemma_single_line_no_stray_newline, no_stray_newline, parse_command_line,
};
use crate::script::{
    error_with, plain_error, script_lines_view, ScriptError, ScriptErrorType, ScriptErrorView,
    ScriptLine, ScriptLineView, ScriptLocation,
};
use crate::util::shell::{
    bits_view, shell_split, split_words, ShellBit, ShellBitView, ShellParseError,
};
use crate::util::text::{
    alphabetic, chars_of, find_white, has_prefix, is_alphabetic, lemma_trimmed_contains, push_str, slice_of, str_eq, trim, trimmed,
    white_index, push_char};
use vstd::prelude::*;

verus! {

/// Starts and ends lines of regular expressions.
pub const REGEX_MULTILINE: &'static str = "???";

/// Starts and ends lines of patterns.
pub const ESCAPED_MULTILINE: &'static str = "!!!";

/// Starts and ends literal lines.
pub const LITERAL_MULTILINE: &'static str = "\"\"\"";

/// What the lines of a block are.
#[derive(Debug)]
pub enum BlockType {
    /// A command block.
    Command(CommandLine),
    /// Comments and whitespace lines.
    Ineffectual,
    /// Pattern lines.
    Pattern,
    /// Meta lines (`%EXPECT_FAILURE`, `%EXIT`, etc.).
    Meta,
    /// Any (`*`) block
    Any,
}

/// The mathematical value of a [`BlockType`].
pub enum BlockTypeView {
    /// A command block.
    Command(CommandLineView),
    /// Comments and whitespace lines.
    Ineffectual,
    /// Pattern lines.
    Pattern,
    /// Meta lines.
    Meta,
    /// Any (`*`) block.
    Any,
}

impl View for BlockType {
    type V = BlockTypeView;

    open spec fn view(&self) -> BlockTypeView {
        match self {
            BlockType::Command(c) => BlockTypeView::Command(c@),
            BlockType::Ineffectual => BlockTypeView::Ineffectual,
            BlockType::Pattern => BlockTypeView::Pattern,
            BlockType::Meta => BlockTypeView::Meta,
            BlockType::Any => BlockTypeView::Any,
        }
    }
}

impl BlockTypeView {
    /// Whether the two are blocks of the same kind.
    pub open spec fn same_kind(self, other: BlockTypeView) -> bool {
        match self {
            BlockTypeView::Command(_) => other is Command,
            BlockTypeView::Ineffectual => other is Ineffectual,
            BlockTypeView::Pattern => other is Pattern,
            BlockTypeView::Meta => other is Meta,
            BlockTypeView::Any => other is Any,
        }
    }
}

impl Clone for BlockType {
    fn clone(&self) -> (r: Self)
        ensures
            r@ == self@,
    {
        match self {
            BlockType::Command(c) => BlockType::Command(c.clone()),
            BlockType::Ineffectual => BlockType::Ineffectual,
            BlockType::Pattern => BlockType::Pattern,
            BlockType::Meta => BlockType::Meta,
            BlockType::Any => BlockType::Any,
        }
    }
}

impl BlockType {
    /// Whether the two are blocks of the same kind.
    pub fn is_same_type_as(&self, other: &Self) -> (r: bool)
        ensures
            r == self@.same_kind(other@),
    {
        match self {
            BlockType::Command(_) => matches!(other, BlockType::Command(_)),
            BlockType::Ineffectual => matches!(other, BlockType::Ineffectual),
            BlockType::Pattern => matches!(other, BlockType::Pattern),
            BlockType::Meta => matches!(other, BlockType::Meta),
            BlockType::Any => matches!(other, BlockType::Any),
        }
    }

    /// Whether this is a command block.
    pub fn is_command(&self) -> (r: bool)
        ensures
            r == (self@ is Command),
    {
        matches!(self, BlockType::Command(_))
    }

    /// Whether this is a block of comments and white space.
    pub fn is_ineffectual(&self) -> (r: bool)
        ensures
            r == (self@ is Ineffectual),
    {
        matches!(self, BlockType::Ineffectual)
    }

    /// Whether this is a block of meta lines.
    pub fn is_meta(&self) -> (r: bool)
        ensures
            r == (self@ is Meta),
    {
        matches!(self, BlockType::Meta)
    }

    /// Whether this is a wildcard block.
    pub fn is_any(&self) -> (r: bool)
        ensures
            r == (self@ is Any),
    {
        matches!(self, BlockType::Any)
    }
}

/// Consecutive lines of one kind.
#[derive(Debug)]
pub struct ScriptV0Block {
    /// Where the block starts.
    pub location: ScriptLocation,
    /// What its lines are.
    pub block_type: BlockType,
    /// Its lines.
    pub lines: Vec<ScriptLine>,
}

/// The mathematical value of a [`ScriptV0Block`].
pub struct BlockView {
    /// Where the block starts.
    pub location: ScriptLocation,
    /// What its lines are.
    pub block_type: BlockTypeView,
    /// Its lines.
    pub lines: Seq<ScriptLineView>,
}

impl View for ScriptV0Block {
    type V = BlockView;

    open spec fn view(&self) -> BlockView {
        BlockView {
            location: self.location,
            block_type: self.block_type@,
            lines: script_lines_view(self.lines@),
        }
    }
}

/// The first line of a pattern block as a block of its own.
pub open spec fn block_first(b: BlockView) -> Option<BlockView> {
    if b.block_type is Pattern && b.lines.len() > 0 {
        Some(
            BlockView {
                location: b.lines[0].location,
                block_type: BlockTypeView::Pattern,
                lines: seq![b.lines[0]],
            },
        )
    } else {
        None
    }
}

/// What is left of a block without its first line.
pub open spec fn block_rest(b: BlockView) -> BlockView {
    BlockView { lines: b.lines.skip(1), ..b }
}

impl ScriptV0Block {
    /// Take the current block, replacing with an empty block at the given location.
    pub fn take(&mut self, location: ScriptLocation, block_type: BlockType) -> (r: Self)
        ensures
            r@ == old(self)@,
            final(self)@ == (BlockView { location, block_type: block_type@, lines: Seq::empty() }),
    {
        let mut taken = ScriptV0Block { location, block_type, lines: Vec::new() };
        std::mem::swap(self, &mut taken);
        proof {
            assert(self@.lines =~= Seq::empty());
        }
        taken
    }

    /// Split the first pattern line from the rest. If not a pattern block,
    /// return None. May leave an empty block if the first line is the only line.
    pub fn split_first(&mut self) -> (r: Option<Self>)
        ensures
            match r {
                Some(first) => block_first(old(self)@) == Some(first@) && final(self)@
                    == block_rest(old(self)@),
                None => block_first(old(self)@) is None && final(self)@ == old(self)@,
            },
    {
        if !matches!(self.block_type, BlockType::Pattern) || self.lines.len() == 0 {
            return None;
        }
        let ghost before = self@;
        let first = self.lines.remove(0);
        let ghost first_view = first@;
        let location = first.location.clone();
        let mut lines: Vec<ScriptLine> = Vec::new();
        lines.push(first);
        proof {
            assert(before.lines[0] == first_view);
            assert(self@.lines =~= before.lines.skip(1));
            assert(script_lines_view(lines@) =~= seq![first_view]);
        }
        Some(ScriptV0Block { location, block_type: BlockType::Pattern, lines })
    }
}

/// A segment of a script. This is the first stage of parsing, where we split
/// the script.
#[derive(Debug)]
pub enum ScriptV0Segment {
    /// Lines of one kind.
    Block(ScriptV0Block),
    /// A block in braces: where it starts, its name, its arguments and what
    /// it holds.
    SubBlock(ScriptLocation, String, Vec<ShellBit>, Vec<ScriptV0Segment>),
    /// A line that ends in `;`: where it stands, its name and its arguments.
    Semi(ScriptLocation, String, Vec<ShellBit>),
}

/// The mathematical value of a [`ScriptV0Segment`].
pub enum SegmentView {
    /// Lines of one kind.
    Block(BlockView),
    /// A block in braces.
    SubBlock(ScriptLocation, Seq<char>, Seq<ShellBitView>, Seq<SegmentView>),
    /// A line that ends in `;`.
    Semi(ScriptLocation, Seq<char>, Seq<ShellBitView>),
}

impl ScriptV0Segment {
    /// The mathematical value of the segment.
    pub open spec fn model(&self) -> SegmentView
        decreases self,
    {
        match self {
            ScriptV0Segment::Block(b) => SegmentView::Block(b@),
            ScriptV0Segment::SubBlock(location, name, args, inner) => SegmentView::SubBlock(
                *location,
                name@,
                bits_view(args@),
                Seq::new(
                    inner@.len(),
                    |i: int|
                        if 0 <= i < inner@.len() {
                            inner@[i].model()
                        } else {
                            arbitrary()
                        },
                ),
            ),
            ScriptV0Segment::Semi(location, name, args) => SegmentView::Semi(
                *location,
                name@,
                bits_view(args@),
            ),
        }
    }
}

/// The mathematical values of a sequence of segments.
pub open spec fn segments_model(segments: Seq<ScriptV0Segment>) -> Seq<SegmentView> {
    Seq::new(segments.len(), |i: int| segments[i].model())
}

impl SegmentView {
    /// Where the segment starts.
    pub open spec fn location(self) -> ScriptLocation {
        match self {
            SegmentView::Block(b) => b.location,
            SegmentView::SubBlock(location, _, _, _) => location,
            SegmentView::Semi(location, _, _) => location,
        }
    }

    /// Whether the segment is a command, or the first segment that it contains
    /// is one.
    pub open spec fn is_command(self) -> bool
        decreases self,
    {
        match self {
            SegmentView::Block(b) => b.block_type is Command,
            SegmentView::SubBlock(_, _, _, inner) => inner.len() > 0 && inner[0].is_command(),
            SegmentView::Semi(_, _, _) => true,
        }
    }

    /// Whether the segment is a command, or one stands anywhere within it.
    pub open spec fn holds_command(self) -> bool
        decreases self,
    {
        match self {
            SegmentView::Block(b) => b.block_type is Command,
            SegmentView::SubBlock(_, _, _, inner) => exists|i: int|
                0 <= i < inner.len() && (#[trigger] inner[i]).holds_command(),
            SegmentView::Semi(_, _, _) => true,
        }
    }

    /// Whether the segment holds nothing. A `*` block always counts.
    pub open spec fn is_empty(self) -> bool
        decreases self,
    {
        match self {
            SegmentView::Block(b) => b.lines.len() == 0,
            SegmentView::SubBlock(_, name, _, inner) => name != "*"@ && (forall|i: int|
                0 <= i < inner.len() ==> (#[trigger] inner[i]).is_empty()),
            SegmentView::Semi(_, _, _) => false,
        }
    }

    /// Where the segment ends: the location of its last line.
    pub open spec fn last_location(self) -> ScriptLocation
        decreases self,
    {
        match self {
            SegmentView::Block(b) => b.lines.last().location,
            SegmentView::SubBlock(location, _, _, inner) => if inner.len() > 0 {
                inner[inner.len() - 1].last_location()
            } else {
                location
            },
            SegmentView::Semi(location, _, _) => location,
        }
    }

    /// Whether the segment ends in a line: following the last segments down
    /// from it leads to no block without lines.
    pub open spec fn has_last_line(self) -> bool
        decreases self,
    {
        match self {
            SegmentView::Block(b) => b.lines.len() > 0,
            SegmentView::SubBlock(_, _, _, inner) => inner.len() > 0 ==> inner[inner.len()
                - 1].has_last_line(),
            SegmentView::Semi(_, _, _) => true,
        }
    }

    /// Every block of the segment has lines, and lines are numbered from 1.
    pub open spec fn well_formed(self) -> bool
        decreases self,
    {
        &&& self.location().line >= 1
        &&& match self {
            SegmentView::Block(b) => b.lines.len() > 0,
            SegmentView::SubBlock(_, _, _, inner) => forall|i: int|
                0 <= i < inner.len() ==> (#[trigger] inner[i]).well_formed(),
            SegmentView::Semi(_, _, _) => true,
        }
    }
}

/// Every block of the segments has lines, and lines are numbered from 1.
pub open spec fn segments_well_formed(segments: Seq<SegmentView>) -> bool {
    forall|i: int| 0 <= i < segments.len() ==> (#[trigger] segments[i]).well_formed()
}

impl ScriptV0Segment {
    /// Whether the segment holds nothing. A `*` block always counts.
    pub fn is_empty(&self) -> (r: bool)
        ensures
            r == self.model().is_empty(),
        decreases self,
    {
        match self {
            ScriptV0Segment::Block(block) => block.lines.len() == 0,
            ScriptV0Segment::SubBlock(_, name, _, inner) => {
                if str_eq(name.as_str(), "*") {
                    return false;
                }
                let ghost m = segments_model(inner@);
                proof {
                    assert(self.model()->SubBlock_3 =~= m);
                }
                let mut i: usize = 0;
                while i < inner.len()
                    invariant
                        i <= inner@.len(),
                        m == segments_model(inner@),
                        self.model() is SubBlock,
                        self.model()->SubBlock_3 == m,
                        forall|j: int| 0 <= j < i ==> (#[trigger] m[j]).is_empty(),
                        decreases_to!(self => inner),
                    decreases inner@.len() - i,
                {
                    let e = inner[i].is_empty();
                    if !e {
                        proof {
                            assert(!m[i as int].is_empty());
                        }
                        return false;
                    }
                    i += 1;
                }
                true
            },
            ScriptV0Segment::Semi(..) => false,
        }
    }

    /// Returns true if this segment is a command block, or the first block it
    /// contains is a command block. Note that this should only be called on
    /// normalized segments.
    pub fn is_command_block(&self) -> (r: bool)
        ensures
            r == self.model().is_command(),
        decreases self,
    {
        match self {
            ScriptV0Segment::Block(block) => block.block_type.is_command(),
            ScriptV0Segment::SubBlock(_, _, _, inner) => {
                if inner.len() > 0 {
                    proof {
                        assert(self.model()->SubBlock_3[0] == inner@[0].model());
                    }
                    inner[0].is_command_block()
                } else {
                    false
                }
            },
            ScriptV0Segment::Semi(..) => true,
        }
    }

    /// Whether the segment is a command block, or a command block stands
    /// anywhere within it. A block in braces that contains commands is run;
    /// one that does not is a pattern.
    pub fn contains_command(&self) -> (r: bool)
        ensures
            r == self.model().holds_command(),
        decreases self,
    {
        match self {
            ScriptV0Segment::Block(block) => block.block_type.is_command(),
            ScriptV0Segment::SubBlock(_, _, _, inner) => {
                let ghost m = segments_model(inner@);
                proof {
                    assert(self.model()->SubBlock_3 =~= m);
                }
                let mut i: usize = 0;
                while i < inner.len()
                    invariant
                        i <= inner@.len(),
                        m == segments_model(inner@),
                        self.model() is SubBlock,
                        self.model()->SubBlock_3 == m,
                        forall|j: int| 0 <= j < i ==> !(#[trigger] m[j]).holds_command(),
                        decreases_to!(self => inner),
                    decreases inner@.len() - i,
                {
                    let c = inner[i].contains_command();
                    if c {
                        proof {
                            assert(m[i as int].holds_command());
                        }
                        return true;
                    }
                    i += 1;
                }
                false
            },
            ScriptV0Segment::Semi(..) => true,
        }
    }

    /// Where the segment starts.
    pub fn location(&self) -> (r: &ScriptLocation)
        ensures
            *r == self.model().location(),
    {
        match self {
            ScriptV0Segment::Block(block) => &block.location,
            ScriptV0Segment::SubBlock(location, _, _, _) => location,
            ScriptV0Segment::Semi(location, _, _) => location,
        }
    }

    /// Where the last line of the segment stands.
    pub fn last_location(&self) -> (r: &ScriptLocation)
        requires
            self.model().has_last_line(),
        ensures
            *r == self.model().last_location(),
        decreases self,
    {
        match self {
            ScriptV0Segment::Block(block) => {
                proof {
                    assert(block@.lines.len() == block.lines@.len());
                }
                &block.lines[block.lines.len() - 1].location
            },
            ScriptV0Segment::SubBlock(location, _, _, inner) => {
                if inner.len() > 0 {
                    proof {
                        let m = self.model()->SubBlock_3;
                        assert(m[inner@.len() - 1] == inner@[inner@.len() - 1].model());
                    }
                    inner[inner.len() - 1].last_location()
                } else {
                    location
                }
            },
            ScriptV0Segment::Semi(location, _, _) => location,
        }
    }
}

/// A line that opens a block or ends in `;`.
pub struct HeadView {
    /// Whether the line ends in `;`.
    pub semi: bool,
    /// The first word.
    pub name: Seq<char>,
    /// What follows the first word.
    pub args: Seq<char>,
}

/// The head that a trimmed line is, if it begins with a letter. Such a line
/// must end in `{` or `;`.
pub open spec fn head_of(text: Seq<char>) -> Result<Option<HeadView>, ScriptErrorType> {
    if text.len() > 0 && alphabetic(text[0]) {
        if text.last() == '{' || text.last() == ';' {
            let body = trimmed(text.drop_last());
            let k = white_index(body);
            Ok(
                Some(
                    if k < body.len() {
                        HeadView {
                            semi: text.last() == ';',
                            name: trimmed(body.take(k)),
                            args: trimmed(body.skip(k + 1)),
                        }
                    } else {
                        HeadView { semi: text.last() == ';', name: body, args: Seq::empty() }
                    },
                ),
            )
        } else {
            Err(ScriptErrorType::ExpectedBlockOrSemi)
        }
    } else {
        Ok(None)
    }
}

/// Whether a trimmed line starts or ends a multi-line pattern.
pub open spec fn multiline_mark(text: Seq<char>) -> bool {
    text == ESCAPED_MULTILINE@ || text == REGEX_MULTILINE@ || text == LITERAL_MULTILINE@
}

/// The mark that a multi-line pattern still waits for behind a trimmed line.
pub open spec fn mark_after(mark: Option<Seq<char>>, text: Seq<char>) -> Option<Seq<char>> {
    match mark {
        Some(m) => if text == m {
            None
        } else {
            mark
        },
        None => if multiline_mark(text) {
            Some(text)
        } else {
            None
        },
    }
}

/// What a trimmed line is that is no command, no head and no closing brace.
pub open spec fn line_kind(text: Seq<char>) -> BlockTypeView {
    if has_prefix(text, "#"@) || text.len() == 0 {
        BlockTypeView::Ineffectual
    } else if has_prefix(text, "%"@) {
        BlockTypeView::Meta
    } else if has_prefix(text, "*"@) {
        BlockTypeView::Any
    } else {
        BlockTypeView::Pattern
    }
}

/// The open block, if any, as a segment.
pub open spec fn close_block(open: Option<BlockView>) -> Seq<SegmentView> {
    match open {
        Some(b) => seq![SegmentView::Block(b)],
        None => Seq::empty(),
    }
}

/// What a further line of the given kind closes: the open block, where it is
/// of another kind.
pub open spec fn closed_by(open: Option<BlockView>, kind: BlockTypeView) -> Seq<SegmentView> {
    match open {
        Some(b) => if b.block_type.same_kind(kind) {
            Seq::empty()
        } else {
            seq![SegmentView::Block(b)]
        },
        None => Seq::empty(),
    }
}

/// The open block with a further line, or a new block that starts there.
pub open spec fn open_with(
    open: Option<BlockView>,
    line: ScriptLineView,
    kind: BlockTypeView,
) -> BlockView {
    match open {
        Some(b) if b.block_type.same_kind(kind) => BlockView { lines: b.lines.push(line), ..b },
        _ => BlockView { location: line.location, block_type: kind, lines: seq![line] },
    }
}

/// The text of a command and the number of lines that it takes up, where
/// `text` is what its first `count` lines give and `rest` are the lines
/// behind them.
pub open spec fn command_extent(text: Seq<char>, count: int, rest: Seq<ScriptLineView>) -> Result<
    (Seq<char>, int),
    ScriptErrorType,
>
    decreases rest.len(),
{
    match command_fault(text) {
        None => Ok((text, count)),
        Some(e) => if command_continues(text) && rest.len() > 0 {
            command_extent(text.push('\n') + rest[0].trimmed(), count + 1, rest.skip(1))
        } else {
            Err(e)
        },
    }
}

/// The text behind the `$` of a command line.
pub open spec fn command_text(line: ScriptLineView) -> Seq<char> {
    trimmed(line.trimmed().skip(1))
}

/// What splitting lines into segments comes to: the segments and the lines
/// left over.
pub type Segmented = Result<(Seq<SegmentView>, Seq<ScriptLineView>), ScriptErrorView>;

/// A successful split with `front` in front of it.
pub open spec fn segments_first(front: Seq<SegmentView>, rest: Segmented) -> Segmented {
    match rest {
        Ok((segments, left)) => Ok((front + segments, left)),
        Err(e) => Err(e),
    }
}

/// The segments of `lines`, up to the closing brace of a block unless
/// `top_level`. `open` is the block that the first line may still belong to,
/// `mark` what a multi-line pattern waits for, and `end` where the last line
/// stands.
pub open spec fn segment_lines(
    top_level: bool,
    lines: Seq<ScriptLineView>,
    open: Option<BlockView>,
    mark: Option<Seq<char>>,
    end: ScriptLocation,
) -> Segmented
    decreases lines.len(),
{
    if lines.len() == 0 {
        if top_level {
            Ok((close_block(open), Seq::empty()))
        } else {
            Err(plain_error(ScriptErrorType::InvalidBlockEnd, end))
        }
    } else {
        let line = lines[0];
        let text = line.trimmed();
        let rest = lines.skip(1);
        let waits = mark_after(mark, text);
        if waits is Some {
            segments_first(
                closed_by(open, BlockTypeView::Pattern),
                segment_lines(
                    top_level,
                    rest,
                    Some(open_with(open, line, BlockTypeView::Pattern)),
                    waits,
                    end,
                ),
            )
        } else if has_prefix(text, "$"@) {
            match command_extent(command_text(line), 1, rest) {
                Err(e) => Err(plain_error(e, line.location)),
                Ok((command, count)) => if 1 <= count <= lines.len() {
                    segments_first(
                        close_block(open).push(
                            SegmentView::Block(
                                BlockView {
                                    location: line.location,
                                    block_type: BlockTypeView::Command(
                                        CommandLineView {
                                            command,
                                            location: line.location,
                                            line_count: count,
                                        },
                                    ),
                                    lines: lines.take(count),
                                },
                            ),
                        ),
                        segment_lines(top_level, lines.skip(count), None, None, end),
                    )
                } else {
                    arbitrary()
                },
            }
        } else {
            match head_of(text) {
                Err(e) => Err(plain_error(e, line.location)),
                Ok(Some(head)) => match split_words(head.args) {
                    Err(_) => Err(
                        error_with(
                            ScriptErrorType::InvalidBlockArgs,
                            line.location,
                            head.name.push(' ') + head.args,
                        ),
                    ),
                    Ok(words) => if head.semi {
                        segments_first(
                            close_block(open).push(
                                SegmentView::Semi(line.location, head.name, words),
                            ),
                            segment_lines(top_level, rest, None, None, end),
                        )
                    } else if rest.len() == 0 {
                        Err(plain_error(ScriptErrorType::InvalidBlockEnd, line.location))
                    } else {
                        match segment_lines(false, rest, None, None, rest.last().location) {
                            Err(e) => Err(e),
                            Ok((inner, after)) => if after.len() < lines.len() {
                                segments_first(
                                    close_block(open).push(
                                        SegmentView::SubBlock(
                                            line.location,
                                            head.name,
                                            words,
                                            inner,
                                        ),
                                    ),
                                    segment_lines(top_level, after, None, None, end),
                                )
                            } else {
                                arbitrary()
                            },
                        }
                    },
                },
                Ok(None) => if text == "}"@ {
                    if top_level {
                        Err(plain_error(ScriptErrorType::InvalidBlockEnd, line.location))
                    } else {
                        Ok((close_block(open), rest))
                    }
                } else {
                    segments_first(
                        closed_by(open, line_kind(text)),
                        segment_lines(
                            top_level,
                            rest,
                            Some(open_with(open, line, line_kind(text))),
                            None,
                            end,
                        ),
                    )
                },
            }
        }
    }
}

/// The segments of the lines of a script, or of a block's lines from its
/// opening line on.
pub open spec fn segments_of(top_level: bool, lines: Seq<ScriptLineView>) -> Segmented {
    segment_lines(top_level, lines, None, None, lines.last().location)
}

/// Lines hold no line feed.
pub open spec fn lines_well_formed(lines: Seq<ScriptLineView>) -> bool {
    forall|i: int| 0 <= i < lines.len() ==> !(#[trigger] lines[i]).text.contains('\n')
}

/// Lines are numbered from `from` on, or above.
pub open spec fn lines_from(lines: Seq<ScriptLineView>, from: int) -> bool {
    forall|i: int| 0 <= i < lines.len() ==> (#[trigger] lines[i]).location.line >= from
}

/// How far a command extends is bounded by the lines that there are.
proof fn lemma_command_extent(text: Seq<char>, count: int, rest: Seq<ScriptLineView>)
    ensures
        command_extent(text, count, rest) matches Ok((_, n)) ==> count <= n <= count + rest.len(),
    decreases rest.len(),
{
    if command_fault(text) is Some && command_continues(text) && rest.len() > 0 {
        lemma_command_extent(text.push('\n') + rest[0].trimmed(), count + 1, rest.skip(1));
    }
}

/// What a walk through segments comes by.
pub enum Walked {
    /// A line of a block.
    Line(ScriptLineView),
    /// The line that opens a block in braces, or that ends in `;`: where it
    /// stands, its first word and the words behind it, and whether it ends in
    /// `;`.
    Head(ScriptLocation, Seq<char>, Seq<ShellBitView>, bool),
    /// The end of a block in braces.
    Close,
}

/// What a walk through the lines of a block comes by.
pub open spec fn walk_lines(lines: Seq<ScriptLineView>) -> Seq<Walked> {
    lines.map_values(|l: ScriptLineView| Walked::Line(l))
}

/// What a walk through segments comes by: of a block its lines, of a block in
/// braces the line that opens it, what is within it and its end.
pub open spec fn walk_of(segments: Seq<SegmentView>) -> Seq<Walked>
    decreases segments,
{
    if segments.len() == 0 {
        Seq::empty()
    } else {
        walk_of(segments.drop_last()) + match segments.last() {
            SegmentView::Block(b) => walk_lines(b.lines),
            SegmentView::SubBlock(location, name, args, inner) => seq![
                Walked::Head(location, name, args, false),
            ] + walk_of(inner) + seq![Walked::Close],
            SegmentView::Semi(location, name, args) => seq![
                Walked::Head(location, name, args, true),
            ],
        }
    }
}

/// Whether a line is what a walk comes by.
pub open spec fn is_listed(item: Walked, line: ScriptLineView) -> bool {
    match item {
        Walked::Line(l) => l == line,
        Walked::Head(location, name, args, semi) => location == line.location && (head_of(
            line.trimmed(),
        ) matches Ok(Some(head)) && head.name == name && head.semi == semi && split_words(head.args)
            == Ok::<Seq<ShellBitView>, ShellParseError>(args)),
        Walked::Close => line.trimmed() == "}"@,
    }
}

/// Whether a walk comes by the lines, in order, each once.
pub open spec fn lists(items: Seq<Walked>, lines: Seq<ScriptLineView>) -> bool {
    &&& items.len() == lines.len()
    &&& forall|i: int| 0 <= i < items.len() ==> is_listed(#[trigger] items[i], lines[i])
}

/// Whether no two adjoining blocks without commands are of one kind.
pub open spec fn parted(segments: Seq<SegmentView>) -> bool {
    forall|i: int|
        0 <= i < segments.len() - 1 ==> !joinable(#[trigger] segments[i], segments[i + 1])
}

/// Whether two segments are blocks of one kind and no commands.
pub open spec fn joinable(a: SegmentView, b: SegmentView) -> bool {
    a matches SegmentView::Block(x) && b matches SegmentView::Block(y) && !(x.block_type is Command)
        && x.block_type.same_kind(y.block_type)
}

/// Whether each block of a segment has lines and stands at the first of them,
/// no two adjoining blocks within it are of one kind and no commands, and
/// nothing stands before the line `from`.
pub open spec fn laid_out(s: SegmentView, from: int) -> bool
    decreases s,
{
    &&& s.location().line >= from
    &&& match s {
        SegmentView::Block(b) => b.lines.len() > 0 && b.location == b.lines[0].location,
        SegmentView::SubBlock(_, _, _, inner) => parted(inner) && forall|i: int|
            0 <= i < inner.len() ==> laid_out(#[trigger] inner[i], from),
        SegmentView::Semi(_, _, _) => true,
    }
}

/// Whether all segments are laid out.
pub open spec fn all_laid_out(segments: Seq<SegmentView>, from: int) -> bool {
    forall|i: int| 0 <= i < segments.len() ==> laid_out(#[trigger] segments[i], from)
}

proof fn lemma_laid_out_well_formed(s: SegmentView)
    requires
        laid_out(s, 1),
    ensures
        s.well_formed(),
    decreases s,
{
    if let SegmentView::SubBlock(_, _, _, inner) = s {
        assert forall|i: int| 0 <= i < inner.len() implies (#[trigger] inner[i]).well_formed() by {
            assert(laid_out(inner[i], 1));
            lemma_laid_out_well_formed(inner[i]);
        }
    }
}

proof fn lemma_walk_concat(a: Seq<SegmentView>, b: Seq<SegmentView>)
    ensures
        walk_of(a + b) == walk_of(a) + walk_of(b),
    decreases b.len(),
{
    if b.len() == 0 {
        assert(a + b =~= a);
        assert(walk_of(a) + walk_of(b) =~= walk_of(a));
    } else {
        assert((a + b).drop_last() =~= a + b.drop_last());
        assert((a + b).last() == b.last());
        lemma_walk_concat(a, b.drop_last());
        assert(walk_of(a + b) =~= walk_of(a) + walk_of(b));
    }
}

proof fn lemma_walk_one(s: SegmentView)
    ensures
        walk_of(seq![s]) == match s {
            SegmentView::Block(b) => walk_lines(b.lines),
            SegmentView::SubBlock(location, name, args, inner) => seq![
                Walked::Head(location, name, args, false),
            ] + walk_of(inner) + seq![Walked::Close],
            SegmentView::Semi(location, name, args) => seq![
                Walked::Head(location, name, args, true),
            ],
        },
{
    assert(seq![s].drop_last() =~= Seq::empty());
    assert(walk_of(seq![s].drop_last()) =~= Seq::empty());
    assert(seq![s].last() == s);
    match s {
        SegmentView::Block(b) => {
            assert(walk_of(seq![s]) =~= walk_lines(b.lines));
        },
        SegmentView::SubBlock(location, name, args, inner) => {
            assert(walk_of(seq![s]) =~= seq![Walked::Head(location, name, args, false)] + walk_of(
                inner,
            ) + seq![Walked::Close]);
        },
        SegmentView::Semi(location, name, args) => {
            assert(walk_of(seq![s]) =~= seq![Walked::Head(location, name, args, true)]);
        },
    }
}

proof fn lemma_lists_concat(
    a: Seq<Walked>,
    b: Seq<Walked>,
    x: Seq<ScriptLineView>,
    y: Seq<ScriptLineView>,
)
    requires
        lists(a, x),
        lists(b, y),
    ensures
        lists(a + b, x + y),
{
    assert forall|i: int| 0 <= i < (a + b).len() implies is_listed(
        #[trigger] (a + b)[i],
        (x + y)[i],
    ) by {
        if i < a.len() {
            assert((a + b)[i] == a[i]);
        } else {
            assert((a + b)[i] == b[i - a.len()]);
        }
    }
}

/// The lines of the open block.
spec fn open_lines(open: Option<BlockView>) -> Seq<ScriptLineView> {
    match open {
        Some(b) => b.lines,
        None => Seq::empty(),
    }
}

spec fn open_laid_out(open: Option<BlockView>, from: int) -> bool {
    open matches Some(b) ==> b.lines.len() > 0 && b.location == b.lines[0].location
        && b.location.line >= from && !(b.block_type is Command)
}

/// Whether a segment goes on with an open block.
spec fn goes_on(b: BlockView, s: SegmentView) -> bool {
    s matches SegmentView::Block(x) && b.block_type.same_kind(x.block_type)
}

/// The end of a block, unless the script itself ends.
spec fn close_of(top_level: bool) -> Seq<Walked> {
    if top_level {
        Seq::empty()
    } else {
        seq![Walked::Close]
    }
}

/// What a split leaves over and takes up.
spec fn split_ok(
    top_level: bool,
    lines: Seq<ScriptLineView>,
    open: Option<BlockView>,
    from: int,
    r: Segmented,
) -> bool {
    r matches Ok((segments, left)) ==> {
        &&& all_laid_out(segments, from)
        &&& parted(segments)
        &&& left.len() <= lines.len()
        &&& left == lines.skip(lines.len() - left.len())
        &&& top_level ==> left.len() == 0
        &&& !top_level ==> left.len() < lines.len()
        &&& lists(
            walk_of(segments) + close_of(top_level),
            open_lines(open) + lines.take(lines.len() - left.len()),
        )
        &&& open matches Some(b) ==> segments.len() > 0 && goes_on(b, segments[0])
    }
}

/// Putting segments in front of a split. They list the lines `taken`.
proof fn lemma_split_first(
    top_level: bool,
    lines: Seq<ScriptLineView>,
    open: Option<BlockView>,
    from: int,
    front: Seq<SegmentView>,
    taken: Seq<ScriptLineView>,
    next: Seq<ScriptLineView>,
    next_open: Option<BlockView>,
    rest: Segmented,
)
    requires
        split_ok(top_level, next, next_open, from, rest),
        all_laid_out(front, from),
        parted(front),
        lists(walk_of(front), taken),
        next.len() < lines.len(),
        next == lines.skip(lines.len() - next.len()),
        taken + open_lines(next_open) == open_lines(open) + lines.take(lines.len() - next.len()),
        front.len() > 0 ==> match front.last() {
            SegmentView::Block(b) => b.block_type is Command || (next_open matches Some(n)
                && !b.block_type.same_kind(n.block_type)),
            _ => true,
        },
        open matches Some(b) ==> if front.len() > 0 {
            goes_on(b, front[0])
        } else {
            next_open matches Some(n) && b.block_type.same_kind(n.block_type)
        },
    ensures
        split_ok(top_level, lines, open, from, segments_first(front, rest)),
{
    if let Ok((segments, left)) = rest {
        let all = front + segments;
        assert(all_laid_out(all, from)) by {
            assert forall|i: int| 0 <= i < all.len() implies laid_out(#[trigger] all[i], from) by {
                if i < front.len() {
                    assert(laid_out(front[i], from));
                } else {
                    assert(laid_out(segments[i - front.len()], from));
                }
            }
        }
        assert(parted(all)) by {
            assert forall|i: int| 0 <= i < all.len() - 1 implies !joinable(
                #[trigger] all[i],
                all[i + 1],
            ) by {
                if i + 1 < front.len() {
                    assert(!joinable(front[i], front[i + 1]));
                } else if i >= front.len() {
                    let j = i - front.len();
                    assert(!joinable(segments[j], segments[j + 1]));
                } else {
                    assert(all[i] == front.last());
                    assert(all[i + 1] == segments[0]);
                }
            }
        }
        assert(next.skip(next.len() - left.len()) =~= lines.skip(lines.len() - left.len()));
        lemma_walk_concat(front, segments);
        let behind = open_lines(next_open) + next.take(next.len() - left.len());
        lemma_lists_concat(
            walk_of(front),
            walk_of(segments) + close_of(top_level),
            taken,
            behind,
        );
        assert(walk_of(front) + (walk_of(segments) + close_of(top_level)) =~= walk_of(all)
            + close_of(top_level));
        assert(taken + behind =~= (taken + open_lines(next_open)) + next.take(
            next.len() - left.len(),
        ));
        assert(taken + behind =~= open_lines(open) + lines.take(lines.len() - left.len()));
    }
}

proof fn lemma_close_block(open: Option<BlockView>, from: int)
    requires
        open_laid_out(open, from),
    ensures
        all_laid_out(close_block(open), from),
        parted(close_block(open)),
        lists(walk_of(close_block(open)), open_lines(open)),
        open matches Some(b) ==> close_block(open).len() > 0 && goes_on(b, close_block(open)[0]),
{
    if let Some(b) = open {
        lemma_walk_one(SegmentView::Block(b));
    }
}

/// Closing the open block and adding a segment behind it.
proof fn lemma_close_block_push(
    open: Option<BlockView>,
    s: SegmentView,
    from: int,
    taken: Seq<ScriptLineView>,
)
    requires
        open_laid_out(open, from),
        laid_out(s, from),
        s matches SegmentView::Block(b) ==> b.block_type is Command,
        lists(walk_of(seq![s]), taken),
    ensures
        ({
            let front = close_block(open).push(s);
            &&& all_laid_out(front, from)
            &&& parted(front)
            &&& lists(walk_of(front), open_lines(open) + taken)
            &&& open matches Some(b) ==> goes_on(b, front[0])
        }),
{
    lemma_close_block(open, from);
    assert(close_block(open).push(s) =~= close_block(open) + seq![s]);
    lemma_walk_concat(close_block(open), seq![s]);
    lemma_lists_concat(walk_of(close_block(open)), walk_of(seq![s]), open_lines(open), taken);
}

proof fn lemma_skip_from(lines: Seq<ScriptLineView>, from: int, k: int)
    requires
        lines_from(lines, from),
        0 <= k <= lines.len(),
    ensures
        lines_from(lines.skip(k), from),
        lines.skip(k) == lines.skip(lines.len() - lines.skip(k).len()),
{
    assert forall|i: int| 0 <= i < lines.skip(k).len() implies (#[trigger] lines.skip(
        k,
    )[i]).location.line >= from by {
        assert(lines.skip(k)[i] == lines[i + k]);
    }
}

/// One line that is added to a block, or starts one.
proof fn lemma_line_added(
    top_level: bool,
    lines: Seq<ScriptLineView>,
    open: Option<BlockView>,
    mark: Option<Seq<char>>,
    end: ScriptLocation,
    from: int,
    kind: BlockTypeView,
)
    requires
        lines.len() > 0,
        lines_from(lines, from),
        open_laid_out(open, from),
        !(kind is Command),
        split_ok(
            top_level,
            lines.skip(1),
            Some(open_with(open, lines[0], kind)),
            from,
            segment_lines(
                top_level,
                lines.skip(1),
                Some(open_with(open, lines[0], kind)),
                mark,
                end,
            ),
        ),
    ensures
        split_ok(
            top_level,
            lines,
            open,
            from,
            segments_first(
                closed_by(open, kind),
                segment_lines(
                    top_level,
                    lines.skip(1),
                    Some(open_with(open, lines[0], kind)),
                    mark,
                    end,
                ),
            ),
        ),
{
    let next_open = Some(open_with(open, lines[0], kind));
    let front = closed_by(open, kind);
    lemma_close_block(open, from);
    lemma_skip_from(lines, from, 1);
    let taken = if front.len() > 0 {
        open_lines(open)
    } else {
        Seq::empty()
    };
    assert(lists(walk_of(front), taken)) by {
        if front.len() > 0 {
            assert(front == close_block(open));
        }
    }
    assert(taken + open_lines(next_open) =~= open_lines(open) + lines.take(1));
    lemma_split_first(
        top_level,
        lines,
        open,
        from,
        front,
        taken,
        lines.skip(1),
        next_open,
        segment_lines(top_level, lines.skip(1), next_open, mark, end),
    );
}

/// A split takes up every line exactly once, in order.
proof fn lemma_split_ok(
    top_level: bool,
    lines: Seq<ScriptLineView>,
    open: Option<BlockView>,
    mark: Option<Seq<char>>,
    end: ScriptLocation,
    from: int,
)
    requires
        lines_from(lines, from),
        open_laid_out(open, from),
    ensures
        split_ok(
            top_level,
            lines,
            open,
            from,
            segment_lines(top_level, lines, open, mark, end),
        ),
    decreases lines.len(),
{
    if lines.len() == 0 {
        lemma_close_block(open, from);
        assert(lines.skip(0) =~= Seq::empty());
        assert(walk_of(close_block(open)) + close_of(true) =~= walk_of(close_block(open)));
        assert(open_lines(open) + lines.take(0) =~= open_lines(open));
    } else {
        let line = lines[0];
        let text = line.trimmed();
        let rest = lines.skip(1);
        let waits = mark_after(mark, text);
        lemma_skip_from(lines, from, 1);
        assert(lines[0].location.line >= from);
        if waits is Some {
            let kind = BlockTypeView::Pattern;
            lemma_split_ok(top_level, rest, Some(open_with(open, line, kind)), waits, end, from);
            lemma_line_added(top_level, lines, open, waits, end, from, kind);
        } else if has_prefix(text, "$"@) {
            lemma_command_extent(command_text(line), 1, rest);
            if let Ok((command, count)) = command_extent(command_text(line), 1, rest) {
                let segment = SegmentView::Block(
                    BlockView {
                        location: line.location,
                        block_type: BlockTypeView::Command(
                            CommandLineView { command, location: line.location, line_count: count },
                        ),
                        lines: lines.take(count),
                    },
                );
                lemma_walk_one(segment);
                lemma_close_block_push(open, segment, from, lines.take(count));
                lemma_skip_from(lines, from, count);
                lemma_split_ok(top_level, lines.skip(count), None, None, end, from);
                let taken = open_lines(open) + lines.take(count);
                assert(taken + open_lines(None) =~= taken);
                lemma_split_first(
                    top_level,
                    lines,
                    open,
                    from,
                    close_block(open).push(segment),
                    taken,
                    lines.skip(count),
                    None,
                    segment_lines(top_level, lines.skip(count), None, None, end),
                );
            }
        } else if let Ok(Some(head)) = head_of(text) {
            if let Ok(words) = split_words(head.args) {
                if head.semi {
                    let segment = SegmentView::Semi(line.location, head.name, words);
                    lemma_walk_one(segment);
                    lemma_close_block_push(open, segment, from, lines.take(1));
                    lemma_split_ok(top_level, rest, None, None, end, from);
                    let taken = open_lines(open) + lines.take(1);
                    assert(taken + open_lines(None) =~= taken);
                    lemma_split_first(
                        top_level,
                        lines,
                        open,
                        from,
                        close_block(open).push(segment),
                        taken,
                        rest,
                        None,
                        segment_lines(top_level, rest, None, None, end),
                    );
                } else if rest.len() > 0 {
                    lemma_split_ok(false, rest, None, None, rest.last().location, from);
                    if let Ok((inner, after)) = segment_lines(
                        false,
                        rest,
                        None,
                        None,
                        rest.last().location,
                    ) {
                        let segment = SegmentView::SubBlock(
                            line.location,
                            head.name,
                            words,
                            inner,
                        );
                        let k = lines.len() - after.len();
                        lemma_walk_one(segment);
                        let head_walk = seq![Walked::Head(line.location, head.name, words, false)];
                        let inside = walk_of(inner) + close_of(false);
                        let within = open_lines(None) + rest.take(rest.len() - after.len());
                        lemma_lists_concat(head_walk, inside, seq![line], within);
                        assert(head_walk + inside =~= walk_of(seq![segment]));
                        assert(seq![line] + within =~= lines.take(k));
                        lemma_close_block_push(open, segment, from, lines.take(k));
                        assert(after =~= lines.skip(k));
                        lemma_skip_from(lines, from, k);
                        lemma_split_ok(top_level, after, None, None, end, from);
                        let taken = open_lines(open) + lines.take(k);
                        assert(taken + open_lines(None) =~= taken);
                        lemma_split_first(
                            top_level,
                            lines,
                            open,
                            from,
                            close_block(open).push(segment),
                            taken,
                            after,
                            None,
                            segment_lines(top_level, after, None, None, end),
                        );
                    }
                }
            }
        } else if head_of(text) is Ok {
            if text == "}"@ {
                lemma_close_block(open, from);
                lemma_lists_concat(
                    walk_of(close_block(open)),
                    seq![Walked::Close],
                    open_lines(open),
                    seq![line],
                );
                assert(lines.take(1) =~= seq![line]);
            } else {
                let kind = line_kind(text);
                lemma_split_ok(
                    top_level,
                    rest,
                    Some(open_with(open, line, kind)),
                    None,
                    end,
                    from,
                );
                lemma_line_added(top_level, lines, open, None, end, from, kind);
            }
        }
    }
}

/// Every line of a script belongs to exactly one segment: a walk through the
/// segments of a script that can be split comes by the lines of the script in
/// order, each once, where the end of a block in braces is its `}` line. Each
/// block has lines and stands at the first of them, and no two adjoining
/// blocks are of one kind, commands aside.
pub proof fn law_every_line_in_one_segment(lines: Seq<ScriptLineView>)
    ensures
        segments_of(true, lines) matches Ok((segments, left)) ==> {
            &&& lists(walk_of(segments), lines)
            &&& left.len() == 0
            &&& all_laid_out(segments, 0)
            &&& parted(segments)
            &&& lines_from(lines, 1) ==> segments_well_formed(segments)
        },
{
    let end = lines.last().location;
    lemma_split_ok(true, lines, None, None, end, 0);
    if let Ok((segments, _)) = segments_of(true, lines) {
        assert(walk_of(segments) + close_of(true) =~= walk_of(segments));
        assert(open_lines(None) + lines.take(lines.len() as int) =~= lines);
        if lines_from(lines, 1) {
            lemma_split_ok(true, lines, None, None, end, 1);
            lemma_all_well_formed(segments);
        }
    }
}

proof fn lemma_all_well_formed(segments: Seq<SegmentView>)
    requires
        all_laid_out(segments, 1),
    ensures
        segments_well_formed(segments),
{
    assert forall|i: int| 0 <= i < segments.len() implies (
    #[trigger] segments[i]).well_formed() by {
        lemma_laid_out_well_formed(segments[i]);
    }
}

spec fn open_view(open: Option<ScriptV0Block>) -> Option<BlockView> {
    match open {
        Some(b) => Some(b@),
        None => None,
    }
}

spec fn mark_view(mark: Option<&str>) -> Option<Seq<char>> {
    match mark {
        Some(m) => Some(m@),
        None => None,
    }
}

proof fn lemma_segments_model_push(segments: Seq<ScriptV0Segment>, s: ScriptV0Segment)
    ensures
        segments_model(segments.push(s)) == segments_model(segments).push(s.model()),
{
    assert(segments_model(segments.push(s)) =~= segments_model(segments).push(s.model()));
}

proof fn lemma_segments_first(a: Seq<SegmentView>, b: Seq<SegmentView>, rest: Segmented)
    ensures
        segments_first(a + b, rest) == segments_first(a, segments_first(b, rest)),
{
    if let Ok((segments, _)) = rest {
        assert(a + b + segments =~= a + (b + segments));
    }
}

/// Adds a line of the given kind to the open block, or closes that block and
/// opens another.
fn add_line(
    segments: &mut Vec<ScriptV0Segment>,
    current: &mut Option<ScriptV0Block>,
    line: &ScriptLine,
    kind: BlockType,
)
    ensures
        segments_model(final(segments)@) == segments_model(old(segments)@) + closed_by(
            open_view(*old(current)),
            kind@,
        ),
        open_view(*final(current)) == Some(open_with(open_view(*old(current)), line@, kind@)),
{
    let taken = current.take();
    let mut block = match taken {
        Some(block) => {
            if block.block_type.is_same_type_as(&kind) {
                block
            } else {
                let ghost before = segments@;
                segments.push(ScriptV0Segment::Block(block));
                proof {
                    lemma_segments_model_push(before, ScriptV0Segment::Block(block));
                    assert(segments_model(segments@) =~= segments_model(before)
                        + seq![SegmentView::Block(block@)]);
                }
                ScriptV0Block { location: line.location.clone(), block_type: kind, lines: Vec::new()
                }
            }
        },
        None => ScriptV0Block {
            location: line.location.clone(),
            block_type: kind,
            lines: Vec::new(),
        },
    };
    let ghost before = block@;
    block.lines.push(line.clone());
    proof {
        assert(block@.lines =~= before.lines.push(line@));
        assert(segments_model(segments@) =~= segments_model(old(segments)@) + closed_by(
            open_view(*old(current)),
            kind@,
        ));
        if open_with(open_view(*old(current)), line@, kind@).lines.len() == 1 {
            assert(block@.lines =~= open_with(open_view(*old(current)), line@, kind@).lines);
        }
    }
    *current = Some(block);
}

/// Closes the open block, if there is one.
fn close_current(segments: &mut Vec<ScriptV0Segment>, current: &mut Option<ScriptV0Block>)
    ensures
        segments_model(final(segments)@) == segments_model(old(segments)@) + close_block(
            open_view(*old(current)),
        ),
        *final(current) is None,
{
    let taken = current.take();
    if let Some(block) = taken {
        let ghost before = segments@;
        segments.push(ScriptV0Segment::Block(block));
        proof {
            lemma_segments_model_push(before, ScriptV0Segment::Block(block));
        }
    }
    proof {
        assert(segments_model(segments@) =~= segments_model(old(segments)@) + close_block(
            open_view(*old(current)),
        ));
    }
}

/// Reads the command that starts at line `start`, and how many lines it
/// takes up. Lines are consumed greedily until the command is complete.
fn read_command(lines: &[ScriptLine], start: usize) -> (r: Result<CommandLine, ScriptErrorType>)
    requires
        start < lines@.len(),
        lines_well_formed(script_lines_view(lines@)),
        lines@[start as int]@.trimmed().len() > 0,
    ensures
        ({
            let first = lines@[start as int]@;
            let extent = command_extent(
                command_text(first),
                1,
                script_lines_view(lines@).skip(start + 1),
            );
            match r {
                Ok(command) => extent == Ok::<(Seq<char>, int), ScriptErrorType>(
                    (command.command@, command.line_count as int),
                ) && command.location == first.location && 1 <= command.line_count <= lines@.len()
                    - start,
                Err(e) => extent == Err::<(Seq<char>, int), ScriptErrorType>(e),
            }
        }),
{
    let ghost view = script_lines_view(lines@);
    let first = &lines[start];
    let trimmed_line = first.text();
    let n: usize = chars_of(trimmed_line).len();
    let mut text: String = trim(slice_of(trimmed_line, 1, n)).to_owned();
    let mut count: usize = 1;
    proof {
        assert(trimmed_line@.subrange(1, n as int) =~= trimmed_line@.skip(1));
        assert(view[start as int] == first@);
        lemma_trimmed_contains(first@.text, '\n');
        assert(!trimmed_line@.skip(1).contains('\n')) by {
            if trimmed_line@.skip(1).contains('\n') {
                let i = choose|i: int|
                    0 <= i < trimmed_line@.skip(1).len() && trimmed_line@.skip(1)[i] == '\n';
                assert(trimmed_line@[i + 1] == '\n');
            }
        }
        lemma_trimmed_contains(trimmed_line@.skip(1), '\n');
        lemma_single_line_no_stray_newline(text@);
    }
    loop
        invariant
            start < lines@.len(),
            first == lines@[start as int],
            view == script_lines_view(lines@),
            lines_well_formed(view),
            1 <= count <= lines@.len() - start,
            no_stray_newline(text@),
            command_extent(command_text(first@), 1, view.skip(start + 1)) == command_extent(
                text@,
                count as int,
                view.skip(start + count),
            ),
        decreases lines@.len() - start - count,
    {
        match parse_command_line(first.location.clone(), count, text.as_str()) {
            Ok(command) => {
                return Ok(command);
            },
            Err(e) => {
                let continues = matches!(e, ScriptErrorType::UnclosedQuote)
                    || matches!(e, ScriptErrorType::UnclosedBackslash);
                if !continues || lines.len() - start == count {
                    return Err(e);
                }
                let line = &lines[start + count];
                proof {
                    let rest = view.skip(start + count);
                    assert(rest[0] == line@);
                    assert(rest.skip(1) =~= view.skip(start + count + 1));
                    assert(view[start + count] == line@);
                    lemma_trimmed_contains(line@.text, '\n');
                    lemma_continue_no_stray_newline(text@, line@.trimmed());
                }
                push_char(&mut text, '\n');
                push_str(&mut text, line.text());
                count += 1;
            },
        }
    }
}

/// A line that opens a block or ends in `;`.
struct Head {
    semi: bool,
    name: String,
    args: String,
}

/// The head that a trimmed line is, if it begins with a letter.
fn read_head(text: &str) -> (r: Result<Option<Head>, ScriptErrorType>)
    ensures
        match r {
            Ok(Some(head)) => head_of(text@) == Ok::<Option<HeadView>, ScriptErrorType>(
                Some(HeadView { semi: head.semi, name: head.name@, args: head.args@ }),
            ),
            Ok(None) => head_of(text@) == Ok::<Option<HeadView>, ScriptErrorType>(None),
            Err(e) => head_of(text@) == Err::<Option<HeadView>, ScriptErrorType>(e),
        },
{
    let chars = chars_of(text);
    let n: usize = chars.len();
    if n == 0 || !is_alphabetic(chars[0]) {
        return Ok(None);
    }
    let last: char = chars[n - 1];
    if last != '{' && last != ';' {
        return Err(ScriptErrorType::ExpectedBlockOrSemi);
    }
    let body = trim(slice_of(text, 0, n - 1));
    proof {
        assert(text@.subrange(0, n - 1) =~= text@.drop_last());
    }
    let k: usize = find_white(body);
    let m: usize = chars_of(body).len();
    if k < m {
        let name = trim(slice_of(body, 0, k));
        let args = trim(slice_of(body, k + 1, m));
        proof {
            assert(body@.subrange(0, k as int) =~= body@.take(k as int));
            assert(body@.subrange(k + 1, m as int) =~= body@.skip(k + 1));
        }
        Ok(Some(Head { semi: last == ';', name: name.to_owned(), args: args.to_owned() }))
    } else {
        let args = String::new();
        proof {
            assert(args@ =~= Seq::empty());
        }
        Ok(Some(Head { semi: last == ';', name: body.to_owned(), args }))
    }
}

/// What a trimmed line is that is no command, no head and no closing brace.
fn kind_of_line(line: &ScriptLine) -> (r: BlockType)
    ensures
        r@ == line_kind(line@.trimmed()),
{
    if line.starts_with("#") || line.is_empty() {
        BlockType::Ineffectual
    } else if line.starts_with("%") {
        BlockType::Meta
    } else if line.starts_with("*") {
        BlockType::Any
    } else {
        BlockType::Pattern
    }
}

/// The mark that a multi-line pattern still waits for behind a trimmed line.
fn next_mark<'a>(mark: Option<&'a str>, text: &str) -> (r: Option<&'a str>)
    ensures
        mark_view(r) == mark_after(mark_view(mark), text@),
{
    match mark {
        Some(m) => {
            if str_eq(text, m) {
                None
            } else {
                Some(m)
            }
        },
        None => {
            if str_eq(text, ESCAPED_MULTILINE) {
                Some(ESCAPED_MULTILINE)
            } else if str_eq(text, REGEX_MULTILINE) {
                Some(REGEX_MULTILINE)
            } else if str_eq(text, LITERAL_MULTILINE) {
                Some(LITERAL_MULTILINE)
            } else {
                None
            }
        },
    }
}

/// Splits the lines from `start` on. Gives the segments and the index of the
/// first line left over.
fn segment_from(top_level: bool, lines: &[ScriptLine], start: usize) -> (r: Result<
    (Vec<ScriptV0Segment>, usize),
    ScriptError,
>)
    requires
        start <= lines@.len(),
        top_level || start < lines@.len(),
        lines_well_formed(script_lines_view(lines@)),
    ensures
        ({
            let view = script_lines_view(lines@);
            let split = segment_lines(
                top_level,
                view.skip(start as int),
                None,
                None,
                view.last().location,
            );
            match r {
                Ok((segments, next)) => start <= next <= lines@.len() && split == Ok::<
                    (Seq<SegmentView>, Seq<ScriptLineView>),
                    ScriptErrorView,
                >((segments_model(segments@), view.skip(next as int))),
                Err(e) => split == Err::<
                    (Seq<SegmentView>, Seq<ScriptLineView>),
                    ScriptErrorView,
                >(e@),
            }
        }),
    decreases lines@.len() - start,
{
    let ghost view = script_lines_view(lines@);
    let ghost end = view.last().location;
    let ghost whole = segment_lines(top_level, view.skip(start as int), None, None, end);
    let n: usize = lines.len();
    let mut segments: Vec<ScriptV0Segment> = Vec::new();
    let mut current: Option<ScriptV0Block> = None;
    let mut mark: Option<&str> = None;
    let mut i: usize = start;
    proof {
        assert(segments_model(segments@) =~= Seq::empty());
        if let Ok((s, _)) = whole {
            assert(Seq::<SegmentView>::empty() + s =~= s);
        }
    }
    while i < n
        invariant
            start <= i <= n == lines@.len(),
            top_level || start < n,
            view == script_lines_view(lines@),
            end == view.last().location,
            lines_well_formed(view),
            whole == segment_lines(top_level, view.skip(start as int), None, None, end),
            whole == segments_first(
                segments_model(segments@),
                segment_lines(
                    top_level,
                    view.skip(i as int),
                    open_view(current),
                    mark_view(mark),
                    end,
                ),
            ),
        decreases n - i,
    {
        let line = &lines[i];
        let text = line.text();
        let ghost at = view.skip(i as int);
        let ghost before = segments_model(segments@);
        let ghost open = open_view(current);
        proof {
            assert(at[0] == line@);
            assert(at.skip(1) =~= view.skip(i + 1));
        }
        mark = next_mark(mark, text);
        if mark.is_some() {
            proof {
                lemma_segments_first(
                    before,
                    closed_by(open, BlockTypeView::Pattern),
                    segment_lines(
                        top_level,
                        at.skip(1),
                        Some(open_with(open, line@, BlockTypeView::Pattern)),
                        mark_view(mark),
                        end,
                    ),
                );
            }
            add_line(&mut segments, &mut current, line, BlockType::Pattern);
            i += 1;
            continue ;
        }
        if line.starts_with("$") {
            proof {
                reveal_strlit("$");
                assert(line@.trimmed().len() > 0);
            }
            let command = match read_command(lines, i) {
                Ok(command) => command,
                Err(e) => {
                    return Err(ScriptError::new(e, line.location.clone()));
                },
            };
            let count: usize = command.line_count;
            close_current(&mut segments, &mut current);
            let mut block_lines: Vec<ScriptLine> = Vec::new();
            let mut k: usize = 0;
            while k < count
                invariant
                    k <= count <= n - i,
                    n == lines@.len(),
                    view == script_lines_view(lines@),
                    at == view.skip(i as int),
                    script_lines_view(block_lines@) == at.take(k as int),
                decreases count - k,
            {
                let ghost had = block_lines@;
                block_lines.push(lines[i + k].clone());
                proof {
                    assert(at[k as int] == lines@[i + k]@);
                    assert(script_lines_view(block_lines@) =~= script_lines_view(had).push(
                        at[k as int],
                    ));
                    assert(at.take(k + 1) =~= at.take(k as int).push(at[k as int]));
                }
                k += 1;
            }
            let ghost closed = segments@;
            let ghost command_view = command@;
            let block = ScriptV0Segment::Block(
                ScriptV0Block {
                    location: line.location.clone(),
                    block_type: BlockType::Command(command),
                    lines: block_lines,
                },
            );
            let ghost model = block.model();
            segments.push(block);
            proof {
                lemma_segments_model_push(closed, block);
                assert(segments_model(segments@) =~= before + close_block(open).push(model));
                assert(at.skip(count as int) =~= view.skip(i + count));
                lemma_segments_first(
                    before,
                    close_block(open).push(model),
                    segment_lines(top_level, at.skip(count as int), None, None, end),
                );
            }
            i += count;
            continue ;
        }
        let head = match read_head(text) {
            Ok(head) => head,
            Err(e) => {
                return Err(ScriptError::new(e, line.location.clone()));
            },
        };
        if let Some(head) = head {
            close_current(&mut segments, &mut current);
            let args = match shell_split(head.args.as_str()) {
                Ok(args) => args,
                Err(_) => {
                    let mut data: String = head.name;
                    push_char(&mut data, ' ');
                    push_str(&mut data, head.args.as_str());
                    return Err(
                        ScriptError::new_with_data(
                            ScriptErrorType::InvalidBlockArgs,
                            line.location.clone(),
                            data,
                        ),
                    );
                },
            };
            let ghost closed = segments@;
            let ghost words = bits_view(args@);
            if head.semi {
                let segment = ScriptV0Segment::Semi(line.location.clone(), head.name, args);
                let ghost model = segment.model();
                segments.push(segment);
                proof {
                    lemma_segments_model_push(closed, segment);
                    assert(segments_model(segments@) =~= before + close_block(open).push(model));
                    lemma_segments_first(
                        before,
                        close_block(open).push(model),
                        segment_lines(top_level, at.skip(1), None, None, end),
                    );
                }
                i += 1;
            } else {
                if i + 1 == n {
                    return Err(
                        ScriptError::new(ScriptErrorType::InvalidBlockEnd, line.location.clone()),
                    );
                }
                proof {
                    assert(at.skip(1).last() == view.last());
                }
                let (inner, next) = match segment_from(false, lines, i + 1) {
                    Ok(split) => split,
                    Err(e) => {
                        return Err(e);
                    },
                };
                let segment = ScriptV0Segment::SubBlock(
                    line.location.clone(),
                    head.name,
                    args,
                    inner,
                );
                let ghost model = segment.model();
                segments.push(segment);
                proof {
                    lemma_split_ok(false, view.skip(i + 1), None, None, end, 0);
                    lemma_segments_model_push(closed, segment);
                    assert(model->SubBlock_3 =~= segments_model(inner@));
                    assert(segments_model(segments@) =~= before + close_block(open).push(model));
                    lemma_segments_first(
                        before,
                        close_block(open).push(model),
                        segment_lines(top_level, view.skip(next as int), None, None, end),
                    );
                }
                i = next;
            }
        } else if str_eq(text, "}") {
            if top_level {
                return Err(
                    ScriptError::new(ScriptErrorType::InvalidBlockEnd, line.location.clone()),
                );
            }
            close_current(&mut segments, &mut current);
            return Ok((segments, i + 1));
        } else {
            let kind = kind_of_line(line);
            proof {
                lemma_segments_first(
                    before,
                    closed_by(open, kind@),
                    segment_lines(
                        top_level,
                        at.skip(1),
                        Some(open_with(open, line@, kind@)),
                        None,
                        end,
                    ),
                );
            }
            add_line(&mut segments, &mut current, line, kind);
            i += 1;
        }
    }
    proof {
        assert(view.skip(i as int) =~= Seq::empty());
    }
    if !top_level {
        return Err(
            ScriptError::new(ScriptErrorType::InvalidBlockEnd, lines[n - 1].location.clone()),
        );
    }
    close_current(&mut segments, &mut current);
    Ok((segments, n))
}

/// Split the script into parsing segments. These allow us to more easily parse
/// in later phases because we avoid having to check for block boundaries.
///
/// Within a block, `lines_slice` is moved behind the closing brace.
pub fn segment_script(top_level: bool, lines_slice: &mut &[ScriptLine]) -> (r: Result<
    Vec<ScriptV0Segment>,
    ScriptError,
>)
    requires
        lines_well_formed(script_lines_view(old(lines_slice)@)),
        top_level || old(lines_slice)@.len() > 0,
    ensures
        match r {
            Ok(segments) => ({
                let view = script_lines_view(old(lines_slice)@);
                &&& segments_of(top_level, view) is Ok
                &&& segments_model(segments@) == segments_of(top_level, view)->Ok_0.0
                &&& lines_from(view, 1) ==> segments_well_formed(segments_model(segments@))
                &&& top_level ==> final(lines_slice)@ == old(lines_slice)@
                &&& !top_level ==> script_lines_view(final(lines_slice)@) == segments_of(
                    top_level,
                    view,
                )->Ok_0.1
            }),
            Err(e) => segments_of(top_level, script_lines_view(old(lines_slice)@)) == Err::<
                (Seq<SegmentView>, Seq<ScriptLineView>),
                ScriptErrorView,
            >(e@) && final(lines_slice)@ == old(lines_slice)@,
        },
{
    let lines: &[ScriptLine] = *lines_slice;
    let ghost view = script_lines_view(lines@);
    proof {
        assert(view.skip(0) =~= view);
        lemma_split_ok(top_level, view, None, None, view.last().location, 0);
        if lines_from(view, 1) {
            lemma_split_ok(top_level, view, None, None, view.last().location, 1);
            if let Ok((split, _)) = segments_of(top_level, view) {
                lemma_all_well_formed(split);
            }
        }
    }
    let (segments, next) = match segment_from(top_level, lines, 0) {
        Ok(split) => split,
        Err(e) => {
            return Err(e);
        },
    };
    if !top_level {
        *lines_slice = vstd::slice::slice_subrange(lines, next, lines.len());
        proof {
            assert(script_lines_view(lines_slice@) =~= view.skip(next as int));
        }
    }
    Ok(segments)
}

} // verus!
