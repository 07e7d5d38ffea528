//! Splitting a stream into items.
use crate::procstream::utf8::lossy_bytes;
use vstd::prelude::*;
use vstd::utf8::{decode_utf8, encode_utf8, valid_utf8};

verus! {

/// The byte that ends a line.
pub const LF: u8 = 0x0a;

/// The byte that returns to the start of a line.
pub const CR: u8 = 0x0d;

/// How a line ended.
#[derive(Clone, Copy, PartialEq, Eq, Structural, Debug)]
pub enum LineEnding {
    /// With a line feed.
    Lf,
    /// With a carriage return and a line feed.
    CrLf,
    /// Exceeded the max-line cap: a forced piece under [`Overlong::Split`], or
    /// the kept prefix under [`Overlong::Truncate`].
    Overlong,
    /// With the stream.
    Eof,
}

/// Policy when a framed line exceeds the max-line cap.
#[derive(Clone, Copy, PartialEq, Eq, Structural, Debug)]
pub enum Overlong {
    /// Keep the first cap bytes as one [`LineEnding::Overlong`] line. Default.
    Truncate,
    /// Cap-sized pieces tagged [`LineEnding::Overlong`], last with the real
    /// terminator. Consumer must stitch.
    Split,
}

/// Framed line: bytes without the terminator.
#[derive(Clone, Debug, PartialEq, Eq)]
pub struct Line {
    /// The bytes of the line.
    pub bytes: Vec<u8>,
    /// How it ended.
    pub ending: LineEnding,
}

/// The mathematical value of a [`Line`].
pub struct FramedLine {
    /// The bytes of the line.
    pub bytes: Seq<u8>,
    /// How it ended.
    pub ending: LineEnding,
}

impl View for Line {
    type V = FramedLine;

    open spec fn view(&self) -> FramedLine {
        FramedLine { bytes: self.bytes@, ending: self.ending }
    }
}

/// The values of a sequence of lines.
pub open spec fn framed_view(lines: Seq<Line>) -> Seq<FramedLine> {
    lines.map_values(|l: Line| l@)
}

/// What `String::from_utf8_lossy` makes of bytes.
pub uninterp spec fn lossy_text(bytes: Seq<u8>) -> Seq<char>;

/// `String::from_utf8_lossy` reads bytes as UTF-8, and puts `U+FFFD` in place
/// of each invalid sequence that `std::str::from_utf8` finds, one after the
/// other.
#[verifier::external_body]
fn read_lossy(bytes: &[u8]) -> (r: String)
    ensures
        r@ == lossy_text(bytes@),
        encode_utf8(r@) == lossy_bytes(bytes@),
        valid_utf8(bytes@) ==> r@ == decode_utf8(bytes@),
{
    String::from_utf8_lossy(bytes).into_owned()
}

impl Line {
    /// The bytes of the line as text.
    pub fn as_str_lossy(&self) -> (r: String)
        ensures
            r@ == lossy_text(self.bytes@),
            encode_utf8(r@) == lossy_bytes(self.bytes@),
            valid_utf8(self.bytes@) ==> r@ == decode_utf8(self.bytes@),
    {
        read_lossy(&self.bytes)
    }

    /// The bytes of the line.
    pub fn as_bytes(&self) -> (r: &[u8])
        ensures
            r@ == self.bytes@,
    {
        self.bytes.as_slice()
    }
}

/// Terminal stage of a pipeline. Its [`Framer::Item`] is the transform output type.
pub trait Framer: Sized {
    /// What the stream is split into.
    type Item;

    /// The mathematical value of the framer.
    type State;

    /// The mathematical value of an item.
    type ItemView;

    /// The mathematical value of the framer.
    spec fn state(&self) -> Self::State;

    /// The mathematical value of an item.
    spec fn item_view(item: Self::Item) -> Self::ItemView;

    /// What a piece of the stream leads to, and the items that it completes.
    spec fn pushed(state: Self::State, bytes: Seq<u8>) -> (Self::State, Seq<Self::ItemView>);

    /// What the end of the stream leads to, and the items that it completes.
    spec fn flushed(state: Self::State) -> (Self::State, Seq<Self::ItemView>);

    /// Reads a piece of the stream, and gives the items that it completes.
    fn push(&mut self, bytes: &[u8]) -> (r: Vec<Self::Item>)
        ensures
            Self::pushed(old(self).state(), bytes@) == (
                final(self).state(),
                r@.map_values(|item: Self::Item| Self::item_view(item)),
            ),
    ;

    /// Ends the stream, and gives the items that this completes.
    fn flush(&mut self) -> (r: Vec<Self::Item>)
        ensures
            Self::flushed(old(self).state()) == (
                final(self).state(),
                r@.map_values(|item: Self::Item| Self::item_view(item)),
            ),
    ;
}

/// The values of a sequence of items.
pub open spec fn items_view<F: Framer>(items: Seq<F::Item>) -> Seq<F::ItemView> {
    items.map_values(|item: F::Item| F::item_view(item))
}

/// Gives the pieces of a stream as they come.
pub struct RawFramer;

impl Framer for RawFramer {
    type Item = Vec<u8>;

    type State = ();

    type ItemView = Seq<u8>;

    open spec fn state(&self) -> () {
        ()
    }

    open spec fn item_view(item: Vec<u8>) -> Seq<u8> {
        item@
    }

    open spec fn pushed(state: (), bytes: Seq<u8>) -> ((), Seq<Seq<u8>>) {
        (
            (),
            if bytes.len() == 0 {
                Seq::empty()
            } else {
                seq![bytes]
            },
        )
    }

    open spec fn flushed(state: ()) -> ((), Seq<Seq<u8>>) {
        ((), Seq::empty())
    }

    fn push(&mut self, bytes: &[u8]) -> (r: Vec<Vec<u8>>) {
        let mut out: Vec<Vec<u8>> = Vec::new();
        if bytes.len() > 0 {
            let mut copy: Vec<u8> = Vec::new();
            copy.extend_from_slice(bytes);
            proof {
                assert(copy@ =~= bytes@);
            }
            out.push(copy);
        }
        proof {
            assert(out@.map_values(|item: Vec<u8>| Self::item_view(item)) =~= Self::pushed(
                (),
                bytes@,
            ).1);
        }
        out
    }

    fn flush(&mut self) -> (r: Vec<Vec<u8>>) {
        let out: Vec<Vec<u8>> = Vec::new();
        proof {
            assert(out@.map_values(|item: Vec<u8>| Self::item_view(item)) =~= Seq::empty());
        }
        out
    }
}

/// Frames on `\n` (strips trailing `\r`). Caps via [`Overlong`].
pub struct LineFramer {
    buf: Vec<u8>,
    max: usize,
    policy: Overlong,
    truncated: bool,
}

/// The mathematical value of a [`LineFramer`].
pub struct LineState {
    /// The bytes of the line that is being read.
    pub buf: Seq<u8>,
    /// The most bytes that a line may have.
    pub max: nat,
    /// What happens to longer lines.
    pub policy: Overlong,
    /// Whether bytes of the line were left out.
    pub truncated: bool,
}

/// Whether bytes end in a carriage return.
pub open spec fn ends_in_cr(bytes: Seq<u8>) -> bool {
    bytes.len() > 0 && bytes.last() == CR
}

/// The line that a line feed completes.
pub open spec fn completed(state: LineState) -> FramedLine {
    if state.truncated {
        FramedLine { bytes: state.buf, ending: LineEnding::Overlong }
    } else if ends_in_cr(state.buf) {
        FramedLine { bytes: state.buf.drop_last(), ending: LineEnding::CrLf }
    } else {
        FramedLine { bytes: state.buf, ending: LineEnding::Lf }
    }
}

/// What one more byte leads to, and the line that it completes.
pub open spec fn line_step(state: LineState, b: u8) -> (LineState, Seq<FramedLine>) {
    if b == LF {
        (
            LineState { buf: Seq::empty(), truncated: false, ..state },
            seq![completed(state)],
        )
    } else if state.buf.len() != state.max {
        (LineState { buf: state.buf.push(b), ..state }, Seq::empty())
    } else if state.policy == Overlong::Truncate {
        (LineState { truncated: true, ..state }, Seq::empty())
    } else {
        (
            LineState { buf: seq![b], ..state },
            seq![FramedLine { bytes: state.buf, ending: LineEnding::Overlong }],
        )
    }
}

/// What more bytes lead to, and the lines that they complete.
pub open spec fn line_steps(state: LineState, bytes: Seq<u8>) -> (LineState, Seq<FramedLine>)
    decreases bytes.len(),
{
    if bytes.len() == 0 {
        (state, Seq::empty())
    } else {
        let (before, lines) = line_steps(state, bytes.drop_last());
        let (after, more) = line_step(before, bytes.last());
        (after, lines + more)
    }
}

/// What the end of the stream leads to, and the line that it completes. A
/// trailing carriage return of an unterminated line is a rewrite artifact, not
/// content.
pub open spec fn line_end(state: LineState) -> (LineState, Seq<FramedLine>) {
    let rest = if ends_in_cr(state.buf) {
        state.buf.drop_last()
    } else {
        state.buf
    };
    if rest.len() == 0 {
        (LineState { buf: rest, ..state }, Seq::empty())
    } else {
        (
            LineState { buf: Seq::empty(), truncated: false, ..state },
            seq![
                FramedLine {
                    bytes: rest,
                    ending: if state.truncated {
                        LineEnding::Overlong
                    } else {
                        LineEnding::Eof
                    },
                },
            ],
        )
    }
}

impl LineFramer {
    /// A framer at the start of a stream.
    pub fn new(max: usize, policy: Overlong) -> (r: Self)
        ensures
            r.state() == (LineState {
                buf: Seq::empty(),
                max: max as nat,
                policy,
                truncated: false,
            }),
    {
        LineFramer { buf: Vec::new(), max, policy, truncated: false }
    }

    /// Takes the bytes of the line out.
    fn take(&mut self) -> (r: Vec<u8>)
        ensures
            r@ == old(self).state().buf,
            final(self).state() == (LineState { buf: Seq::empty(), ..old(self).state() }),
    {
        let mut taken: Vec<u8> = Vec::new();
        std::mem::swap(&mut taken, &mut self.buf);
        taken
    }
}

impl Framer for LineFramer {
    type Item = Line;

    type State = LineState;

    type ItemView = FramedLine;

    closed spec fn state(&self) -> LineState {
        LineState {
            buf: self.buf@,
            max: self.max as nat,
            policy: self.policy,
            truncated: self.truncated,
        }
    }

    open spec fn item_view(item: Line) -> FramedLine {
        item@
    }

    open spec fn pushed(state: LineState, bytes: Seq<u8>) -> (LineState, Seq<FramedLine>) {
        line_steps(state, bytes)
    }

    open spec fn flushed(state: LineState) -> (LineState, Seq<FramedLine>) {
        line_end(state)
    }

    fn push(&mut self, bytes: &[u8]) -> (r: Vec<Line>) {
        let ghost start = self.state();
        let mut out: Vec<Line> = Vec::new();
        let mut i: usize = 0;
        proof {
            assert(bytes@.take(0) =~= Seq::empty());
            assert(framed_view(out@) =~= Seq::empty());
        }
        while i < bytes.len()
            invariant
                i <= bytes@.len(),
                start == old(self).state(),
                line_steps(start, bytes@.take(i as int)) == (
                    self.state(),
                    framed_view(out@),
                ),
            decreases bytes@.len() - i,
        {
            let b: u8 = bytes[i];
            let ghost before = self.state();
            let ghost had = out@;
            proof {
                assert(bytes@.take(i + 1).drop_last() =~= bytes@.take(i as int));
                assert(bytes@.take(i + 1).last() == b);
            }
            if b == LF {
                let n: usize = self.buf.len();
                let ending = if self.truncated {
                    self.truncated = false;
                    LineEnding::Overlong
                } else if n > 0 && self.buf[n - 1] == CR {
                    let _ = self.buf.pop();
                    LineEnding::CrLf
                } else {
                    LineEnding::Lf
                };
                let line = Line { bytes: self.take(), ending };
                proof {
                    assert(line@ == completed(before));
                }
                out.push(line);
                proof {
                    assert(framed_view(out@) =~= framed_view(had)
                        + seq![line@]);
                }
            } else if self.buf.len() == self.max {
                match self.policy {
                    Overlong::Truncate => {
                        self.truncated = true;
                        proof {
                            assert(framed_view(out@) =~= framed_view(had)
                                + Seq::<FramedLine>::empty());
                        }
                    },
                    Overlong::Split => {
                        let line = Line { bytes: self.take(), ending: LineEnding::Overlong };
                        out.push(line);
                        self.buf.push(b);
                        proof {
                            assert(self.buf@ =~= seq![b]);
                            assert(framed_view(out@) =~= framed_view(had)
                                + seq![line@]);
                        }
                    },
                }
            } else {
                self.buf.push(b);
                proof {
                    assert(framed_view(out@) =~= framed_view(had)
                        + Seq::<FramedLine>::empty());
                }
            }
            i += 1;
        }
        proof {
            assert(bytes@.take(i as int) =~= bytes@);
            assert(out@.map_values(|item: Line| Self::item_view(item)) =~= framed_view(out@));
        }
        out
    }

    fn flush(&mut self) -> (r: Vec<Line>) {
        let mut out: Vec<Line> = Vec::new();
        let n: usize = self.buf.len();
        if n > 0 && self.buf[n - 1] == CR {
            let _ = self.buf.pop();
        }
        if self.buf.len() > 0 {
            let ending = if self.truncated {
                LineEnding::Overlong
            } else {
                LineEnding::Eof
            };
            self.truncated = false;
            let line = Line { bytes: self.take(), ending };
            out.push(line);
        }
        proof {
            assert(out@.map_values(|item: Line| Self::item_view(item)) =~= line_end(
                old(self).state(),
            ).1);
        }
        out
    }
}

/// How a stream is cut into pieces does not matter to the lines: two pieces
/// give what they give as one.
pub proof fn law_lines_do_not_depend_on_pieces(state: LineState, a: Seq<u8>, b: Seq<u8>)
    ensures
        ({
            let (middle, first) = line_steps(state, a);
            let (end, second) = line_steps(middle, b);
            line_steps(state, a + b) == (end, first + second)
        }),
    decreases b.len(),
{
    let (middle, first) = line_steps(state, a);
    if b.len() == 0 {
        assert(a + b =~= a);
        assert(first + Seq::<FramedLine>::empty() =~= first);
    } else {
        law_lines_do_not_depend_on_pieces(state, a, b.drop_last());
        assert((a + b).drop_last() =~= a + b.drop_last());
        assert((a + b).last() == b.last());
        let (before, lines) = line_steps(middle, b.drop_last());
        let (_, more) = line_step(before, b.last());
        assert(first + lines + more =~= first + (lines + more));
    }
}

/// The bytes that ended a line.
pub open spec fn terminator(ending: LineEnding) -> Seq<u8> {
    match ending {
        LineEnding::Lf => seq![LF],
        LineEnding::CrLf => seq![CR, LF],
        _ => Seq::empty(),
    }
}

/// The bytes that lines came from.
pub open spec fn lines_bytes(lines: Seq<FramedLine>) -> Seq<u8>
    decreases lines.len(),
{
    if lines.len() == 0 {
        Seq::empty()
    } else {
        lines_bytes(lines.drop_last()) + lines.last().bytes + terminator(lines.last().ending)
    }
}

/// Under [`Overlong::Split`] no byte is lost: the lines with their
/// terminators, and what is left of the last one, are the stream.
pub proof fn law_split_loses_nothing(state: LineState, bytes: Seq<u8>)
    requires
        state.policy == Overlong::Split,
        !state.truncated,
    ensures
        ({
            let (end, lines) = line_steps(state, bytes);
            &&& lines_bytes(lines) + end.buf == state.buf + bytes
            &&& end.policy == Overlong::Split
            &&& !end.truncated
        }),
    decreases bytes.len(),
{
    if bytes.len() == 0 {
        assert(lines_bytes(Seq::empty()) =~= Seq::empty());
        assert(Seq::<u8>::empty() + state.buf =~= state.buf + bytes);
    } else {
        law_split_loses_nothing(state, bytes.drop_last());
        let b = bytes.last();
        let (before, lines) = line_steps(state, bytes.drop_last());
        let (end, more) = line_step(before, b);
        let said = lines_bytes(lines);
        assert(said + before.buf =~= state.buf + bytes.drop_last());
        assert(state.buf + bytes =~= (state.buf + bytes.drop_last()).push(b));
        if more.len() == 0 {
            assert(lines + more =~= lines);
            assert(said + end.buf =~= (said + before.buf).push(b));
        } else {
            let line = more[0];
            assert((lines + more).drop_last() =~= lines);
            assert((lines + more).last() == line);
            assert(lines_bytes(lines + more) == said + line.bytes + terminator(line.ending));
            if b == LF && ends_in_cr(before.buf) {
                assert(before.buf =~= before.buf.drop_last().push(CR));
            }
            assert(said + line.bytes + terminator(line.ending) + end.buf =~= (said
                + before.buf).push(b));
        }
    }
}

/// No line is longer than the most bytes that a line may have.
pub proof fn law_lines_are_capped(state: LineState, bytes: Seq<u8>)
    requires
        state.max > 0,
        state.buf.len() <= state.max,
    ensures
        ({
            let (end, lines) = line_steps(state, bytes);
            &&& end.buf.len() <= state.max
            &&& end.max == state.max
            &&& forall|i: int|
                0 <= i < lines.len() ==> (#[trigger] lines[i]).bytes.len() <= state.max
        }),
    decreases bytes.len(),
{
    if bytes.len() > 0 {
        law_lines_are_capped(state, bytes.drop_last());
    }
}

/// The start of a line of a stream, under [`Overlong::Truncate`].
pub open spec fn truncating(max: nat) -> LineState {
    LineState { buf: Seq::empty(), max, policy: Overlong::Truncate, truncated: false }
}

proof fn lemma_truncated_prefix(max: nat, line: Seq<u8>)
    requires
        !line.contains(LF),
    ensures
        line_steps(truncating(max), line) == (
            LineState {
                buf: if line.len() <= max {
                    line
                } else {
                    line.take(max as int)
                },
                truncated: line.len() > max,
                ..truncating(max)
            },
            Seq::<FramedLine>::empty(),
        ),
    decreases line.len(),
{
    if line.len() > 0 {
        let front = line.drop_last();
        assert(line[line.len() - 1] != LF);
        assert forall|b: u8| front.contains(b) implies line.contains(b) by {
            let i = choose|i: int| 0 <= i < front.len() && front[i] == b;
            assert(line[i] == b);
        }
        lemma_truncated_prefix(max, front);
        let (before, lines) = line_steps(truncating(max), front);
        assert(lines + Seq::<FramedLine>::empty() =~= lines);
        if line.len() <= max {
            assert(front.push(line.last()) =~= line);
        } else if front.len() > max {
            assert(front.take(max as int) =~= line.take(max as int));
        } else {
            assert(front =~= line.take(max as int));
        }
    } else {
        assert(line =~= Seq::empty());
    }
}

/// Under [`Overlong::Truncate`] a line that exceeds the cap becomes one line:
/// its first bytes, as many as the cap allows.
pub proof fn law_truncate_keeps_first_bytes(max: nat, line: Seq<u8>)
    requires
        !line.contains(LF),
        line.len() > max,
    ensures
        line_steps(truncating(max), line.push(LF)) == (
            truncating(max),
            seq![FramedLine { bytes: line.take(max as int), ending: LineEnding::Overlong }],
        ),
{
    lemma_truncated_prefix(max, line);
    assert(line.push(LF).drop_last() =~= line);
    let (before, _) = line_steps(truncating(max), line);
    assert(Seq::<FramedLine>::empty() + seq![completed(before)] =~= seq![completed(before)]);
}

} // verus!
