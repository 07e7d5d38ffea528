//! Resolving what a stream writes over itself.
use crate::procstream::ansi::pieces_view;
use crate::procstream::framer::{CR, LF};
use vstd::prelude::*;

verus! {

/// What to do with text that is written over.
#[derive(Clone, Copy, PartialEq, Eq, Structural, Debug)]
pub enum Overwrite {
    /// Leave it.
    Passthrough,
    /// Resolve `\r` rewrites within a physical line to the final render.
    CollapseLine,
}

/// Resolves `\r` rewrites within a physical line to the final render.
///
/// `\r` resets the cursor to column 0. Later bytes overwrite in place (longest
/// write wins on the tail). `\n` commits the line including the terminator.
/// Cursor is a byte index -- fine for ASCII progress bars. Mid-character
/// multi-byte overwrites can tear.
pub struct CollapseLine {
    line: Vec<u8>,
    col: usize,
}

/// The mathematical value of a [`CollapseLine`].
pub struct CollapseState {
    /// The line as it is rendered so far.
    pub line: Seq<u8>,
    /// Where the next byte is written.
    pub col: int,
}

/// The start of a line.
pub open spec fn blank_line() -> CollapseState {
    CollapseState { line: Seq::empty(), col: 0 }
}

/// What one more byte leads to, and the line that it commits.
pub open spec fn collapse_step(state: CollapseState, b: u8) -> (CollapseState, Seq<Seq<u8>>) {
    if b == LF {
        (blank_line(), seq![state.line.push(LF)])
    } else if b == CR {
        (CollapseState { col: 0, ..state }, Seq::empty())
    } else {
        (
            CollapseState {
                line: if state.col == state.line.len() {
                    state.line.push(b)
                } else {
                    state.line.update(state.col, b)
                },
                col: state.col + 1,
            },
            Seq::empty(),
        )
    }
}

/// What more bytes lead to, and the lines that they commit.
pub open spec fn collapse_steps(state: CollapseState, bytes: Seq<u8>) -> (
    CollapseState,
    Seq<Seq<u8>>,
)
    decreases bytes.len(),
{
    if bytes.len() == 0 {
        (state, Seq::empty())
    } else {
        let (before, lines) = collapse_steps(state, bytes.drop_last());
        let (after, more) = collapse_step(before, bytes.last());
        (after, lines + more)
    }
}

/// What the end of the stream commits.
pub open spec fn collapse_end(state: CollapseState) -> Seq<Seq<u8>> {
    if state.line.len() == 0 {
        Seq::empty()
    } else {
        seq![state.line]
    }
}

impl CollapseLine {
    /// The next byte is written within the line or at its end.
    #[verifier::type_invariant]
    spec fn within(self) -> bool {
        self.col <= self.line@.len()
    }

    /// The mathematical value of the filter.
    pub closed spec fn state(&self) -> CollapseState {
        CollapseState { line: self.line@, col: self.col as int }
    }

    /// Filters a piece of a stream.
    pub fn push(&mut self, bytes: &[u8]) -> (r: Vec<Vec<u8>>)
        ensures
            collapse_steps(old(self).state(), bytes@) == (final(self).state(), pieces_view(r@)),
    {
        let ghost start = self.state();
        proof {
            use_type_invariant(&*self);
        }
        let mut line: Vec<u8> = Vec::new();
        let mut col: usize = self.col;
        self.col = 0;
        std::mem::swap(&mut line, &mut self.line);
        let mut out: Vec<Vec<u8>> = Vec::new();
        let mut i: usize = 0;
        proof {
            assert(bytes@.take(0) =~= Seq::empty());
            assert(pieces_view(out@) =~= Seq::empty());
        }
        while i < bytes.len()
            invariant
                i <= bytes@.len(),
                col <= line@.len(),
                start == old(self).state(),
                collapse_steps(start, bytes@.take(i as int)) == (
                    (CollapseState { line: line@, col: col as int }),
                    pieces_view(out@),
                ),
            decreases bytes@.len() - i,
        {
            let b: u8 = bytes[i];
            let ghost had = out@;
            let ghost before = line@;
            proof {
                assert(bytes@.take(i + 1).drop_last() =~= bytes@.take(i as int));
                assert(bytes@.take(i + 1).last() == b);
            }
            if b == LF {
                let mut done: Vec<u8> = Vec::new();
                line.push(LF);
                std::mem::swap(&mut done, &mut line);
                out.push(done);
                col = 0;
                proof {
                    assert(pieces_view(out@) =~= pieces_view(had) + seq![before.push(LF)]);
                    assert(line@ =~= Seq::empty());
                }
            } else {
                if b == CR {
                    col = 0;
                } else {
                    let n: usize = line.len();
                    if col == n {
                        line.push(b);
                        let longer: usize = line.len();
                        assert(longer == n + 1);
                    } else {
                        line.set(col, b);
                    }
                    col += 1;
                }
                proof {
                    assert(pieces_view(out@) =~= pieces_view(had) + Seq::<Seq<u8>>::empty());
                }
            }
            i += 1;
        }
        proof {
            assert(bytes@.take(i as int) =~= bytes@);
        }
        *self = CollapseLine { line, col };
        out
    }

    /// Ends a stream.
    pub fn flush(&mut self) -> (r: Vec<Vec<u8>>)
        ensures
            pieces_view(r@) == collapse_end(old(self).state()),
            final(self).state() == (if old(self).state().line.len() > 0 {
                blank_line()
            } else {
                old(self).state()
            }),
    {
        let mut out: Vec<Vec<u8>> = Vec::new();
        if self.line.len() > 0 {
            let mut done: Vec<u8> = Vec::new();
            self.col = 0;
            std::mem::swap(&mut done, &mut self.line);
            out.push(done);
            proof {
                assert(self.line@ =~= Seq::empty());
            }
        }
        proof {
            assert(pieces_view(out@) =~= collapse_end(old(self).state()));
        }
        out
    }
}

impl Default for CollapseLine {
    fn default() -> (r: Self)
        ensures
            r.state() == blank_line(),
    {
        let r = CollapseLine { line: Vec::new(), col: 0 };
        proof {
            assert(r.line@ =~= Seq::empty());
        }
        r
    }
}

/// One text written over the start of another.
pub open spec fn written_over(old_text: Seq<u8>, new_text: Seq<u8>) -> Seq<u8> {
    if new_text.len() >= old_text.len() {
        new_text
    } else {
        new_text + old_text.skip(new_text.len() as int)
    }
}

/// Text without a carriage return or a line feed.
pub open spec fn plain_bytes(text: Seq<u8>) -> bool {
    !text.contains(CR) && !text.contains(LF)
}

/// How a stream is cut into pieces does not matter to what is committed.
pub proof fn law_collapse_does_not_depend_on_pieces(state: CollapseState, a: Seq<u8>, b: Seq<u8>)
    ensures
        ({
            let (middle, first) = collapse_steps(state, a);
            let (end, second) = collapse_steps(middle, b);
            collapse_steps(state, a + b) == (end, first + second)
        }),
    decreases b.len(),
{
    let (middle, first) = collapse_steps(state, a);
    if b.len() == 0 {
        assert(a + b =~= a);
        assert(first + Seq::<Seq<u8>>::empty() =~= first);
    } else {
        law_collapse_does_not_depend_on_pieces(state, a, b.drop_last());
        assert((a + b).drop_last() =~= a + b.drop_last());
        assert((a + b).last() == b.last());
        let (before, lines) = collapse_steps(middle, b.drop_last());
        let (_, more) = collapse_step(before, b.last());
        assert(first + lines + more =~= first + (lines + more));
    }
}

/// After a carriage return, later bytes overwrite in place, and what is not
/// written over stays.
pub proof fn law_rewrite_overwrites_in_place(line: Seq<u8>, text: Seq<u8>)
    requires
        plain_bytes(text),
    ensures
        collapse_steps(CollapseState { line, col: 0 }, text) == (
            CollapseState { line: written_over(line, text), col: text.len() as int },
            Seq::<Seq<u8>>::empty(),
        ),
    decreases text.len(),
{
    if text.len() == 0 {
        assert(text + line.skip(0) =~= line);
        if line.len() == 0 {
            assert(text =~= line);
        }
    } else {
        let front = text.drop_last();
        assert(text[text.len() - 1] != CR && text[text.len() - 1] != LF);
        assert forall|b: u8| front.contains(b) implies text.contains(b) by {
            let i = choose|i: int| 0 <= i < front.len() && front[i] == b;
            assert(text[i] == b);
        }
        law_rewrite_overwrites_in_place(line, front);
        let before = written_over(line, front);
        let b = text.last();
        assert(Seq::<Seq<u8>>::empty() + Seq::<Seq<u8>>::empty() =~= Seq::<Seq<u8>>::empty());
        if front.len() == before.len() {
            assert(before.push(b) =~= written_over(line, text));
        } else {
            assert(before.update(front.len() as int, b) =~= written_over(line, text));
        }
    }
}

/// A line that is rewritten once is committed as its final render: the second
/// text, and what it does not reach of the first.
pub proof fn law_line_is_committed_as_rendered(first: Seq<u8>, second: Seq<u8>)
    requires
        plain_bytes(first),
        plain_bytes(second),
    ensures
        collapse_steps(blank_line(), first.push(CR) + second.push(LF)) == (
            blank_line(),
            seq![written_over(first, second).push(LF)],
        ),
{
    let empty = Seq::<u8>::empty();
    law_rewrite_overwrites_in_place(empty, first);
    assert(written_over(empty, first) =~= first);
    let returned = CollapseState { line: first, col: 0 };
    assert(first.push(CR).drop_last() =~= first);
    assert(Seq::<Seq<u8>>::empty() + Seq::<Seq<u8>>::empty() =~= Seq::<Seq<u8>>::empty());
    assert(collapse_steps(blank_line(), first.push(CR)) == (
        returned,
        Seq::<Seq<u8>>::empty(),
    ));
    law_rewrite_overwrites_in_place(first, second);
    assert(second.push(LF).drop_last() =~= second);
    let done = seq![written_over(first, second).push(LF)];
    assert(Seq::<Seq<u8>>::empty() + done =~= done);
    assert(collapse_steps(returned, second.push(LF)) == (blank_line(), done));
    law_collapse_does_not_depend_on_pieces(blank_line(), first.push(CR), second.push(LF));
}

} // verus!
