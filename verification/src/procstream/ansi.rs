//! Removing terminal escape sequences from a stream.
use vstd::prelude::*;
use vt_push_parser::event::VTEvent;
use vt_push_parser::VTPushParser;

verus! {

/// A parser of terminal escape sequences.
#[verifier::external_type_specification]
#[verifier::external_body]
pub struct ExVTPushParser<const INTEREST: u8>(VTPushParser<INTEREST>);

/// A piece of a stream that goes to a terminal, and the bytes that encode it.
pub enum VtEvent {
    /// Text.
    Text(Vec<u8>),
    /// A control character.
    Control(Vec<u8>),
    /// A control sequence with the given final byte.
    Csi(u8, Vec<u8>),
    /// Any other sequence, or a part of one.
    Other,
}

/// The mathematical value of a [`VtEvent`].
pub enum VtEventView {
    /// Text.
    Text(Seq<u8>),
    /// A control character.
    Control(Seq<u8>),
    /// A control sequence with the given final byte.
    Csi(u8, Seq<u8>),
    /// Any other sequence, or a part of one.
    Other,
}

impl View for VtEvent {
    type V = VtEventView;

    open spec fn view(&self) -> VtEventView {
        match self {
            VtEvent::Text(b) => VtEventView::Text(b@),
            VtEvent::Control(b) => VtEventView::Control(b@),
            VtEvent::Csi(f, b) => VtEventView::Csi(*f, b@),
            VtEvent::Other => VtEventView::Other,
        }
    }
}

/// The values of a sequence of events.
pub open spec fn events_view(events: Seq<VtEvent>) -> Seq<VtEventView> {
    events.map_values(|e: VtEvent| e@)
}

/// What a parser holds: the pieces that it was fed since it was clean.
pub uninterp spec fn vt_fed(parser: &VTPushParser) -> Seq<Seq<u8>>;

/// The events that `VTPushParser::feed_with` reports for a piece, after the
/// pieces that were fed before.
pub uninterp spec fn vt_events(fed: Seq<Seq<u8>>, bytes: Seq<u8>) -> Seq<VtEventView>;

/// The events that `VTPushParser::finish` reports, after the pieces that were
/// fed.
pub uninterp spec fn vt_last_events(fed: Seq<Seq<u8>>) -> Seq<VtEventView>;

/// `VTPushParser::new` gives a clean parser.
#[verifier::external_body]
fn new_parser() -> (r: VTPushParser)
    ensures
        vt_fed(&r) == (Seq::<Seq<u8>>::empty()),
{
    VTPushParser::new()
}

/// `VTPushParser::feed_with` reads a piece of a stream and reports what it
/// finds. `VTEvent::encode` turns a control sequence back into bytes.
#[verifier::external_body]
fn feed_parser(parser: &mut VTPushParser, bytes: &[u8]) -> (r: Vec<VtEvent>)
    ensures
        vt_fed(final(parser)) == vt_fed(old(parser)).push(bytes@),
        events_view(r@) == vt_events(vt_fed(old(parser)), bytes@),
{
    let mut events = Vec::new();
    parser.feed_with(bytes, |event: VTEvent| {
        events.push(match &event {
            VTEvent::Raw(text) => VtEvent::Text(text.to_vec()),
            VTEvent::C0(control) => VtEvent::Control(vec![*control]),
            VTEvent::Csi(csi) => {
                let mut encoded = vec![0u8; event.byte_len()];
                let _ = event.encode(&mut encoded);
                VtEvent::Csi(csi.final_byte, encoded)
            },
            _ => VtEvent::Other,
        });
    });
    events
}

/// `VTPushParser::finish` reports what the parser still holds at the end of a
/// stream, and makes it clean.
#[verifier::external_body]
fn finish_parser(parser: &mut VTPushParser) -> (r: Vec<VtEvent>)
    ensures
        vt_fed(final(parser)) == (Seq::<Seq<u8>>::empty()),
        events_view(r@) == vt_last_events(vt_fed(old(parser))),
{
    let mut events = Vec::new();
    parser.finish(|event: VTEvent| {
        events.push(match &event {
            VTEvent::Raw(text) => VtEvent::Text(text.to_vec()),
            VTEvent::C0(control) => VtEvent::Control(vec![*control]),
            VTEvent::Csi(csi) => {
                let mut encoded = vec![0u8; event.byte_len()];
                let _ = event.encode(&mut encoded);
                VtEvent::Csi(csi.final_byte, encoded)
            },
            _ => VtEvent::Other,
        });
    });
    events
}

/// What is kept of an event: text, control characters and, if asked for,
/// sequences that set attributes such as colours.
pub open spec fn kept_bytes(event: VtEventView, keep_sgr: bool) -> Option<Seq<u8>> {
    match event {
        VtEventView::Text(b) => Some(b),
        VtEventView::Control(b) => Some(b),
        VtEventView::Csi(last, b) => if keep_sgr && last == 0x6d {
            Some(b)
        } else {
            None
        },
        VtEventView::Other => None,
    }
}

/// What is kept of events, piece by piece.
pub open spec fn kept_pieces(events: Seq<VtEventView>, keep_sgr: bool) -> Seq<Seq<u8>>
    decreases events.len(),
{
    if events.len() == 0 {
        Seq::empty()
    } else {
        let front = kept_pieces(events.drop_last(), keep_sgr);
        match kept_bytes(events.last(), keep_sgr) {
            Some(b) => front.push(b),
            None => front,
        }
    }
}

/// The values of a sequence of pieces.
pub open spec fn pieces_view(pieces: Seq<Vec<u8>>) -> Seq<Seq<u8>> {
    pieces.map_values(|p: Vec<u8>| p@)
}

/// Keeps the bytes of an event that are wanted.
pub fn strip_event(event: VtEvent, keep_sgr: bool) -> (r: Option<Vec<u8>>)
    ensures
        match r {
            Some(b) => kept_bytes(event@, keep_sgr) == Some(b@),
            None => kept_bytes(event@, keep_sgr) is None,
        },
{
    match event {
        VtEvent::Text(b) => Some(b),
        VtEvent::Control(b) => Some(b),
        VtEvent::Csi(last, b) => {
            if keep_sgr && last == 0x6d {
                Some(b)
            } else {
                None
            }
        },
        VtEvent::Other => None,
    }
}

/// Keeps the bytes of events that are wanted, piece by piece.
pub fn strip_events(events: Vec<VtEvent>, keep_sgr: bool) -> (r: Vec<Vec<u8>>)
    ensures
        pieces_view(r@) == kept_pieces(events_view(events@), keep_sgr),
{
    let ghost all = events_view(events@);
    let n: usize = events.len();
    let mut source = events;
    let mut out: Vec<Vec<u8>> = Vec::new();
    let mut i: usize = 0;
    proof {
        assert(all.take(0) =~= Seq::empty());
        assert(pieces_view(out@) =~= Seq::empty());
    }
    while i < n
        invariant
            i <= n == all.len(),
            source@.len() == n,
            forall|j: int| i <= j < n ==> (#[trigger] source@[j])@ == all[j],
            pieces_view(out@) == kept_pieces(all.take(i as int), keep_sgr),
        decreases n - i,
    {
        let ghost had = out@;
        let mut event = VtEvent::Other;
        std::mem::swap(&mut source[i], &mut event);
        proof {
            assert(all.take(i + 1).drop_last() =~= all.take(i as int));
            assert(all.take(i + 1).last() == event@);
        }
        if let Some(bytes) = strip_event(event, keep_sgr) {
            out.push(bytes);
            proof {
                assert(pieces_view(out@) =~= pieces_view(had).push(bytes@));
            }
        }
        i += 1;
    }
    proof {
        assert(all.take(n as int) =~= all);
    }
    out
}

/// What to do with terminal escape sequences.
#[derive(Clone, Copy, PartialEq, Eq, Structural, Debug)]
pub enum Ansi {
    /// Keep them.
    Keep,
    /// Remove them.
    StripAll,
    /// Drop motion/erase/OSC. Keep SGR (colour/attribute) sequences.
    StripNonAttribute,
}

/// Strips ANSI escapes. C0 controls pass through for line structure.
/// [`Ansi::StripNonAttribute`] keeps SGR (`m`) sequences.
pub struct AnsiFilter {
    parser: VTPushParser,
    keep_sgr: bool,
}

/// The mathematical value of an [`AnsiFilter`].
pub struct AnsiState {
    /// The pieces that it was fed.
    pub fed: Seq<Seq<u8>>,
    /// Whether sequences that set attributes are kept.
    pub keep_sgr: bool,
}

impl AnsiFilter {
    /// The mathematical value of the filter.
    pub closed spec fn state(&self) -> AnsiState {
        AnsiState { fed: vt_fed(&self.parser), keep_sgr: self.keep_sgr }
    }

    /// A filter at the start of a stream.
    pub fn new(mode: Ansi) -> (r: Self)
        ensures
            r.state() == (AnsiState {
                fed: Seq::empty(),
                keep_sgr: mode == Ansi::StripNonAttribute,
            }),
    {
        AnsiFilter { parser: new_parser(), keep_sgr: matches!(mode, Ansi::StripNonAttribute) }
    }

    /// Filters a piece of a stream.
    pub fn push(&mut self, bytes: &[u8]) -> (r: Vec<Vec<u8>>)
        ensures
            final(self).state() == (AnsiState {
                fed: old(self).state().fed.push(bytes@),
                ..old(self).state()
            }),
            pieces_view(r@) == kept_pieces(
                vt_events(old(self).state().fed, bytes@),
                old(self).state().keep_sgr,
            ),
    {
        let events = feed_parser(&mut self.parser, bytes);
        strip_events(events, self.keep_sgr)
    }

    /// Ends a stream.
    pub fn flush(&mut self) -> (r: Vec<Vec<u8>>)
        ensures
            final(self).state() == (AnsiState { fed: Seq::empty(), ..old(self).state() }),
            pieces_view(r@) == kept_pieces(
                vt_last_events(old(self).state().fed),
                old(self).state().keep_sgr,
            ),
    {
        let events = finish_parser(&mut self.parser);
        strip_events(events, self.keep_sgr)
    }
}

} // verus!
