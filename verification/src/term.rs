//! Text for the terminal.
use crate::util::text::{chars_of, push_str, strings_view, push_char};
use vstd::prelude::*;

verus! {

/// The number of columns that `unicode_width` counts for a text.
pub uninterp spec fn display_width(text: Seq<char>) -> nat;

/// `UnicodeWidthStr::width` counts the columns that a text takes up.
#[verifier::external_body]
fn width_of(text: &str) -> (r: usize)
    ensures
        r == display_width(text@),
{
    unicode_width::UnicodeWidthStr::width(text)
}

/// The extended grapheme clusters that `unicode_segmentation` splits a text
/// into.
pub uninterp spec fn graphemes(text: Seq<char>) -> Seq<Seq<char>>;

/// Texts put together.
pub open spec fn put_together(parts: Seq<Seq<char>>) -> Seq<char>
    decreases parts.len(),
{
    if parts.len() == 0 {
        Seq::empty()
    } else {
        put_together(parts.drop_last()) + parts.last()
    }
}

/// `UnicodeSegmentation::graphemes` splits a text into its extended grapheme
/// clusters; put together, they are the text.
#[verifier::external_body]
fn split_graphemes(text: &str) -> (r: Vec<String>)
    ensures
        strings_view(r@) == graphemes(text@),
        put_together(strings_view(r@)) == text@,
{
    unicode_segmentation::UnicodeSegmentation::graphemes(text, true).map(|g| g.to_string()).collect()
}

/// Estimate the width of the terminal, given the number of its columns. Falls
/// back to 79 if the width cannot be determined.
pub fn term_width(columns: Option<u16>) -> (r: usize)
    requires
        columns matches Some(n) ==> n > 0,
    ensures
        r == match columns {
            Some(n) => n - 1,
            None => 79,
        },
{
    match columns {
        Some(n) => (n - 1) as usize,
        None => 79,
    }
}

/// What stands for the part of a text that was left out.
pub open spec fn ellipsis() -> Seq<char> {
    "…"@
}

/// Whether the two ends of a text, with the ellipsis between them, are too
/// wide.
pub open spec fn too_wide(start: Seq<char>, end: Seq<char>, max_width: int) -> bool {
    display_width(start) + display_width(end) + display_width(ellipsis()) > max_width
}

/// The two ends of a text that fit, taken cluster by cluster from the front
/// and the back in turn.
pub open spec fn fitting_ends(
    clusters: Seq<Seq<char>>,
    start: Seq<char>,
    end: Seq<char>,
    max_width: int,
) -> (Seq<char>, Seq<char>)
    decreases clusters.len(),
{
    if clusters.len() == 0 {
        (start, end)
    } else {
        let longer = start + clusters[0];
        let rest = clusters.skip(1);
        if too_wide(longer, end, max_width) {
            (start, end)
        } else if rest.len() == 0 {
            (longer, end)
        } else if too_wide(longer, rest.last() + end, max_width) {
            (longer, end)
        } else {
            fitting_ends(rest.drop_last(), longer, rest.last() + end, max_width)
        }
    }
}

/// The ends of a text, split into clusters, that fit, with an ellipsis
/// between them.
pub open spec fn shortened(clusters: Seq<Seq<char>>, max_width: int) -> Seq<char> {
    let (start, end) = fitting_ends(clusters, Seq::empty(), Seq::empty(), max_width);
    start + ellipsis() + end
}

/// A text, shortened in the middle if it is too wide.
pub open spec fn rule_string(message: Seq<char>, max_width: int) -> Seq<char> {
    if display_width(message) <= max_width {
        message
    } else {
        shortened(graphemes(message), max_width)
    }
}

fn is_too_wide(start: &str, end: &str, max_width: usize) -> (r: bool)
    ensures
        r == too_wide(start@, end@, max_width as int),
{
    let sum: u128 = width_of(start) as u128 + width_of(end) as u128 + width_of("…") as u128;
    sum > max_width as u128
}

/// The ends of a text, split into clusters, that fit, with an ellipsis
/// between them.
pub fn shorten(clusters: &Vec<String>, max_width: usize) -> (r: String)
    ensures
        r@ == shortened(strings_view(clusters@), max_width as int),
{
    let ghost all = strings_view(clusters@);
    let ghost goal = fitting_ends(all, Seq::empty(), Seq::empty(), max_width as int);
    let mut start = String::new();
    let mut end = String::new();
    let mut i: usize = 0;
    let mut j: usize = clusters.len();
    proof {
        assert(start@ =~= Seq::empty());
        assert(end@ =~= Seq::empty());
        assert(all.subrange(0, j as int) =~= all);
    }
    loop
        invariant_except_break
            i <= j <= clusters@.len(),
            all == strings_view(clusters@),
            goal == fitting_ends(
                all.subrange(i as int, j as int),
                start@,
                end@,
                max_width as int,
            ),
        ensures
            goal == (start@, end@),
        decreases j - i,
    {
        let ghost left = all.subrange(i as int, j as int);
        if i == j {
            break ;
        }
        let mut longer: String = start.clone();
        push_str(&mut longer, clusters[i].as_str());
        proof {
            assert(left[0] == clusters@[i as int]@);
            assert(left.skip(1) =~= all.subrange(i + 1, j as int));
        }
        if is_too_wide(longer.as_str(), end.as_str(), max_width) {
            break ;
        }
        start = longer;
        i += 1;
        if i == j {
            break ;
        }
        let mut further: String = clusters[j - 1].clone();
        push_str(&mut further, end.as_str());
        proof {
            assert(left.skip(1).last() == clusters@[j - 1]@);
            assert(left.skip(1).drop_last() =~= all.subrange(i as int, j - 1));
        }
        if is_too_wide(start.as_str(), further.as_str(), max_width) {
            break ;
        }
        end = further;
        j -= 1;
    }
    let mut out = start;
    push_str(&mut out, "…");
    push_str(&mut out, end.as_str());
    out
}

/// A message, shortened in the middle if it is too wide.
pub fn compute_rule_string(message: &str, max_width: usize) -> (r: String)
    ensures
        r@ == rule_string(message@, max_width as int),
{
    if width_of(message) <= max_width {
        message.to_owned()
    } else {
        let clusters = split_graphemes(message);
        shorten(&clusters, max_width)
    }
}

proof fn lemma_put_together_front(parts: Seq<Seq<char>>)
    requires
        parts.len() > 0,
    ensures
        put_together(parts) == parts[0] + put_together(parts.skip(1)),
    decreases parts.len(),
{
    if parts.len() == 1 {
        assert(parts.drop_last() =~= Seq::empty());
        assert(parts.skip(1) =~= Seq::empty());
        assert(put_together(parts.drop_last()) =~= Seq::empty());
        assert(put_together(parts.skip(1)) =~= Seq::empty());
        assert(Seq::<char>::empty() + parts[0] =~= parts[0] + Seq::<char>::empty());
    } else {
        lemma_put_together_front(parts.drop_last());
        assert(parts.drop_last().skip(1) =~= parts.skip(1).drop_last());
        assert(parts.skip(1).last() == parts.last());
        assert(parts[0] + put_together(parts.skip(1).drop_last()) + parts.last() =~= parts[0] + (
        put_together(parts.skip(1).drop_last()) + parts.last()));
    }
}

proof fn lemma_fitting_ends(
    clusters: Seq<Seq<char>>,
    start: Seq<char>,
    end: Seq<char>,
    max_width: int,
) -> (middle: Seq<char>)
    ensures
        ({
            let (s, e) = fitting_ends(clusters, start, end, max_width);
            start + put_together(clusters) + end == s + middle + e
        }),
    decreases clusters.len(),
{
    if clusters.len() == 0 {
        put_together(clusters)
    } else {
        let longer = start + clusters[0];
        let rest = clusters.skip(1);
        lemma_put_together_front(clusters);
        if too_wide(longer, end, max_width) {
            put_together(clusters)
        } else if rest.len() == 0 || too_wide(longer, rest.last() + end, max_width) {
            assert(start + (clusters[0] + put_together(rest)) + end =~= longer + put_together(rest)
                + end);
            put_together(rest)
        } else {
            let inner = put_together(rest.drop_last());
            assert(start + (clusters[0] + (inner + rest.last())) + end =~= longer + inner + (
            rest.last() + end));
            lemma_fitting_ends(rest.drop_last(), longer, rest.last() + end, max_width)
        }
    }
}

/// Shortening leaves out one part of the middle of a text, and keeps the rest
/// as it was on both sides of the ellipsis.
pub proof fn law_shortened_keeps_both_ends(clusters: Seq<Seq<char>>, max_width: int)
    ensures
        exists|start: Seq<char>, middle: Seq<char>, end: Seq<char>|
            put_together(clusters) == #[trigger] (start + middle + end) && shortened(
                clusters,
                max_width,
            ) == start + ellipsis() + end,
{
    let (start, end) = fitting_ends(clusters, Seq::empty(), Seq::empty(), max_width);
    let middle = lemma_fitting_ends(clusters, Seq::empty(), Seq::empty(), max_width);
    assert(Seq::<char>::empty() + put_together(clusters) + Seq::<char>::empty() =~= put_together(
        clusters,
    ));
    assert(put_together(clusters) == start + middle + end);
}

/// The two ends that are kept, with the ellipsis between them, are not too
/// wide, unless the ellipsis by itself is.
pub proof fn law_shortened_ends_fit(
    clusters: Seq<Seq<char>>,
    start: Seq<char>,
    end: Seq<char>,
    max_width: int,
)
    requires
        !too_wide(start, end, max_width),
    ensures
        ({
            let (s, e) = fitting_ends(clusters, start, end, max_width);
            !too_wide(s, e, max_width)
        }),
    decreases clusters.len(),
{
    if clusters.len() > 0 {
        let longer = start + clusters[0];
        let rest = clusters.skip(1);
        if !too_wide(longer, end, max_width) && rest.len() > 0 && !too_wide(
            longer,
            rest.last() + end,
            max_width,
        ) {
            law_shortened_ends_fit(rest.drop_last(), longer, rest.last() + end, max_width);
        }
    }
}

/// The columns of a rule that hold neither its dashes nor its message: the
/// brackets, the dashes behind them and the last column.
pub const RULE_FRAME: usize = 9;

/// The columns that a rule on a terminal of some width has for its message,
/// if it has any.
pub fn rule_room(width: usize) -> (r: Option<usize>)
    ensures
        r == if width > RULE_FRAME {
            Some((width - RULE_FRAME) as usize)
        } else {
            None
        },
{
    if width > RULE_FRAME {
        Some(width - RULE_FRAME)
    } else {
        None
    }
}

/// The number of dashes before a message that has this many columns for it,
/// if it fits.
pub fn rule_dashes(room: usize, message: &str) -> (r: Option<usize>)
    ensures
        r == if display_width(message@) <= room {
            Some((room - display_width(message@)) as usize)
        } else {
            None
        },
{
    let width: usize = width_of(message);
    if width <= room {
        Some(room - width)
    } else {
        None
    }
}

/// A text with each escape character shown as its symbol.
pub open spec fn escapes_shown(text: Seq<char>) -> Seq<char> {
    text.map_values(
        |c: char|
            if c == '\x1b' {
                '\u{241b}'
            } else {
                c
            },
    )
}

/// Shows each escape character of a text as its symbol, so that it does not
/// reach the terminal.
pub fn show_escapes(text: &str) -> (r: String)
    ensures
        r@ == escapes_shown(text@),
{
    let chars = chars_of(text);
    let mut out = String::new();
    let mut i: usize = 0;
    while i < chars.len()
        invariant
            i <= chars@.len(),
            chars@ == text@,
            out@.len() == i,
            forall|j: int| 0 <= j < i ==> #[trigger] out@[j] == escapes_shown(text@)[j],
        decreases chars@.len() - i,
    {
        if chars[i] == '\x1b' {
            push_char(&mut out, '\u{241b}');
        } else {
            push_char(&mut out, chars[i]);
        }
        i += 1;
    }
    proof {
        assert(out@ =~= escapes_shown(text@));
    }
    out
}

} // verus!
