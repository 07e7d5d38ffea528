//! How much of a text is kept that is shortened, and what is shown of it.
use crate::term::{
    display_width, escapes_shown, fitting_ends, graphemes, put_together, rule_string, too_wide,
};
use vstd::prelude::*;

verus! {

/// Whether the first `i` and the last `j` clusters of a text are kept of it:
/// clusters are taken from the front and the back in turn, beginning with the
/// front, until all are taken or the next one does not fit.
pub open spec fn is_longest(
    clusters: Seq<Seq<char>>,
    max_width: int,
    i: int,
    j: int,
    start: Seq<char>,
    end: Seq<char>,
) -> bool {
    let n = clusters.len();
    let dots = display_width("…"@);
    &&& 0 <= j <= i <= j + 1
    &&& i + j <= n
    &&& start == put_together(clusters.take(i))
    &&& end == put_together(clusters.skip(n - j))
    &&& i + j < n ==> if i == j {
        display_width(start + clusters[i]) + dots + display_width(end) > max_width
    } else {
        display_width(start) + dots + display_width(clusters[n - j - 1] + end) > max_width
    }
}

/// A text that is too wide keeps as many clusters as fit beside the ellipsis,
/// from its front and its back in turn; one that is not is kept whole.
pub proof fn law_as_much_is_kept_as_fits(message: Seq<char>, max_width: int)
    ensures
        display_width(message) <= max_width ==> rule_string(message, max_width) == message,
        display_width(message) > max_width ==> exists|
            i: int,
            j: int,
            start: Seq<char>,
            end: Seq<char>,
        | #[trigger]
            is_longest(graphemes(message), max_width, i, j, start, end) && rule_string(
                message,
                max_width,
            ) == start + "…"@ + end,
{
    let clusters = graphemes(message);
    let none = Seq::<char>::empty();
    let (start, end) = fitting_ends(clusters, none, none, max_width);
    assert(clusters.subrange(0, clusters.len() as int) =~= clusters);
    assert(clusters.take(0) =~= Seq::empty());
    assert(clusters.skip(clusters.len() as int) =~= Seq::empty());
    assert(put_together(clusters.take(0)) =~= none);
    assert(put_together(clusters.skip(clusters.len() as int)) =~= none);
    let (i, j) = lemma_longest(clusters, 0, none, none, max_width);
    assert(is_longest(clusters, max_width, i, j, start, end));
}

proof fn lemma_longest(
    clusters: Seq<Seq<char>>,
    k: int,
    start: Seq<char>,
    end: Seq<char>,
    max_width: int,
) -> (r: (int, int))
    requires
        0 <= k,
        2 * k <= clusters.len(),
        start == put_together(clusters.take(k)),
        end == put_together(clusters.skip(clusters.len() - k)),
    ensures
        ({
            let (s, e) = fitting_ends(
                clusters.subrange(k, clusters.len() - k),
                start,
                end,
                max_width,
            );
            is_longest(clusters, max_width, r.0, r.1, s, e)
        }),
    decreases clusters.len() - 2 * k,
{
    let n = clusters.len();
    let left = clusters.subrange(k, n - k);
    if left.len() == 0 {
        (k, k)
    } else {
        let longer = start + left[0];
        let rest = left.skip(1);
        assert(clusters.take(k + 1).drop_last() =~= clusters.take(k));
        assert(clusters.take(k + 1).last() == left[0]);
        assert(longer == put_together(clusters.take(k + 1)));
        if too_wide(longer, end, max_width) {
            (k, k)
        } else if rest.len() == 0 {
            (k + 1, k)
        } else {
            let back = clusters.skip(n - k - 1);
            assert(rest.last() == clusters[n - k - 1]);
            lemma_front(back);
            assert(back.skip(1) =~= clusters.skip(n - k));
            assert(rest.last() + end == put_together(back));
            if too_wide(longer, rest.last() + end, max_width) {
                (k + 1, k)
            } else {
                assert(rest.drop_last() =~= clusters.subrange(k + 1, n - (k + 1)));
                lemma_longest(clusters, k + 1, longer, rest.last() + end, max_width)
            }
        }
    }
}

proof fn lemma_front(parts: Seq<Seq<char>>)
    requires
        parts.len() > 0,
    ensures
        put_together(parts) == parts[0] + put_together(parts.skip(1)),
    decreases parts.len(),
{
    let none = Seq::<char>::empty();
    if parts.len() == 1 {
        assert(parts.drop_last() =~= Seq::empty());
        assert(parts.skip(1) =~= Seq::empty());
        assert(none + parts[0] =~= parts[0] + none);
    } else {
        lemma_front(parts.drop_last());
        assert(parts.drop_last().skip(1) =~= parts.skip(1).drop_last());
        assert(parts.skip(1).last() == parts.last());
        let middle = put_together(parts.skip(1).drop_last());
        assert(parts[0] + middle + parts.last() =~= parts[0] + (middle + parts.last()));
    }
}

/// No escape character is shown, each is shown as its symbol, and every other
/// character as it is.
pub proof fn law_escapes_are_not_shown(text: Seq<char>, i: int)
    requires
        0 <= i < text.len(),
    ensures
        escapes_shown(text).len() == text.len(),
        escapes_shown(text)[i] != '\x1b',
        text[i] == '\x1b' ==> escapes_shown(text)[i] == '␛',
        text[i] != '\x1b' ==> escapes_shown(text)[i] == text[i],
{
}

} // verus!
