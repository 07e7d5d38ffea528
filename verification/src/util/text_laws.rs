//! What the operations on text promise.
use crate::util::text::{
    has_prefix, lemma_newline_index_at, lines_of, on_lines, trimmed, trimmed_end,
    trimmed_start, white, white_index, without_cr,
};
use vstd::prelude::*;

verus! {

/// Whether a text is nothing but white space.
pub open spec fn is_blank(s: Seq<char>) -> bool {
    forall|i: int| 0 <= i < s.len() ==> white(#[trigger] s[i])
}

/// Whether a text neither begins nor ends in white space.
pub open spec fn is_trim(s: Seq<char>) -> bool {
    s.len() > 0 ==> !white(s[0]) && !white(s.last())
}

/// Trimming the end takes away the white space there, all of it and nothing
/// else.
pub proof fn law_trim_end(core: Seq<char>, blank: Seq<char>)
    requires
        is_blank(blank),
        core.len() > 0 ==> !white(core.last()),
    ensures
        trimmed_end(core + blank) == core,
    decreases blank.len(),
{
    let s = core + blank;
    if blank.len() == 0 {
        assert(s =~= core);
    } else {
        assert(white(blank[blank.len() - 1]));
        assert(s.last() == blank.last());
        assert(s.drop_last() =~= core + blank.drop_last());
        law_trim_end(core, blank.drop_last());
    }
}

/// Trimming the start takes away the white space there, all of it and nothing
/// else.
pub proof fn law_trim_start(blank: Seq<char>, core: Seq<char>)
    requires
        is_blank(blank),
        core.len() > 0 ==> !white(core[0]),
    ensures
        trimmed_start(blank + core) == core,
    decreases blank.len(),
{
    let s = blank + core;
    if blank.len() == 0 {
        assert(s =~= core);
    } else {
        assert(white(blank[0]));
        assert(s[0] == blank[0]);
        let rest = blank.skip(1);
        assert(s.skip(1) =~= rest + core);
        assert forall|i: int| 0 <= i < rest.len() implies white(#[trigger] rest[i]) by {
            assert(rest[i] == blank[i + 1]);
        }
        law_trim_start(rest, core);
    }
}

/// Trimming takes away the white space at both ends, all of it and nothing
/// else.
pub proof fn law_trim(before: Seq<char>, core: Seq<char>, behind: Seq<char>)
    requires
        is_blank(before),
        is_blank(behind),
        is_trim(core),
    ensures
        trimmed(before + core + behind) == core,
{
    if core.len() > 0 {
        assert(before + core + behind =~= before + (core + behind));
        law_trim_start(before, core + behind);
        law_trim_end(core, behind);
    } else {
        let all = before + core + behind;
        assert forall|i: int| 0 <= i < all.len() implies white(#[trigger] all[i]) by {
            if i < before.len() {
                assert(all[i] == before[i]);
            } else {
                assert(all[i] == behind[i - before.len()]);
            }
        }
        let none = Seq::<char>::empty();
        law_trim_start(all, none);
        assert(all + none =~= all);
        assert(core =~= none);
    }
}

/// A text begins with another exactly where it is that one and more.
pub proof fn law_prefixes(prefix: Seq<char>, s: Seq<char>)
    ensures
        has_prefix(s, prefix) <==> exists|rest: Seq<char>| s == #[trigger] (prefix + rest),
{
    if has_prefix(s, prefix) {
        assert(s =~= prefix + s.skip(prefix.len() as int));
    }
    if exists|rest: Seq<char>| s == #[trigger] (prefix + rest) {
        let rest = choose|rest: Seq<char>| s == #[trigger] (prefix + rest);
        assert(s.take(prefix.len() as int) =~= prefix);
    }
}

/// A text is cut at its first white space.
pub proof fn law_first_white(word: Seq<char>, c: char, rest: Seq<char>)
    requires
        forall|i: int| 0 <= i < word.len() ==> !white(#[trigger] word[i]),
        white(c),
    ensures
        white_index(word) == word.len(),
        white_index(word + seq![c] + rest) == word.len(),
    decreases word.len(),
{
    let s = word + seq![c] + rest;
    if word.len() > 0 {
        let tail = word.skip(1);
        assert(!white(word[0]));
        assert(s[0] == word[0]);
        assert(s.skip(1) =~= tail + seq![c] + rest);
        assert forall|i: int| 0 <= i < tail.len() implies !white(#[trigger] tail[i]) by {
            assert(tail[i] == word[i + 1]);
        }
        law_first_white(tail, c, rest);
    } else {
        assert(s[0] == c);
    }
}

/// How a line ends.
pub enum Ending {
    /// With a line feed.
    Lf,
    /// With a carriage return and a line feed.
    CrLf,
}

/// Lines with their endings, put together.
pub open spec fn with_endings(lines: Seq<(Seq<char>, Ending)>) -> Seq<char>
    decreases lines.len(),
{
    if lines.len() == 0 {
        Seq::empty()
    } else {
        lines[0].0 + (match lines[0].1 {
            Ending::Lf => seq!['\n'],
            Ending::CrLf => seq!['\r', '\n'],
        }) + with_endings(lines.skip(1))
    }
}

/// A text is split into its lines: each without its line feed, or its carriage
/// return and line feed, in order, and the last also where it has no ending.
pub proof fn law_lines_are_split(lines: Seq<(Seq<char>, Ending)>, last: Seq<char>)
    requires
        forall|i: int|
            0 <= i < lines.len() ==> !(#[trigger] lines[i]).0.contains('\n') && (lines[i].1 is Lf
                && lines[i].0.len() > 0 ==> lines[i].0.last() != '\r'),
        !last.contains('\n'),
    ensures
        lines_of(with_endings(lines) + last) == lines.map_values(
            |l: (Seq<char>, Ending)| l.0,
        ) + if last.len() > 0 {
            seq![last]
        } else {
            Seq::empty()
        },
    decreases lines.len(),
{
    let texts = lines.map_values(|l: (Seq<char>, Ending)| l.0);
    let tail = if last.len() > 0 {
        seq![last]
    } else {
        Seq::empty()
    };
    let s = with_endings(lines) + last;
    if lines.len() == 0 {
        assert(s =~= last);
        assert forall|i: int| 0 <= i < s.len() implies s[i] != '\n' by {
            assert(last.contains(last[i]));
        }
        lemma_newline_index_at(s, s.len() as int);
        assert(texts + tail =~= tail);
    } else {
        let rest = lines.skip(1);
        assert forall|i: int| 0 <= i < rest.len() implies !(#[trigger] rest[i]).0.contains('\n') && (
        rest[i].1 is Lf && rest[i].0.len() > 0 ==> rest[i].0.last() != '\r') by {
            assert(rest[i] == lines[i + 1]);
        }
        law_lines_are_split(rest, last);
        let text = lines[0].0;
        assert(!text.contains('\n'));
        let body = match lines[0].1 {
            Ending::Lf => text,
            Ending::CrLf => text.push('\r'),
        };
        let behind = with_endings(rest) + last;
        assert(s =~= body + seq!['\n'] + behind);
        assert forall|i: int| 0 <= i < body.len() implies s[i] != '\n' by {
            if i < text.len() {
                assert(text.contains(text[i]));
            }
        }
        assert(s[body.len() as int] == '\n');
        lemma_newline_index_at(s, body.len() as int);
        assert(s.take(body.len() as int) =~= body);
        assert(s.skip(body.len() as int + 1) =~= behind);
        assert(without_cr(body) =~= text);
        let more = rest.map_values(|l: (Seq<char>, Ending)| l.0);
        assert(texts =~= seq![text] + more);
        assert(seq![text] + (more + tail) =~= texts + tail);
    }
}

/// Lines that are put on lines of their own are split into the same lines.
pub proof fn law_joined_lines_are_split(lines: Seq<Seq<char>>)
    requires
        lines.len() > 0,
        forall|i: int|
            0 <= i < lines.len() ==> !(#[trigger] lines[i]).contains('\n') && (lines[i].len() > 0
                ==> lines[i].last() != '\r'),
        lines.last().len() > 0,
    ensures
        lines_of(on_lines(lines)) == lines,
{
    let front = lines.drop_last();
    let ended = front.map_values(|l: Seq<char>| (l, Ending::Lf));
    assert forall|i: int| 0 <= i < ended.len() implies !(#[trigger] ended[i]).0.contains('\n') && (
    ended[i].1 is Lf && ended[i].0.len() > 0 ==> ended[i].0.last() != '\r') by {
        assert(ended[i].0 == lines[i]);
    }
    assert(lines[lines.len() - 1] == lines.last());
    law_lines_are_split(ended, lines.last());
    lemma_on_lines(lines);
    let texts = ended.map_values(|l: (Seq<char>, Ending)| l.0);
    assert(texts =~= front);
    assert(front + seq![lines.last()] =~= lines);
}

proof fn lemma_with_endings_push(lines: Seq<(Seq<char>, Ending)>, text: Seq<char>)
    ensures
        with_endings(lines.push((text, Ending::Lf))) == with_endings(lines) + text + seq!['\n'],
    decreases lines.len(),
{
    let all = lines.push((text, Ending::Lf));
    if lines.len() == 0 {
        assert(all.skip(1) =~= Seq::empty());
        assert(with_endings(all.skip(1)) =~= Seq::empty());
        assert(with_endings(all) =~= with_endings(lines) + text + seq!['\n']);
    } else {
        assert(all.skip(1) =~= lines.skip(1).push((text, Ending::Lf)));
        lemma_with_endings_push(lines.skip(1), text);
        assert(all[0] == lines[0]);
        assert(with_endings(all) =~= with_endings(lines) + text + seq!['\n']);
    }
}

proof fn lemma_on_lines(lines: Seq<Seq<char>>)
    requires
        lines.len() > 0,
    ensures
        on_lines(lines) == with_endings(
            lines.drop_last().map_values(|l: Seq<char>| (l, Ending::Lf)),
        ) + lines.last(),
    decreases lines.len(),
{
    let front = lines.drop_last();
    let ended = front.map_values(|l: Seq<char>| (l, Ending::Lf));
    if lines.len() == 1 {
        assert(ended =~= Seq::empty());
        assert(with_endings(ended) + lines.last() =~= lines.last());
    } else {
        lemma_on_lines(front);
        let before = front.drop_last().map_values(|l: Seq<char>| (l, Ending::Lf));
        assert(ended =~= before.push((front.last(), Ending::Lf)));
        lemma_with_endings_push(before, front.last());
        reveal_strlit("\n");
        assert("\n"@ =~= seq!['\n']);
        assert(on_lines(lines) =~= with_endings(ended) + lines.last());
    }
}

/// Texts are put on lines of their own in their order, with a line feed
/// between them and none at the end.
pub proof fn law_texts_are_put_on_lines(texts: Seq<Seq<char>>, text: Seq<char>)
    ensures
        on_lines(Seq::empty()) == Seq::<char>::empty(),
        on_lines(seq![text]) == text,
        texts.len() > 0 ==> on_lines(texts + seq![text]) == on_lines(texts) + seq!['\n'] + text,
{
    reveal_strlit("\n");
    assert("\n"@ =~= seq!['\n']);
    let more = texts + seq![text];
    assert(more.drop_last() =~= texts);
    assert(more.last() == text);
}

} // verus!
