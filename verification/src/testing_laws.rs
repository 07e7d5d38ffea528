//! Which tests are run, and in what order.
use crate::testing::{
    comes_before, has_suffix, holds, in_order, is_asked_for, test_name, with_test, TestCase,
};
use crate::util::text::has_prefix;
use vstd::prelude::*;

verus! {

/// A text holds each of its parts, and nothing else.
pub proof fn law_texts_hold_their_parts(
    text: Seq<char>,
    before: Seq<char>,
    part: Seq<char>,
    behind: Seq<char>,
)
    ensures
        holds(before + part + behind, part),
        holds(text, part) ==> exists|a: Seq<char>, b: Seq<char>| text == #[trigger] (a + part + b),
    decreases text.len() + before.len(),
{
    let whole = before + part + behind;
    if before.len() == 0 {
        assert(whole.take(part.len() as int) =~= part);
        assert(has_prefix(whole, part));
    } else {
        law_texts_hold_their_parts(Seq::empty(), before.skip(1), part, behind);
        assert(whole.skip(1) =~= before.skip(1) + part + behind);
    }
    if holds(text, part) {
        if has_prefix(text, part) {
            let none = Seq::<char>::empty();
            assert(text =~= none + part + text.skip(part.len() as int));
        } else {
            law_texts_hold_their_parts(text.skip(1), Seq::empty(), part, behind);
            let rest = text.skip(1);
            let (a, b) = choose|a: Seq<char>, b: Seq<char>| rest == #[trigger] (a + part + b);
            let longer = seq![text[0]] + a;
            assert(text =~= seq![text[0]] + rest);
            assert(seq![text[0]] + (a + part + b) =~= longer + part + b);
        }
    }
}

/// A file is a test that is asked for where its name ends in `.cli` and its
/// directory, a slash and its name hold the pattern, if there is one.
pub proof fn law_tests_are_selected_by_name(
    dir: Seq<char>,
    stem: Seq<char>,
    file: Seq<char>,
    pattern: Seq<char>,
)
    ensures
        test_name(dir, file) == dir + seq!['/'] + file,
        is_asked_for(dir, stem + seq!['.', 'c', 'l', 'i'], None),
        is_asked_for(dir, stem + seq!['.', 'c', 'l', 'i'], Some(pattern)) <==> holds(
            dir + seq!['/'] + stem + seq!['.', 'c', 'l', 'i'],
            pattern,
        ),
        is_asked_for(dir, file, Some(pattern)) ==> is_asked_for(dir, file, None),
        is_asked_for(dir, file, None) ==> file.len() >= 4 && file == file.take(file.len() - 4)
            + seq!['.', 'c', 'l', 'i'],
{
    reveal_strlit("/");
    reveal_strlit(".cli");
    let end = seq!['.', 'c', 'l', 'i'];
    assert("/"@ =~= seq!['/']);
    assert(".cli"@ =~= end);
    let named = stem + end;
    assert(named.skip(named.len() - 4) =~= end);
    assert(dir + seq!['/'] + named =~= dir + seq!['/'] + stem + end);
    if has_suffix(file, end) {
        assert(file =~= file.take(file.len() - 4) + file.skip(file.len() - 4));
    }
}

/// Texts are ordered by the first character in which they differ, and a text
/// comes before any that it begins.
pub proof fn law_first_difference_decides(
    start: Seq<char>,
    a: char,
    b: char,
    x: Seq<char>,
    y: Seq<char>,
)
    ensures
        a < b ==> comes_before(start + seq![a] + x, start + seq![b] + y),
        a > b ==> !comes_before(start + seq![a] + x, start + seq![b] + y),
        comes_before(start, start + seq![a] + x),
        !comes_before(start + x, start),
    decreases start.len(),
{
    let first = start + seq![a] + x;
    let second = start + seq![b] + y;
    if start.len() > 0 {
        let rest = start.skip(1);
        law_first_difference_decides(rest, a, b, x, y);
        assert(first.skip(1) =~= rest + seq![a] + x);
        assert(second.skip(1) =~= rest + seq![b] + y);
        assert((start + x).skip(1) =~= rest + x);
        assert(first[0] == start[0] && second[0] == start[0]);
    } else {
        assert(first[0] == a && second[0] == b);
    }
}

/// Tests of the same name stay in the order in which they were found, and
/// tests that are in order already stay as they are.
pub proof fn law_ordered_tests_stay(tests: Seq<TestCase>)
    requires
        forall|i: int|
            0 < i < tests.len() ==> !comes_before((#[trigger] tests[i]).name@, tests[i - 1].name@),
    ensures
        in_order(tests) == tests,
    decreases tests.len(),
{
    if tests.len() > 0 {
        let front = tests.drop_last();
        assert forall|i: int| 0 < i < front.len() implies !comes_before(
            (#[trigger] front[i]).name@,
            front[i - 1].name@,
        ) by {
            assert(front[i] == tests[i]);
        }
        law_ordered_tests_stay(front);
        let n = tests.len() - 1;
        if n > 0 {
            assert(!comes_before(tests[n].name@, tests[n - 1].name@));
            assert(front.last() == tests[n - 1]);
        }
        assert(with_test(front, tests.last()) =~= tests);
    }
}

} // verus!
