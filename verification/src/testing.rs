//! Collecting the test scripts of a project.
use crate::util::path::NicePathBuf;
use crate::util::text::{chars_of, has_prefix, push_str};
use vstd::prelude::*;

verus! {

/// A test script.
#[derive(Debug)]
pub struct TestCase {
    /// Its directory and file name.
    pub name: String,
    /// Its text.
    pub content: String,
    /// What running it is expected to show.
    pub expected_output: Option<String>,
    /// The file that this is kept in.
    pub expected_output_file: Option<String>,
    /// Where the script is.
    pub path: NicePathBuf,
}

/// Whether a text holds another.
pub open spec fn holds(text: Seq<char>, part: Seq<char>) -> bool
    decreases text.len(),
{
    has_prefix(text, part) || (text.len() > 0 && holds(text.skip(1), part))
}

/// Whether a text ends with another.
pub open spec fn has_suffix(text: Seq<char>, end: Seq<char>) -> bool {
    end.len() <= text.len() && text.skip(text.len() - end.len()) == end
}

/// The name of a test.
pub open spec fn test_name(dir: Seq<char>, file: Seq<char>) -> Seq<char> {
    dir + "/"@ + file
}

/// Whether a file is a test script that is asked for.
pub open spec fn is_asked_for(dir: Seq<char>, file: Seq<char>, pattern: Option<Seq<char>>) -> bool {
    has_suffix(file, ".cli"@) && match pattern {
        Some(p) => holds(test_name(dir, file), p),
        None => true,
    }
}

/// Whether a text holds another.
fn contains(text: &str, part: &str) -> (r: bool)
    ensures
        r == holds(text@, part@),
{
    let chars = chars_of(text);
    let wanted = chars_of(part);
    let n: usize = chars.len();
    let m: usize = wanted.len();
    if m == 0 {
        proof {
            assert(text@.take(0) =~= part@);
        }
        return true;
    }
    let mut i: usize = 0;
    proof {
        assert(chars@.skip(0) =~= chars@);
    }
    while i < n
        invariant
            i <= n == chars@.len(),
            0 < m == wanted@.len(),
            chars@ == text@,
            wanted@ == part@,
            holds(text@, part@) == holds(chars@.skip(i as int), part@),
        decreases n - i,
    {
        let ghost rest = chars@.skip(i as int);
        let mut k: usize = 0;
        while k < m && k < n - i && chars[i + k] == wanted[k]
            invariant
                k <= m == wanted@.len(),
                k <= n - i,
                i <= n == chars@.len(),
                forall|j: int| 0 <= j < k ==> chars@[i + j] == wanted@[j],
            decreases m - k,
        {
            k += 1;
        }
        if k == m {
            proof {
                assert(rest.take(m as int) =~= part@);
            }
            return true;
        }
        proof {
            if has_prefix(rest, part@) {
                assert(rest.take(m as int)[k as int] == rest[k as int]);
                assert(false);
            }
            assert(rest.skip(1) =~= chars@.skip(i + 1));
        }
        i += 1;
    }
    false
}

/// Whether a text ends with another.
fn ends_with(text: &str, end: &str) -> (r: bool)
    ensures
        r == has_suffix(text@, end@),
{
    let a = chars_of(text);
    let b = chars_of(end);
    if b.len() > a.len() {
        return false;
    }
    let n: usize = a.len();
    let start: usize = n - b.len();
    let mut i: usize = 0;
    while i < b.len()
        invariant
            i <= b@.len() <= a@.len(),
            n == a@.len(),
            start == n - b@.len(),
            a@ == text@,
            b@ == end@,
            forall|j: int| 0 <= j < i ==> a@[start + j] == b@[j],
        decreases b@.len() - i,
    {
        if a[start + i] != b[i] {
            proof {
                assert(text@.skip(start as int)[i as int] == a@[start + i]);
            }
            return false;
        }
        i += 1;
    }
    proof {
        assert(text@.skip(start as int) =~= end@);
    }
    true
}

/// The name of the test that a file is, if it is asked for.
pub fn select_test(dir: &str, file: &str, pattern: Option<&str>) -> (r: Option<String>)
    ensures
        ({
            let asked = is_asked_for(
                dir@,
                file@,
                match pattern {
                    Some(p) => Some(p@),
                    None => None,
                },
            );
            match r {
                Some(name) => asked && name@ == test_name(dir@, file@),
                None => !asked,
            }
        }),
{
    if !ends_with(file, ".cli") {
        return None;
    }
    let mut name: String = dir.to_owned();
    push_str(&mut name, "/");
    push_str(&mut name, file);
    if let Some(pattern) = pattern {
        if !contains(name.as_str(), pattern) {
            return None;
        }
    }
    Some(name)
}

/// Whether a text comes before another in the order of their characters.
pub open spec fn comes_before(a: Seq<char>, b: Seq<char>) -> bool
    decreases a.len(),
{
    if b.len() == 0 {
        false
    } else if a.len() == 0 {
        true
    } else if a[0] == b[0] {
        comes_before(a.skip(1), b.skip(1))
    } else {
        a[0] < b[0]
    }
}

fn is_before(a: &str, b: &str) -> (r: bool)
    ensures
        r == comes_before(a@, b@),
{
    let x = chars_of(a);
    let y = chars_of(b);
    let mut i: usize = 0;
    proof {
        assert(x@.skip(0) =~= x@);
        assert(y@.skip(0) =~= y@);
    }
    while i < x.len() && i < y.len()
        invariant
            i <= x@.len(),
            i <= y@.len(),
            x@ == a@,
            y@ == b@,
            comes_before(a@, b@) == comes_before(x@.skip(i as int), y@.skip(i as int)),
        decreases x@.len() - i,
    {
        proof {
            assert(x@.skip(i as int).skip(1) =~= x@.skip(i + 1));
            assert(y@.skip(i as int).skip(1) =~= y@.skip(i + 1));
        }
        if x[i] != y[i] {
            return x[i] < y[i];
        }
        i += 1;
    }
    i < y.len()
}

/// Tests in the order of their names with one more, behind those of the same
/// name.
pub open spec fn with_test(tests: Seq<TestCase>, t: TestCase) -> Seq<TestCase>
    decreases tests.len(),
{
    if tests.len() == 0 || !comes_before(t.name@, tests.last().name@) {
        tests.push(t)
    } else {
        with_test(tests.drop_last(), t).push(tests.last())
    }
}

/// Tests in the order of their names.
pub open spec fn in_order(tests: Seq<TestCase>) -> Seq<TestCase>
    decreases tests.len(),
{
    if tests.len() == 0 {
        tests
    } else {
        with_test(in_order(tests.drop_last()), tests.last())
    }
}

/// Adds a test behind all that do not come after it.
fn insert_test(tests: &mut Vec<TestCase>, t: TestCase)
    ensures
        final(tests)@ == with_test(old(tests)@, t),
{
    let ghost before = tests@;
    let n: usize = tests.len();
    let mut k: usize = n;
    proof {
        assert(before.take(n as int) =~= before);
        assert(with_test(before, t) =~= with_test(before, t) + before.skip(n as int));
    }
    while k > 0 && is_before(t.name.as_str(), tests[k - 1].name.as_str())
        invariant
            k <= n == before.len(),
            tests@ == before,
            with_test(before, t) == with_test(before.take(k as int), t) + before.skip(k as int),
        decreases k,
    {
        proof {
            let front = before.take(k as int);
            assert(front.drop_last() =~= before.take(k - 1));
            assert(front.last() == before[k - 1]);
            let shorter = with_test(before.take(k - 1), t);
            assert(shorter.push(before[k - 1]) + before.skip(k as int) =~= shorter + before.skip(
                k - 1,
            ));
        }
        k -= 1;
    }
    tests.insert(k, t);
    proof {
        assert(with_test(before.take(k as int), t) == before.take(k as int).push(t));
        assert(tests@ =~= before.take(k as int).push(t) + before.skip(k as int));
    }
}

/// Brings tests into the order of their names.
pub fn sort_tests(tests: Vec<TestCase>) -> (r: Vec<TestCase>)
    ensures
        r@ == in_order(tests@),
{
    let ghost all = tests@;
    let mut reversed: Vec<TestCase> = Vec::new();
    let mut source = tests;
    while source.len() > 0
        invariant
            source@.len() + reversed@.len() == all.len(),
            forall|i: int| 0 <= i < source@.len() ==> #[trigger] source@[i] == all[i],
            forall|i: int|
                0 <= i < reversed@.len() ==> #[trigger] reversed@[i] == all[all.len() - 1 - i],
        decreases source@.len(),
    {
        if let Some(t) = source.pop() {
            reversed.push(t);
        }
    }
    let mut out: Vec<TestCase> = Vec::new();
    proof {
        assert(all.take(0) =~= Seq::empty());
        assert(out@ =~= Seq::empty());
    }
    while reversed.len() > 0
        invariant
            reversed@.len() <= all.len(),
            forall|i: int|
                0 <= i < reversed@.len() ==> #[trigger] reversed@[i] == all[all.len() - 1 - i],
            out@ == in_order(all.take(all.len() - reversed@.len())),
        decreases reversed@.len(),
    {
        let ghost k = all.len() - reversed@.len();
        proof {
            assert(all.take(k + 1).drop_last() =~= all.take(k));
            assert(all.take(k + 1).last() == all[k]);
        }
        if let Some(t) = reversed.pop() {
            insert_test(&mut out, t);
        }
    }
    proof {
        assert(all.take(all.len() as int) =~= all);
    }
    out
}

proof fn lemma_before_is_asymmetric(a: Seq<char>, b: Seq<char>)
    requires
        comes_before(a, b),
    ensures
        !comes_before(b, a),
    decreases a.len(),
{
    if a.len() > 0 && b.len() > 0 && a[0] == b[0] {
        lemma_before_is_asymmetric(a.skip(1), b.skip(1));
    }
}

/// Whether no test comes before the one in front of it.
pub open spec fn is_ordered(tests: Seq<TestCase>) -> bool {
    forall|i: int|
        0 < i < tests.len() ==> !comes_before((#[trigger] tests[i]).name@, tests[i - 1].name@)
}

proof fn lemma_with_test(tests: Seq<TestCase>, t: TestCase)
    requires
        is_ordered(tests),
    ensures
        is_ordered(with_test(tests, t)),
        with_test(tests, t).len() == tests.len() + 1,
        with_test(tests, t).last() == t || (tests.len() > 0 && with_test(tests, t).last()
            == tests.last()),
        with_test(tests, t).to_multiset() == tests.to_multiset().insert(t),
    decreases tests.len(),
{
    broadcast use vstd::seq_lib::group_to_multiset_ensures;

    if tests.len() > 0 && comes_before(t.name@, tests.last().name@) {
        let front = tests.drop_last();
        assert forall|i: int| 0 < i < front.len() implies !comes_before(
            (#[trigger] front[i]).name@,
            front[i - 1].name@,
        ) by {
            assert(front[i] == tests[i]);
        }
        lemma_with_test(front, t);
        lemma_before_is_asymmetric(t.name@, tests.last().name@);
        let inner = with_test(front, t);
        let whole = inner.push(tests.last());
        assert forall|i: int| 0 < i < whole.len() implies !comes_before(
            (#[trigger] whole[i]).name@,
            whole[i - 1].name@,
        ) by {
            if i < inner.len() {
                assert(whole[i] == inner[i]);
            } else {
                assert(whole[i - 1] == inner.last());
                if inner.last() == front.last() && front.len() > 0 && inner.last() != t {
                    assert(!comes_before(
                        tests[tests.len() - 1].name@,
                        tests[tests.len() - 1 - 1].name@,
                    ));
                }
            }
        }
        assert(tests =~= front.push(tests.last()));
        assert(tests.to_multiset() =~= front.to_multiset().insert(tests.last()));
        assert(whole.to_multiset() =~= tests.to_multiset().insert(t));
    } else {
        let whole = tests.push(t);
        assert forall|i: int| 0 < i < whole.len() implies !comes_before(
            (#[trigger] whole[i]).name@,
            whole[i - 1].name@,
        ) by {
            if i < tests.len() {
                assert(whole[i] == tests[i]);
            }
        }
    }
}

/// Bringing tests into order keeps all of them, and no test comes before the
/// one in front of it.
pub proof fn law_tests_are_sorted(tests: Seq<TestCase>)
    ensures
        is_ordered(in_order(tests)),
        in_order(tests).to_multiset() == tests.to_multiset(),
    decreases tests.len(),
{
    broadcast use vstd::seq_lib::group_to_multiset_ensures;

    if tests.len() > 0 {
        law_tests_are_sorted(tests.drop_last());
        lemma_with_test(in_order(tests.drop_last()), tests.last());
        assert(tests =~= tests.drop_last().push(tests.last()));
        assert(tests.to_multiset() =~= tests.drop_last().to_multiset().insert(tests.last()));
    }
}

} // verus!
