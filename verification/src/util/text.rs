//! Small operations on strings and character sequences.
use vstd::prelude::*;
use vstd::string::{StrSliceExecFns, StringExecFns};

verus! {

/// `String::push` appends one character to the end of a string.
#[verifier::external_body]
pub(crate) fn push_char(s: &mut String, c: char)
    ensures
        final(s)@ == old(s)@.push(c),
{
    s.push(c)
}

/// Equality of two string slices: they hold the same characters.
pub assume_specification[ <str as PartialEq<str>>::eq ](a: &str, b: &str) -> (res: bool)
    ensures
        res == (a@ == b@),
;

/// What formatting a string with `{:?}` gives: the string in double quotes,
/// with quotes, backslashes and unprintable characters escaped.
pub uninterp spec fn str_debug(s: Seq<char>) -> Seq<char>;

/// `format!` with `{:?}` of a string writes it in double quotes and escaped.
#[verifier::external_body]
pub(crate) fn debug_str(s: &str) -> (r: String)
    ensures
        r@ == str_debug(s@),
{
    format!("{s:?}")
}

/// The characters of a string, in order.
pub fn chars_of(s: &str) -> (r: Vec<char>)
    ensures
        r@ == s@,
{
    let mut out: Vec<char> = Vec::new();
    for c in it: s.chars()
        invariant
            it.seq() == s@,
            out@ == s@.take(it.index() as int),
    {
        out.push(c);
        proof {
            assert(s@.take(it.index() + 1) =~= s@.take(it.index() as int).push(s@[it.index() as int]));
        }
    }
    proof {
        assert(s@.take(s@.len() as int) =~= s@);
    }
    out
}

/// The string holding the characters `from..to` of `chars`.
pub fn string_of(chars: &[char], from: usize, to: usize) -> (r: String)
    requires
        from <= to <= chars@.len(),
    ensures
        r@ == chars@.subrange(from as int, to as int),
{
    let mut out = String::new();
    let mut i: usize = from;
    while i < to
        invariant
            from <= i <= to <= chars@.len(),
            out@ == chars@.subrange(from as int, i as int),
        decreases to - i,
    {
        push_char(&mut out, chars[i]);
        i += 1;
        proof {
            assert(chars@.subrange(from as int, i as int) =~= chars@.subrange(from as int, i - 1).push(
                chars@[i - 1],
            ));
        }
    }
    out
}

/// Whether two string slices hold the same characters.
pub fn str_eq(a: &str, b: &str) -> (r: bool)
    ensures
        r == (a@ == b@),
{
    *a == *b
}

/// Appends a string slice to a string.
pub fn push_str(s: &mut String, t: &str)
    ensures
        final(s)@ == old(s)@ + t@,
{
    s.append(t);
}

/// Whether a character has the Unicode property `White_Space`.
pub open spec fn white(c: char) -> bool {
    let n = c as int;
    ||| 0x09 <= n <= 0x0d
    ||| n == 0x20
    ||| n == 0x85
    ||| n == 0xa0
    ||| n == 0x1680
    ||| 0x2000 <= n <= 0x200a
    ||| 0x2028 <= n <= 0x2029
    ||| n == 0x202f
    ||| n == 0x205f
    ||| n == 0x3000
}

/// Whether a character has the Unicode property `White_Space`.
pub fn is_whitespace(c: char) -> (r: bool)
    ensures
        r == white(c),
{
    let n: u32 = c as u32;
    (0x09 <= n && n <= 0x0d) || n == 0x20 || n == 0x85 || n == 0xa0 || n == 0x1680 || (0x2000 <= n
        && n <= 0x200a) || n == 0x2028 || n == 0x2029 || n == 0x202f || n == 0x205f || n == 0x3000
}

/// Whether a character is white space in ASCII: space, tab, line feed, form
/// feed or carriage return.
pub open spec fn ascii_white(c: char) -> bool {
    c == ' ' || c == '\t' || c == '\n' || c == '\x0c' || c == '\r'
}

/// Whether a character is white space in ASCII.
pub fn is_ascii_whitespace(c: char) -> (r: bool)
    ensures
        r == ascii_white(c),
{
    c == ' ' || c == '\t' || c == '\n' || c == '\x0c' || c == '\r'
}

/// What `char::is_alphabetic` says of a character: whether it has the Unicode
/// property `Alphabetic`.
pub uninterp spec fn unicode_alphabetic(c: char) -> bool;

/// `char::is_alphabetic` looks a character up in a fixed table of the Unicode
/// property `Alphabetic`.
#[verifier::external_body]
fn char_is_alphabetic(c: char) -> (r: bool)
    ensures
        r == unicode_alphabetic(c),
{
    c.is_alphabetic()
}

/// Whether a character is a letter.
pub open spec fn alphabetic(c: char) -> bool {
    if c as int <= 0x7f {
        'a' <= c <= 'z' || 'A' <= c <= 'Z'
    } else {
        unicode_alphabetic(c)
    }
}

/// Whether a character is a letter.
pub fn is_alphabetic(c: char) -> (r: bool)
    ensures
        r == alphabetic(c),
{
    if c as u32 <= 0x7f {
        ('a' <= c && c <= 'z') || ('A' <= c && c <= 'Z')
    } else {
        char_is_alphabetic(c)
    }
}

/// `s` without its leading white space.
pub open spec fn trimmed_start(s: Seq<char>) -> Seq<char>
    decreases s.len(),
{
    if s.len() > 0 && white(s[0]) {
        trimmed_start(s.skip(1))
    } else {
        s
    }
}

/// `s` without its trailing white space.
pub open spec fn trimmed_end(s: Seq<char>) -> Seq<char>
    decreases s.len(),
{
    if s.len() > 0 && white(s.last()) {
        trimmed_end(s.drop_last())
    } else {
        s
    }
}

/// `s` without its leading and trailing white space.
pub open spec fn trimmed(s: Seq<char>) -> Seq<char> {
    trimmed_end(trimmed_start(s))
}

/// Trimming the front brings in no character.
proof fn lemma_trimmed_start_contains(s: Seq<char>, c: char)
    requires
        trimmed_start(s).contains(c),
    ensures
        s.contains(c),
    decreases s.len(),
{
    if s.len() > 0 && white(s[0]) {
        lemma_trimmed_start_contains(s.skip(1), c);
        let i = choose|i: int| 0 <= i < s.skip(1).len() && s.skip(1)[i] == c;
        assert(s[i + 1] == c);
    }
}

/// Trimming the back brings in no character.
proof fn lemma_trimmed_end_contains(s: Seq<char>, c: char)
    requires
        trimmed_end(s).contains(c),
    ensures
        s.contains(c),
    decreases s.len(),
{
    if s.len() > 0 && white(s.last()) {
        lemma_trimmed_end_contains(s.drop_last(), c);
        let i = choose|i: int| 0 <= i < s.drop_last().len() && s.drop_last()[i] == c;
        assert(s[i] == c);
    }
}

/// Trimming brings in no character.
pub proof fn lemma_trimmed_contains(s: Seq<char>, c: char)
    requires
        !s.contains(c),
    ensures
        !trimmed(s).contains(c),
{
    if trimmed(s).contains(c) {
        lemma_trimmed_end_contains(trimmed_start(s), c);
        lemma_trimmed_start_contains(s, c);
    }
}

/// The number of leading white space characters.
pub(crate) fn leading_white(chars: &[char]) -> (n: usize)
    ensures
        n <= chars@.len(),
        trimmed_start(chars@) == chars@.skip(n as int),
{
    let mut i: usize = 0;
    proof {
        assert(chars@.skip(0) =~= chars@);
    }
    while i < chars.len() && is_whitespace(chars[i])
        invariant
            i <= chars@.len(),
            trimmed_start(chars@) == trimmed_start(chars@.skip(i as int)),
        decreases chars@.len() - i,
    {
        proof {
            assert(chars@.skip(i as int).skip(1) =~= chars@.skip(i + 1));
        }
        i += 1;
    }
    i
}

/// The length of `chars[from..]` without trailing white space, plus `from`.
fn trailing_cut(chars: &[char], from: usize) -> (n: usize)
    requires
        from <= chars@.len(),
    ensures
        from <= n <= chars@.len(),
        trimmed_end(chars@.skip(from as int)) == chars@.subrange(from as int, n as int),
{
    let mut i: usize = chars.len();
    proof {
        assert(chars@.subrange(from as int, i as int) =~= chars@.skip(from as int));
    }
    while i > from && is_whitespace(chars[i - 1])
        invariant
            from <= i <= chars@.len(),
            trimmed_end(chars@.skip(from as int)) == trimmed_end(
                chars@.subrange(from as int, i as int),
            ),
        decreases i,
    {
        proof {
            assert(chars@.subrange(from as int, i as int).drop_last() =~= chars@.subrange(
                from as int,
                i - 1,
            ));
        }
        i -= 1;
    }
    i
}

/// The part of a string from character `from` to character `to`.
pub fn slice_of(s: &str, from: usize, to: usize) -> (r: &str)
    requires
        from <= to <= s@.len(),
    ensures
        r@ == s@.subrange(from as int, to as int),
{
    s.substring_char(from, to)
}

/// A string without leading and trailing white space.
pub fn trim(s: &str) -> (r: &str)
    ensures
        r@ == trimmed(s@),
{
    let chars = chars_of(s);
    let from: usize = leading_white(&chars);
    let to: usize = trailing_cut(&chars, from);
    slice_of(s, from, to)
}

/// A string without trailing white space.
pub fn trim_end(s: &str) -> (r: &str)
    ensures
        r@ == trimmed_end(s@),
{
    let chars = chars_of(s);
    let to: usize = trailing_cut(&chars, 0);
    proof {
        assert(chars@.skip(0) =~= chars@);
    }
    slice_of(s, 0, to)
}

/// Whether `prefix` stands at the front of `s`.
pub open spec fn has_prefix(s: Seq<char>, prefix: Seq<char>) -> bool {
    prefix.len() <= s.len() && s.take(prefix.len() as int) == prefix
}

/// Whether a string begins with `prefix`.
pub fn starts_with(s: &str, prefix: &str) -> (r: bool)
    ensures
        r == has_prefix(s@, prefix@),
{
    let a = chars_of(s);
    let b = chars_of(prefix);
    if b.len() > a.len() {
        return false;
    }
    let mut i: usize = 0;
    while i < b.len()
        invariant
            i <= b@.len() <= a@.len(),
            a@ == s@,
            b@ == prefix@,
            forall|j: int| 0 <= j < i ==> a@[j] == b@[j],
        decreases b@.len() - i,
    {
        if a[i] != b[i] {
            proof {
                assert(s@.take(prefix@.len() as int)[i as int] == a@[i as int]);
            }
            return false;
        }
        i += 1;
    }
    proof {
        assert(s@.take(prefix@.len() as int) =~= prefix@);
    }
    true
}

/// The index of the first white space character, or the length.
pub open spec fn white_index(s: Seq<char>) -> int
    decreases s.len(),
{
    if s.len() == 0 || white(s[0]) {
        0
    } else {
        1 + white_index(s.skip(1))
    }
}

/// The index of the first white space character, or the length.
pub fn find_white(s: &str) -> (r: usize)
    ensures
        r == white_index(s@),
        r <= s@.len(),
{
    let chars = chars_of(s);
    let mut i: usize = 0;
    proof {
        assert(chars@.skip(0) =~= chars@);
    }
    while i < chars.len() && !is_whitespace(chars[i])
        invariant
            i <= chars@.len(),
            chars@ == s@,
            white_index(s@) == i + white_index(chars@.skip(i as int)),
        decreases chars@.len() - i,
    {
        proof {
            assert(chars@.skip(i as int).skip(1) =~= chars@.skip(i + 1));
        }
        i += 1;
    }
    i
}

/// The index of the first line feed, or the length.
pub open spec fn newline_index(s: Seq<char>) -> int
    decreases s.len(),
{
    if s.len() == 0 || s[0] == '\n' {
        0
    } else {
        1 + newline_index(s.skip(1))
    }
}

/// `s` without one trailing carriage return.
pub open spec fn without_cr(s: Seq<char>) -> Seq<char> {
    if s.len() > 0 && s.last() == '\r' {
        s.drop_last()
    } else {
        s
    }
}

/// The lines of a text. Each ends with a line feed, or a carriage return and
/// a line feed, neither of which is part of it; the last may lack its ending.
pub open spec fn lines_of(s: Seq<char>) -> Seq<Seq<char>>
    decreases s.len(),
{
    let end = newline_index(s);
    if s.len() == 0 {
        Seq::empty()
    } else if 0 <= end < s.len() {
        seq![without_cr(s.take(end))] + lines_of(s.skip(end + 1))
    } else {
        seq![s]
    }
}

/// The first line feed lies within the text, and none stands before it.
pub proof fn lemma_newline_index(s: Seq<char>)
    ensures
        0 <= newline_index(s) <= s.len(),
        newline_index(s) < s.len() ==> s[newline_index(s)] == '\n',
        forall|i: int| 0 <= i < newline_index(s) ==> s[i] != '\n',
    decreases s.len(),
{
    if s.len() > 0 && s[0] != '\n' {
        lemma_newline_index(s.skip(1));
        assert forall|i: int| 0 <= i < newline_index(s) implies s[i] != '\n' by {
            if i > 0 {
                assert(s[i] == s.skip(1)[i - 1]);
            }
        }
    }
}

/// A text without line feeds is its own first line.
pub proof fn lemma_newline_index_at(s: Seq<char>, k: int)
    requires
        0 <= k <= s.len(),
        k < s.len() ==> s[k] == '\n',
        forall|i: int| 0 <= i < k ==> s[i] != '\n',
    ensures
        newline_index(s) == k,
    decreases s.len(),
{
    if k > 0 {
        assert forall|i: int| 0 <= i < k - 1 implies s.skip(1)[i] != '\n' by {
            assert(s.skip(1)[i] == s[i + 1]);
        }
        lemma_newline_index_at(s.skip(1), k - 1);
    }
}

/// The views of a vector of strings.
pub open spec fn strings_view(v: Seq<String>) -> Seq<Seq<char>> {
    v.map_values(|s: String| s@)
}

/// The lines of a text.
pub fn lines(s: &str) -> (r: Vec<String>)
    ensures
        strings_view(r@) == lines_of(s@),
{
    let chars = chars_of(s);
    let n: usize = chars.len();
    let mut out: Vec<String> = Vec::new();
    let mut start: usize = 0;
    proof {
        assert(chars@.skip(0) =~= chars@);
        assert(strings_view(out@) + lines_of(s@) =~= lines_of(s@));
    }
    while start < n
        invariant
            start <= n == chars@.len(),
            chars@ == s@,
            lines_of(s@) == strings_view(out@) + lines_of(chars@.skip(start as int)),
        decreases n - start,
    {
        let ghost rest = chars@.skip(start as int);
        let ghost before = strings_view(out@);
        let mut end: usize = start;
        while end < n && chars[end] != '\n'
            invariant
                start <= end <= n == chars@.len(),
                forall|i: int| start <= i < end ==> chars@[i] != '\n',
            decreases n - end,
        {
            end += 1;
        }
        proof {
            lemma_newline_index_at(rest, end - start);
        }
        if end == n {
            out.push(string_of(&chars, start, n));
            proof {
                assert(chars@.subrange(start as int, n as int) =~= rest);
                assert(strings_view(out@) =~= before + seq![rest]);
                assert(chars@.skip(n as int) =~= Seq::empty());
                assert(before.push(rest) + Seq::<Seq<char>>::empty() =~= before + seq![rest]);
            }
            start = n;
        } else {
            let cut: usize = if end > start && chars[end - 1] == '\r' {
                end - 1
            } else {
                end
            };
            out.push(string_of(&chars, start, cut));
            proof {
                let line = rest.take(end - start);
                assert(without_cr(line) =~= chars@.subrange(start as int, cut as int));
                assert(rest.skip(end - start + 1) =~= chars@.skip(end + 1));
                assert(strings_view(out@) =~= before.push(without_cr(line)));
                assert(before.push(without_cr(line)) + lines_of(chars@.skip(end + 1)) =~= before + (
                seq![without_cr(line)] + lines_of(chars@.skip(end + 1))));
            }
            start = end + 1;
        }
    }
    proof {
        assert(chars@.skip(start as int) =~= Seq::empty());
        assert(strings_view(out@) + Seq::<Seq<char>>::empty() =~= strings_view(out@));
    }
    out
}

/// No line of a text holds a line feed.
pub proof fn lemma_lines_have_no_newline(s: Seq<char>)
    ensures
        forall|i: int|
            0 <= i < lines_of(s).len() ==> !(#[trigger] lines_of(s)[i]).contains('\n'),
    decreases s.len(),
{
    lemma_newline_index(s);
    let end = newline_index(s);
    if s.len() > 0 && end < s.len() {
        lemma_lines_have_no_newline(s.skip(end + 1));
        let line = without_cr(s.take(end));
        assert(!line.contains('\n'));
        let rest = lines_of(s.skip(end + 1));
        assert forall|i: int| 0 <= i < lines_of(s).len() implies !(
        #[trigger] lines_of(s)[i]).contains('\n') by {
            if i > 0 {
                assert(lines_of(s)[i] == rest[i - 1]);
            }
        }
    } else if s.len() > 0 {
        assert(!s.contains('\n'));
    }
}

/// Texts with a line feed between them.
pub open spec fn on_lines(texts: Seq<Seq<char>>) -> Seq<char>
    decreases texts.len(),
{
    if texts.len() == 0 {
        Seq::empty()
    } else if texts.len() == 1 {
        texts[0]
    } else {
        on_lines(texts.drop_last()) + "\n"@ + texts.last()
    }
}

/// Puts texts on lines of their own.
pub fn join_lines(texts: &Vec<String>) -> (r: String)
    ensures
        r@ == on_lines(strings_view(texts@)),
{
    let ghost all = strings_view(texts@);
    let mut out = String::new();
    let mut i: usize = 0;
    proof {
        assert(all.take(0) =~= Seq::empty());
        assert(out@ =~= Seq::empty());
    }
    while i < texts.len()
        invariant
            i <= texts@.len(),
            all == strings_view(texts@),
            out@ == on_lines(all.take(i as int)),
        decreases texts@.len() - i,
    {
        proof {
            assert(all.take(i + 1).drop_last() =~= all.take(i as int));
            assert(all.take(i + 1).last() == texts@[i as int]@);
            if i == 0 {
                assert(all.take(1)[0] == texts@[0]@);
                assert(Seq::<char>::empty() + texts@[0]@ =~= texts@[0]@);
            }
        }
        if i > 0 {
            push_str(&mut out, "\n");
        }
        push_str(&mut out, texts[i].as_str());
        i += 1;
    }
    proof {
        assert(all.take(i as int) =~= all);
    }
    out
}

} // verus!
