//! Putting paths together, and taking them apart.
use crate::util::path::{NicePathBuf, Platform};
use crate::util::text::{chars_of, push_char, push_str, slice_of, str_eq, string_of, strings_view};
use vstd::prelude::*;

verus! {

/// How a path is written.
#[derive(Clone, Copy, PartialEq, Eq, Structural, Debug)]
pub enum Style {
    /// With slashes.
    Unix,
    /// With slashes or backslashes.
    Windows,
    /// With backslashes, and with every name taken literally.
    Verbatim,
}

/// Whether a character stands between the names of a path.
pub open spec fn is_sep(c: char, style: Style) -> bool {
    match style {
        Style::Unix => c == '/',
        Style::Windows => c == '/' || c == '\\',
        Style::Verbatim => c == '\\',
    }
}

fn is_separator(c: char, style: Style) -> (r: bool)
    ensures
        r == is_sep(c, style),
{
    match style {
        Style::Unix => c == '/',
        Style::Windows => c == '/' || c == '\\',
        Style::Verbatim => c == '\\',
    }
}

/// The index of the first separator from an index on, or the end.
pub open spec fn name_end(s: Seq<char>, from: int, style: Style) -> int
    decreases s.len() - from,
{
    if from < 0 || from >= s.len() {
        s.len() as int
    } else if is_sep(s[from], style) {
        from
    } else {
        name_end(s, from + 1, style)
    }
}

fn find_name_end(s: &Vec<char>, from: usize, style: Style) -> (r: usize)
    requires
        from <= s@.len(),
    ensures
        r == name_end(s@, from as int, style),
        from <= r <= s@.len(),
{
    let mut i: usize = from;
    while i < s.len() && !is_separator(s[i], style)
        invariant
            from <= i <= s@.len(),
            name_end(s@, from as int, style) == name_end(s@, i as int, style),
        decreases s@.len() - i,
    {
        i += 1;
    }
    i
}

/// Whether a path begins with two separators.
pub open spec fn begins_doubly(s: Seq<char>) -> bool {
    s.len() >= 2 && is_sep(s[0], Style::Windows) && is_sep(s[1], Style::Windows)
}

/// Whether a path of Windows begins with `\\?\`.
pub open spec fn is_verbatim(s: Seq<char>) -> bool {
    s.len() >= 4 && s[0] == '\\' && s[1] == '\\' && s[2] == '?' && s[3] == '\\'
}

/// Whether a drive such as `C:` stands at an index.
pub open spec fn is_drive_at(s: Seq<char>, i: int) -> bool {
    0 <= i && i + 2 <= s.len() && ('a' <= s[i] <= 'z' || 'A' <= s[i] <= 'Z') && s[i + 1] == ':'
}

/// The end of a server and its share, where the server starts at an index;
/// without a share, that of the server.
pub open spec fn share_end(s: Seq<char>, from: int, style: Style) -> int {
    let server = name_end(s, from, style);
    if server < s.len() && name_end(s, server + 1, style) > server + 1 {
        name_end(s, server + 1, style)
    } else {
        server
    }
}

/// The length of what stands before the root in a path of Windows: a drive, a
/// server with its share, a device, or one of these behind `\\?\`.
pub open spec fn prefix_len(s: Seq<char>) -> int {
    if is_verbatim(s) {
        if s.len() >= 8 && s[4] == 'U' && s[5] == 'N' && s[6] == 'C' && is_sep(
            s[7],
            Style::Windows,
        ) {
            share_end(s, 8, Style::Verbatim)
        } else if is_drive_at(s, 4) && (s.len() == 6 || is_sep(s[6], Style::Windows)) {
            6
        } else {
            name_end(s, 4, Style::Verbatim)
        }
    } else if begins_doubly(s) && s.len() >= 4 && s[2] == '.' && is_sep(s[3], Style::Windows) {
        name_end(s, 4, Style::Windows)
    } else if begins_doubly(s) {
        let server = name_end(s, 2, Style::Windows);
        let share = share_end(s, 2, Style::Windows);
        if server > 2 && share > server {
            share
        } else {
            0
        }
    } else if is_drive_at(s, 0) {
        2
    } else {
        0
    }
}

fn drive_at(s: &Vec<char>, i: usize) -> (r: bool)
    requires
        i <= s@.len(),
    ensures
        r == is_drive_at(s@, i as int),
{
    s.len() - i >= 2 && (('a' <= s[i] && s[i] <= 'z') || ('A' <= s[i] && s[i] <= 'Z')) && s[i + 1]
        == ':'
}

fn find_share_end(s: &Vec<char>, from: usize, style: Style) -> (r: usize)
    requires
        from <= s@.len(),
    ensures
        r == share_end(s@, from as int, style),
        from <= r <= s@.len(),
{
    let server: usize = find_name_end(s, from, style);
    if server < s.len() {
        let share: usize = find_name_end(s, server + 1, style);
        if share > server + 1 {
            return share;
        }
    }
    server
}

fn verbatim(s: &Vec<char>) -> (r: bool)
    ensures
        r == is_verbatim(s@),
{
    s.len() >= 4 && s[0] == '\\' && s[1] == '\\' && s[2] == '?' && s[3] == '\\'
}

fn find_prefix(s: &Vec<char>) -> (r: usize)
    ensures
        r == prefix_len(s@),
        r <= s@.len(),
{
    let n: usize = s.len();
    if verbatim(s) {
        if n >= 8 && s[4] == 'U' && s[5] == 'N' && s[6] == 'C' && is_separator(
            s[7],
            Style::Windows,
        ) {
            return find_share_end(s, 8, Style::Verbatim);
        }
        if drive_at(s, 4) && (n == 6 || is_separator(s[6], Style::Windows)) {
            return 6;
        }
        return find_name_end(s, 4, Style::Verbatim);
    }
    if n >= 2 && is_separator(s[0], Style::Windows) && is_separator(s[1], Style::Windows) {
        if n >= 4 && s[2] == '.' && is_separator(s[3], Style::Windows) {
            return find_name_end(s, 4, Style::Windows);
        }
        let server: usize = find_name_end(s, 2, Style::Windows);
        let share: usize = find_share_end(s, 2, Style::Windows);
        return if server > 2 && share > server {
            share
        } else {
            0
        };
    }
    if drive_at(s, 0) {
        2
    } else {
        0
    }
}

/// The names of a path from an index on, without separators.
pub open spec fn names_from(s: Seq<char>, from: int, style: Style) -> Seq<Seq<char>>
    decreases s.len() - from,
{
    if from < 0 || from >= s.len() {
        Seq::empty()
    } else if is_sep(s[from], style) {
        names_from(s, from + 1, style)
    } else {
        let end = name_end(s, from, style);
        if from < end <= s.len() {
            seq![s.subrange(from, end)] + names_from(s, end, style)
        } else {
            Seq::empty()
        }
    }
}

fn read_names(s: &Vec<char>, from: usize, style: Style) -> (r: Vec<String>)
    requires
        from <= s@.len(),
    ensures
        strings_view(r@) == names_from(s@, from as int, style),
{
    let mut names: Vec<String> = Vec::new();
    let mut i: usize = from;
    proof {
        assert(strings_view(names@) + names_from(s@, from as int, style) =~= names_from(
            s@,
            from as int,
            style,
        ));
    }
    while i < s.len()
        invariant
            from <= i <= s@.len(),
            names_from(s@, from as int, style) == strings_view(names@) + names_from(
                s@,
                i as int,
                style,
            ),
        decreases s@.len() - i,
    {
        if is_separator(s[i], style) {
            i += 1;
        } else {
            let ghost had = names@;
            let end: usize = find_name_end(s, i, style);
            proof {
                assert(name_end(s@, i as int, style) == name_end(s@, i + 1, style));
                lemma_name_end(s@, i + 1, style);
            }
            let name = string_of(s.as_slice(), i, end);
            names.push(name);
            proof {
                let rest = names_from(s@, end as int, style);
                assert(strings_view(names@) =~= strings_view(had).push(name@));
                assert(strings_view(had) + (seq![name@] + rest) =~= strings_view(names@) + rest);
            }
            i = end;
        }
    }
    proof {
        assert(strings_view(names@) + Seq::<Seq<char>>::empty() =~= strings_view(names@));
    }
    names
}

proof fn lemma_name_end(s: Seq<char>, from: int, style: Style)
    requires
        0 <= from <= s.len(),
    ensures
        from <= name_end(s, from, style) <= s.len(),
    decreases s.len() - from,
{
    if from < s.len() && !is_sep(s[from], style) {
        lemma_name_end(s, from + 1, style);
    }
}

/// The names of a path with one more: `.` stands for nothing, and `..` takes
/// the last name away, if there is one.
pub open spec fn with_name(names: Seq<Seq<char>>, name: Seq<char>) -> Seq<Seq<char>> {
    if name == "."@ {
        names
    } else if name == ".."@ {
        if names.len() > 0 && names.last() != "."@ && names.last() != ".."@ {
            names.drop_last()
        } else {
            names
        }
    } else {
        names.push(name)
    }
}

/// The names of a path with more.
pub open spec fn with_names(names: Seq<Seq<char>>, more: Seq<Seq<char>>) -> Seq<Seq<char>>
    decreases more.len(),
{
    if more.len() == 0 {
        names
    } else {
        with_name(with_names(names, more.drop_last()), more.last())
    }
}

/// Names with a backslash before each.
pub open spec fn names_text(names: Seq<Seq<char>>) -> Seq<char>
    decreases names.len(),
{
    if names.len() == 0 {
        Seq::empty()
    } else {
        names_text(names.drop_last()).push('\\') + names.last()
    }
}

/// A path behind one that begins with `\\?\`: the two are put together name by
/// name.
pub open spec fn joined_verbatim(base: Seq<char>, other: Seq<char>) -> Seq<char> {
    let start = prefix_len(base);
    let other_rooted = other.len() > 0 && is_sep(other[0], Style::Windows);
    let rooted = other_rooted || (start < base.len() && is_sep(base[start], Style::Verbatim));
    let names = with_names(
        if other_rooted {
            Seq::empty()
        } else {
            names_from(base, start, Style::Verbatim)
        },
        names_from(other, 0, Style::Windows),
    );
    base.take(start) + if names.len() == 0 && rooted {
        seq!['\\']
    } else {
        names_text(names)
    }
}

/// A path behind another. A path with a drive or the like stands for itself,
/// and one with a root stands behind the drive or the like of the other.
pub open spec fn joined_on_windows(base: Seq<char>, other: Seq<char>) -> Seq<char> {
    if prefix_len(other) > 0 {
        other
    } else if is_verbatim(base) && other.len() > 0 {
        joined_verbatim(base, other)
    } else if other.len() > 0 && is_sep(other[0], Style::Windows) {
        base.take(prefix_len(base)) + other
    } else if base.len() > 0 && !is_sep(base.last(), Style::Windows) && !(base.len() == 2
        && is_drive_at(base, 0)) {
        base.push('\\') + other
    } else {
        base + other
    }
}

/// A path behind another. An absolute path stands for itself.
pub open spec fn joined_on_unix(base: Seq<char>, other: Seq<char>) -> Seq<char> {
    if other.len() > 0 && other[0] == '/' {
        other
    } else if base.len() > 0 && base.last() != '/' {
        base.push('/') + other
    } else {
        base + other
    }
}

/// A path behind another. An absolute path stands for itself.
pub open spec fn joined_path(base: Seq<char>, other: Seq<char>, platform: Platform) -> Seq<char> {
    if platform == Platform::Windows {
        joined_on_windows(base, other)
    } else {
        joined_on_unix(base, other)
    }
}

/// A path without the separators and the `.` names at its end that mean
/// nothing there.
pub open spec fn tail_trimmed(s: Seq<char>, style: Style) -> Seq<char>
    decreases s.len(),
{
    if s.len() > 1 && is_sep(s.last(), style) {
        tail_trimmed(s.drop_last(), style)
    } else if s.len() > 1 && style != Style::Verbatim && s.last() == '.' && is_sep(
        s[s.len() - 2],
        style,
    ) {
        tail_trimmed(s.drop_last(), style)
    } else {
        s
    }
}

/// The index of the last separator, or -1.
pub open spec fn last_separator(s: Seq<char>, style: Style) -> int
    decreases s.len(),
{
    if s.len() == 0 {
        -1
    } else if is_sep(s.last(), style) {
        s.len() - 1
    } else {
        last_separator(s.drop_last(), style)
    }
}

/// A path behind its drive or the like without its last name, if it has one.
pub open spec fn parent_behind(s: Seq<char>, style: Style) -> Option<Seq<char>> {
    let t = tail_trimmed(s, style);
    let k = last_separator(t, style);
    if t.len() == 0 || (t.len() == 1 && is_sep(t[0], style)) {
        None
    } else if k < 0 {
        Some(Seq::empty())
    } else if k == 0 {
        Some(t.take(1))
    } else {
        Some(tail_trimmed(t.take(k), style))
    }
}

/// How a path is written, and the length of its drive or the like.
pub open spec fn style_of(s: Seq<char>, platform: Platform) -> (Style, int) {
    if platform != Platform::Windows {
        (Style::Unix, 0)
    } else if is_verbatim(s) {
        (Style::Verbatim, prefix_len(s))
    } else {
        (Style::Windows, prefix_len(s))
    }
}

/// The path without its last name, if it has one.
pub open spec fn parent_path(s: Seq<char>, platform: Platform) -> Option<Seq<char>> {
    let (style, start) = style_of(s, platform);
    match parent_behind(s.skip(start), style) {
        Some(rest) => Some(s.take(start) + rest),
        None => None,
    }
}

/// The end of a path that starts at an index, without the separators and the
/// `.` names at its end.
fn trimmed_end_of(chars: &Vec<char>, start: usize, end: usize, style: Style) -> (r: usize)
    requires
        start <= end <= chars@.len(),
    ensures
        start <= r <= end,
        tail_trimmed(chars@.subrange(start as int, end as int), style) == chars@.subrange(
            start as int,
            r as int,
        ),
{
    let literal = matches!(style, Style::Verbatim);
    let mut n: usize = end;
    while n - start > 1 && (is_separator(chars[n - 1], style) || (!literal && chars[n - 1] == '.'
        && is_separator(chars[n - 2], style)))
        invariant
            start <= n <= end <= chars@.len(),
            literal == (style == Style::Verbatim),
            tail_trimmed(chars@.subrange(start as int, end as int), style) == tail_trimmed(
                chars@.subrange(start as int, n as int),
                style,
            ),
        decreases n,
    {
        proof {
            assert(chars@.subrange(start as int, n as int).drop_last() =~= chars@.subrange(
                start as int,
                n - 1,
            ));
        }
        n -= 1;
    }
    n
}

/// The end of a path without its last name, if it has one, where the path
/// starts at an index.
fn parent_end(chars: &Vec<char>, start: usize, style: Style) -> (r: Option<usize>)
    requires
        start <= chars@.len(),
    ensures
        match r {
            Some(end) => start <= end <= chars@.len() && parent_behind(
                chars@.skip(start as int),
                style,
            ) == Some(chars@.subrange(start as int, end as int)),
            None => parent_behind(chars@.skip(start as int), style) is None,
        },
{
    let total: usize = chars.len();
    proof {
        assert(chars@.subrange(start as int, total as int) =~= chars@.skip(start as int));
    }
    let n: usize = trimmed_end_of(chars, start, total, style);
    let ghost t = chars@.subrange(start as int, n as int);
    if n == start || (n == start + 1 && is_separator(chars[start], style)) {
        return None;
    }
    let mut k: usize = n;
    while k > start && !is_separator(chars[k - 1], style)
        invariant
            start <= k <= n <= chars@.len(),
            t == chars@.subrange(start as int, n as int),
            last_separator(t, style) == last_separator(
                chars@.subrange(start as int, k as int),
                style,
            ),
        decreases k,
    {
        proof {
            assert(chars@.subrange(start as int, k as int).drop_last() =~= chars@.subrange(
                start as int,
                k - 1,
            ));
        }
        k -= 1;
    }
    if k == start {
        proof {
            assert(chars@.subrange(start as int, start as int) =~= Seq::empty());
        }
        return Some(start);
    }
    proof {
        assert(last_separator(t, style) == k - 1 - start);
    }
    if k == start + 1 {
        proof {
            assert(t.take(1) =~= chars@.subrange(start as int, k as int));
        }
        return Some(k);
    }
    proof {
        assert(t.take(k - 1 - start) =~= chars@.subrange(start as int, k - 1));
    }
    Some(trimmed_end_of(chars, start, k - 1, style))
}

fn join_verbatim(base: &Vec<char>, text: &str, other: &Vec<char>) -> (r: String)
    requires
        base@ == text@,
    ensures
        r@ == joined_verbatim(base@, other@),
{
    let start: usize = find_prefix(base);
    let other_rooted = other.len() > 0 && is_separator(other[0], Style::Windows);
    let rooted = other_rooted || (start < base.len() && is_separator(base[start], Style::Verbatim));
    let mut names: Vec<String> = if other_rooted {
        Vec::new()
    } else {
        read_names(base, start, Style::Verbatim)
    };
    proof {
        if other_rooted {
            assert(strings_view(names@) =~= Seq::empty());
        }
    }
    let ghost first = strings_view(names@);
    let more = read_names(other, 0, Style::Windows);
    let ghost rest = strings_view(more@);
    let mut i: usize = 0;
    proof {
        assert(rest.take(0) =~= Seq::empty());
    }
    while i < more.len()
        invariant
            i <= more@.len(),
            rest == strings_view(more@),
            strings_view(names@) == with_names(first, rest.take(i as int)),
        decreases more@.len() - i,
    {
        let ghost had = names@;
        proof {
            assert(rest.take(i + 1).drop_last() =~= rest.take(i as int));
            assert(rest.take(i + 1).last() == more@[i as int]@);
        }
        let name = more[i].as_str();
        if str_eq(name, ".") {
        } else if str_eq(name, "..") {
            let n: usize = names.len();
            if n > 0 && !str_eq(names[n - 1].as_str(), ".") && !str_eq(
                names[n - 1].as_str(),
                "..",
            ) {
                let _ = names.pop();
                proof {
                    assert(strings_view(names@) =~= strings_view(had).drop_last());
                }
            }
        } else {
            names.push(name.to_owned());
            proof {
                assert(strings_view(names@) =~= strings_view(had).push(name@));
            }
        }
        i += 1;
    }
    proof {
        assert(rest.take(i as int) =~= rest);
        assert(text@.subrange(0, start as int) =~= base@.take(start as int));
    }
    let mut out: String = slice_of(text, 0, start).to_owned();
    let ghost prefix = out@;
    if names.len() == 0 && rooted {
        push_char(&mut out, '\\');
        proof {
            assert(out@ =~= prefix + seq!['\\']);
        }
        return out;
    }
    let ghost all = strings_view(names@);
    let mut j: usize = 0;
    proof {
        assert(all.take(0) =~= Seq::empty());
        assert(prefix + names_text(all.take(0)) =~= prefix);
    }
    while j < names.len()
        invariant
            j <= names@.len(),
            all == strings_view(names@),
            out@ == prefix + names_text(all.take(j as int)),
        decreases names@.len() - j,
    {
        let ghost had = out@;
        proof {
            assert(all.take(j + 1).drop_last() =~= all.take(j as int));
            assert(all.take(j + 1).last() == names@[j as int]@);
        }
        push_char(&mut out, '\\');
        push_str(&mut out, names[j].as_str());
        proof {
            assert(out@ =~= prefix + names_text(all.take(j + 1)));
        }
        j += 1;
    }
    proof {
        assert(all.take(j as int) =~= all);
    }
    out
}

fn join_on_windows(text: &str, other: &str) -> (r: String)
    ensures
        r@ == joined_on_windows(text@, other@),
{
    let base = chars_of(text);
    let chars = chars_of(other);
    if find_prefix(&chars) > 0 {
        return other.to_owned();
    }
    if verbatim(&base) && chars.len() > 0 {
        return join_verbatim(&base, text, &chars);
    }
    if chars.len() > 0 && is_separator(chars[0], Style::Windows) {
        let start: usize = find_prefix(&base);
        proof {
            assert(text@.subrange(0, start as int) =~= base@.take(start as int));
        }
        let mut out: String = slice_of(text, 0, start).to_owned();
        push_str(&mut out, other);
        return out;
    }
    let mut out: String = text.to_owned();
    let n: usize = base.len();
    if n > 0 && !is_separator(base[n - 1], Style::Windows) && !(n == 2 && drive_at(&base, 0)) {
        push_char(&mut out, '\\');
    }
    push_str(&mut out, other);
    out
}

fn join_on_unix(text: &str, other: &str) -> (r: String)
    ensures
        r@ == joined_on_unix(text@, other@),
{
    let base = chars_of(text);
    let chars = chars_of(other);
    if chars.len() > 0 && chars[0] == '/' {
        return other.to_owned();
    }
    let mut out: String = text.to_owned();
    let n: usize = base.len();
    if n > 0 && base[n - 1] != '/' {
        push_char(&mut out, '/');
    }
    push_str(&mut out, other);
    out
}

impl NicePathBuf {
    /// A path behind this one. An absolute path stands for itself.
    pub fn join(&self, other: &str, platform: Platform) -> (r: Self)
        ensures
            r@ == joined_path(self@, other@, platform),
    {
        let path = if matches!(platform, Platform::Windows) {
            join_on_windows(self.path.as_str(), other)
        } else {
            join_on_unix(self.path.as_str(), other)
        };
        NicePathBuf { path }
    }

    /// The path without its last name, if it has one.
    pub fn parent(&self, platform: Platform) -> (r: Option<NicePathBuf>)
        ensures
            match r {
                Some(p) => parent_path(self@, platform) == Some(p@),
                None => parent_path(self@, platform) is None,
            },
    {
        let text = self.path.as_str();
        let chars = chars_of(text);
        let windows = matches!(platform, Platform::Windows);
        let start: usize = if windows {
            find_prefix(&chars)
        } else {
            0
        };
        let style = if !windows {
            Style::Unix
        } else if verbatim(&chars) {
            Style::Verbatim
        } else {
            Style::Windows
        };
        match parent_end(&chars, start, style) {
            None => None,
            Some(end) => {
                proof {
                    assert(text@.subrange(0, end as int) =~= chars@.take(start as int)
                        + chars@.subrange(start as int, end as int));
                }
                Some(NicePathBuf::new(slice_of(text, 0, end)))
            },
        }
    }
}

proof fn lemma_last_separator(s: Seq<char>, k: int, style: Style)
    requires
        0 <= k < s.len(),
        is_sep(s[k], style),
        forall|i: int| k < i < s.len() ==> !is_sep(s[i], style),
    ensures
        last_separator(s, style) == k,
    decreases s.len(),
{
    if k < s.len() - 1 {
        assert(!is_sep(s[s.len() - 1], style));
        lemma_last_separator(s.drop_last(), k, style);
    }
}

/// The parent of a name behind a path is the path, where paths are written
/// with slashes.
pub proof fn law_parent_of_joined_is_base(base: Seq<char>, name: Seq<char>, platform: Platform)
    requires
        platform != Platform::Windows,
        base.len() > 0,
        tail_trimmed(base, Style::Unix) == base,
        name.len() > 0,
        !name.contains('/'),
        name != seq!['.'],
    ensures
        parent_path(joined_path(base, name, platform), platform) == Some(base),
{
    let style = Style::Unix;
    let whole = joined_path(base, name, platform);
    assert(name.contains(name[0]));
    assert(name.contains(name.last()));
    let start = whole.len() - name.len();
    assert forall|i: int| start <= i < whole.len() implies whole[i] != '/' by {
        assert(whole[i] == name[i - start]);
        assert(name.contains(name[i - start]));
    }
    assert(whole[start - 1] == '/');
    lemma_last_separator(whole, start - 1, style);
    if name.len() == 1 {
        assert(name[0] != '.') by {
            if name[0] == '.' {
                assert(name =~= seq!['.']);
            }
        }
    } else {
        assert(whole[whole.len() - 2] != '/');
    }
    assert(tail_trimmed(whole, style) == whole);
    assert(whole.skip(0) =~= whole);
    if base.last() == '/' {
        if base.len() > 1 {
            lemma_tail_trimmed_len(base.drop_last(), style);
        }
        assert(base.len() == 1);
        assert(whole.take(1) =~= base);
        assert(whole.take(0) + base =~= base);
    } else {
        assert(whole.take(start - 1) =~= base);
        assert(whole.take(0) + base =~= base);
    }
}

proof fn lemma_tail_trimmed_len(s: Seq<char>, style: Style)
    ensures
        tail_trimmed(s, style).len() <= s.len(),
    decreases s.len(),
{
    if s.len() > 1 {
        lemma_tail_trimmed_len(s.drop_last(), style);
    }
}

} // verus!
