//! How paths stand behind one another, and what lies above them.
use crate::util::join::{
    is_sep, joined_path, last_separator, name_end, names_from, names_text, parent_path, prefix_len,
    tail_trimmed, with_names, Style,
};
use crate::util::path::Platform;
use vstd::prelude::*;

verus! {

/// On a Unix system an absolute path stands for itself behind any other. One
/// that is not stands behind the other, with a slash between them unless the
/// other is empty or ends in one.
pub proof fn law_paths_are_joined(base: Seq<char>, other: Seq<char>, platform: Platform)
    requires
        platform != Platform::Windows,
    ensures
        joined_path(base, seq!['/'] + other, platform) == seq!['/'] + other,
        !(other.len() > 0 && other[0] == '/') ==> {
            &&& joined_path(Seq::empty(), other, platform) == other
            &&& joined_path(base + seq!['/'], other, platform) == base + seq!['/'] + other
            &&& base.len() > 0 && base.last() != '/' ==> joined_path(base, other, platform) == base
                + seq!['/'] + other
        },
{
    assert(Seq::<char>::empty() + other =~= other);
    assert((seq!['/'] + other)[0] == '/');
    assert((base + seq!['/']).last() == '/');
    assert(base.push('/') =~= base + seq!['/']);
}

/// Whether a character is an ASCII letter.
pub open spec fn is_letter(c: char) -> bool {
    'a' <= c <= 'z' || 'A' <= c <= 'Z'
}

/// On Windows a path with a drive stands for itself behind any other. One that
/// begins with a separator stands behind the drive of the other. Any other
/// path stands behind all of it, with a backslash between them unless there is
/// a separator or nothing but a drive.
pub proof fn law_paths_are_joined_on_windows(
    letter: char,
    base: Seq<char>,
    other: Seq<char>,
    more: Seq<char>,
)
    requires
        is_letter(letter),
        other.len() > 0,
        !is_sep(other[0], Style::Windows),
        !(other.len() > 1 && is_letter(other[0]) && other[1] == ':'),
    ensures
        ({
            let drive = seq![letter, ':'];
            let joined = |a: Seq<char>, b: Seq<char>| joined_path(a, b, Platform::Windows);
            &&& joined(base, drive + more) == drive + more
            &&& joined(drive + base, seq!['\\'] + other) == drive + seq!['\\'] + other
            &&& joined(drive + base, seq!['/'] + other) == drive + seq!['/'] + other
            &&& joined(drive, other) == drive + other
            &&& joined(Seq::empty(), other) == other
            &&& base.len() > 0 && base.last() != '/' && base.last() != '\\' ==> joined(
                drive + base,
                other,
            ) == drive + base + seq!['\\'] + other
            &&& joined(drive + base + seq!['\\'], other) == drive + base + seq!['\\'] + other
            &&& joined(drive + base + seq!['/'], other) == drive + base + seq!['/'] + other
        }),
{
    let drive = seq![letter, ':'];
    let whole = drive + more;
    assert(whole[0] == letter && whole[1] == ':');
    assert(prefix_len(whole) == 2);
    assert(prefix_len(other) == 0);
    let back = seq!['\\'] + other;
    let slash = seq!['/'] + other;
    assert(back[1] == other[0] && slash[1] == other[0]);
    assert(prefix_len(back) == 0);
    assert(prefix_len(slash) == 0);
    let below = drive + base;
    assert(below[0] == letter && below[1] == ':');
    assert(prefix_len(below) == 2);
    assert(below.take(2) =~= drive);
    assert(drive + back =~= drive + seq!['\\'] + other);
    assert(drive + slash =~= drive + seq!['/'] + other);
    assert(below.push('\\') =~= below + seq!['\\']);
    let ended = below + seq!['\\'];
    assert(ended[0] == letter && ended.last() == '\\');
    let closed = below + seq!['/'];
    assert(closed[0] == letter && closed.last() == '/');
    assert(Seq::<char>::empty() + other =~= other);
}

/// Names are added to a path one by one: `.` stands for nothing, `..` takes
/// the name before it away, if there is one, and any other name stays.
pub proof fn law_names_are_added(
    names: Seq<Seq<char>>,
    a: Seq<Seq<char>>,
    b: Seq<Seq<char>>,
    name: Seq<char>,
)
    ensures
        with_names(names, a + b) == with_names(with_names(names, a), b),
        with_names(names, Seq::empty()) == names,
        with_names(names, seq![seq!['.']]) == names,
        name != seq!['.'] && name != seq!['.', '.'] ==> {
            &&& with_names(names, seq![name]) == names + seq![name]
            &&& with_names(names, seq![name, seq!['.', '.']]) == names
        },
        with_names(Seq::empty(), seq![seq!['.', '.']]) == Seq::<Seq<char>>::empty(),
    decreases b.len(),
{
    reveal_strlit(".");
    reveal_strlit("..");
    assert("."@ =~= seq!['.']);
    assert(".."@ =~= seq!['.', '.']);
    assert(".."@.len() == 2 && "."@.len() == 1);
    let none = Seq::<Seq<char>>::empty();
    if b.len() == 0 {
        assert(a + b =~= a);
    } else {
        law_names_are_added(names, a, b.drop_last(), name);
        assert((a + b).drop_last() =~= a + b.drop_last());
        assert((a + b).last() == b.last());
    }
    let dot = seq![seq!['.']];
    let dots = seq![seq!['.', '.']];
    let one = seq![name];
    let two = seq![name, seq!['.', '.']];
    assert(dot.drop_last() =~= none && dots.drop_last() =~= none && one.drop_last() =~= none);
    assert(two.drop_last() =~= one);
    assert(dot.last() == "."@ && dots.last() == ".."@ && two.last() == ".."@);
    assert(with_names(names, none) == names);
    assert(with_names(none, none) == none);
    if name != "."@ && name != ".."@ {
        assert(with_names(names, one) =~= names.push(name));
        assert(names.push(name) =~= names + one);
        assert(names.push(name).last() == name);
        assert(names.push(name).drop_last() =~= names);
    }
}

/// The names of a path are what stands between its separators, however many
/// of these there are.
pub proof fn law_names_stand_between_separators(
    name: Seq<char>,
    rest: Seq<char>,
    sep: char,
    style: Style,
)
    requires
        is_sep(sep, style),
        name.len() > 0,
        forall|i: int| 0 <= i < name.len() ==> !is_sep(#[trigger] name[i], style),
    ensures
        names_from(seq![sep] + rest, 0, style) == names_from(rest, 0, style),
        names_from(name, 0, style) == seq![name],
        names_from(name + seq![sep] + rest, 0, style) == seq![name] + names_from(rest, 0, style),
{
    let after = seq![sep] + rest;
    assert(after[0] == sep);
    lemma_names_shift(after, 1, rest, style, 0);
    lemma_name_end(name, name, 0, style);
    assert(name.subrange(0, name.len() as int) =~= name);
    assert(names_from(name, name.len() as int, style) =~= Seq::empty());
    assert(names_from(name, 0, style) =~= seq![name]);
    let whole = name + seq![sep] + rest;
    let n = name.len() as int;
    assert(whole[n] == sep);
    assert forall|i: int| 0 <= i < n implies !is_sep(#[trigger] whole[i], style) by {
        assert(whole[i] == name[i]);
    }
    lemma_name_end(whole, name, 0, style);
    assert(whole.subrange(0, n) =~= name);
    lemma_names_shift(whole, n + 1, rest, style, 0);
    assert(names_from(whole, n, style) == names_from(whole, n + 1, style));
    assert(whole[0] == name[0]);
}

proof fn lemma_name_end(s: Seq<char>, name: Seq<char>, from: int, style: Style)
    requires
        0 <= from <= name.len() <= s.len(),
        forall|i: int| 0 <= i < name.len() ==> !is_sep(#[trigger] s[i], style),
        name.len() < s.len() ==> is_sep(s[name.len() as int], style),
    ensures
        name_end(s, from, style) == name.len(),
    decreases name.len() - from,
{
    if from < name.len() {
        assert(!is_sep(s[from], style));
        lemma_name_end(s, name, from + 1, style);
    }
}

proof fn lemma_end_shift(s: Seq<char>, k: int, rest: Seq<char>, style: Style, i: int)
    requires
        0 <= k <= s.len(),
        s.skip(k) == rest,
        0 <= i <= rest.len(),
    ensures
        name_end(s, k + i, style) == k + name_end(rest, i, style),
        i <= name_end(rest, i, style) <= rest.len(),
    decreases rest.len() - i,
{
    if i < rest.len() {
        assert(rest[i] == s[k + i]);
        if !is_sep(rest[i], style) {
            lemma_end_shift(s, k, rest, style, i + 1);
        }
    }
}

proof fn lemma_names_shift(s: Seq<char>, k: int, rest: Seq<char>, style: Style, i: int)
    requires
        0 <= k <= s.len(),
        s.skip(k) =~= rest,
        0 <= i <= rest.len(),
    ensures
        names_from(s, k + i, style) == names_from(rest, i, style),
    decreases rest.len() - i,
{
    if i < rest.len() {
        assert(rest[i] == s[k + i]);
        if is_sep(rest[i], style) {
            lemma_names_shift(s, k, rest, style, i + 1);
        } else {
            lemma_end_shift(s, k, rest, style, i);
            lemma_end_shift(s, k, rest, style, i + 1);
            let end = name_end(rest, i, style);
            assert(s.subrange(k + i, k + end) =~= rest.subrange(i, end));
            lemma_names_shift(s, k, rest, style, end);
        }
    }
}

/// Names stand in a text with a backslash before each.
pub proof fn law_names_are_written(a: Seq<Seq<char>>, b: Seq<Seq<char>>, name: Seq<char>)
    ensures
        names_text(a + b) == names_text(a) + names_text(b),
        names_text(seq![name]) == seq!['\\'] + name,
    decreases b.len(),
{
    let none = Seq::<char>::empty();
    if b.len() == 0 {
        assert(a + b =~= a);
        assert(names_text(a) + none =~= names_text(a));
    } else {
        law_names_are_written(a, b.drop_last(), name);
        assert((a + b).drop_last() =~= a + b.drop_last());
        assert((a + b).last() == b.last());
        assert(names_text(a + b) =~= names_text(a) + names_text(b));
    }
    let one = seq![name];
    assert(one.drop_last() =~= Seq::empty());
    assert(names_text(one.drop_last()) =~= none);
    assert(none.push('\\') =~= seq!['\\']);
}

/// Behind a path that begins with `\\?\` and a drive, another is put together
/// with it name by name, and written with a backslash before each name.
pub proof fn law_literal_paths_are_joined_by_names(
    letter: char,
    base: Seq<char>,
    other: Seq<char>,
)
    requires
        is_letter(letter),
        base.len() == 0 || base[0] == '\\',
        other.len() > 0,
        !is_sep(other[0], Style::Windows),
        !(other.len() > 1 && is_letter(other[0]) && other[1] == ':'),
    ensures
        ({
            let start = seq!['\\', '\\', '?', '\\', letter, ':'];
            let names = with_names(
                names_from(base, 0, Style::Verbatim),
                names_from(other, 0, Style::Windows),
            );
            names.len() > 0 ==> joined_path(start + base, other, Platform::Windows) == start
                + names_text(names)
        }),
{
    let start = seq!['\\', '\\', '?', '\\', letter, ':'];
    let whole = start + base;
    assert(whole[0] == '\\' && whole[1] == '\\' && whole[2] == '?' && whole[3] == '\\');
    assert(whole[4] == letter && whole[5] == ':');
    if base.len() > 0 {
        assert(whole[6] == '\\');
    }
    assert(prefix_len(whole) == 6);
    assert(whole.take(6) =~= start);
    assert(prefix_len(other) == 0);
    lemma_names_shift(whole, 6, base, Style::Verbatim, 0);
}

/// On a Unix system nothing lies above the root or an empty path, an empty
/// path lies above a name, and the root above a name in it. A slash at the end
/// of a path does not matter.
pub proof fn law_parents_lie_above(name: Seq<char>, path: Seq<char>, platform: Platform)
    requires
        platform != Platform::Windows,
        name.len() > 0,
        !name.contains('/'),
        name != seq!['.'],
    ensures
        parent_path(Seq::empty(), platform) is None,
        parent_path(seq!['/'], platform) is None,
        parent_path(name, platform) == Some(Seq::<char>::empty()),
        parent_path(seq!['/'] + name, platform) == Some(seq!['/']),
        path.len() > 0 ==> parent_path(path + seq!['/'], platform) == parent_path(path, platform),
{
    let style = Style::Unix;
    let none = Seq::<char>::empty();
    assert(none.skip(0) =~= none);
    let root = seq!['/'];
    assert(root.skip(0) =~= root);
    assert(name.skip(0) =~= name);
    assert(name.take(0) =~= none);
    assert(none + none =~= none);
    assert forall|i: int| 0 <= i < name.len() implies name[i] != '/' by {
        assert(name.contains(name[i]));
    }
    assert(name.last() != '/');
    if name.len() == 1 {
        assert(name =~= seq![name[0]]);
        assert(name[0] != '.');
    }
    assert(tail_trimmed(name, style) == name);
    lemma_no_separator(name);
    assert(parent_path(name, platform) == Some(none));
    let below = root + name;
    assert(below.skip(0) =~= below);
    assert(below.take(0) =~= none);
    assert(below.last() == name.last());
    assert(below[below.len() - 2] == if name.len() == 1 {
        '/'
    } else {
        name[name.len() - 2]
    });
    assert(tail_trimmed(below, style) == below);
    lemma_one_separator(below);
    assert(below.take(1) =~= root);
    assert(none + root =~= root);
    if path.len() > 0 {
        let longer = path + root;
        assert(longer.skip(0) =~= longer);
        assert(path.skip(0) =~= path);
        assert(longer.take(0) =~= none && path.take(0) =~= none);
        assert(longer.drop_last() =~= path);
        assert(longer.last() == '/');
        assert(tail_trimmed(longer, style) == tail_trimmed(path, style));
    }
}

proof fn lemma_no_separator(s: Seq<char>)
    requires
        forall|i: int| 0 <= i < s.len() ==> s[i] != '/',
    ensures
        last_separator(s, Style::Unix) == -1,
    decreases s.len(),
{
    if s.len() > 0 {
        assert(s[s.len() - 1] != '/');
        lemma_no_separator(s.drop_last());
    }
}

proof fn lemma_one_separator(s: Seq<char>)
    requires
        s.len() > 0,
        s[0] == '/',
        forall|i: int| 0 < i < s.len() ==> s[i] != '/',
    ensures
        last_separator(s, Style::Unix) == 0,
    decreases s.len(),
{
    if s.len() > 1 {
        assert(s[s.len() - 1] != '/');
        lemma_one_separator(s.drop_last());
    }
}

} // verus!
