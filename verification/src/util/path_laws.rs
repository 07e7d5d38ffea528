//! How paths are told apart, resolved and presented.
use crate::util::path::{
    canonical_from, debug_text, env_path, literal_mark, parent_parts, parts_text, pretty_path,
    resolved, stripped, without_mark, PartView, Platform,
};
use crate::util::text::{has_prefix, str_debug};
use vstd::prelude::*;

verus! {

/// A path lies below a base exactly where it begins with the base, and the
/// rest is what stands behind it.
pub proof fn law_rest_stands_behind_base(
    path: Seq<PartView>,
    base: Seq<PartView>,
    rest: Seq<PartView>,
)
    ensures
        stripped(base + rest, base) == Some(rest),
        stripped(path, base) == Some(rest) <==> path == base + rest,
        stripped(path, base) is None <==> !(base.len() <= path.len() && forall|i: int|
            0 <= i < base.len() ==> path[i] == base[i]),
{
    let n = base.len() as int;
    assert((base + rest).take(n) =~= base);
    assert((base + rest).skip(n) =~= rest);
    if n <= path.len() {
        if path.take(n) == base {
            assert(path =~= base + path.skip(n));
            assert forall|i: int| 0 <= i < n implies path[i] == base[i] by {
                assert(path.take(n)[i] == path[i]);
            }
        }
        if forall|i: int| 0 <= i < n ==> path[i] == base[i] {
            assert(path.take(n) =~= base);
        }
    }
}

/// Paths are resolved part by part: `.` stays where it is, `..` takes a name
/// back but does not lead above the root, and anything else goes on.
pub proof fn law_dots_are_resolved(
    base: Seq<PartView>,
    a: Seq<PartView>,
    b: Seq<PartView>,
    name: Seq<char>,
)
    ensures
        resolved(base, a + b) == resolved(resolved(base, a), b),
        resolved(base, Seq::empty()) == base,
        resolved(base, seq![PartView::Current]) == base,
        resolved(base, seq![PartView::Name(name)]) == base + seq![PartView::Name(name)],
        resolved(base + seq![PartView::Name(name)], seq![PartView::Parent]) == base,
        resolved(base + seq![PartView::Root], seq![PartView::Parent]) == base + seq![
            PartView::Root,
        ],
        resolved(Seq::empty(), seq![PartView::Parent]) == Seq::<PartView>::empty(),
    decreases b.len(),
{
    let none = Seq::<PartView>::empty();
    if b.len() == 0 {
        assert(a + b =~= a);
    } else {
        law_dots_are_resolved(base, a, b.drop_last(), name);
        assert((a + b).drop_last() =~= a + b.drop_last());
        assert((a + b).last() == b.last());
    }
    let here = seq![PartView::Current];
    let up = seq![PartView::Parent];
    let down = seq![PartView::Name(name)];
    assert(here.drop_last() =~= none && up.drop_last() =~= none && down.drop_last() =~= none);
    assert(resolved(base, none) == base);
    assert(base.push(PartView::Name(name)) =~= base + down);
    let below = base + down;
    assert(below.last() == PartView::Name(name));
    assert(below.drop_last() =~= base);
    assert(resolved(below, none) == below);
    let root = base + seq![PartView::Root];
    assert(root.last() == PartView::Root);
    assert(resolved(root, none) == root);
    assert(resolved(none, none) == none);
}

/// The canonical form of a path that does not exist is that of the closest
/// directory above it that does, with the names behind it resolved. A path
/// that exists has its own canonical form.
pub proof fn law_closest_directory_is_taken(
    path: Seq<PartView>,
    answers: Seq<Option<Seq<PartView>>>,
    n: int,
)
    requires
        0 <= n < answers.len(),
        n <= path.len(),
        answers[n] is Some,
        forall|i: int| 0 <= i < n ==> answers[i] is None,
        forall|i: int| path.len() - n <= i < path.len() ==> !(path[i] is Root) && !(
        path[i] is Prefix),
    ensures
        canonical_from(path, answers, 0) == resolved(
            answers[n]->Some_0,
            path.skip(path.len() - n),
        ),
        n == 0 ==> canonical_from(path, answers, 0) == answers[0]->Some_0,
{
    lemma_canonical_from(path, answers, 0, n);
    if n == 0 {
        assert(path.skip(path.len() as int) =~= Seq::empty());
    }
}

proof fn lemma_canonical_from(
    path: Seq<PartView>,
    answers: Seq<Option<Seq<PartView>>>,
    k: int,
    n: int,
)
    requires
        0 <= k <= n < answers.len(),
        n <= path.len(),
        answers[n] is Some,
        forall|i: int| 0 <= i < n ==> answers[i] is None,
        forall|i: int| path.len() - n <= i < path.len() ==> !(path[i] is Root) && !(
        path[i] is Prefix),
    ensures
        canonical_from(path, answers, k) == resolved(
            answers[n]->Some_0,
            path.skip(path.len() - n),
        ),
    decreases n - k,
{
    if k < n {
        let above = path.take(path.len() - k);
        assert(above.last() == path[path.len() - k - 1]);
        assert(parent_parts(above) is Some);
        lemma_canonical_from(path, answers, k + 1, n);
    }
}

/// The text of a path holds its names with one separator between them, and
/// begins with one where the path begins at the root.
pub proof fn law_names_are_separated(parts: Seq<PartView>, name: Seq<char>, sep: char)
    ensures
        parts_text(Seq::empty(), sep) == Seq::<char>::empty(),
        parts_text(seq![PartView::Root], sep) == seq![sep],
        parts_text(seq![PartView::Name(name)], sep) == name,
        parts_text(seq![PartView::Root, PartView::Name(name)], sep) == seq![sep] + name,
        parts_text(parts, sep).len() > 0 && parts_text(parts, sep).last() != sep ==> parts_text(
            parts + seq![PartView::Name(name)],
            sep,
        ) == parts_text(parts, sep) + seq![sep] + name,
{
    let none = Seq::<PartView>::empty();
    let root = seq![PartView::Root];
    let one = seq![PartView::Name(name)];
    let two = seq![PartView::Root, PartView::Name(name)];
    assert(root.drop_last() =~= none);
    assert(one.drop_last() =~= none);
    assert(two.drop_last() =~= root);
    assert(parts_text(none, sep) =~= Seq::<char>::empty());
    assert(Seq::<char>::empty().push(sep) =~= seq![sep]);
    assert(Seq::<char>::empty() + name =~= name);
    assert(parts_text(root, sep) =~= seq![sep]);
    let more = parts + one;
    assert(more.drop_last() =~= parts);
    assert(more.last() == PartView::Name(name));
    let text = parts_text(parts, sep);
    assert(text.push(sep) + name =~= text + seq![sep] + name);
}

/// On a Unix system a path is presented behind `./` where it lies below the
/// working directory, else behind `/tmp/` where it lies below the directory
/// for temporary files, else behind `~/` where it lies below the home
/// directory, and else as it is.
pub proof fn law_paths_are_pretty(
    path: Seq<char>,
    canonical: Seq<PartView>,
    cwd: Seq<PartView>,
    tmp: Seq<PartView>,
    home: Seq<PartView>,
    rest: Seq<PartView>,
)
    ensures
        ({
            let pretty = |p: Seq<PartView>|
                pretty_path(false, path, p, Some(cwd), tmp, Some(home), Platform::Unix);
            &&& pretty(cwd + rest) == seq!['.', '/'] + parts_text(rest, '/')
            &&& stripped(tmp + rest, cwd) is None ==> pretty(tmp + rest) == seq![
                '/',
                't',
                'm',
                'p',
                '/',
            ] + parts_text(rest, '/')
            &&& stripped(home + rest, cwd) is None && stripped(home + rest, tmp) is None ==> pretty(
                home + rest,
            ) == seq!['~', '/'] + parts_text(rest, '/')
            &&& stripped(canonical, cwd) is None && stripped(canonical, tmp) is None && stripped(
                canonical,
                home,
            ) is None ==> pretty(canonical) == parts_text(canonical, '/')
        }),
        stripped(canonical, tmp) is None ==> pretty_path(
            false,
            path,
            canonical,
            None,
            tmp,
            None,
            Platform::Unix,
        ) == parts_text(canonical, '/'),
{
    reveal_strlit(".");
    reveal_strlit("/tmp");
    reveal_strlit("~");
    law_rest_stands_behind_base(canonical, cwd, rest);
    law_rest_stands_behind_base(canonical, tmp, rest);
    law_rest_stands_behind_base(canonical, home, rest);
    assert("."@.push('/') =~= seq!['.', '/']);
    assert("/tmp"@.push('/') =~= seq!['/', 't', 'm', 'p', '/']);
    assert("~"@.push('/') =~= seq!['~', '/']);
}

/// On Windows a path is presented with backslashes: behind `.\`, behind
/// `%TEMP%\`, behind `%USERPROFILE%\`, or as it is, and between angle brackets
/// for debugging.
pub proof fn law_paths_are_pretty_on_windows(
    path: Seq<char>,
    cwd: Seq<PartView>,
    tmp: Seq<PartView>,
    home: Seq<PartView>,
    rest: Seq<PartView>,
)
    ensures
        ({
            let pretty = |p: Seq<PartView>|
                pretty_path(false, path, p, Some(cwd), tmp, Some(home), Platform::Windows);
            &&& pretty(cwd + rest) == seq!['.', '\\'] + parts_text(rest, '\\')
            &&& stripped(tmp + rest, cwd) is None ==> pretty(tmp + rest) == "%TEMP%"@ + seq!['\\']
                + parts_text(rest, '\\')
            &&& stripped(home + rest, cwd) is None && stripped(home + rest, tmp) is None ==> pretty(
                home + rest,
            ) == "%USERPROFILE%"@ + seq!['\\'] + parts_text(rest, '\\')
        }),
        pretty_path(true, path, cwd + rest, Some(cwd), tmp, Some(home), Platform::Windows) == seq![
            '<',
        ] + parts_text(rest, '\\') + seq!['>'],
{
    reveal_strlit(".");
    reveal_strlit("<");
    reveal_strlit(">");
    law_rest_stands_behind_base(cwd, cwd, rest);
    law_rest_stands_behind_base(tmp, tmp, rest);
    law_rest_stands_behind_base(home, home, rest);
    assert("."@.push('\\') =~= seq!['.', '\\']);
    assert("%TEMP%"@.push('\\') =~= "%TEMP%"@ + seq!['\\']);
    assert("%USERPROFILE%"@.push('\\') =~= "%USERPROFILE%"@ + seq!['\\']);
    assert("<"@ =~= seq!['<'] && ">"@ =~= seq!['>']);
}

/// Apple's systems keep some directories below `/private`: a path there is
/// presented as if it lay below the root. On any other Unix system it is not.
pub proof fn law_private_is_left_out(
    debug: bool,
    path: Seq<char>,
    rest: Seq<PartView>,
    cwd: Option<Seq<PartView>>,
    tmp: Seq<PartView>,
    home: Option<Seq<PartView>>,
)
    ensures
        ({
            let below = seq![PartView::Root, PartView::Name("private"@)] + rest;
            let plain = seq![PartView::Root] + rest;
            pretty_path(debug, path, below, cwd, tmp, home, Platform::Apple) == pretty_path(
                debug,
                path,
                plain,
                cwd,
                tmp,
                home,
                Platform::Unix,
            )
        }),
{
    let private = seq![PartView::Root, PartView::Name("private"@)];
    law_rest_stands_behind_base(private + rest, private, rest);
}

/// For debugging, a path on a Unix system is shown as a string: relative to the
/// working directory, below `/tmp`, or as it is, whether or not it lies below
/// the home directory.
pub proof fn law_paths_are_debugged(
    path: Seq<char>,
    canonical: Seq<PartView>,
    cwd: Seq<PartView>,
    tmp: Seq<PartView>,
    home: Option<Seq<PartView>>,
    rest: Seq<PartView>,
)
    ensures
        ({
            let shown = |p: Seq<PartView>|
                pretty_path(true, path, p, Some(cwd), tmp, home, Platform::Unix);
            &&& shown(cwd + rest) == str_debug(parts_text(rest, '/'))
            &&& stripped(tmp + rest, cwd) is None ==> shown(tmp + rest) == str_debug(
                "/tmp"@ + seq!['/'] + parts_text(rest, '/'),
            )
            &&& stripped(canonical, cwd) is None && stripped(canonical, tmp) is None ==> shown(
                canonical,
            ) == str_debug(parts_text(canonical, '/'))
        }),
{
    law_rest_stands_behind_base(canonical, cwd, rest);
    law_rest_stands_behind_base(canonical, tmp, rest);
    assert("/tmp"@.push('/') =~= "/tmp"@ + seq!['/']);
    assert(debug_text(rest, Platform::Unix) == str_debug(parts_text(rest, '/')));
}

/// On a system of no known kind, a path is presented relative to the working
/// directory, and as it is written if it does not lie there.
pub proof fn law_unknown_systems_show_what_is_written(
    path: Seq<char>,
    canonical: Seq<PartView>,
    cwd: Seq<PartView>,
    tmp: Seq<PartView>,
    home: Option<Seq<PartView>>,
)
    ensures
        stripped(canonical, cwd) is None ==> {
            &&& pretty_path(false, path, canonical, Some(cwd), tmp, home, Platform::Other) == path
            &&& pretty_path(true, path, canonical, Some(cwd), tmp, home, Platform::Other)
                == str_debug(path)
        },
        pretty_path(false, path, canonical, None, tmp, home, Platform::Other) == path,
        pretty_path(true, path, canonical, None, tmp, home, Platform::Other) == str_debug(path),
{
}

/// In the environment a path is named by its canonical form, but that Apple's
/// systems reach the directory for temporary files under `/tmp`.
pub proof fn law_environment_names_paths(
    canonical: Seq<PartView>,
    tmp: Seq<PartView>,
    rest: Seq<PartView>,
)
    ensures
        env_path(canonical, tmp, Platform::Unix) == parts_text(canonical, '/'),
        env_path(canonical, tmp, Platform::Other) == parts_text(canonical, '/'),
        env_path(canonical, tmp, Platform::Windows) == parts_text(canonical, '\\'),
        env_path(tmp + rest, tmp, Platform::Apple) == seq!['/', 't', 'm', 'p', '/'] + parts_text(
            rest,
            '/',
        ),
        stripped(canonical, tmp) is None ==> env_path(canonical, tmp, Platform::Apple)
            == parts_text(canonical, '/'),
{
    reveal_strlit("/tmp");
    law_rest_stands_behind_base(canonical, tmp, rest);
    assert("/tmp"@.push('/') =~= seq!['/', 't', 'm', 'p', '/']);
}

/// The mark of a literal path on Windows is left out wherever it stands, and
/// nothing else is.
pub proof fn law_marks_are_left_out(a: Seq<char>, b: Seq<char>)
    requires
        !a.contains('\\'),
    ensures
        without_mark(a, literal_mark()) == a,
        without_mark(a + seq!['\\', '\\', '?', '\\'] + b, literal_mark()) == a + without_mark(
            b,
            literal_mark(),
        ),
    decreases a.len(),
{
    reveal_strlit("\\\\?\\");
    let mark = seq!['\\', '\\', '?', '\\'];
    assert(literal_mark() =~= mark);
    let whole = a + mark + b;
    if a.len() == 0 {
        assert(whole =~= mark + b);
        assert(whole.take(4) =~= mark);
        assert(whole.skip(4) =~= b);
        assert(has_prefix(whole, mark));
        assert(a + without_mark(b, mark) =~= without_mark(b, mark));
    } else {
        let rest = a.skip(1);
        assert(a.contains(a[0]));
        assert forall|c: char| rest.contains(c) implies a.contains(c) by {
            let i = choose|i: int| 0 <= i < rest.len() && rest[i] == c;
            assert(a[i + 1] == c);
        }
        law_marks_are_left_out(rest, b);
        if has_prefix(a, mark) {
            assert(a.take(4)[0] == a[0]);
        }
        if has_prefix(whole, mark) {
            assert(whole.take(4)[0] == a[0]);
        }
        assert(seq![a[0]] + rest =~= a);
        assert(whole.skip(1) =~= rest + mark + b);
        assert(without_mark(whole, mark) =~= a + without_mark(b, mark));
    }
}

} // verus!
