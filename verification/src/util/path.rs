//! File paths: their text, their parts, and how they are presented.
use crate::util::text::{chars_of, debug_str, has_prefix, push_char, push_str, str_debug, str_eq};
use vstd::prelude::*;

verus! {

/// A path that knows how to present itself.
#[derive(Debug)]
pub struct NicePathBuf {
    /// The path as it was given.
    pub path: String,
}

impl View for NicePathBuf {
    type V = Seq<char>;

    open spec fn view(&self) -> Seq<char> {
        self.path@
    }
}

impl Clone for NicePathBuf {
    fn clone(&self) -> (r: Self)
        ensures
            r@ == self@,
    {
        NicePathBuf { path: self.path.clone() }
    }
}

impl NicePathBuf {
    /// The path with the given text.
    pub fn new(path: &str) -> (r: Self)
        ensures
            r@ == path@,
    {
        NicePathBuf { path: path.to_owned() }
    }
}

/// A part of a path.
#[derive(Debug)]
pub enum Part {
    /// What stands before the root on some systems, and whether it names a
    /// disk literally.
    Prefix(String, bool),
    /// The root.
    Root,
    /// The directory itself.
    Current,
    /// The directory above.
    Parent,
    /// A name.
    Name(String),
}

/// The mathematical value of a [`Part`].
pub enum PartView {
    /// What stands before the root on some systems, and whether it names a
    /// disk literally.
    Prefix(Seq<char>, bool),
    /// The root.
    Root,
    /// The directory itself.
    Current,
    /// The directory above.
    Parent,
    /// A name.
    Name(Seq<char>),
}

impl View for Part {
    type V = PartView;

    open spec fn view(&self) -> PartView {
        match self {
            Part::Prefix(s, v) => PartView::Prefix(s@, *v),
            Part::Root => PartView::Root,
            Part::Current => PartView::Current,
            Part::Parent => PartView::Parent,
            Part::Name(s) => PartView::Name(s@),
        }
    }
}

impl Clone for Part {
    fn clone(&self) -> (r: Self)
        ensures
            r@ == self@,
    {
        match self {
            Part::Prefix(s, v) => Part::Prefix(s.clone(), *v),
            Part::Root => Part::Root,
            Part::Current => Part::Current,
            Part::Parent => Part::Parent,
            Part::Name(s) => Part::Name(s.clone()),
        }
    }
}

impl Part {
    fn same(&self, other: &Part) -> (r: bool)
        ensures
            r == (self@ == other@),
    {
        match (self, other) {
            (Part::Prefix(a, v), Part::Prefix(b, w)) => str_eq(a.as_str(), b.as_str()) && *v == *w,
            (Part::Root, Part::Root) => true,
            (Part::Current, Part::Current) => true,
            (Part::Parent, Part::Parent) => true,
            (Part::Name(a), Part::Name(b)) => str_eq(a.as_str(), b.as_str()),
            _ => false,
        }
    }
}

/// The values of a sequence of parts.
pub open spec fn parts_view(parts: Seq<Part>) -> Seq<PartView> {
    parts.map_values(|p: Part| p@)
}

/// Copies the parts from `from` on.
fn copy_from(parts: &Vec<Part>, from: usize) -> (r: Vec<Part>)
    requires
        from <= parts@.len(),
    ensures
        parts_view(r@) == parts_view(parts@).skip(from as int),
{
    let ghost all = parts_view(parts@);
    let mut out: Vec<Part> = Vec::new();
    let mut i: usize = from;
    proof {
        assert(parts_view(out@) =~= all.subrange(from as int, from as int));
    }
    while i < parts.len()
        invariant
            from <= i <= parts@.len(),
            all == parts_view(parts@),
            parts_view(out@) == all.subrange(from as int, i as int),
        decreases parts@.len() - i,
    {
        let ghost had = out@;
        out.push(parts[i].clone());
        i += 1;
        proof {
            assert(parts_view(out@) =~= parts_view(had).push(all[i - 1]));
            assert(all.subrange(from as int, i as int) =~= all.subrange(from as int, i - 1).push(
                all[i - 1],
            ));
        }
    }
    proof {
        assert(all.subrange(from as int, i as int) =~= all.skip(from as int));
    }
    out
}

/// The rest of a path behind a base, if it lies there.
pub open spec fn stripped(path: Seq<PartView>, base: Seq<PartView>) -> Option<Seq<PartView>> {
    if base.len() <= path.len() && path.take(base.len() as int) == base {
        Some(path.skip(base.len() as int))
    } else {
        None
    }
}

/// The rest of a path behind a base, if it lies there.
pub fn strip_prefix(path: &Vec<Part>, base: &Vec<Part>) -> (r: Option<Vec<Part>>)
    ensures
        match r {
            Some(rest) => stripped(parts_view(path@), parts_view(base@)) == Some(
                parts_view(rest@),
            ),
            None => stripped(parts_view(path@), parts_view(base@)) is None,
        },
{
    let ghost p = parts_view(path@);
    let ghost b = parts_view(base@);
    if base.len() > path.len() {
        return None;
    }
    let mut i: usize = 0;
    while i < base.len()
        invariant
            i <= base@.len() <= path@.len(),
            p == parts_view(path@),
            b == parts_view(base@),
            forall|j: int| 0 <= j < i ==> p[j] == b[j],
        decreases base@.len() - i,
    {
        if !path[i].same(&base[i]) {
            proof {
                assert(p.take(b.len() as int)[i as int] == p[i as int]);
                assert(p[i as int] != b[i as int]);
            }
            return None;
        }
        proof {
            assert(p[i as int] == b[i as int]);
        }
        i += 1;
    }
    proof {
        assert(p.take(b.len() as int) =~= b);
    }
    Some(copy_from(path, base.len()))
}

/// The path without its last part, unless that is the root or a prefix.
pub open spec fn parent_parts(path: Seq<PartView>) -> Option<Seq<PartView>> {
    if path.len() == 0 || path.last() is Root || path.last() is Prefix {
        None
    } else {
        Some(path.drop_last())
    }
}

/// A path behind another, with `.` and `..` resolved.
pub open spec fn resolved(base: Seq<PartView>, rest: Seq<PartView>) -> Seq<PartView>
    decreases rest.len(),
{
    if rest.len() == 0 {
        base
    } else {
        let front = resolved(base, rest.drop_last());
        match rest.last() {
            PartView::Parent => match parent_parts(front) {
                Some(p) => p,
                None => front,
            },
            PartView::Current => front,
            other => front.push(other),
        }
    }
}

/// The canonical form of a path, as good as it can be told. `answers` are the
/// canonical forms of the path, of its parent and so on, as far as they exist:
/// the first that does is taken, and what stands behind it is resolved. The
/// first `k` are known not to exist.
pub open spec fn canonical_from(
    path: Seq<PartView>,
    answers: Seq<Option<Seq<PartView>>>,
    k: int,
) -> Seq<PartView>
    decreases answers.len() - k,
{
    let above = path.take(path.len() - k);
    if k >= answers.len() || k > path.len() {
        above
    } else {
        match answers[k] {
            Some(found) => resolved(found, path.skip(path.len() - k)),
            None => if parent_parts(above) is None {
                above
            } else {
                canonical_from(path, answers, k + 1)
            },
        }
    }
}

/// The values of answers.
pub open spec fn answers_view(answers: Seq<Option<Vec<Part>>>) -> Seq<Option<Seq<PartView>>> {
    answers.map_values(
        |a: Option<Vec<Part>>|
            match a {
                Some(p) => Some(parts_view(p@)),
                None => None,
            },
    )
}

/// Removes the last part of a path, unless that is the root or a prefix.
fn pop_part(path: &mut Vec<Part>) -> (r: bool)
    ensures
        match parent_parts(parts_view(old(path)@)) {
            Some(p) => r && parts_view(final(path)@) == p,
            None => !r && parts_view(final(path)@) == parts_view(old(path)@),
        },
{
    let n: usize = path.len();
    if n == 0 {
        return false;
    }
    proof {
        assert(parts_view(path@).last() == path@[n - 1]@);
    }
    if matches!(path[n - 1], Part::Root) || matches!(path[n - 1], Part::Prefix(_, _)) {
        return false;
    }
    let ghost had = path@;
    let _ = path.pop();
    proof {
        assert(parts_view(path@) =~= parts_view(had).drop_last());
    }
    true
}

/// A path behind another, with `.` and `..` resolved.
fn resolve(base: Vec<Part>, path: &Vec<Part>, from: usize) -> (r: Vec<Part>)
    requires
        from <= path@.len(),
    ensures
        parts_view(r@) == resolved(parts_view(base@), parts_view(path@).skip(from as int)),
{
    let ghost start = parts_view(base@);
    let ghost rest = parts_view(path@).skip(from as int);
    let mut out = base;
    let mut i: usize = from;
    proof {
        assert(rest.take(0) =~= Seq::empty());
    }
    while i < path.len()
        invariant
            from <= i <= path@.len(),
            rest == parts_view(path@).skip(from as int),
            parts_view(out@) == resolved(start, rest.take(i - from)),
        decreases path@.len() - i,
    {
        let ghost had = out@;
        proof {
            assert(rest.take(i - from + 1).drop_last() =~= rest.take(i - from));
            assert(rest.take(i - from + 1).last() == path@[i as int]@);
        }
        match &path[i] {
            Part::Parent => {
                let _ = pop_part(&mut out);
            },
            Part::Current => {},
            part => {
                out.push(part.clone());
                proof {
                    assert(parts_view(out@) =~= parts_view(had).push(path@[i as int]@));
                }
            },
        }
        i += 1;
    }
    proof {
        assert(rest.take(i - from) =~= rest);
    }
    out
}

/// Best effort to canonicalize a path, given the canonical forms of the path,
/// of its parent and so on, as far as they exist.
pub fn canonicalize_path(path: &Vec<Part>, answers: &Vec<Option<Vec<Part>>>) -> (r: Vec<Part>)
    ensures
        parts_view(r@) == canonical_from(parts_view(path@), answers_view(answers@), 0),
{
    let ghost p = parts_view(path@);
    let ghost a = answers_view(answers@);
    let n: usize = path.len();
    let mut above = copy_from(path, 0);
    proof {
        assert(p.skip(0) =~= p);
        assert(p.take(n as int) =~= p);
    }
    let mut k: usize = 0;
    while k < answers.len()
        invariant
            k <= answers@.len(),
            k <= n == path@.len(),
            p == parts_view(path@),
            a == answers_view(answers@),
            parts_view(above@) == p.take(n - k),
            canonical_from(p, a, 0) == canonical_from(p, a, k as int),
        decreases answers@.len() - k,
    {
        proof {
            assert(a.len() == answers@.len());
            assert(a[k as int] == (match answers@[k as int] {
                Some(q) => Some(parts_view(q@)),
                None => None,
            }));
        }
        if let Some(found) = &answers[k] {
            let base = copy_from(found, 0);
            proof {
                assert(parts_view(found@).skip(0) =~= parts_view(found@));
            }
            return resolve(base, path, n - k);
        }
        let ghost before = parts_view(above@);
        if !pop_part(&mut above) {
            return above;
        }
        proof {
            assert(p.take(n - k).drop_last() =~= p.take(n - k - 1));
        }
        k += 1;
    }
    above
}

/// The text of a path, with the given separator.
pub open spec fn parts_text(parts: Seq<PartView>, sep: char) -> Seq<char>
    decreases parts.len(),
{
    if parts.len() == 0 {
        Seq::empty()
    } else {
        let front = parts_text(parts.drop_last(), sep);
        let gap = if front.len() > 0 && front.last() != sep {
            front.push(sep)
        } else {
            front
        };
        match parts.last() {
            PartView::Prefix(s, _) => front + s,
            PartView::Root => front.push(sep),
            PartView::Current => gap + "."@,
            PartView::Parent => gap + ".."@,
            PartView::Name(s) => gap + s,
        }
    }
}

/// The text of a path, with the given separator.
pub fn path_text(parts: &Vec<Part>, sep: char) -> (r: String)
    ensures
        r@ == parts_text(parts_view(parts@), sep),
{
    let ghost all = parts_view(parts@);
    let mut out = String::new();
    let mut i: usize = 0;
    proof {
        assert(all.take(0) =~= Seq::empty());
        assert(out@ =~= Seq::empty());
    }
    while i < parts.len()
        invariant
            i <= parts@.len(),
            all == parts_view(parts@),
            out@ == parts_text(all.take(i as int), sep),
        decreases parts@.len() - i,
    {
        proof {
            assert(all.take(i + 1).drop_last() =~= all.take(i as int));
            assert(all.take(i + 1).last() == parts@[i as int]@);
        }
        let named = matches!(parts[i], Part::Current) || matches!(parts[i], Part::Parent)
            || matches!(parts[i], Part::Name(_));
        if named {
            let chars = chars_of(out.as_str());
            let n: usize = chars.len();
            if n > 0 && chars[n - 1] != sep {
                push_char(&mut out, sep);
            }
        }
        match &parts[i] {
            Part::Prefix(s, _) => {
                push_str(&mut out, s.as_str());
            },
            Part::Root => {
                push_char(&mut out, sep);
            },
            Part::Current => {
                push_str(&mut out, ".");
            },
            Part::Parent => {
                push_str(&mut out, "..");
            },
            Part::Name(s) => {
                push_str(&mut out, s.as_str());
            },
        }
        i += 1;
    }
    proof {
        assert(all.take(i as int) =~= all);
    }
    out
}

/// The kind of system that paths are presented for.
#[derive(Clone, Copy, PartialEq, Eq, Structural, Debug)]
pub enum Platform {
    /// A Unix system by Apple.
    Apple,
    /// Any other Unix system.
    Unix,
    /// Windows.
    Windows,
    /// Anything else.
    Other,
}

/// The separator of paths.
pub open spec fn separator(platform: Platform) -> char {
    if platform == Platform::Windows {
        '\\'
    } else {
        '/'
    }
}

/// A path as it is shown for debugging.
pub open spec fn debug_text(parts: Seq<PartView>, platform: Platform) -> Seq<char> {
    let text = parts_text(parts, separator(platform));
    if platform == Platform::Windows {
        "<"@ + text + ">"@
    } else {
        str_debug(text)
    }
}

/// The path of a directory with one name below the root.
pub open spec fn root_dir(name: Seq<char>) -> Seq<PartView> {
    seq![PartView::Root, PartView::Name(name)]
}

/// A text without any occurrence of `mark`.
pub open spec fn without_mark(s: Seq<char>, mark: Seq<char>) -> Seq<char>
    decreases s.len(),
{
    if s.len() == 0 || mark.len() == 0 {
        s
    } else if has_prefix(s, mark) {
        without_mark(s.skip(mark.len() as int), mark)
    } else {
        seq![s[0]] + without_mark(s.skip(1), mark)
    }
}

/// The mark of a literal path on Windows.
pub open spec fn literal_mark() -> Seq<char> {
    "\\\\?\\"@
}

/// Whether a path begins with a prefix that names a disk literally.
pub open spec fn names_disk_literally(parts: Seq<PartView>) -> bool {
    parts.len() > 0 && (parts[0] matches PartView::Prefix(_, v) && v)
}

/// The canonical form of a path as it is shown. Apple's systems keep some
/// directories below `/private`, which is left out.
pub open spec fn shown_path(canonical: Seq<PartView>, platform: Platform) -> Seq<PartView> {
    if platform == Platform::Apple && canonical.len() > 0 && canonical[0] is Root {
        match stripped(canonical, root_dir("private"@)) {
            Some(rest) => seq![PartView::Root] + rest,
            None => canonical,
        }
    } else {
        canonical
    }
}

/// How a path is presented: relative to the working directory, to the
/// directory for temporary files or to the home directory, if it lies there.
pub open spec fn pretty_path(
    debug: bool,
    path: Seq<char>,
    canonical: Seq<PartView>,
    cwd: Option<Seq<PartView>>,
    tmp: Seq<PartView>,
    home: Option<Seq<PartView>>,
    platform: Platform,
) -> Seq<char> {
    let sep = separator(platform);
    let windows = platform == Platform::Windows;
    let shown = shown_path(canonical, platform);
    let below_cwd = match cwd {
        Some(base) => stripped(shown, base),
        None => None,
    };
    let below_home = match home {
        Some(base) => stripped(shown, base),
        None => None,
    };
    if let Some(rest) = below_cwd {
        if debug {
            debug_text(rest, platform)
        } else {
            "."@.push(sep) + parts_text(rest, sep)
        }
    } else if platform == Platform::Other {
        if debug {
            str_debug(path)
        } else {
            path
        }
    } else if let Some(rest) = stripped(shown, tmp) {
        let base = if windows {
            "%TEMP%"@
        } else {
            "/tmp"@
        };
        let text = base.push(sep) + parts_text(rest, sep);
        if !debug {
            text
        } else if windows {
            "<"@ + text + ">"@
        } else {
            str_debug(text)
        }
    } else if debug {
        if windows && names_disk_literally(shown) {
            without_mark("<"@ + parts_text(shown, sep) + ">"@, literal_mark())
        } else {
            debug_text(shown, platform)
        }
    } else if let Some(rest) = below_home {
        (if windows {
            "%USERPROFILE%"@
        } else {
            "~"@
        }).push(sep) + parts_text(rest, sep)
    } else if windows && names_disk_literally(shown) {
        without_mark(parts_text(shown, sep), literal_mark())
    } else {
        parts_text(shown, sep)
    }
}

fn separator_of(platform: Platform) -> (r: char)
    ensures
        r == separator(platform),
{
    match platform {
        Platform::Windows => '\\',
        _ => '/',
    }
}

/// A path as it is shown for debugging, given its text.
fn debug_of(text: &str, windows: bool) -> (r: String)
    ensures
        r@ == (if windows {
            "<"@ + text@ + ">"@
        } else {
            str_debug(text@)
        }),
{
    if windows {
        let mut out = "<".to_owned();
        push_str(&mut out, text);
        push_str(&mut out, ">");
        out
    } else {
        debug_str(text)
    }
}

/// Removes the mark of a literal path from a text.
fn remove_mark(text: &str) -> (r: String)
    ensures
        r@ == without_mark(text@, literal_mark()),
{
    let chars = chars_of(text);
    let mark = chars_of("\\\\?\\");
    let n: usize = chars.len();
    let m: usize = mark.len();
    let mut out = String::new();
    let mut i: usize = 0;
    proof {
        reveal_strlit("\\\\?\\");
        assert(mark@.len() == 4);
        assert(chars@.skip(0) =~= chars@);
        assert(out@ + without_mark(chars@, mark@) =~= without_mark(chars@, mark@));
    }
    while i < n
        invariant
            i <= n == chars@.len(),
            m == mark@.len() == 4,
            mark@ == literal_mark(),
            chars@ == text@,
            without_mark(text@, mark@) == out@ + without_mark(chars@.skip(i as int), mark@),
        decreases n - i,
    {
        let ghost rest = chars@.skip(i as int);
        let ghost had = out@;
        let here = n - i >= m && chars[i] == mark[0] && chars[i + 1] == mark[1] && chars[i + 2]
            == mark[2] && chars[i + 3] == mark[3];
        if here {
            proof {
                assert(rest.take(4) =~= mark@);
                assert(rest.skip(4) =~= chars@.skip(i + 4));
            }
            i += m;
        } else {
            proof {
                if has_prefix(rest, mark@) {
                    assert(rest.take(4)[0] == rest[0] && rest.take(4)[1] == rest[1] && rest.take(
                        4,
                    )[2] == rest[2] && rest.take(4)[3] == rest[3]);
                    assert(false);
                }
                assert(rest.skip(1) =~= chars@.skip(i + 1));
            }
            push_char(&mut out, chars[i]);
            proof {
                let tail = without_mark(chars@.skip(i + 1), mark@);
                assert(had + (seq![rest[0]] + tail) =~= out@ + tail);
            }
            i += 1;
        }
    }
    proof {
        assert(chars@.skip(i as int) =~= Seq::empty());
        assert(out@ + Seq::<char>::empty() =~= out@);
    }
    out
}

/// The path of a directory with one name below the root.
fn dir_below_root(name: &str) -> (r: Vec<Part>)
    ensures
        parts_view(r@) == root_dir(name@),
{
    let mut out: Vec<Part> = Vec::new();
    out.push(Part::Root);
    out.push(Part::Name(name.to_owned()));
    proof {
        assert(parts_view(out@) =~= root_dir(name@));
    }
    out
}

/// The canonical form of a path as it is shown.
fn path_to_show(canonical: &Vec<Part>, platform: Platform) -> (r: Vec<Part>)
    ensures
        parts_view(r@) == shown_path(parts_view(canonical@), platform),
{
    let ghost c = parts_view(canonical@);
    proof {
        assert(c.skip(0) =~= c);
        if c.len() > 0 {
            assert(c[0] == canonical@[0]@);
        }
    }
    if matches!(platform, Platform::Apple) && canonical.len() > 0 && matches!(
        canonical[0],
        Part::Root
    ) {
        if let Some(rest) = strip_prefix(canonical, &dir_below_root("private")) {
            let ghost below = parts_view(rest@);
            let mut more = rest;
            let mut out: Vec<Part> = Vec::new();
            out.push(Part::Root);
            out.append(&mut more);
            proof {
                assert(parts_view(out@) =~= seq![PartView::Root] + below);
            }
            return out;
        }
    }
    copy_from(canonical, 0)
}

/// A base and a path behind it.
fn behind(base: &str, sep: char, rest: &Vec<Part>) -> (r: String)
    ensures
        r@ == base@.push(sep) + parts_text(parts_view(rest@), sep),
{
    let mut out: String = base.to_owned();
    push_char(&mut out, sep);
    push_str(&mut out, path_text(rest, sep).as_str());
    out
}

fn is_literal_disk(parts: &Vec<Part>) -> (r: bool)
    ensures
        r == names_disk_literally(parts_view(parts@)),
{
    if parts.len() == 0 {
        return false;
    }
    proof {
        assert(parts_view(parts@)[0] == parts@[0]@);
    }
    match &parts[0] {
        Part::Prefix(_, literal) => *literal,
        _ => false,
    }
}

spec fn option_parts(parts: Option<Vec<Part>>) -> Option<Seq<PartView>> {
    match parts {
        Some(p) => Some(parts_view(p@)),
        None => None,
    }
}

/// The directories that paths are presented relative to.
pub struct KnownDirs {
    /// The working directory.
    pub cwd: Option<Vec<Part>>,
    /// The directory for temporary files.
    pub tmp: Vec<Part>,
    /// The home directory.
    pub home: Option<Vec<Part>>,
}

impl KnownDirs {
    /// The value of the working directory.
    pub closed spec fn cwd_parts(&self) -> Option<Seq<PartView>> {
        option_parts(self.cwd)
    }

    /// The value of the directory for temporary files.
    pub open spec fn tmp_parts(&self) -> Seq<PartView> {
        parts_view(self.tmp@)
    }

    /// The value of the home directory.
    pub closed spec fn home_parts(&self) -> Option<Seq<PartView>> {
        option_parts(self.home)
    }
}

/// Presents a path, given its canonical form and the directories that it may
/// lie in. On a system of no known kind it is shown as it is written.
pub fn write_pretty_path(
    debug: bool,
    path: &NicePathBuf,
    canonical: &Vec<Part>,
    dirs: &KnownDirs,
    platform: Platform,
) -> (r: String)
    ensures
        r@ == pretty_path(
            debug,
            path@,
            parts_view(canonical@),
            dirs.cwd_parts(),
            dirs.tmp_parts(),
            dirs.home_parts(),
            platform,
        ),
{
    let sep: char = separator_of(platform);
    let windows = matches!(platform, Platform::Windows);
    let shown = path_to_show(canonical, platform);
    if let Some(cwd) = &dirs.cwd {
        if let Some(rest) = strip_prefix(&shown, cwd) {
            return if debug {
                debug_of(path_text(&rest, sep).as_str(), windows)
            } else {
                behind(".", sep, &rest)
            };
        }
    }
    if matches!(platform, Platform::Other) {
        return if debug {
            debug_of(path.path.as_str(), windows)
        } else {
            path.path.clone()
        };
    }
    if let Some(rest) = strip_prefix(&shown, &dirs.tmp) {
        let text = behind(
            if windows {
                "%TEMP%"
            } else {
                "/tmp"
            },
            sep,
            &rest,
        );
        return if debug {
            debug_of(text.as_str(), windows)
        } else {
            text
        };
    }
    if debug {
        let text = debug_of(path_text(&shown, sep).as_str(), windows);
        return if windows && is_literal_disk(&shown) {
            remove_mark(text.as_str())
        } else {
            text
        };
    }
    if let Some(home) = &dirs.home {
        if let Some(rest) = strip_prefix(&shown, home) {
            return behind(
                if windows {
                    "%USERPROFILE%"
                } else {
                    "~"
                },
                sep,
                &rest,
            );
        }
    }
    let text = path_text(&shown, sep);
    if windows && is_literal_disk(&shown) {
        remove_mark(text.as_str())
    } else {
        text
    }
}

/// How a path is named in the environment, given its canonical form. Where it
/// may be reached in several ways, the shortest is chosen: `/tmp` on Apple's
/// systems.
pub open spec fn env_path(
    canonical: Seq<PartView>,
    tmp: Seq<PartView>,
    platform: Platform,
) -> Seq<char> {
    let text = parts_text(canonical, separator(platform));
    if platform == Platform::Apple {
        match stripped(canonical, tmp) {
            Some(rest) => "/tmp"@.push('/') + parts_text(rest, '/'),
            None => text,
        }
    } else {
        text
    }
}

impl NicePathBuf {
    /// Returns a string that can be used in the environment to refer to a path,
    /// given its canonical form.
    ///
    /// In the case where this path may be accessed via multiple routes, we will
    /// choose the shortest (ie: /tmp on macOS rather than /private/tmp).
    pub fn env_string(canonical: &Vec<Part>, tmp: &Vec<Part>, platform: Platform) -> (r: String)
        ensures
            r@ == env_path(parts_view(canonical@), parts_view(tmp@), platform),
    {
        if matches!(platform, Platform::Apple) {
            if let Some(rest) = strip_prefix(canonical, tmp) {
                return behind("/tmp", '/', &rest);
            }
        }
        path_text(canonical, separator_of(platform))
    }
}

} // verus!
