use std::path::{Component, Path};

use crok::testing::{select_test, sort_tests, TestCase};
use crok::util::path::{
    canonicalize_path, path_text, strip_prefix, write_pretty_path, KnownDirs, NicePathBuf, Part,
    Platform,
};

fn parts(text: &str) -> Vec<Part> {
    let mut out = Vec::new();
    if text.starts_with('/') {
        out.push(Part::Root);
    }
    for name in text.split('/') {
        match name {
            "" => {}
            "." => out.push(Part::Current),
            ".." => out.push(Part::Parent),
            name => out.push(Part::Name(name.to_string())),
        }
    }
    out
}

fn dirs() -> KnownDirs {
    KnownDirs {
        cwd: Some(parts("/work/here")),
        tmp: parts("/var/tmp"),
        home: Some(parts("/home/me")),
    }
}

fn pretty(debug: bool, path: &str, platform: Platform) -> String {
    write_pretty_path(debug, &NicePathBuf::new(path), &parts(path), &dirs(), platform)
}

#[test]
fn paths_are_joined_like_on_unix() {
    for (a, b) in [("/a", "b"), ("/a/", "b"), ("a", ""), ("", "b"), ("a", "/b"), ("/", "x/y")] {
        let expected = std::path::Path::new(a).join(b).to_str().unwrap().to_string();
        assert_eq!(NicePathBuf::new(a).join(b, Platform::Unix).path, expected);
    }
}

#[test]
fn parents_are_those_of_unix() {
    for text in [
        "", "/", "a", "/a", "a/b", "/a/b/", "/a//b", "a/.", "./a", ".", "..", "a/..", "//a", "//",
        "/.", "a/./b", "a//", "/a/./", "./", "a/b/./.", "../x", "/a/b/c.d",
    ] {
        let expected = std::path::Path::new(text).parent().map(|p| p.to_str().unwrap().to_string());
        assert_eq!(NicePathBuf::new(text).parent(Platform::Unix).map(|p| p.path), expected, "{:?}", text);
    }
}

#[test]
fn paths_are_joined_like_on_windows() {
    for (base, other, joined) in [
        (r"C:\a", "b", r"C:\a\b"),
        (r"C:\a\", "b", r"C:\a\b"),
        ("a/", "b", "a/b"),
        ("C:", "b", "C:b"),
        ("", "b", "b"),
        (r"C:\a", r"D:\b", r"D:\b"),
        (r"C:\a", "D:b", "D:b"),
        (r"C:\a", r"\b", r"C:\b"),
        (r"\\server\share\a", r"\b", r"\\server\share\b"),
        (r"\\server\share", "b", r"\\server\share\b"),
        (r"C:\a", r"\\server\share\b", r"\\server\share\b"),
        (r"\\?\C:\a\b", r"..\.\c/d", r"\\?\C:\a\c\d"),
        (r"\\?\C:\a", r"\b", r"\\?\C:\b"),
        (r"\\?\C:\a", "..", r"\\?\C:\"),
        (r"\\?\C:\a", "", r"\\?\C:\a\"),
        (r"\\?\UNC\server\share\a", "b", r"\\?\UNC\server\share\a\b"),
    ] {
        assert_eq!(NicePathBuf::new(base).join(other, Platform::Windows).path, joined);
    }
}

#[test]
fn parents_are_those_of_windows() {
    for (text, parent) in [
        (r"C:\a\b", Some(r"C:\a")),
        (r"C:\a/b\", Some(r"C:\a")),
        (r"C:\a", Some(r"C:\")),
        (r"C:\", None),
        ("C:", None),
        ("C:a", Some("C:")),
        (r"a\b", Some("a")),
        ("a", Some("")),
        ("", None),
        (r"\\server\share\a", Some(r"\\server\share\")),
        (r"\\server\share", None),
        (r"\\.\COM42", None),
        (r"\\?\C:\a\.", Some(r"\\?\C:\a")),
        (r"\\?\C:\a/b", Some(r"\\?\C:\")),
        (r"C:\a\.", Some(r"C:\")),
    ] {
        assert_eq!(
            NicePathBuf::new(text).parent(Platform::Windows).map(|p| p.path),
            parent.map(|p| p.to_string()),
            "{}",
            text
        );
    }
}

#[test]
fn the_parent_of_a_joined_name_is_the_base() {
    for base in ["/", "/a", "a/b", "."] {
        let joined = NicePathBuf::new(base).join("name.x", Platform::Unix);
        assert_eq!(joined.parent(Platform::Unix).unwrap().path, base);
    }
}

#[test]
fn paths_are_presented() {
    assert_eq!(pretty(false, "/work/here/a/b", Platform::Unix), "./a/b");
    assert_eq!(pretty(true, "/work/here/a/b", Platform::Unix), "\"a/b\"");
    assert_eq!(pretty(false, "/var/tmp/hello.world", Platform::Unix), "/tmp/hello.world");
    assert_eq!(pretty(true, "/var/tmp/hello.world", Platform::Unix), "\"/tmp/hello.world\"");
    assert_eq!(pretty(false, "/home/me/x", Platform::Unix), "~/x");
    assert_eq!(pretty(true, "/home/me/x", Platform::Unix), "\"/home/me/x\"");
    assert_eq!(pretty(false, "/etc/x", Platform::Unix), "/etc/x");
    assert_eq!(pretty(false, "/private/etc/x", Platform::Apple), "/etc/x");
    assert_eq!(pretty(false, "/private/etc/x", Platform::Unix), "/private/etc/x");
    assert_eq!(pretty(false, "/var/tmp/x", Platform::Other), "/var/tmp/x");
    assert_eq!(pretty(false, "/a//b/./c", Platform::Other), "/a//b/./c");
    assert_eq!(pretty(true, "/a//b", Platform::Other), "\"/a//b\"");
}

#[test]
fn windows_paths_are_presented() {
    let disk = |names: &[&str]| {
        let mut out = vec![Part::Prefix("\\\\?\\C:".to_string(), true), Part::Root];
        out.extend(names.iter().map(|n| Part::Name(n.to_string())));
        out
    };
    let dirs = KnownDirs { cwd: None, tmp: disk(&["Temp"]), home: Some(disk(&["me"])) };
    let path = NicePathBuf::new("x");
    let show = |debug: bool, p: &Vec<Part>| {
        write_pretty_path(debug, &path, p, &dirs, Platform::Windows)
    };
    assert_eq!(show(false, &disk(&["directory"])), "C:\\directory");
    assert_eq!(show(true, &disk(&["directory"])), "<C:\\directory>");
    assert_eq!(show(false, &disk(&["Temp", "hello.world"])), "%TEMP%\\hello.world");
    assert_eq!(show(true, &disk(&["Temp", "hello.world"])), "<%TEMP%\\hello.world>");
    assert_eq!(show(false, &disk(&["me", "x"])), "%USERPROFILE%\\x");
}

#[test]
fn canonical_forms_are_found_above() {
    let path = parts("/gone/../tmp/x");
    let answers = vec![None, None, None, None, Some(parts("/"))];
    assert_eq!(path_text(&canonicalize_path(&path, &answers), '/'), "/tmp/x");
    let answers = vec![None, None, Some(parts("/real"))];
    assert_eq!(
        path_text(&canonicalize_path(&parts("/link/a/b"), &answers), '/'),
        "/real/a/b"
    );
    let answers = vec![Some(parts("/there"))];
    assert_eq!(path_text(&canonicalize_path(&parts("a"), &answers), '/'), "/there");
    assert_eq!(path_text(&canonicalize_path(&parts("a/b"), &vec![None, None, None]), '/'), "");
    assert_eq!(path_text(&canonicalize_path(&parts(""), &vec![None]), '/'), "");
}

#[test]
fn paths_in_the_environment() {
    let tmp = parts("/private/tmp");
    assert_eq!(
        NicePathBuf::env_string(&parts("/private/tmp/a"), &tmp, Platform::Apple),
        "/tmp/a"
    );
    assert_eq!(
        NicePathBuf::env_string(&parts("/private/tmp/a"), &tmp, Platform::Unix),
        "/private/tmp/a"
    );
    assert_eq!(NicePathBuf::env_string(&parts("/a/../b"), &tmp, Platform::Apple), "/a/../b");
    assert!(strip_prefix(&parts("/a/b"), &parts("/a/c")).is_none());
    assert_eq!(strip_prefix(&parts("/a/b"), &parts("/a")).unwrap().len(), 1);
}

fn parts_of(path: &Path) -> Vec<Part> {
    path.components()
        .map(|component| match component {
            Component::RootDir => Part::Root,
            Component::CurDir => Part::Current,
            Component::ParentDir => Part::Parent,
            other => Part::Name(other.as_os_str().to_str().unwrap().to_string()),
        })
        .collect()
}

/// Presents a path as it is on this system.
fn shown(debug: bool, nice: &NicePathBuf) -> String {
    let path = Path::new(&nice.path);
    let answers = path
        .ancestors()
        .map(|p| dunce::canonicalize(p).ok().map(|p| parts_of(&p)))
        .collect();
    let dirs = KnownDirs {
        cwd: dunce::canonicalize(".").ok().map(|p| parts_of(&p)),
        tmp: parts_of(&dunce::canonicalize(tempfile::env::temp_dir()).unwrap()),
        home: dirs::home_dir().map(|p| parts_of(&p)),
    };
    let canonical = canonicalize_path(&parts_of(path), &answers);
    write_pretty_path(debug, nice, &canonical, &dirs, Platform::Unix)
}

#[test]
fn test_nice_path_buf_tmp_unix() {
    let path = NicePathBuf::new("/tmp/hello.world");

    assert_eq!("/tmp/hello.world", shown(false, &path));
    assert_eq!("\"/tmp/hello.world\"", shown(true, &path));

    let path = NicePathBuf::new("//tmp//hello.world");

    assert_eq!("/tmp/hello.world", shown(false, &path));
    assert_eq!("\"/tmp/hello.world\"", shown(true, &path));

    let path = NicePathBuf::new("//does-not-exist-anywhere/..//tmp//hello.world");

    assert_eq!("/tmp/hello.world", shown(false, &path));
    assert_eq!("\"/tmp/hello.world\"", shown(true, &path));

    let path = NicePathBuf::new(
        Path::new("/tmp")
            .canonicalize()
            .unwrap()
            .join("hello.world")
            .to_str()
            .unwrap(),
    );

    assert_eq!("/tmp/hello.world", shown(false, &path));
    assert_eq!("\"/tmp/hello.world\"", shown(true, &path));

    // Test partial canonicalization
    let temp_dir = tempfile::tempdir().unwrap();
    let path = NicePathBuf::new(temp_dir.path().to_str().unwrap()).join("a/b/c/d", Platform::Unix);

    let name = temp_dir.path().file_name().unwrap().to_string_lossy();

    assert_eq!(format!("/tmp/{name}/a/b/c/d"), shown(false, &path));
    assert_eq!(format!("\"/tmp/{name}/a/b/c/d\""), shown(true, &path));
}

fn case(name: &str, content: &str) -> TestCase {
    TestCase {
        name: name.to_string(),
        content: content.to_string(),
        expected_output: None,
        expected_output_file: None,
        path: NicePathBuf::new(name),
    }
}

#[test]
fn tests_are_selected_and_sorted() {
    assert_eq!(select_test("dir", "a.cli", None), Some("dir/a.cli".to_string()));
    assert_eq!(select_test("dir", "a.out", None), None);
    assert_eq!(select_test("dir", "a.cli", Some("r/a")), Some("dir/a.cli".to_string()));
    assert_eq!(select_test("dir", "a.cli", Some("b")), None);
    assert_eq!(select_test("dir", "a.cli", Some("")), Some("dir/a.cli".to_string()));
    let sorted = sort_tests(vec![
        case("b", "1"),
        case("a/é", "2"),
        case("b", "3"),
        case("a", "4"),
        case("a/b", "5"),
    ]);
    let order: Vec<&str> = sorted.iter().map(|t| t.content.as_str()).collect();
    assert_eq!(order, vec!["4", "5", "2", "1", "3"]);
}
