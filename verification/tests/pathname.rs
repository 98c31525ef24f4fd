use lost_commander::panel::tags;
use lost_commander::pathname::{
    below_text, components_of, extension_of, file_name_of, is_absolute, is_before, is_same, join,
    parent_of, Style,
};
use lost_commander::paths::{resolved, tidied};

const UNIX: Style = Style::Unix;
const WINDOWS: Style = Style::Windows;

fn some(text: &str) -> Option<String> {
    Some(text.to_string())
}

#[test]
fn the_name_at_the_end_of_a_path() {
    assert_eq!(file_name_of(UNIX, "/usr/bin/"), some("bin"));
    assert_eq!(file_name_of(UNIX, "tmp/foo.txt"), some("foo.txt"));
    assert_eq!(file_name_of(UNIX, "foo.txt/."), some("foo.txt"));
    assert_eq!(file_name_of(UNIX, "foo.txt/.//"), some("foo.txt"));
    assert_eq!(file_name_of(UNIX, "foo.txt/.."), None);
    assert_eq!(file_name_of(UNIX, "/"), None);
    // A backslash and a colon are characters like any other.
    assert_eq!(file_name_of(UNIX, r"C:\a"), some(r"C:\a"));

    assert_eq!(file_name_of(WINDOWS, r"C:\a\b.txt"), some("b.txt"));
    assert_eq!(file_name_of(WINDOWS, r"C:\a/b.txt\"), some("b.txt"));
    assert_eq!(file_name_of(WINDOWS, "C:b.txt"), some("b.txt"));
    assert_eq!(file_name_of(WINDOWS, r"C:\"), None);
    assert_eq!(file_name_of(WINDOWS, "C:"), None);
    assert_eq!(file_name_of(WINDOWS, r"\\server\share"), None);
    assert_eq!(file_name_of(WINDOWS, r"\\server\share\a"), some("a"));
    assert_eq!(file_name_of(WINDOWS, r"\\?\C:\a\b/c"), some("b/c"));
    assert_eq!(file_name_of(WINDOWS, r"\\.\COM42"), None);
}

#[test]
fn the_path_above() {
    assert_eq!(parent_of(UNIX, "/foo/bar"), some("/foo"));
    assert_eq!(parent_of(UNIX, "/foo"), some("/"));
    assert_eq!(parent_of(UNIX, "/"), None);
    assert_eq!(parent_of(UNIX, "foo"), some(""));
    assert_eq!(parent_of(UNIX, ""), None);

    assert_eq!(parent_of(WINDOWS, r"C:\a\b"), some(r"C:\a"));
    assert_eq!(parent_of(WINDOWS, r"C:\a"), some(r"C:\"));
    assert_eq!(parent_of(WINDOWS, r"C:\"), None);
    assert_eq!(parent_of(WINDOWS, "C:a"), some("C:"));
    assert_eq!(parent_of(WINDOWS, r"\\server\share\a"), some(r"\\server\share\"));
    assert_eq!(parent_of(WINDOWS, r"\\server\share\"), None);
    assert_eq!(parent_of(WINDOWS, r"\\?\C:\a"), some(r"\\?\C:\"));
    assert_eq!(parent_of(WINDOWS, "a/b"), some("a"));
}

#[test]
fn the_ending_of_a_name() {
    assert_eq!(extension_of(UNIX, "a.tar.gz"), some("gz"));
    assert_eq!(extension_of(UNIX, ".profile"), None);
    assert_eq!(extension_of(UNIX, r"a.b\c"), some(r"b\c"));
    assert_eq!(extension_of(WINDOWS, r"a.b\c"), None);
    assert_eq!(extension_of(WINDOWS, r"C:\a.b\c.txt"), some("txt"));
}

#[test]
fn which_paths_are_absolute() {
    assert!(is_absolute(UNIX, "/a"));
    assert!(!is_absolute(UNIX, r"C:\a"));
    assert!(is_absolute(WINDOWS, r"C:\a"));
    assert!(is_absolute(WINDOWS, "c:/a"));
    assert!(!is_absolute(WINDOWS, "C:a"));
    assert!(!is_absolute(WINDOWS, r"\a"));
    assert!(is_absolute(WINDOWS, r"\\server\share"));
    assert!(is_absolute(WINDOWS, r"\\?\pictures"));
    // A server without a share is only a name below a root.
    assert!(!is_absolute(WINDOWS, r"\\server"));
}

#[test]
fn a_path_below_another() {
    assert_eq!(join(UNIX, "/etc", "passwd"), "/etc/passwd");
    assert_eq!(join(UNIX, "/etc/", "passwd"), "/etc/passwd");
    assert_eq!(join(UNIX, "/etc", "/bin/sh"), "/bin/sh");
    assert_eq!(join(UNIX, "/etc", ""), "/etc/");
    assert_eq!(join(UNIX, "", "a"), "a");

    assert_eq!(join(WINDOWS, r"C:\a", "b"), r"C:\a\b");
    assert_eq!(join(WINDOWS, r"C:\", "b"), r"C:\b");
    assert_eq!(join(WINDOWS, "C:", "b"), "C:b");
    assert_eq!(join(WINDOWS, r"C:\a", r"D:\b"), r"D:\b");
    assert_eq!(join(WINDOWS, r"C:\a", "D:b"), "D:b");
    assert_eq!(join(WINDOWS, r"C:\a", r"\b"), r"C:\b");
    assert_eq!(join(WINDOWS, r"\\server\share\a", r"\b"), r"\\server\share\b");
    assert_eq!(join(WINDOWS, "/Volumes", "media"), r"/Volumes\media");
    // In a verbatim path `.` and `..` would be names, so they are followed.
    assert_eq!(join(WINDOWS, r"\\?\C:\a", "../b/./c"), r"\\?\C:\b\c");
    assert_eq!(join(WINDOWS, r"\\?\C:\a", r"\b"), r"\\?\C:\b");
    assert_eq!(join(WINDOWS, r"\\?\C:\a", ""), r"\\?\C:\a\");
}

#[test]
fn the_components_of_a_path() {
    assert_eq!(components_of(UNIX, "/a//b/./c/"), ["/", "a", "b", "c"]);
    assert_eq!(components_of(UNIX, "./a/../b"), [".", "a", "..", "b"]);
    assert_eq!(components_of(WINDOWS, r"C:\a/b\.\c"), ["C:", r"\", "a", "b", "c"]);
    assert_eq!(components_of(WINDOWS, r"\\server\share"), [r"\\server\share", r"\"]);
    assert_eq!(components_of(WINDOWS, r"\\?\C:\a\.\b/c"), [r"\\?\C:", r"\", "a", ".", "b/c"]);
    assert_eq!(components_of(WINDOWS, r"\\?\UNC\s\t\a"), [r"\\?\UNC\s\t", r"\", "a"]);
    assert_eq!(components_of(WINDOWS, r"\\.\COM42\a"), [r"\\.\COM42", r"\", "a"]);
    assert_eq!(components_of(WINDOWS, "//?/C:/a"), ["//?/C:", r"\", "a"]);
}

#[test]
fn the_same_path_in_other_words() {
    assert!(is_same(UNIX, "/a//b/", "/a/./b"));
    assert!(!is_same(UNIX, "/a", "a"));
    assert!(!is_same(UNIX, "a/b", r"a\b"));
    assert!(is_same(WINDOWS, "a/b", r"a\b"));
    assert!(is_same(WINDOWS, r"c:\a", r"C:\a"));
    assert!(!is_same(WINDOWS, r"C:\a", r"C:\A"), "only the drive's case is no matter");
    assert!(is_same(WINDOWS, "//server/share/a", r"\\server\share\a"));
    assert!(!is_same(WINDOWS, r"C:\a", "C:a"));
    assert!(!is_same(WINDOWS, r"\\?\C:\a", r"C:\a"));
}

#[test]
fn the_order_of_paths() {
    assert!(is_before(UNIX, "/a/b", "/a.txt"), "by components, not by characters");
    assert!(is_before(UNIX, "/a", "/a/b"));
    assert!(is_before(UNIX, "/z", "a"));
    assert!(is_before(WINDOWS, r"C:\z", r"D:\a"));
    assert!(is_before(WINDOWS, r"C:\a", r"\a"), "a prefix comes before a root");
    assert!(is_before(WINDOWS, r"\\server\share", r"C:\"), "a share comes before a drive");
    assert!(is_before(WINDOWS, r"\\?\C:\", r"\\server\share"));
    assert!(!is_before(WINDOWS, r"c:\a", r"C:\a"));
}

#[test]
fn what_lies_below_a_path() {
    assert_eq!(below_text(UNIX, "/a/b/c", "/a"), some("b/c"));
    assert_eq!(below_text(UNIX, "/a/b", "/b"), None);
    assert_eq!(below_text(WINDOWS, r"c:\a\b\c", r"C:\a"), some("b/c"));
    assert_eq!(below_text(WINDOWS, r"C:\a\b", "a"), None);
}

#[test]
fn windows_paths_are_tidied_too() {
    assert_eq!(tidied(WINDOWS, r"C:\a\.\b\..\c"), r"C:\a\c");
    assert_eq!(tidied(WINDOWS, r"C:\.."), r"C:\");
    assert_eq!(tidied(WINDOWS, r"C:/a/b/"), r"C:\a\b");
    assert_eq!(tidied(WINDOWS, r"..\a"), r"..\a");
    assert_eq!(tidied(WINDOWS, r"\\server\share\a\..\..\b"), r"\\server\share\b");
    assert_eq!(resolved(WINDOWS, r"..\b", r"C:\a"), r"C:\b");
    assert_eq!(resolved(WINDOWS, r"\\?\C:\a\..\b", r"C:\"), r"C:\b");
    assert_eq!(resolved(WINDOWS, r"\b", r"C:\a"), r"C:\b");
}

#[test]
fn tidying_once_is_enough() {
    for path in ["/a/./b/../c//", "../../a/..", "a/../..", "/..", "", "./a"] {
        let once = tidied(UNIX, path);
        assert_eq!(tidied(UNIX, &once), once, "{path}");
    }
}

#[test]
fn tags_are_told_apart_the_way_the_machine_does() {
    let mut list: Vec<String> = Vec::new();
    tags::tag(WINDOWS, &mut list, r"C:\a".to_string());
    tags::tag(WINDOWS, &mut list, "c:/a".to_string());
    assert_eq!(list.len(), 1);
    let mut list: Vec<String> = Vec::new();
    tags::tag(UNIX, &mut list, r"C:\a".to_string());
    tags::tag(UNIX, &mut list, "c:/a".to_string());
    assert_eq!(list.len(), 2);
}

#[test]
fn resolving_stays_on_a_drive() {
    for path in [r"..\..\..", "a/./b", r"\x", r"D:\y\..\..", ""] {
        let out = resolved(WINDOWS, path, r"C:\a\b");
        assert!(is_absolute(WINDOWS, &out), "{path}: {out}");
    }
    assert_eq!(resolved(WINDOWS, "D:x", r"C:\a"), "D:x");
}
