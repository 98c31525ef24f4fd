use lost_commander::pathname::Style;
use lost_commander::paths::{own_file, resolved, tidied, undecorated};

#[test]
fn dots_fold_away() {
    assert_eq!(tidied(Style::Unix, "a/./b/../c"), "a/c".to_string());
    // A relative path that really does start above where it stands keeps
    // saying so: dropping it would change which directory was meant.
    assert_eq!(tidied(Style::Unix, "../x"), "../x".to_string());
}

#[test]
fn climbing_above_the_root_stays_at_the_root() {
    assert_eq!(tidied(Style::Unix, "/../.."), "/");
}

#[test]
fn a_verbatim_windows_path_is_shown_the_way_it_is_written() {
    // The bug this exists for: `std::fs::canonicalize` hands back the
    // first of these, and it is what the pane header showed.
    assert_eq!(
        undecorated(r"\\?\C:\src\lost-commander"),
        r"C:\src\lost-commander".to_string()
    );
    assert_eq!(
        undecorated(r"\\?\UNC\server\share\file"),
        r"\\server\share\file".to_string()
    );
}

#[test]
fn a_prefix_that_is_load_bearing_is_left_alone() {
    // A volume with no drive letter has no shorter spelling, so there is
    // nothing to strip to.
    let volume = r"\\?\Volume{b75e2c83-0000-0000-0000-602f00000000}\data";
    assert_eq!(undecorated(volume), volume.to_string());

    // And a path only legal *because* of the prefix keeps it. Displaying
    // it nicely is not worth handing back one that no longer opens.
    let long = format!(r"\\?\C:\{}", "x".repeat(300));
    assert_eq!(undecorated(&long), long);
}

#[test]
fn an_ordinary_path_is_untouched() {
    for path in ["/home/you/src", r"C:\src", "relative/bit"] {
        assert_eq!(undecorated(path), path.to_string());
    }
}

#[test]
fn resolving_makes_a_relative_path_absolute_without_plumbing() {
    let from = "/src/lost-commander";
    let resolved = resolved(Style::Unix, "core/../egui", from);
    assert_eq!(resolved, "/src/lost-commander/egui");
    assert!(!resolved.contains(r"\\?\"));
}

#[test]
fn folding_twice_changes_nothing_more() {
    for path in ["a/./b/../c", "../x", "/../..", "a/../..", "."] {
        let once = tidied(Style::Unix, path);
        assert_eq!(tidied(Style::Unix, &once), once, "{path}");
    }
}

#[test]
fn an_absolute_path_is_resolved_from_nowhere() {
    assert_eq!(resolved(Style::Unix, "/etc/./apt", "/home"), "/etc/apt");
}

#[test]
fn nothing_is_kept_where_there_is_no_settings_directory() {
    assert_eq!(own_file(Style::Unix, None, "a.toml"), None);
    assert_eq!(
        own_file(Style::Unix, Some("/c"), "a.toml").as_deref(),
        Some("/c/lost-commander/a.toml")
    );
}

#[test]
fn a_component_that_would_be_read_otherwise_keeps_the_prefix() {
    for path in [
        r"\\?\C:\dir\name.",
        r"\\?\C:\dir \name",
        r"\\?\C:\dir\..\name",
        r"\\?\C:\dir\NUL",
        r"\\?\C:\dir\com1.txt",
        r"\\?\C:\dir\a/b",
        r"\\?\UNC\server\share\name.",
    ] {
        assert_eq!(undecorated(path), path.to_string());
    }
    assert_eq!(undecorated(r"\\?\C:\"), r"C:\".to_string());
    assert_eq!(undecorated(r"\\?\C:\null\.git\a b.txt"), r"C:\null\.git\a b.txt".to_string());
}
