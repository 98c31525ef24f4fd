use lost_commander::encoding::{encode, Encoding};
use lost_commander::fsops::{
    create_dir, dir_target, read_preview, rename, rename_target, validate_name,
};
use lost_commander::pathname::Style;
use lost_commander::trouble::TroubleKind;

#[test]
fn rename_changes_the_name_in_place() {
    assert_eq!(rename(Style::Unix, "/tmp/old.txt", "new.txt", false).unwrap(), "/tmp/new.txt");
}

#[test]
fn rename_refuses_to_clobber_and_rejects_separators() {
    assert!(rename(Style::Unix, "/tmp/a.txt", "b.txt", true).is_err());
    assert!(rename(Style::Unix, "/tmp/a.txt", "sub/c.txt", false).is_err());
    assert!(rename(Style::Unix, "/tmp/a.txt", "", false).is_err());
    assert!(rename(Style::Unix, "/tmp/a.txt", "..", false).is_err());
}

#[test]
fn create_dir_validates_and_refuses_duplicates() {
    assert_eq!(create_dir(Style::Unix, "/tmp", "fresh", false).unwrap(), "/tmp/fresh");

    assert!(create_dir(Style::Unix, "/tmp", "fresh", true).is_err());
    assert!(create_dir(Style::Unix, "/tmp", "", false).is_err());
    assert!(create_dir(Style::Unix, "/tmp", "a/b", false).is_err());
}

#[test]
fn preview_is_truncated_to_the_cap() {
    let body = "line\n".repeat(1000);
    let (lines, _) = read_preview(&body.as_bytes()[..50], None);
    // 50 bytes / 5 bytes per line == 10 lines.
    assert_eq!(lines.len(), 10);
    assert_eq!(lines[0], "line");
}

#[test]
fn preview_expands_tabs() {
    assert_eq!(read_preview(b"a\tb", None).0, vec!["a    b"]);
}

#[test]
fn a_file_that_is_not_utf8_is_read_as_what_it_is_rather_than_as_nonsense() {
    // Taking every file for UTF-8 turns a Cyrillic one into a screen of
    // replacement characters, which looks like a corrupt file rather than
    // like the wrong encoding.
    let bytes = encode("Привет\n", Encoding::Cp1251).bytes;

    let (lines, detected) = read_preview(&bytes, None);
    assert_eq!(lines, vec!["Привет"]);
    assert_eq!(detected.encoding, Encoding::Cp1251);

    // And forcing it the other way gives the wrong answer rather than an
    // error, which is what lets the viewer's key be pressed until the
    // text looks right.
    let (wrong, _) = read_preview(&bytes, Some(Encoding::Cp1252));
    assert_ne!(wrong, vec!["Привет"]);
    assert_eq!(wrong.len(), 1);
}

#[test]
fn each_bad_name_is_refused_as_such() {
    for name in ["", " ", ".", "..", "a/b", "a\\b"] {
        assert_eq!(
            validate_name(name).unwrap_err().kind,
            TroubleKind::InvalidInput,
            "{name}"
        );
    }
    assert!(validate_name("notes.txt").is_ok());
}

#[test]
fn a_name_already_taken_is_refused_as_such() {
    assert_eq!(
        rename(Style::Unix, "/tmp/a.txt", "b.txt", true).unwrap_err().kind,
        TroubleKind::InvalidInput
    );
    assert_eq!(
        create_dir(Style::Unix, "/tmp", "fresh", true).unwrap_err().kind,
        TroubleKind::InvalidInput
    );
    assert_eq!(rename_target(Style::Unix, "/tmp/a.txt", "b.txt").unwrap(), "/tmp/b.txt");
    assert_eq!(dir_target(Style::Unix, "/tmp", "fresh").unwrap(), "/tmp/fresh");
    // The root has no directory to be renamed in.
    assert!(rename_target(Style::Unix, "/", "b").is_err());
}
