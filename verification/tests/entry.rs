use lost_commander::entry::{
    fit, format_time, human_size, size_cell, size_in_words, time_text, Entry, EntryKind,
};
use lost_commander::local_time::LocalTime;
use lost_commander::pathname::Style;

#[test]
fn human_size_scales_units() {
    assert_eq!(human_size(0), "0");
    assert_eq!(human_size(512), "512");
    assert_eq!(human_size(1023), "1023");
    assert_eq!(human_size(1024), "1.00K");
    assert_eq!(human_size(1536), "1.50K");
    assert_eq!(human_size(10 * 1024), "10.0K");
    assert_eq!(human_size(100 * 1024), "100K");
    assert_eq!(human_size(1024 * 1024), "1.00M");
    assert_eq!(human_size(1024 * 1024 * 1024), "1.00G");
}

#[test]
fn a_size_in_a_sentence_carries_its_unit() {
    assert_eq!(size_in_words(0), "0 bytes");
    assert_eq!(size_in_words(14), "14 bytes");
    assert_eq!(size_in_words(1023), "1023 bytes");
    assert_eq!(size_in_words(1024), "1.00K", "past which the unit is there");
    assert_eq!(size_in_words(40_000), "39.1K");
}

#[test]
fn size_cell_marks_directories() {
    let dir = Entry {
        name: "src".into(),
        path: "/tmp/src".to_string(),
        kind: EntryKind::Dir,
        size: 4096,
        modified: None,
        is_symlink: false,
        mode: None,
        marked: false,
    };
    assert_eq!(size_cell(&dir), "<DIR>");

    let parent = Entry {
        kind: EntryKind::Parent,
        ..dir.clone()
    };
    assert_eq!(size_cell(&parent), "<UP>");

    let file = Entry {
        kind: EntryKind::File,
        size: 2048,
        ..dir
    };
    assert_eq!(size_cell(&file), "2.00K");
}

#[test]
fn extension_is_lowercased_and_empty_for_dirs() {
    let mut e = Entry {
        name: "Photo.JPG".into(),
        path: "/tmp/Photo.JPG".to_string(),
        kind: EntryKind::File,
        size: 1,
        modified: None,
        is_symlink: false,
        mode: None,
        marked: false,
    };
    assert_eq!(e.extension(Style::Unix), "jpg");

    e.name = "README".into();
    assert_eq!(e.extension(Style::Unix), "");

    e.kind = EntryKind::Dir;
    e.name = "assets.d".into();
    assert_eq!(e.extension(Style::Unix), "");
}

#[test]
fn fit_truncates_with_marker() {
    assert_eq!(fit("short", 10), "short");
    assert_eq!(fit("exactfit!!", 10), "exactfit!!");
    assert_eq!(fit("a-very-long-filename", 10), "a-very-lo~");
    assert_eq!(fit("abc", 0), "");
}

#[test]
fn parent_entry_absent_at_root() {
    let root = "/";
    assert!(Entry::parent_entry(Style::Unix, root).is_none());

    let nested = "/home/user";
    let parent = Entry::parent_entry(Style::Unix, nested).expect("should have parent");
    assert_eq!(parent.name, "..");
    assert_eq!(parent.path, "/home".to_string());
    assert!(parent.is_dir());
    assert!(parent.is_parent());
}

#[test]
fn large_sizes_round_as_they_are_shown() {
    assert_eq!(human_size(1024 * 1024 - 1), "1024K");
    assert_eq!(human_size(u64::MAX), "16384P");
    assert_eq!(human_size(10 * 1024 - 1), "10.00K");
}
