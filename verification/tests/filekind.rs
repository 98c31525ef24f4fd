use lost_commander::entry::{Entry, EntryKind};
use lost_commander::filekind::{classify, of_name, Kind};

#[test]
fn a_name_is_read_by_its_extension() {
    assert_eq!(of_name("holiday.jpg"), Kind::Image);
    assert_eq!(of_name("main.rs"), Kind::Code);
    // A lock file is source in every sense that matters here: it is text,
    // it lives in a repository, and it is read far more often than edited.
    assert_eq!(of_name("Cargo.lock"), Kind::Code);
    assert_eq!(of_name("backup.tar"), Kind::Archive);
    assert_eq!(of_name("song.flac"), Kind::Audio);
    assert_eq!(of_name("clip.mkv"), Kind::Video);
    assert_eq!(of_name("report.pdf"), Kind::Document);
    assert_eq!(of_name("notes.md"), Kind::Document);
    assert_eq!(of_name("rcmd.exe"), Kind::Binary);
    assert_eq!(of_name("libfoo.so"), Kind::Binary);
}

#[test]
fn an_extension_in_capitals_is_the_same_extension() {
    // Windows names are routinely shouted, and a file called PHOTO.JPG is
    // not a different kind of thing from photo.jpg.
    assert_eq!(of_name("PHOTO.JPG"), Kind::Image);
    assert_eq!(of_name("Report.PDF"), Kind::Document);
    assert_eq!(of_name("SETUP.EXE"), Kind::Binary);
}

#[test]
fn anything_unrecognised_is_plain_rather_than_a_guess() {
    // A wrong icon is more misleading than a neutral one: it says the
    // program knows something about the file that it does not.
    assert_eq!(of_name("notes"), Kind::Plain);
    assert_eq!(of_name("data.qqq"), Kind::Plain);
    assert_eq!(of_name(""), Kind::Plain);
    assert_eq!(of_name(".gitignore"), Kind::Plain);
}

#[test]
fn only_the_last_extension_counts() {
    // archive.tar.gz is a gzip, and notes.txt.bak is not a document -
    // whatever it once was, what it is now is a backup nobody can open.
    assert_eq!(of_name("archive.tar.gz"), Kind::Archive);
    assert_eq!(of_name("notes.txt.bak"), Kind::Plain);
}

#[test]
fn the_labels_are_stable_names_and_not_the_debug_spelling() {
    // Anything reading these over the C ABI matches on them, so they are
    // fixed here rather than following the variant names around.
    assert_eq!(Kind::Parent.label(), "parent");
    assert_eq!(Kind::Folder.label(), "folder");
    assert_eq!(Kind::Plain.label(), "plain");
}

#[test]
fn what_the_filesystem_says_beats_what_the_name_suggests() {
    let entry = |name: &str, kind: EntryKind| Entry {
        name: name.to_string(),
        path: name.to_string(),
        kind,
        size: 0,
        modified: None,
        is_symlink: false,
        mode: None,
        marked: false,
    };

    // A directory called assets.zip is a directory, not an archive - and
    // getting this the wrong way round would offer to open it as a file.
    // The look of the name only gets a say once the filesystem has none.
    assert_eq!(classify(&entry("assets.zip", EntryKind::Dir)), Kind::Folder);
    assert_eq!(
        classify(&entry("pictures.jpg", EntryKind::Dir)),
        Kind::Folder
    );
    assert_eq!(classify(&entry("..", EntryKind::Parent)), Kind::Parent);
    // And a file still goes by its name.
    assert_eq!(
        classify(&entry("assets.zip", EntryKind::File)),
        Kind::Archive
    );
}
