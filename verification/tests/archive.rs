use lost_commander::archive;
use lost_commander::archive::lha::{Header, Lha, Step};
use lost_commander::archive::sevenz::{from_windows_time, locked_or, Entry, Refusal, SevenZ};
use lost_commander::archive::{
    at, by_magic, by_name, holds, identified, identify, is_archive, is_locked, is_wanted,
    list_with, needs_password, normalise, not_in_here, under, was_refused, wrong_password,
    FormatKind, Member,
};
use lost_commander::moment::Moment;
use lost_commander::pathname::Style;
use lost_commander::trouble::{Trouble, TroubleKind};

fn member(path: &str, size: u64, is_dir: bool) -> Member {
    Member {
        path: path.to_string(),
        size,
        is_dir,
        ..Member::default()
    }
}

#[test]
fn a_member_path_is_one_shape_whatever_the_format_wrote() {
    // zip marks a directory with a trailing slash, tar writes ./a/b, and
    // an archive made on Windows uses backslashes.
    assert_eq!(normalise("docs/"), "docs");
    assert_eq!(normalise("./docs/a.txt"), "docs/a.txt");
    assert_eq!(normalise("docs\\a.txt"), "docs/a.txt");
    assert_eq!(normalise("/docs//a.txt"), "docs/a.txt");
    // `..` inside an archive is a mistake at best and an escape attempt
    // at worst. It never survives.
    assert_eq!(normalise("../../etc/passwd"), "etc/passwd");
    assert_eq!(normalise("a/../../b"), "a/b");
    assert_eq!(normalise(""), "");
}

#[test]
fn a_member_knows_its_name_and_where_it_sits() {
    let one = member("docs/notes/a.txt", 10, false);
    assert_eq!(one.name(), "a.txt");
    assert_eq!(one.parent(), "docs/notes");

    let top = member("readme", 1, false);
    assert_eq!(top.name(), "readme");
    assert_eq!(top.parent(), "");
}

#[test]
fn the_top_level_shows_files_and_the_directories_above_the_rest() {
    let members = vec![
        member("readme.txt", 12, false),
        member("docs/a.txt", 20, false),
        member("docs/b.txt", 30, false),
        member("docs/deep/c.txt", 40, false),
    ];
    let top = at(&members, "");
    let names: Vec<&str> = top.iter().map(|l| l.name.as_str()).collect();
    assert_eq!(names, vec!["readme.txt", "docs"]);
    assert!(top[1].is_dir, "docs is a directory");
    assert_eq!(top[1].path, "docs");
    assert_eq!(top[0].size, 12);
}

#[test]
fn a_directory_nobody_wrote_down_is_still_a_directory() {
    // A zip of docs/a.txt need not contain an entry for `docs` at all.
    // Trusting the archive to have one would leave the file unreachable.
    let members = vec![member("docs/deep/deeper/a.txt", 5, false)];
    assert_eq!(at(&members, "").len(), 1);
    assert!(at(&members, "")[0].is_dir);
    assert_eq!(at(&members, "docs")[0].name, "deep");
    assert_eq!(at(&members, "docs/deep")[0].name, "deeper");
    assert_eq!(at(&members, "docs/deep/deeper")[0].name, "a.txt");
    assert!(!at(&members, "docs/deep/deeper")[0].is_dir);
}

#[test]
fn a_directory_that_is_written_down_is_not_shown_twice() {
    let members = vec![
        Member {
            path: "docs".to_string(),
            is_dir: true,
            mode: Some(0o755),
            ..Member::default()
        },
        member("docs/a.txt", 5, false),
    ];
    let top = at(&members, "");
    assert_eq!(top.len(), 1, "got {top:?}");
    assert!(top[0].is_dir);
    // And what the real entry knew is kept.
    assert_eq!(top[0].mode, Some(0o755));
}

#[test]
fn walking_into_nothing_can_be_told_from_an_empty_directory() {
    let members = vec![member("docs/a.txt", 5, false)];
    assert!(holds(&members, ""));
    assert!(holds(&members, "docs"));
    assert!(!holds(&members, "nowhere"));
    // A prefix that is not a whole name does not count: `doc` is not
    // `docs`.
    assert!(!holds(&members, "doc"));
}

#[test]
fn everything_under_a_level_comes_back_for_extracting_it() {
    let members = vec![
        member("readme.txt", 1, false),
        member("docs/a.txt", 2, false),
        member("docs/deep/b.txt", 3, false),
    ];
    let all: Vec<&str> = under(&members, "docs")
        .into_iter()
        .map(|m| m.path.as_str())
        .collect();
    assert_eq!(all, vec!["docs/a.txt", "docs/deep/b.txt"]);
    assert_eq!(under(&members, "").len(), 3);
}

#[test]
fn a_name_is_a_claim_and_the_bytes_are_the_fact() {
    // A zip renamed to .jpg is still a zip, and a JPEG renamed to .zip is
    // still not one. The signature is asked first for exactly this.
    assert_eq!(by_magic(b"PK\x03\x04rest").map(|f| f.name), Some("zip"));
    assert_eq!(
        by_magic(b"7z\xBC\xAF\x27\x1Crest").map(|f| f.name),
        Some("7z")
    );
    assert!(by_magic(b"\xFF\xD8\xFFno").is_none(), "a JPEG is not one");

    // The ending is the fallback, and case does not matter.
    assert_eq!(by_name(Style::Unix, "/a/b.ZIP").map(|f| f.name), Some("zip"));
    assert_eq!(
        by_name(Style::Unix, "/a/b.tar.gz").map(|f| f.name),
        Some("tar.gz"),
        "the compound ending wins over .gz alone"
    );
    assert_eq!(
        by_name(Style::Unix, "/a/b.tgz").map(|f| f.name),
        Some("tar.gz")
    );
    assert!(by_name(Style::Unix, "/a/b.txt").is_none());
}

#[test]
fn a_picture_with_the_ending_of_an_archive_is_seen_through() {
    assert!(identify(Style::Unix, b"\xFF\xD8\xFF\xE0\x00\x10JFIF", "/a/holiday.zip").is_none());
    assert!(!is_archive(Style::Unix, true, b"\xFF\xD8\xFF", "/a/holiday.tar.gz"));
    // Bytes that say nothing definite leave it to the ending.
    assert_eq!(
        identify(Style::Unix, b"\x1F\x8B\x08", "/a/b.tar.gz").map(|f| f.name),
        Some("tar.gz")
    );
    assert_eq!(identify(Style::Unix, b"\xFF\xD8", "/a/b.zip").map(|f| f.name), Some("zip"));
    assert_eq!(identify(Style::Unix, b"", "/a/b.zip").map(|f| f.name), Some("zip"));
}

#[test]
fn a_tar_is_recognised_by_the_marker_past_its_first_name() {
    let mut head = vec![0u8; 512];
    head[257..263].copy_from_slice(b"ustar\0");
    assert_eq!(by_magic(&head).map(|f| f.name), Some("tar"));
    // Too short to hold the marker is not a match rather than a panic.
    assert!(by_magic(&head[..100]).is_none());
}

#[test]
fn the_two_answers_about_a_password_are_told_apart() {
    // A caller has to be able to tell "I have not been asked" from "what
    // you gave me is not it", or it cannot say which of the two happened.
    assert!(is_locked(&needs_password()));
    assert!(is_locked(&wrong_password()));
    assert!(!was_refused(&needs_password()));
    assert!(was_refused(&wrong_password()));

    // And neither is confused with ordinary failure.
    let missing = Trouble::new(TroubleKind::NotFound, "nowhere.txt is not in here");
    assert!(!is_locked(&missing));
    assert!(!is_locked(&Trouble::new(TroubleKind::Other, "truncated")));
}

#[test]
fn the_bytes_are_asked_before_the_name() {
    let zip = b"PK\x03\x04rest";
    assert_eq!(identify(Style::Unix, zip, "/tmp/holiday.jpg").map(|f| f.name), Some("zip"));
    assert_eq!(identify(Style::Unix, b"", "/tmp/made.tar.xz").map(|f| f.name), Some("tar.xz"));
    assert!(identify(Style::Unix, b"just text, at some length\n", "/tmp/notes.txt").is_none());

    assert!(is_archive(Style::Unix, true, zip, "/tmp/holiday.jpg"));
    assert!(!is_archive(Style::Unix, true, b"just text", "/tmp/notes.txt"));
    // A directory is not an archive, however it is named.
    assert!(!is_archive(Style::Unix, false, b"", "/tmp/assets.zip"));
}

#[test]
fn a_file_no_format_claims_is_refused() {
    let refused = identified(Style::Unix, b"just text", "/tmp/notes.txt").unwrap_err();
    assert_eq!(refused.kind, TroubleKind::InvalidData);
    assert!(identified(Style::Unix, b"PK\x03\x04", "/tmp/notes.txt").is_ok());
}

#[test]
fn a_listing_has_every_path_in_one_shape() {
    let listing = list_with(
        &archive::format(FormatKind::Zip),
        &[
            member("docs\\a.txt", 3, false),
            member("./docs/", 0, true),
            member("..", 0, true),
        ],
    );
    assert_eq!(listing.format, "zip");
    let paths: Vec<&str> = listing.members.iter().map(|m| m.path.as_str()).collect();
    assert_eq!(paths, vec!["docs/a.txt", "docs"]);
    assert!(!listing.any_locked());
}

#[test]
fn one_locked_member_locks_the_listing() {
    let locked = Member {
        encrypted: true,
        ..member("a.txt", 3, false)
    };
    let listing = list_with(&archive::format(FormatKind::SevenZ), &[member("b.txt", 1, false), locked]);
    assert!(listing.any_locked());
}

#[test]
fn a_member_is_wanted_whatever_shape_it_was_stored_in() {
    assert!(is_wanted("./docs/a.txt", "docs/a.txt"));
    assert!(is_wanted("docs\\a.txt", "docs/a.txt"));
    assert!(!is_wanted("docs/b.txt", "docs/a.txt"));
    let missing = not_in_here("nowhere.txt");
    assert_eq!(missing.kind, TroubleKind::NotFound);
    assert_eq!(missing.message, "nowhere.txt is not in here");
}

#[test]
fn nothing_an_archive_names_climbs_out() {
    assert_eq!(normalise(&normalise("a/../..//./b/")), "a/b");
    assert_eq!(normalise("../.."), "");
}

#[test]
fn an_lha_header_becomes_a_member() {
    let one = Lha::member(&Header {
        path: "docs/a.txt".to_string(),
        original_size: 10,
        compressed_size: 7,
        modified: Some(86_400),
        is_directory: false,
    });
    assert_eq!(one.path, "docs/a.txt");
    assert_eq!(one.size, 10);
    assert_eq!(one.packed, Some(7));
    assert_eq!(one.modified, Some(Moment::from_seconds(86_400)));
    assert_eq!(one.mode, None);
    assert!(!one.is_dir && !one.encrypted);
}

#[test]
fn windows_counts_from_1601() {
    assert_eq!(from_windows_time(116_444_736_000_000_000), Some(Moment::from_seconds(0)));
    assert_eq!(from_windows_time(116_444_736_010_000_000), Some(Moment::from_seconds(1)));
    assert_eq!(from_windows_time(116_444_735_999_999_999), None);
}

#[test]
fn a_seven_zip_entry_is_locked_where_a_password_was_given() {
    let entry = Entry {
        name: "a.txt".to_string(),
        size: 5,
        compressed_size: 4,
        modified_ticks: None,
        is_directory: false,
    };
    assert!(SevenZ::member(&entry, true).encrypted);
    assert!(!SevenZ::member(&entry, false).encrypted);
    assert_eq!(SevenZ::member(&entry, false).packed, Some(4));
}

#[test]
fn a_decoder_that_wants_a_password_is_told_apart() {
    assert!(!was_refused(&locked_or(Refusal::PasswordRequired, false)));
    assert!(is_locked(&locked_or(Refusal::PasswordRequired, false)));
    assert!(was_refused(&locked_or(Refusal::MaybeBadPassword, true)));
    assert!(!is_locked(&locked_or(Refusal::Other("truncated".to_string()), true)));
}

#[test]
fn a_file_of_an_lha_archive_is_unpacked_only_where_it_can_be() {
    assert!(matches!(Lha::look_at("docs\\a.txt", true, "docs/a.txt"), Step::Unpack));
    assert!(matches!(Lha::look_at("docs/b.txt", true, "docs/a.txt"), Step::Next));
    match Lha::look_at("docs/a.txt", false, "docs/a.txt") {
        Step::Refuse(trouble) => assert!(trouble.message.contains("not supported")),
        other => panic!("{other:?}"),
    }
}

#[test]
fn a_file_that_is_not_an_archive_is_not_one() {
    let plain = b"just text, at some length\n";
    assert!(identify(Style::Unix, plain, "/tmp/notes.txt").is_none());
    assert!(!is_archive(Style::Unix, true, plain, "/tmp/notes.txt"));
    assert!(identified(Style::Unix, plain, "/tmp/notes.txt").is_err());

    // Nor is a directory, however it is named.
    assert!(!is_archive(Style::Unix, false, b"", "/tmp/assets.zip"), "a directory is not an archive");
}
