use lost_commander::netloc::{Bookmarks, Location, Protocol, MAX_RECENT};
use lost_commander::pathname::Style;

#[test]
fn parses_an_smb_url_with_user_and_subpath() {
    let l = Location::parse(Style::Unix, "smb://alex@nas.local/media/movies").unwrap();
    assert_eq!(l.protocol, Protocol::Smb);
    assert_eq!(l.user.as_deref(), Some("alex"));
    assert_eq!(l.host, "nas.local");
    assert_eq!(l.path, "media/movies");
    assert_eq!(l.share(), "media");
    assert_eq!(l.subpath(), "movies");
    assert_eq!(l.port, None);
}

#[test]
fn parses_ftp_with_an_explicit_port() {
    let l = Location::parse(Style::Unix, "ftp://files.example.com:2121/pub").unwrap();
    assert_eq!(l.protocol, Protocol::Ftp);
    assert_eq!(l.host, "files.example.com");
    assert_eq!(l.port, Some(2121));
    assert_eq!(l.path, "pub");
    assert!(l.user.is_none());
}

#[test]
fn parses_a_windows_unc_path_as_smb() {
    let l = Location::parse(Style::Unix, r"\\fileserver\share\deep").unwrap();
    assert_eq!(l.protocol, Protocol::Smb);
    assert_eq!(l.host, "fileserver");
    assert_eq!(l.path, "share/deep");
    assert_eq!(l.share(), "share");
}

#[test]
fn parses_a_plain_path_as_local() {
    let l = Location::parse(Style::Unix, "/home/user/projects").unwrap();
    assert_eq!(l.protocol, Protocol::Local);
    assert_eq!(l.path, "/home/user/projects");
    assert_eq!(l.name, "projects");
}

#[test]
fn rejects_nonsense() {
    assert!(Location::parse(Style::Unix, "").is_err());
    assert!(Location::parse(Style::Unix, "gopher://example.com/x").is_err());
    assert!(Location::parse(Style::Unix, "smb://").is_err());
    assert!(Location::parse(Style::Unix, "smb://host:notaport/share").is_err());
}

#[test]
fn url_round_trips() {
    for raw in [
        "smb://alex@nas.local/media/movies",
        "ftp://files.example.com:2121/pub",
        "sftp://build@ci.internal/srv",
        "smb://nas.local",
    ] {
        let parsed = Location::parse(Style::Unix, raw).unwrap();
        assert_eq!(parsed.to_url(), raw, "round trip failed for {raw}");
    }
}

#[test]
fn default_names_are_readable() {
    assert_eq!(
        Location::parse(Style::Unix, "smb://alex@nas.local/media").unwrap().name,
        "nas.local/media"
    );
    assert_eq!(
        Location::parse(Style::Unix, "smb://nas.local").unwrap().name,
        "nas.local"
    );
}

#[test]
fn saving_the_same_name_updates_rather_than_duplicates() {
    let mut marks = Bookmarks::default();
    let mut first = Location::parse(Style::Unix, "smb://nas.local/media").unwrap();
    first.name = "NAS".into();
    marks.add(first);

    let mut second = Location::parse(Style::Unix, "smb://nas.local/backups").unwrap();
    second.name = "NAS".into();
    marks.add(second);

    assert_eq!(marks.len(), 1);
    assert_eq!(marks.locations[0].path, "backups");
}

#[test]
fn removing_by_index_works_and_is_bounds_checked() {
    let mut marks = Bookmarks::default();
    marks.add(Location::parse(Style::Unix, "smb://a.local/x").unwrap());
    marks.add(Location::parse(Style::Unix, "smb://b.local/y").unwrap());

    let removed = marks.remove(0).unwrap();
    assert_eq!(removed.host, "a.local");
    assert_eq!(marks.len(), 1);
    assert!(marks.remove(99).is_none());
}

#[test]
fn recent_keeps_the_newest_first_without_duplicates() {
    let mut marks = Bookmarks::default();
    marks.push_recent(Location::local(Style::Unix, "/a"));
    marks.push_recent(Location::local(Style::Unix, "/b"));
    marks.push_recent(Location::local(Style::Unix, "/c"));
    assert_eq!(
        marks
            .recent
            .iter()
            .map(|l| l.path.clone())
            .collect::<Vec<_>>(),
        ["/c", "/b", "/a"]
    );

    // Re-visiting moves it back to the top instead of duplicating.
    marks.push_recent(Location::local(Style::Unix, "/a"));
    assert_eq!(
        marks
            .recent
            .iter()
            .map(|l| l.path.clone())
            .collect::<Vec<_>>(),
        ["/a", "/c", "/b"]
    );
    assert_eq!(marks.recent.len(), 3);
}

#[test]
fn recent_is_capped() {
    let mut marks = Bookmarks::default();
    for i in 0..(MAX_RECENT + 10) {
        marks.push_recent(Location::local(Style::Unix, &format!("/dir{i}")));
    }
    assert_eq!(marks.recent.len(), MAX_RECENT);
    // The newest survived, the oldest fell off.
    assert_eq!(marks.recent[0].path, format!("/dir{}", MAX_RECENT + 9));
    assert!(!marks.recent.iter().any(|l| l.path == "/dir0"));
}

#[test]
fn recent_distinguishes_network_locations_by_url() {
    let mut marks = Bookmarks::default();
    marks.push_recent(Location::parse(Style::Unix, "smb://nas.local/media").unwrap());
    marks.push_recent(Location::parse(Style::Unix, "smb://nas.local/backups").unwrap());
    assert_eq!(marks.recent.len(), 2);

    marks.push_recent(Location::parse(Style::Unix, "smb://nas.local/media").unwrap());
    assert_eq!(marks.recent.len(), 2);
    assert_eq!(marks.recent[0].path, "media");
}

#[test]
fn removing_and_clearing_recent() {
    let mut marks = Bookmarks::default();
    marks.push_recent(Location::local(Style::Unix, "/a"));
    marks.push_recent(Location::local(Style::Unix, "/b"));

    assert_eq!(marks.remove_recent(0).unwrap().path, "/b");
    assert_eq!(marks.recent.len(), 1);
    assert!(marks.remove_recent(9).is_none());

    marks.clear_recent();
    assert!(marks.recent.is_empty());
}

#[test]
fn what_the_operating_system_is_handed_is_a_url() {
    // The bug this pins, reported from a real connection: a share with a
    // space in its name went to macOS with the space in it, which is not
    // a URL, and the refusal came back as "Check the server name or IP
    // address" - pointing at a server that was never the problem.
    let share = Location::parse(Style::Unix, "smb://nas10/Shared Folder").unwrap();
    assert_eq!(share.os_url(), "smb://nas10/Shared%20Folder");
    // And what a person reads keeps its space, because that is what they
    // typed and what a rail should show.
    assert_eq!(share.to_url(), "smb://nas10/Shared Folder");

    // A Windows domain login has the same trouble with its backslash.
    let domain = Location::parse(Style::Unix, "smb://DOMAIN\\alex@nas10/team").unwrap();
    assert_eq!(domain.os_url(), "smb://DOMAIN%5Calex@nas10/team");

    // Separators survive as separators - the encoder never sees them.
    let deep = Location::parse(Style::Unix, "smb://nas10/public/sub dir/one").unwrap();
    assert_eq!(deep.os_url(), "smb://nas10/public/sub%20dir/one");

    // Ordinary names are left exactly alone, so nothing that worked
    // before now looks different.
    let plain = Location::parse(Style::Unix, "smb://nas10/team").unwrap();
    assert_eq!(plain.os_url(), plain.to_url());
}

#[test]
fn each_scheme_names_its_protocol() {
    for protocol in [
        Protocol::Local,
        Protocol::Smb,
        Protocol::Ftp,
        Protocol::Sftp,
        Protocol::Nfs,
        Protocol::Afp,
    ] {
        assert_eq!(Protocol::from_scheme(protocol.scheme()), Some(protocol));
    }
    assert_eq!(Protocol::from_scheme("gopher"), None);
    assert!(!Protocol::Local.is_network());
    assert!(Protocol::Smb.is_network());
}

#[test]
fn a_summary_lines_up_its_labels() {
    let share = Location::parse(Style::Unix, "smb://nas.local/media").unwrap();
    assert_eq!(share.summary(), "SMB    smb://nas.local/media");
}

#[test]
fn each_refusal_says_what_is_wrong() {
    let port = Location::parse(Style::Unix, "smb://host:notaport/share").unwrap_err();
    assert!(port.contains("notaport"), "{port}");
    let scheme = Location::parse(Style::Unix, "gopher://example.com/x").unwrap_err();
    assert!(scheme.contains("gopher"), "{scheme}");
}

#[test]
fn a_recent_file_replaces_the_list_and_a_missing_one_leaves_it() {
    let mut marks = Bookmarks::default();
    marks.push_recent(Location::local(Style::Unix, "/old"));
    marks.load_recent_from(None);
    assert_eq!(marks.recent[0].path, "/old");
    marks.load_recent_from(Some(vec![Location::local(Style::Unix, "/a"), Location::local(Style::Unix, "/b")]));
    assert_eq!(marks.recent.len(), 2);
    assert_eq!(
        Bookmarks::config_path(Style::Unix, Some("/home/u/.config")).as_deref(),
        Some("/home/u/.config/lost-commander/bookmarks.toml")
    );
    assert_eq!(
        Bookmarks::recent_path(Style::Unix, Some("/home/u/.config")).as_deref(),
        Some("/home/u/.config/lost-commander/recent.toml")
    );
    assert_eq!(Bookmarks::config_path(Style::Unix, None), None);
}

#[test]
fn a_location_is_named_after_where_it_is() {
    let share = Location::parse(Style::Unix, "smb://alex@nas.local/media/movies").unwrap();
    assert_eq!(share.default_name(Style::Unix), share.name);
    let local = Location::parse(Style::Unix, "/home/user/projects").unwrap();
    assert_eq!(local.default_name(Style::Unix), "projects");
    assert_eq!(Location::parse(Style::Unix, "/").unwrap().default_name(Style::Unix), "/");
}

#[test]
fn a_password_in_a_url_is_dropped() {
    let l = Location::parse(Style::Unix, "smb://alex:pw@nas.local/media").unwrap();
    assert_eq!(l.user.as_deref(), Some("alex"));
    assert_eq!(l.host, "nas.local");
    assert_eq!(l.path, "media");
    assert_eq!(l.to_url(), "smb://alex@nas.local/media");
    assert_eq!(l.os_url(), "smb://alex@nas.local/media");

    let odd = Location::parse(Style::Unix, "ftp://alex:p:w@x@files.example.com:2121/pub").unwrap();
    assert_eq!(odd.user.as_deref(), Some("alex"));
    assert_eq!(odd.host, "files.example.com");
    assert_eq!(odd.port, Some(2121));
}
