use lost_commander::mount::{
    candidate_roots, connect, disconnect, disconnected, find_mount_in, plan_for, with_subpath,
    Happened, MapPlan, Mounted, Next, Platform,
};
use lost_commander::netloc::Location;
use lost_commander::pathname::Style;

fn mounts(names: &[&str]) -> Vec<Mounted> {
    names
        .iter()
        .map(|name| Mounted {
            name: (*name).to_string(),
            path: format!("/mnt/{name}"),
        })
        .collect()
}

fn loc(url: &str) -> Location {
    Location::parse(Style::Unix, url).unwrap()
}

#[test]
fn windows_maps_smb_to_a_unc_path_with_no_command() {
    let plan = plan_for(Style::Unix, Platform::Windows, &loc("smb://nas.local/media/movies"));
    assert_eq!(
        plan,
        MapPlan::Direct(r"\\nas.local\media\movies".to_string())
    );
}

#[test]
fn windows_unc_input_round_trips_back_to_unc() {
    let plan = plan_for(Style::Unix, Platform::Windows, &loc(r"\\fileserver\share"));
    assert_eq!(plan, MapPlan::Direct(r"\\fileserver\share".to_string()));
}

#[test]
fn windows_reports_ftp_as_unsupported_with_guidance() {
    match plan_for(Style::Unix, Platform::Windows, &loc("ftp://example.org/pub")) {
        MapPlan::Unsupported { reason } => {
            assert!(reason.contains("FTP"), "{reason}");
            assert!(reason.contains("Explorer"), "{reason}");
        }
        other => panic!("expected Unsupported, got {other:?}"),
    }
}

#[test]
fn macos_opens_smb_urls_and_expects_a_volume() {
    match plan_for(Style::Unix, Platform::MacOs, &loc("smb://alex@nas.local/media")) {
        MapPlan::Command {
            program,
            args,
            hint,
        } => {
            assert_eq!(program, "open");
            assert_eq!(args, vec!["smb://alex@nas.local/media".to_string()]);
            assert_eq!(hint, Some("/Volumes/media".to_string()));
        }
        other => panic!("expected Command, got {other:?}"),
    }
}

#[test]
fn macos_handles_afp_and_nfs_the_same_way() {
    for url in ["afp://server/vol", "nfs://server/export"] {
        match plan_for(Style::Unix, Platform::MacOs, &loc(url)) {
            MapPlan::Command { program, .. } => assert_eq!(program, "open"),
            other => panic!("expected Command for {url}, got {other:?}"),
        }
    }
}

#[test]
fn macos_explains_why_ftp_and_sftp_cannot_be_mounted() {
    for url in ["ftp://example.org/pub", "sftp://host/srv"] {
        match plan_for(Style::Unix, Platform::MacOs, &loc(url)) {
            MapPlan::Unsupported { reason } => {
                assert!(reason.contains("macOS"), "{reason}");
            }
            other => panic!("expected Unsupported for {url}, got {other:?}"),
        }
    }
}

#[test]
fn linux_uses_gio_for_smb_ftp_and_sftp() {
    for url in [
        "smb://nas.local/media",
        "ftp://example.org/pub",
        "sftp://build@ci.internal/srv",
    ] {
        match plan_for(Style::Unix, Platform::Linux, &loc(url)) {
            MapPlan::Command { program, args, .. } => {
                assert_eq!(program, "gio");
                assert_eq!(args[0], "mount");
                assert_eq!(args[1], url);
            }
            other => panic!("expected Command for {url}, got {other:?}"),
        }
    }
}

#[test]
fn linux_reports_nfs_as_needing_privileges() {
    match plan_for(Style::Unix, Platform::Linux, &loc("nfs://server/export")) {
        MapPlan::Unsupported { reason } => assert!(reason.contains("sudo"), "{reason}"),
        other => panic!("expected Unsupported, got {other:?}"),
    }
}

#[test]
fn local_locations_are_direct_on_every_platform() {
    let local = Location::local(Style::Unix, "/home/user/code");
    for platform in [Platform::Linux, Platform::MacOs, Platform::Windows] {
        assert_eq!(
            plan_for(Style::Unix, platform, &local),
            MapPlan::Direct("/home/user/code".to_string())
        );
    }
}

#[test]
fn finds_a_gvfs_style_mount_point() {
    let found = find_mount_in(&mounts(&["smb-share:server=nas.local,share=media", "unrelated"]), &loc("smb://nas.local/media"));
    assert!(found.unwrap().contains("nas.local"));
}

#[test]
fn finds_a_macos_style_volume_named_after_the_share() {
    let found = find_mount_in(&mounts(&["media"]), &loc("smb://nas.local/media"));
    assert_eq!(found.unwrap(), "/mnt/media");
}

#[test]
fn prefers_the_mount_that_matches_both_host_and_share() {
    let found = find_mount_in(&mounts(&["nas.local", "smb-share:server=nas.local,share=media"]), &loc("smb://nas.local/media"));
    assert!(found.unwrap().contains("share=media"));
}

#[test]
fn a_mount_naming_both_host_and_share_beats_one_naming_either() {
    let found = find_mount_in(&mounts(&["nas.local", "media", "nas.local-media"]), &loc("smb://nas.local/media"));
    assert_eq!(found.unwrap(), "/mnt/nas.local-media");
}

#[test]
fn returns_nothing_when_no_mount_matches() {
    let found = find_mount_in(&mounts(&["somethingelse"]), &loc("smb://nas.local/media"));
    assert!(found.is_none());
}

#[test]
fn local_locations_are_never_matched_against_mount_points() {
    assert!(find_mount_in(&mounts(&[]), &Location::local(Style::Unix, "/tmp")).is_none());
    assert!(find_mount_in(&mounts(&["tmp"]), &Location::local(Style::Unix, "/tmp")).is_none());
}

#[test]
fn subpath_is_appended_below_the_share() {
    let base = "/Volumes/media";
    assert_eq!(
        with_subpath(Style::Unix, base, &loc("smb://nas.local/media/movies/2024")),
        "/Volumes/media/movies/2024"
    );
    assert_eq!(with_subpath(Style::Unix, base, &loc("smb://nas.local/media")), base);
}

#[test]
fn only_linux_looks_for_its_sessions() {
    let sessions = vec!["/run/user/1000".to_string()];
    let there = vec!["/run/user/1000/gvfs".to_string()];
    assert_eq!(candidate_roots(Style::Unix, Platform::MacOs, &sessions, &there), vec!["/Volumes"]);
    assert!(candidate_roots(Style::Unix, Platform::Windows, &sessions, &there).is_empty());
    assert_eq!(
        candidate_roots(Style::Unix, Platform::Linux, &sessions, &there),
        vec!["/run/user/1000/gvfs"]
    );
    assert!(candidate_roots(Style::Unix, Platform::Linux, &sessions, &vec![]).is_empty());
}

#[test]
fn a_direct_place_is_checked_and_then_browsed() {
    let place = loc("smb://nas.local/media");
    let plan = MapPlan::Direct("/a".to_string());
    assert_eq!(connect(Style::Unix, &plan, &place, Happened::Asked), Next::Check("/a".to_string()));
    assert_eq!(
        connect(Style::Unix, &plan, &place, Happened::Checked(true)),
        Next::Browse("/a".to_string())
    );
    assert_eq!(
        connect(Style::Unix, &plan, &place, Happened::Checked(false)),
        Next::Refuse("Not reachable: /a".to_string())
    );
}

#[test]
fn a_share_is_looked_for_before_anything_is_run() {
    let place = loc("smb://nas.local/media/movies");
    let plan = plan_for(Style::Unix, Platform::Linux, &place);
    assert_eq!(connect(Style::Unix, &plan, &place, Happened::Asked), Next::Look);
    assert_eq!(
        connect(Style::Unix, &plan, &place, Happened::Looked(Some("/mnt/media".to_string()))),
        Next::Browse("/mnt/media/movies".to_string())
    );
    assert!(matches!(
        connect(Style::Unix, &plan, &place, Happened::Looked(None)),
        Next::Run { .. }
    ));
    assert_eq!(connect(Style::Unix, &plan, &place, Happened::Ended), Next::Wait(0));
    let waited = |ms: u64, found: Option<&str>| Happened::Waited {
        ms,
        found: found.map(str::to_string),
        hint_is_there: false,
    };
    assert_eq!(
        connect(Style::Unix, &plan, &place, waited(89_999, None)),
        Next::Wait(250)
    );
    assert_eq!(
        connect(Style::Unix, &plan, &place, waited(89_999, Some("/mnt/media"))),
        Next::Browse("/mnt/media/movies".to_string())
    );
    assert!(matches!(
        connect(Style::Unix, &plan, &place, waited(90_000, Some("/mnt/media"))),
        Next::Refuse(_)
    ));
    assert!(matches!(
        connect(Style::Unix, &plan, &place, Happened::NotStarted("no such file".to_string())),
        Next::Refuse(_)
    ));
}

#[test]
fn detaching_names_the_program_that_does_it() {
    assert_eq!(
        disconnect(Platform::Linux, "/mnt/a"),
        Ok((
            "gio".to_string(),
            vec!["mount".to_string(), "-u".to_string(), "/mnt/a".to_string()]
        ))
    );
    assert!(disconnect(Platform::Windows, r"\\nas\share").is_err());
    assert_eq!(disconnected("gio", &Happened::Ended), Ok(()));
    assert_eq!(
        disconnected("gio", &Happened::Failed(" busy\n".to_string())),
        Err("busy".to_string())
    );
    assert_eq!(
        disconnected("gio", &Happened::NotStarted("missing".to_string())),
        Err("could not run gio: missing".to_string())
    );
}
