use lost_commander::mount::Platform;
use lost_commander::pathname::Style;
use lost_commander::places::{drives, to_look_at, user_places, Kind, Probe, Volume};

fn probes(platform: Platform, there: &dyn Fn(&str) -> bool) -> Vec<Probe> {
    to_look_at(platform, None)
        .into_iter()
        .map(|path| Probe {
            exists: there(&path),
            free: None,
            holds: Vec::new(),
            path,
        })
        .collect()
}

#[test]
fn windows_offers_the_drive_letters_that_answer() {
    // There is no root above them: `C:` and `D:` are two trees, not two
    // directories, which is exactly why they have to be listed.
    let there = |path: &str| {
        let shown = path.to_string();
        shown.starts_with('C') || shown.starts_with('D')
    };
    let found = drives(Style::Unix, Platform::Windows, &probes(Platform::Windows, &there), None);
    assert_eq!(found.len(), 2);
    assert_eq!(found[0].name, "C:");
    assert_eq!(found[0].path, "C:\\");
    assert_eq!(found[1].name, "D:");
    assert!(found.iter().all(|place| place.kind == Kind::Drive));
}

#[test]
fn unix_always_offers_the_root() {
    let found = drives(Style::Unix, Platform::Linux, &probes(Platform::Linux, &|_| false), None);
    assert_eq!(found.len(), 1, "the root is always there");
    assert_eq!(found[0].path, "/");
}

#[test]
fn the_home_and_its_folders() {
    let home = "/home/you".to_string();
    let found = user_places(
        Style::Unix,
        Some(home.clone()),
        &vec![
            ("Downloads".to_string(), Some(format!("{home}/Downloads"))),
            ("Documents".to_string(), None),
        ],
    );
    assert_eq!(
        found.len(),
        2,
        "a folder the machine has not got is not one"
    );
    assert_eq!(found[0].kind, Kind::Home);
    assert_eq!(found[1].name, "Downloads");
}

#[test]
fn a_folder_that_is_the_home_is_not_listed_twice() {
    // Some systems answer with the home for a folder they do not have,
    // and "Home, Documents" both pointing at the same place is a sidebar
    // that has stopped meaning anything.
    let home = "/home/you".to_string();
    let found = user_places(Style::Unix, Some(home.clone()), &vec![("Documents".to_string(), Some(home.clone()))]);
    assert_eq!(found.len(), 1);
}

#[test]
fn no_home_is_not_an_error() {
    // A service account may have none, and a sidebar with only drives is
    // still a useful sidebar.
    assert!(user_places(Style::Unix, None, &vec![("Downloads".to_string(), None)]).is_empty());
}

#[test]
fn a_mounted_volume_is_listed_with_its_free_space() {
    let mut seen = probes(Platform::MacOs, &|_| true);
    for probe in seen.iter_mut() {
        if probe.path == "/Volumes" {
            probe.holds = vec![
                Volume {
                    name: "media".to_string(),
                    path: "/Volumes/media".to_string(),
                    is_dir: true,
                    free: Some(7),
                },
                Volume {
                    name: "note.txt".to_string(),
                    path: "/Volumes/note.txt".to_string(),
                    is_dir: false,
                    free: Some(7),
                },
            ];
        }
    }
    let found = drives(Style::Unix, Platform::MacOs, &seen, None);
    let media = found.iter().find(|p| p.name == "media").unwrap();
    assert_eq!(media.kind, Kind::Drive);
    assert_eq!(media.free, Some(7));
    assert!(found.iter().all(|p| p.name != "note.txt"));
}

#[test]
fn a_drive_says_how_much_room_is_left_and_a_folder_does_not() {
    // Repeating the same figure under Documents, Downloads and Pictures says
    // nothing: they are all the same disk.
    let mut seen = probes(Platform::Linux, &|path| path == "/");
    for probe in seen.iter_mut() {
        probe.free = Some(1_000);
    }
    let found = drives(Style::Unix, Platform::Linux, &seen, None);
    let drive = found.iter().find(|p| p.kind == Kind::Drive).unwrap();
    assert!(drive.free.is_some(), "a mounted drive knows: {}", drive.path);

    let folders = vec![("Documents".to_string(), Some("/home/alex/Documents".to_string()))];
    let places = user_places(Style::Unix, Some("/home/alex".to_string()), &folders);
    assert!(places.iter().any(|p| p.kind == Kind::Folder));
    assert!(places.iter().filter(|p| p.kind == Kind::Folder).all(|p| p.free.is_none()));
}

#[test]
fn a_drive_that_will_not_say_is_not_reported_as_empty() {
    // An optical drive with no disc in it answers with an error, and showing
    // zero would read as a full disk rather than an unknown one.
    let seen = probes(Platform::Windows, &|path| path.starts_with("Z:"));
    let found = drives(Style::Unix, Platform::Windows, &seen, None);
    assert_eq!(found.len(), 1);
    assert_eq!(found[0].free, None);
}
