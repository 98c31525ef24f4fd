use lost_commander::apps::{
    application_dirs, applications_for, choice, chooser_command, exec_command, is_desktop_file, line_of,
    load_desktop_entries, load_mac_applications, mac_application_dirs, matching,
    open_with_command, parse_desktop_entry, rank, split_exec, terminal_line, Application, Chosen,
    DesktopEntry, FoundFile,
};
use lost_commander::mount::Platform;
use lost_commander::open::Launch;
use lost_commander::pathname::Style;

fn texts(list: &[&str]) -> Vec<String> {
    list.iter().map(|t| (*t).to_string()).collect()
}

#[test]
fn a_desktop_entry_becomes_a_chooser_item() {
    let entry = parse_desktop_entry(
        "[Desktop Entry]\n\
         Type=Application\n\
         Name=GNU Image Manipulation Program\n\
         Name[de]=GNU-Bildbearbeitungsprogramm\n\
         Exec=gimp-2.10 %U\n\
         TryExec=gimp-2.10\n\
         Terminal=false\n\
         MimeType=image/png;image/jpeg;\n",
    )
    .unwrap();

    assert_eq!(entry.name, "GNU Image Manipulation Program");
    assert_eq!(entry.command, "gimp-2.10 %U");
    assert_eq!(entry.try_exec.as_deref(), Some("gimp-2.10"));
    assert_eq!(entry.mime_types, vec!["image/png", "image/jpeg"]);
    assert!(!entry.terminal);
}

#[test]
fn entries_not_meant_for_a_menu_are_left_out() {
    // NoDisplay and Hidden both mean "not for people to pick".
    for line in ["NoDisplay=true", "Hidden=true"] {
        let text = format!("[Desktop Entry]\nType=Application\nName=X\nExec=x %f\n{line}\n");
        assert!(parse_desktop_entry(&text).is_none(), "{line}");
    }
    // A link or a directory entry is not something to open a file with.
    assert!(parse_desktop_entry("[Desktop Entry]\nType=Link\nName=X\nExec=x\n").is_none());
    // ...and neither is one with nothing to run.
    assert!(parse_desktop_entry("[Desktop Entry]\nType=Application\nName=X\n").is_none());
}

#[test]
fn keys_outside_the_desktop_entry_section_are_ignored() {
    let entry = parse_desktop_entry(
        "[Desktop Entry]\n\
         Type=Application\n\
         Name=Files\n\
         Exec=nautilus %U\n\
         [Desktop Action Window]\n\
         Name=New Window\n\
         Exec=nautilus --new-window\n",
    )
    .unwrap();
    // The action's Name and Exec must not overwrite the entry's own.
    assert_eq!(entry.name, "Files");
    assert_eq!(entry.command, "nautilus %U");
}

#[test]
fn exec_quoting_survives_a_path_with_spaces() {
    let tokens = split_exec(r#""/opt/My App/bin/run" --flag "a b" plain"#);
    assert_eq!(
        tokens,
        vec!["/opt/My App/bin/run", "--flag", "a b", "plain"]
    );
    // A backslash inside quotes escapes the next character.
    assert_eq!(split_exec(r#""a\"b" c"#), vec![r#"a"b"#, "c"]);
}

#[test]
fn the_field_code_becomes_the_file() {
    for code in ["%f", "%F", "%u", "%U"] {
        let launch = exec_command(&format!("viewer {code}"), "/tmp/a.png").unwrap();
        assert_eq!(launch.program, "viewer");
        assert_eq!(launch.args, vec!["/tmp/a.png".to_string()], "{code}");
    }
    // Embedded in an argument, not only standing alone.
    let launch = exec_command("app --file=%f --gui", "/tmp/a.png").unwrap();
    assert_eq!(launch.args, vec!["--file=/tmp/a.png", "--gui"]);
}

#[test]
fn the_codes_a_launcher_must_drop_are_dropped() {
    let launch = exec_command("app %i %c %k %d %v %f", "/tmp/a.png").unwrap();
    assert_eq!(launch.args, vec!["/tmp/a.png".to_string()]);
    // A literal percent survives as one.
    let launch = exec_command("app 100%% %f", "/tmp/a.png").unwrap();
    assert_eq!(launch.args, vec!["100%".to_string(), "/tmp/a.png".into()]);
}

#[test]
fn an_exec_line_with_no_field_code_still_gets_the_file() {
    // Plenty of entries omit it, and starting the application on nothing
    // would look like the chooser had failed.
    let launch = exec_command("mousepad", "/tmp/a.txt").unwrap();
    assert_eq!(launch.program, "mousepad");
    assert_eq!(launch.args, vec!["/tmp/a.txt".to_string()]);
}

#[test]
fn an_empty_exec_line_is_not_a_command() {
    assert!(exec_command("", "/tmp/a.txt").is_none());
    assert!(exec_command("   ", "/tmp/a.txt").is_none());
}

fn entry(name: &str, mimes: &[&str]) -> DesktopEntry {
    DesktopEntry {
        name: name.into(),
        command: format!("{} %f", name.to_lowercase()),
        try_exec: None,
        mime_types: texts(mimes),
        terminal: false,
    }
}

#[test]
fn the_applications_that_claim_the_type_come_first() {
    let entries = vec![
        entry("Zed", &[]),
        entry("Eye of GNOME", &["image/png"]),
        entry("Archive Manager", &[]),
        entry("GIMP", &["image/png", "image/jpeg"]),
    ];
    let apps = rank(&entries, Some("image/png"), &vec![]);
    let names: Vec<&str> = apps.iter().map(|a| a.name.as_str()).collect();

    // Handlers first, each group alphabetical.
    assert_eq!(
        names,
        vec!["Eye of GNOME", "GIMP", "Archive Manager", "Zed"]
    );
    assert!(apps[0].handles && apps[1].handles);
    assert!(!apps[2].handles && !apps[3].handles);
}

#[test]
fn a_text_file_finds_its_handlers() {
    // The commonest case there is.
    let entries = vec![
        entry("Archive Manager", &["application/zip"]),
        entry("Text Editor", &["text/plain"]),
    ];
    let apps = rank(&entries, Some("text/plain"), &vec![]);
    assert_eq!(apps[0].name, "Text Editor");
    assert!(apps[0].handles);
    assert!(!apps[1].handles);
}

#[test]
fn everything_is_still_offered_when_nothing_claims_the_type() {
    // The case the chooser exists for: a file whose type nothing handles.
    let entries = vec![entry("Zed", &[]), entry("GIMP", &["image/png"])];
    let apps = rank(&entries, None, &vec![]);
    assert_eq!(apps.len(), 2);
    assert!(apps.iter().all(|a| !a.handles));
}

#[test]
fn an_entry_whose_binary_was_never_installed_is_left_out() {
    // The `.desktop` file ships in one package and the program in another.
    let mut installed = entry("Present", &[]);
    installed.try_exec = Some("present".into());
    let mut missing = entry("Absent", &[]);
    missing.try_exec = Some("absent".into());

    let apps = rank(&vec![installed, missing], None, &texts(&["present"]));
    assert_eq!(apps.len(), 1);
    assert_eq!(apps[0].name, "Present");
}

#[test]
fn the_same_application_from_two_directories_is_listed_once() {
    // ~/.local/share/applications shadowing /usr/share/applications is
    // the normal case, not an error.
    let apps = rank(&vec![entry("GIMP", &[]), entry("GIMP", &[])], None, &vec![]);
    assert_eq!(apps.len(), 1);
}

fn listed() -> Vec<Application> {
    rank(
        &vec![
            entry("Eye of GNOME", &["image/png"]),
            entry("GIMP", &["image/png"]),
            entry("Text Editor", &[]),
        ],
        Some("image/png"),
        &vec![],
    )
}

#[test]
fn the_box_narrows_the_list_as_you_type() {
    let apps = listed();
    assert_eq!(matching(&apps, "").len(), 3);
    // Case-insensitive, and anywhere in the name rather than only at the
    // start - "gnome" should find "Eye of GNOME".
    let found = matching(&apps, "gnome");
    assert_eq!(found.len(), 1);
    assert_eq!(found[0].name, "Eye of GNOME");
    assert_eq!(matching(&apps, "  gimp  ").len(), 1);
}

#[test]
fn enter_takes_the_application_under_the_cursor() {
    let apps = listed();
    // Empty box: the first one, which is a handler for the type.
    assert_eq!(choice(&apps, "", 0), Some(Chosen::App(&apps[0])));
    assert_eq!(choice(&apps, "", 2), Some(Chosen::App(&apps[2])));
    // A cursor left beyond a narrowed list still lands on something.
    assert_eq!(choice(&apps, "gimp", 7), Some(Chosen::App(&apps[1])));
}

#[test]
fn text_that_matches_nothing_is_a_command_to_run() {
    // The case a list built from installed applications cannot otherwise
    // reach: something not on it.
    let apps = listed();
    assert_eq!(
        choice(&apps, "hexdump -C", 0),
        Some(Chosen::Command("hexdump -C"))
    );
    // ...and an empty box with no applications at all does nothing.
    assert_eq!(choice(&[], "", 0), None);
    assert_eq!(choice(&[], "  ", 0), None);
    assert_eq!(choice(&[], "vim", 0), Some(Chosen::Command("vim")));
}

#[test]
fn windows_uses_its_own_open_with_dialog() {
    let launch = chooser_command(Platform::Windows, r"C:\a b\r&d.txt").unwrap();
    assert_eq!(launch.program, "rundll32.exe");
    assert_eq!(launch.args[0], "shell32.dll,OpenAs_RunDLL");
    assert_eq!(launch.args[1], r"C:\a b\r&d.txt");
    // Everywhere else the chooser is ours.
    assert!(chooser_command(Platform::Linux, "/tmp/a").is_none());
    assert!(chooser_command(Platform::MacOs, "/tmp/a").is_none());
}

#[test]
fn macos_starts_the_bundle_by_name() {
    let app = Application {
        name: "Preview".into(),
        command: "Preview".into(),
        handles: false,
        terminal: false,
    };
    let launch = open_with_command(Platform::MacOs, &app, "/tmp/a b.png").unwrap();
    assert_eq!(launch.program, "open");
    assert_eq!(launch.args, vec!["-a", "Preview", "/tmp/a b.png"]);
}

#[test]
fn linux_starts_the_exec_line() {
    let app = Application {
        name: "GIMP".into(),
        command: "gimp-2.10 %U".into(),
        handles: true,
        terminal: false,
    };
    let launch = open_with_command(Platform::Linux, &app, "/tmp/a.png").unwrap();
    assert_eq!(launch.program, "gimp-2.10");
    assert_eq!(launch.args, vec!["/tmp/a.png".to_string()]);
}

#[test]
fn a_terminal_application_becomes_a_shell_line() {
    let app = Application {
        name: "Vim".into(),
        command: "vim %F".into(),
        handles: true,
        terminal: true,
    };
    // Quoted for the shell, since this one is typed at a prompt rather
    // than spawned with an argument list.
    let line = terminal_line(&app, "/tmp/my notes.txt", Platform::Linux);
    assert!(line.starts_with("vim "), "{line}");
    assert!(line.contains("my notes.txt"), "{line}");
    assert_ne!(line, "vim /tmp/my notes.txt", "the space was not quoted");
}

#[test]
fn a_launch_is_written_as_one_line() {
    let launch = Launch {
        program: "vim".into(),
        args: texts(&["-R", "my notes.txt"]),
    };
    assert_eq!(line_of(&launch, Platform::Linux), "vim -R 'my notes.txt'");
}

#[test]
fn bundles_are_listed_by_name_and_once() {
    let found = load_mac_applications(Style::Unix, &texts(&[
        "/Applications/Xcode.app",
        "/Applications/README",
        "/Applications/Preview.app",
        "/Users/x/Applications/Preview.app",
    ]));
    let names: Vec<&str> = found.iter().map(|a| a.name.as_str()).collect();
    assert_eq!(names, vec!["Preview", "Xcode"]);
    assert_eq!(found[0].command, "Preview");
}

#[test]
fn desktop_entries_are_read_from_disk() {
    let file = |path: &str, text: Option<&str>| FoundFile {
        path: path.to_string(),
        text: text.map(|t| t.to_string()),
    };
    let found = load_desktop_entries(Style::Unix, &vec![
        file(
            "/usr/share/applications/good.desktop",
            Some("[Desktop Entry]\nType=Application\nName=Good\nExec=good %f\n"),
        ),
        file(
            "/usr/share/applications/hidden.desktop",
            Some("[Desktop Entry]\nType=Application\nName=Hidden\nExec=x\nNoDisplay=true\n"),
        ),
        // Not a desktop file at all, and must not stop the walk.
        file("/usr/share/applications/notes.txt", Some("hello")),
        file("/usr/share/applications/unreadable.desktop", None),
    ]);
    assert_eq!(found.len(), 1);
    assert_eq!(found[0].name, "Good");
    assert!(is_desktop_file(Style::Unix, "/a/b.desktop") && !is_desktop_file(Style::Unix, "/a/desktop"));
}

#[test]
fn mac_bundles_are_read_from_disk() {
    let found = load_mac_applications(Style::Unix, &texts(&[
        "/Applications/Preview.app",
        "/Applications/README",
        "/Applications/Xcode.app",
    ]));
    let names: Vec<&str> = found.iter().map(|a| a.name.as_str()).collect();
    assert_eq!(names, vec!["Preview", "Xcode"]);
    assert_eq!(found[0].command, "Preview");
}

#[test]
fn the_directories_are_listed_in_order_and_once() {
    assert_eq!(
        application_dirs(Style::Unix, Some("/home/u/.local/share"), &texts(&["/usr/share/", "/opt/share"])),
        vec![
            "/home/u/.local/share/applications",
            "/usr/share/applications",
            "/opt/share/applications",
            "/usr/local/share/applications",
        ]
    );
    // The most specific first, whatever their names are.
    assert_eq!(
        application_dirs(Style::Unix, Some("/home/u/.local/share"), &texts(&["/a/share"])),
        vec![
            "/home/u/.local/share/applications",
            "/a/share/applications",
            "/usr/local/share/applications",
            "/usr/share/applications",
        ]
    );
    assert_eq!(mac_application_dirs(Style::Unix, Some("/Users/u")).last().unwrap(), "/Users/u/Applications");
    assert_eq!(mac_application_dirs(Style::Unix, None).len(), 4);
}

#[test]
fn what_can_open_a_file_depends_on_the_system() {
    let entries = vec![entry("Viewer", &[]), entry("GIMP", &["image/png"])];
    let bundles = texts(&["/Applications/Preview.app", "/Applications/notes.txt"]);
    let names = |platform: Platform| -> Vec<String> {
        applications_for(Style::Unix, platform, &entries, &bundles, Some("image/png"), &vec![])
            .into_iter()
            .map(|app| app.name)
            .collect()
    };
    assert_eq!(names(Platform::Linux), texts(&["GIMP", "Viewer"]));
    assert_eq!(names(Platform::MacOs), texts(&["Preview"]));
    assert!(names(Platform::Windows).is_empty(), "it has a chooser of its own");
}

#[test]
fn the_same_application_is_listed_once_whichever_entry_claims_the_type() {
    let apps = rank(
        &vec![entry("GIMP", &["image/png"]), entry("Archive Manager", &[]), entry("GIMP", &[])],
        Some("image/png"),
        &vec![],
    );
    let names: Vec<&str> = apps.iter().map(|app| app.name.as_str()).collect();
    assert_eq!(names, vec!["GIMP", "Archive Manager"]);
    assert!(apps[0].handles);
}
