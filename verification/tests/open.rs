use lost_commander::mount::Platform;
use lost_commander::open::{is_executable, linux_openers, open_command, open_warning, runs_code, OPEN_MANY};
use lost_commander::pathname::Style;

fn installed(names: &[&str]) -> Vec<String> {
    names.iter().map(|name| (*name).to_string()).collect()
}

fn none() -> Vec<String> {
    Vec::new()
}

fn targets(names: &[(&str, bool)]) -> Vec<(String, bool)> {
    names
        .iter()
        .map(|(n, x)| (format!("/tmp/{n}"), *x))
        .collect()
}

#[test]
fn macos_uses_open() {
    let plan = open_command(Platform::MacOs, "/tmp/a.pdf", &none()).unwrap();
    assert_eq!(plan.program, "open");
    assert_eq!(plan.args, vec!["/tmp/a.pdf".to_string()]);
}

#[test]
fn windows_goes_through_shellexecute_and_never_through_cmd() {
    let plan = open_command(Platform::Windows, r"C:\a b\r&d.txt", &none()).unwrap();
    assert_eq!(plan.program, "rundll32.exe");
    assert_eq!(plan.args[0], "shell32.dll,ShellExec_RunDLL");
    // The path arrives whole, and no shell is asked to re-read it.
    assert_eq!(plan.args[1], r"C:\a b\r&d.txt");
    assert!(!plan.program.contains("cmd"));
    assert!(!plan.args.iter().any(|a| a == "start"));
}

#[test]
fn linux_prefers_xdg_open() {
    let exists = installed(&["xdg-open", "gio"]);
    let plan = open_command(Platform::Linux, "/tmp/a.txt", &exists).unwrap();
    assert_eq!(plan.program, "xdg-open");
    assert_eq!(plan.args, vec!["/tmp/a.txt".to_string()]);
}

#[test]
fn linux_falls_back_to_whatever_is_installed() {
    let exists = installed(&["gio"]);
    let plan = open_command(Platform::Linux, "/tmp/a.txt", &exists).unwrap();
    assert_eq!(plan.program, "gio");
    assert_eq!(
        plan.args,
        vec!["open".to_string(), "/tmp/a.txt".to_string()]
    );

    let exists = installed(&["exo-open"]);
    let plan = open_command(Platform::Linux, "/tmp/a.txt", &exists).unwrap();
    assert_eq!(plan.program, "exo-open");
}

#[test]
fn linux_with_no_opener_says_what_to_install() {
    let err = open_command(Platform::Linux, "/tmp/a.txt", &none()).unwrap_err();
    assert!(err.contains("xdg-utils"), "{err}");
}

#[test]
fn the_path_is_passed_through_untouched() {
    // Spaces, ampersands and quotes all survive, on every platform, since
    // each opener takes the path as one argv entry.
    let awkward = "/tmp/a b & c's file.txt".to_string();
    for platform in [Platform::Linux, Platform::MacOs, Platform::Windows] {
        let exists = installed(&["xdg-open"]);
        let plan = open_command(platform, &awkward, &exists).unwrap();
        assert_eq!(
            plan.args.last().unwrap(),
            &awkward,
            "{platform:?}"
        );
    }
}

#[test]
fn windows_executables_are_recognised_by_extension() {
    for name in ["setup.exe", "go.BAT", "x.Cmd", "s.ps1", "m.msi", "l.lnk"] {
        assert!(
            runs_code(Style::Unix, Platform::Windows, name, false),
            "{name}"
        );
    }
    for name in ["notes.txt", "photo.jpg", "readme"] {
        assert!(
            !runs_code(Style::Unix, Platform::Windows, name, false),
            "{name}"
        );
    }
}

#[test]
fn a_desktop_file_counts_even_without_the_bit() {
    assert!(runs_code(
        Style::Unix,
        Platform::Linux,
        "invoice.desktop",
        false
    ));
}

#[test]
fn the_execute_bit_alone_does_not_make_a_photo_code() {
    // Everything on a FAT stick looks executable. That must not turn
    // every holiday photo into a confirmation dialog.
    assert!(!runs_code(Style::Unix, Platform::Linux, "photo.jpg", true));
    assert!(!runs_code(Style::Unix, Platform::Linux, "notes.txt", true));
    assert!(!runs_code(Style::Unix, Platform::MacOs, "song.mp3", true));
}

#[test]
fn a_script_or_a_bare_binary_with_the_bit_does() {
    assert!(runs_code(Style::Unix, Platform::Linux, "build.sh", true));
    assert!(runs_code(Style::Unix, Platform::Linux, "tool.PY", true));
    assert!(runs_code(Style::Unix, Platform::Linux, "rcmd", true)); // no extension
    assert!(runs_code(Style::Unix, Platform::Linux, "App.AppImage", true));
    // ...and without the bit they are just text.
    assert!(!runs_code(Style::Unix, Platform::Linux, "build.sh", false));
    assert!(!runs_code(Style::Unix, Platform::Linux, "rcmd", false));
}

#[test]
fn a_handful_of_documents_opens_without_a_question() {
    let set = targets(&[("a.txt", false), ("b.png", false), ("c.pdf", false)]);
    assert_eq!(open_warning(Style::Unix, Platform::Linux, &set), None);
}

#[test]
fn one_program_on_its_own_is_asked_about_by_name() {
    let set = targets(&[("setup.exe", false)]);
    let question = open_warning(Style::Unix, Platform::Windows, &set).unwrap();
    assert!(question.contains("setup.exe"), "{question}");
    assert!(question.contains("Run it?"), "{question}");
}

#[test]
fn a_set_of_nothing_but_programs_says_so() {
    let set = targets(&[("a.sh", true), ("b.py", true)]);
    let question = open_warning(Style::Unix, Platform::Linux, &set).unwrap();
    assert!(question.contains("All 2"), "{question}");
    assert!(question.contains("Run them?"), "{question}");
}

#[test]
fn a_mixed_set_says_what_will_actually_happen_to_it() {
    // Eight documents and a script is not "run it?" - confirming opens
    // the eight and runs the one, and the question has to say that or it
    // is answered on a false premise.
    let mut set = targets(&[("build.sh", true)]);
    set.extend(targets(&[
        ("a.txt", false),
        ("b.txt", false),
        ("c.txt", false),
    ]));
    let question = open_warning(Style::Unix, Platform::Linux, &set).unwrap();
    assert!(question.contains("Open these 4"), "{question}");
    assert!(question.contains("build.sh"), "{question}");
    assert!(question.contains("will be run"), "{question}");

    // Several programs among documents: the count, not a name.
    let mut set = targets(&[("a.sh", true), ("b.py", true)]);
    set.extend(targets(&[("c.txt", false), ("d.txt", false)]));
    let question = open_warning(Style::Unix, Platform::Linux, &set).unwrap();
    assert!(question.contains("Open these 4"), "{question}");
    assert!(question.contains("2 of them"), "{question}");
}

#[test]
fn opening_a_whole_marked_directory_is_asked_about_too() {
    let many: Vec<(&str, bool)> = ["a", "b", "c", "d", "e", "f", "g"]
        .iter()
        .map(|n| (*n, false))
        .collect();
    // Names without extensions, so this is the count talking and not
    // `runs_code` - none of them carries the bit.
    let question = open_warning(Style::Unix, Platform::Linux, &targets(&many)).unwrap();
    assert!(question.contains('7'), "{question}");

    // ...and exactly the limit still goes straight through.
    let at_limit: Vec<(&str, bool)> = ["a", "b", "c", "d", "e"]
        .iter()
        .map(|n| (*n, false))
        .collect();
    assert_eq!(open_warning(Style::Unix, Platform::Linux, &targets(&at_limit)), None);
}

#[test]
fn a_program_is_asked_about_even_when_it_is_the_only_one() {
    // The count check must not shadow the program check: one executable
    // among four documents is the case that matters most.
    let set = targets(&[
        ("a.txt", false),
        ("run.sh", true),
        ("b.txt", false),
        ("c.txt", false),
    ]);
    let question = open_warning(Style::Unix, Platform::Linux, &set).unwrap();
    assert!(question.contains("run.sh"), "{question}");
}

#[test]
fn the_openers_are_tried_in_a_fixed_order() {
    let programs: Vec<&str> = linux_openers().iter().map(|o| o.program).collect();
    assert_eq!(programs[0], "xdg-open");
    let all = installed(&programs);
    assert_eq!(open_command(Platform::Linux, "/a", &all).unwrap().program, "xdg-open");
    assert_eq!(OPEN_MANY, 5);
}

#[test]
fn the_execute_bit_is_read_from_the_file() {
    assert!(is_executable(true, 0o100_755));
    assert!(is_executable(true, 0o100_001));
    assert!(!is_executable(true, 0o100_644));
    // A directory is not an executable file, whatever its bits say.
    assert!(!is_executable(false, 0o040_755));
}
