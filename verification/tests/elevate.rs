use lost_commander::elevate::{
    base64_utf16, edit_as_root, elevate, linux_askers, powershell_command, powershell_quote,
    root_shell, sudo_line, Elevation,
};
use lost_commander::mount::Platform;
use lost_commander::open::Launch;

fn always() -> Vec<String> {
    linux_askers().iter().map(|asker| (*asker).to_string()).collect()
}

fn never() -> Vec<String> {
    Vec::new()
}

fn only(name: &str) -> Vec<String> {
    vec![name.to_string()]
}

fn launch() -> Launch {
    Launch {
        program: "gedit".into(),
        args: vec!["/etc/hosts".into()],
    }
}

/// Decode `-EncodedCommand` back to the script, so the tests assert on
/// what PowerShell will actually run rather than on a blob.
fn decode(encoded: &str) -> String {
    const ALPHABET: &[u8] = b"ABCDEFGHIJKLMNOPQRSTUVWXYZabcdefghijklmnopqrstuvwxyz0123456789+/";
    let mut bits = Vec::new();
    for c in encoded.bytes().filter(|c| *c != b'=') {
        let value = ALPHABET.iter().position(|a| *a == c).unwrap() as u32;
        bits.push(value);
    }
    let mut bytes = Vec::new();
    for chunk in bits.chunks(4) {
        let mut triple = 0u32;
        for (index, value) in chunk.iter().enumerate() {
            triple |= value << (18 - 6 * index);
        }
        let taken = chunk.len() * 6 / 8;
        for index in 0..taken {
            bytes.push((triple >> (16 - 8 * index)) as u8);
        }
    }
    let units: Vec<u16> = bytes
        .chunks(2)
        .map(|p| u16::from_le_bytes([p[0], *p.get(1).unwrap_or(&0)]))
        .collect();
    String::from_utf16(&units).unwrap()
}

#[test]
fn base64_of_utf16_round_trips() {
    for text in ["", "a", "ab", "abc", "abcd", "Start-Process 'x'", "héllo ☃"] {
        assert_eq!(decode(&base64_utf16(text)), text, "{text}");
    }
    // The encoding is padded to a multiple of four, as base64 must be.
    assert_eq!(base64_utf16("abc").len() % 4, 0);
}

#[test]
fn windows_asks_uac_through_an_encoded_script() {
    let Elevation::Command(elevated) = elevate(Platform::Windows, &launch(), None, &never())
    else {
        panic!("expected a command")
    };
    assert_eq!(elevated.program, "powershell.exe");
    assert!(elevated.args.contains(&"-EncodedCommand".to_string()));

    let script = decode(elevated.args.last().unwrap());
    assert!(script.contains("-Verb RunAs"), "{script}");
    assert!(script.contains("-FilePath 'gedit'"), "{script}");
    assert!(script.contains("-ArgumentList '/etc/hosts'"), "{script}");
}

#[test]
fn a_windows_argument_with_a_quote_in_it_survives() {
    // Two layers of parsing would otherwise mangle it: the C runtime
    // quoting Rust applies, and PowerShell's own re-parse. The encoded
    // form has neither.
    let awkward = Launch {
        program: "notepad".into(),
        args: vec![r"C:\a b\it's $weird & odd.txt".into()],
    };
    let Elevation::Command(elevated) = elevate(Platform::Windows, &awkward, None, &never())
    else {
        panic!("expected a command")
    };
    let script = decode(elevated.args.last().unwrap());
    // The quote is doubled, which is how PowerShell escapes it, and
    // everything else is inside the literal untouched.
    assert!(
        script.contains(r"'C:\a b\it''s $weird & odd.txt'"),
        "{script}"
    );
}

#[test]
fn macos_asks_through_the_authentication_panel() {
    let Elevation::Command(elevated) = elevate(Platform::MacOs, &launch(), None, &never()) else {
        panic!("expected a command")
    };
    assert_eq!(elevated.program, "osascript");
    let script = &elevated.args[1];
    assert!(script.starts_with("do shell script "), "{script}");
    assert!(
        script.ends_with(" with administrator privileges"),
        "{script}"
    );
    assert!(script.contains("gedit"), "{script}");
}

#[test]
fn the_applescript_string_escapes_what_would_end_it() {
    let awkward = Launch {
        program: "cat".into(),
        args: vec![r#"/tmp/a "quoted" \ name"#.into()],
    };
    let Elevation::Command(elevated) = elevate(Platform::MacOs, &awkward, None, &never()) else {
        panic!("expected a command")
    };
    let script = &elevated.args[1];
    // Backslash first, then quote - the other order would double-escape
    // the backslashes it had just added.
    assert!(script.contains(r#"\\"#), "{script}");
    assert!(script.contains(r#"\""#), "{script}");
    // Exactly two unescaped quotes: the ones opening and closing it.
    let bare = script.replace(r#"\""#, "");
    assert_eq!(bare.matches('"').count(), 2, "{script}");
}

#[test]
fn linux_prefers_the_graphical_prompt() {
    let Elevation::Command(elevated) = elevate(
        Platform::Linux,
        &launch(),
        Some((":0", "/home/u/.Xauthority")),
        &always(),
    ) else {
        panic!("expected a command")
    };
    assert_eq!(elevated.program, "pkexec");
    // pkexec strips the environment, so a graphical program would lose
    // the display it was about to draw on.
    assert_eq!(elevated.args[0], "env");
    assert!(elevated.args.contains(&"DISPLAY=:0".to_string()));
    assert!(elevated
        .args
        .contains(&"XAUTHORITY=/home/u/.Xauthority".to_string()));
    assert!(elevated.args.contains(&"gedit".to_string()));
    assert!(elevated.args.contains(&"/etc/hosts".to_string()));
}

#[test]
fn a_second_choice_asker_is_used_as_it_comes() {
    // kdesu passes the environment itself, so it gets no `env` prefix.
    let Elevation::Command(elevated) =
        elevate(Platform::Linux, &launch(), Some((":0", "")), &only("kdesu"))
    else {
        panic!("expected a command")
    };
    assert_eq!(elevated.program, "kdesu");
    assert_eq!(elevated.args, vec!["gedit", "/etc/hosts"]);
}

#[test]
fn with_no_graphical_prompt_it_goes_to_a_shell() {
    // `sudo` needs somewhere to ask for the password, and there are real
    // terminals in this window.
    let Elevation::Shell(line) = elevate(Platform::Linux, &launch(), None, &never()) else {
        panic!("expected a shell line")
    };
    assert_eq!(line, "sudo gedit /etc/hosts");
}

#[test]
fn a_shell_line_quotes_its_arguments() {
    let awkward = Launch {
        program: "vim".into(),
        args: vec!["/tmp/my notes; rm -rf x".into()],
    };
    let Elevation::Shell(line) = elevate(Platform::Linux, &awkward, None, &never()) else {
        panic!("expected a shell line")
    };
    // The semicolon is inside the quotes, so it is part of the file name
    // rather than the start of another command.
    assert_eq!(line, "sudo vim '/tmp/my notes; rm -rf x'");
}

#[test]
fn editing_as_root_does_not_run_the_editor_as_root() {
    // sudoedit copies out, runs the editor as you, and writes back as
    // root - so no editor plugin runs privileged and nothing root-owned
    // lands in the user's home directory.
    let Elevation::Shell(line) = edit_as_root(Platform::Linux, "vim", "/etc/hosts")
    else {
        panic!("expected a shell line")
    };
    assert!(line.contains("sudoedit"), "{line}");
    assert!(!line.contains("sudo vim"), "{line}");
    assert!(line.contains("/etc/hosts"), "{line}");
    assert!(line.contains("SUDO_EDITOR=vim"), "{line}");
}

#[test]
fn windows_has_no_sudoedit_so_it_elevates_the_editor() {
    let Elevation::Command(elevated) =
        edit_as_root(Platform::Windows, "notepad", r"C:\Windows\hosts")
    else {
        panic!("expected a command")
    };
    let script = decode(elevated.args.last().unwrap());
    assert!(script.contains("-Verb RunAs"), "{script}");
    assert!(script.contains("notepad"), "{script}");
}

#[test]
fn a_root_shell_starts_where_the_panel_is() {
    let Elevation::Shell(line) = root_shell(Platform::Linux, "/etc/apt") else {
        panic!("expected a shell line")
    };
    assert!(line.contains("cd /etc/apt"), "{line}");
    assert!(line.contains("sudo -i"), "{line}");

    let Elevation::Command(elevated) = root_shell(Platform::Windows, r"C:\Windows")
    else {
        panic!("expected a command")
    };
    let script = decode(elevated.args.last().unwrap());
    assert!(script.contains("-Verb RunAs"), "{script}");
    assert!(
        script.contains(r"Set-Location -LiteralPath C:\Windows"),
        "{script}"
    );
}

#[test]
fn a_directory_with_a_quote_in_it_survives_the_root_shell() {
    let Elevation::Shell(line) = root_shell(Platform::Linux, "/tmp/it's here")
    else {
        panic!("expected a shell line")
    };
    assert!(line.contains(r"'/tmp/it'\''s here'"), "{line}");
}

#[test]
fn a_powershell_literal_doubles_its_quotes() {
    assert_eq!(powershell_quote("it's"), "'it''s'");
    assert_eq!(powershell_quote(""), "''");
}

#[test]
fn a_script_is_handed_over_encoded() {
    let launch = powershell_command("Get-Date");
    assert_eq!(launch.program, "powershell.exe");
    assert_eq!(decode(launch.args.last().unwrap()), "Get-Date");
}

#[test]
fn base64_is_the_usual_one() {
    assert_eq!(base64_utf16("a"), "YQA=");
    assert_eq!(base64_utf16("abc"), "YQBiAGMA");
}

#[test]
fn a_sudo_line_quotes_each_word() {
    let awkward = Launch {
        program: "my editor".into(),
        args: vec!["a b".into(), "c".into()],
    };
    assert_eq!(sudo_line(&awkward, Platform::Linux), "sudo 'my editor' 'a b' c");
}
