//! Running something as administrator, by asking the system to ask.
//!
//! Nothing here holds a password. Each platform has its own way of putting up
//! an authorisation dialog, and what is built here is the command that raises
//! it - or, where there is no dialog, the line to type at a shell.

use vstd::prelude::*;
use crate::apps;
use crate::encoding;
use crate::mount::Platform;
use crate::open::{Launch, LaunchView};
use crate::shell;
use crate::text;
use crate::text::chars;

verus! {

broadcast use vstd::string::group_string_axioms;

/// How a privileged command gets started.
#[derive(Debug, Clone, PartialEq, Eq)]
pub enum Elevation {
    /// Spawn this. The system puts up its own authorisation dialog.
    Command(Launch),
    /// Type this at a shell tab, where the password prompt has a terminal to
    /// appear on.
    Shell(String),
    /// The platform does not do this, and the reason is worth saying.
    Refused(String),
}

/// An elevation with its texts as sequences of characters.
pub enum ElevationView {
    Command(LaunchView),
    Shell(Seq<char>),
    Refused(Seq<char>),
}

impl View for Elevation {
    type V = ElevationView;

    open spec fn view(&self) -> ElevationView {
        match *self {
            Elevation::Command(launch) => ElevationView::Command(launch@),
            Elevation::Shell(line) => ElevationView::Shell(line@),
            Elevation::Refused(why) => ElevationView::Refused(why@),
        }
    }
}

// ---- base64 --------------------------------------------------------------------------

/// The base64 character for a value below sixty-four.
pub open spec fn base64_char(value: int) -> char {
    if value < 26 {
        (65 + value) as char
    } else if value < 52 {
        (71 + value) as char
    } else if value < 62 {
        (value - 4) as char
    } else if value == 62 {
        '+'
    } else {
        '/'
    }
}

/// The four characters of a group of bytes, `=` for those that no byte of it
/// reaches into.
pub open spec fn base64_group(bytes: Seq<u8>) -> Seq<char> {
    let a = bytes[0] as int;
    let b = if bytes.len() > 1 {
        bytes[1] as int
    } else {
        0
    };
    let c = if bytes.len() > 2 {
        bytes[2] as int
    } else {
        0
    };
    seq![
        base64_char(a / 4),
        base64_char(a % 4 * 16 + b / 16),
        if bytes.len() > 1 {
            base64_char(b % 16 * 4 + c / 64)
        } else {
            '='
        },
        if bytes.len() > 2 {
            base64_char(c % 64)
        } else {
            '='
        },
    ]
}

/// Some bytes in base64: three at a time.
pub open spec fn base64(bytes: Seq<u8>) -> Seq<char>
    decreases bytes.len(),
{
    if bytes.len() == 0 {
        Seq::empty()
    } else if bytes.len() <= 3 {
        base64_group(bytes)
    } else {
        base64_group(bytes.take(3)) + base64(bytes.skip(3))
    }
}

/// A text as UTF-16LE in base64.
pub open spec fn base64_text(s: Seq<char>) -> Seq<char> {
    base64(encoding::text_bytes(s, encoding::Encoding::Utf16Le))
}

fn base64_digit(value: u8) -> (r: char)
    requires
        value < 64,
    ensures
        r == base64_char(value as int),
{
    if value < 26 {
        (65 + value) as char
    } else if value < 52 {
        (71 + value) as char
    } else if value < 62 {
        (value - 4) as char
    } else if value == 62 {
        '+'
    } else {
        '/'
    }
}

/// Base64 of the text as UTF-16LE, which is what `-EncodedCommand` takes.
pub fn base64_utf16(text: &str) -> (r: String)
    ensures
        r@ == base64_text(text@),
{
    let encoded: encoding::Encoded = encoding::encode(text, encoding::Encoding::Utf16Le);
    let bytes: Vec<u8> = encoded.bytes;
    let ghost body = encoding::text_bytes(text@, encoding::Encoding::Utf16Le);
    assert(bytes@.skip(2) =~= body);
    let len: usize = bytes.len();
    let mut out: String = String::new();
    let mut i: usize = 2;
    assert(out@ + base64(body) =~= base64(body));
    while i < len
        invariant
            2 <= i <= len == bytes@.len(),
            base64(body) == out@ + base64(bytes@.skip(i as int)),
        decreases len - i,
    {
        let ghost was = out@;
        let ghost tail = bytes@.skip(i as int);
        let left: usize = len - i;
        let a: u8 = bytes[i];
        let b: u8 = if left > 1 {
            bytes[i + 1]
        } else {
            0
        };
        let c: u8 = if left > 2 {
            bytes[i + 2]
        } else {
            0
        };
        out.push(base64_digit(a / 4));
        out.push(base64_digit(a % 4 * 16 + b / 16));
        out.push(
            if left > 1 {
                base64_digit(b % 16 * 4 + c / 64)
            } else {
                '='
            },
        );
        out.push(
            if left > 2 {
                base64_digit(c % 64)
            } else {
                '='
            },
        );
        if left > 3 {
            proof {
                let head = tail.take(3);
                assert(out@ =~= was + base64_group(head));
                assert(tail.skip(3) =~= bytes@.skip(i + 3));
                assert(was + (base64_group(head) + base64(tail.skip(3))) =~= out@ + base64(
                    bytes@.skip(i + 3),
                ));
            }
            i += 3;
        } else {
            proof {
                assert(out@ =~= was + base64_group(tail));
                assert(bytes@.skip(len as int) =~= Seq::<u8>::empty());
                assert(out@ + base64(bytes@.skip(len as int)) =~= out@);
            }
            i = len;
        }
    }
    assert(bytes@.skip(i as int) =~= Seq::<u8>::empty());
    assert(out@ =~= base64(body));
    out
}

/// The value of a base64 character.
pub open spec fn base64_value(c: char) -> int {
    if 'A' <= c <= 'Z' {
        c as int - 65
    } else if 'a' <= c <= 'z' {
        c as int - 71
    } else if '0' <= c <= '9' {
        c as int + 4
    } else if c == '+' {
        62
    } else {
        63
    }
}

/// The bytes of a group of four base64 characters.
pub open spec fn group_bytes(s: Seq<char>) -> Seq<u8> {
    let v = base64_value(s[0]) * 64 + base64_value(s[1]);
    let first = (v / 16) as u8;
    if s[2] == '=' {
        seq![first]
    } else {
        let w = base64_value(s[1]) % 16 * 64 + base64_value(s[2]);
        let second = (w / 4) as u8;
        if s[3] == '=' {
            seq![first, second]
        } else {
            seq![
                first,
                second,
                (base64_value(s[2]) % 4 * 64 + base64_value(s[3])) as u8,
            ]
        }
    }
}

/// The bytes that base64 writes.
pub open spec fn base64_bytes(s: Seq<char>) -> Seq<u8>
    decreases s.len(),
{
    if s.len() < 4 {
        Seq::empty()
    } else {
        group_bytes(s.take(4)) + base64_bytes(s.skip(4))
    }
}

proof fn lemma_base64_char(value: int)
    requires
        0 <= value < 64,
    ensures
        base64_value(base64_char(value)) == value,
        base64_char(value) != '=',
{
}

proof fn lemma_base64_group(bytes: Seq<u8>)
    requires
        1 <= bytes.len() <= 3,
    ensures
        group_bytes(base64_group(bytes)) == bytes,
{
    let a = bytes[0] as int;
    let b = if bytes.len() > 1 {
        bytes[1] as int
    } else {
        0
    };
    let c = if bytes.len() > 2 {
        bytes[2] as int
    } else {
        0
    };
    lemma_base64_char(a / 4);
    lemma_base64_char(a % 4 * 16 + b / 16);
    lemma_base64_char(b % 16 * 4 + c / 64);
    lemma_base64_char(c % 64);
    assert(group_bytes(base64_group(bytes)) =~= bytes);
}

/// Base64 has a multiple of four characters, and reads back as the bytes.
pub proof fn law_base64_reads_back(bytes: Seq<u8>)
    ensures
        base64(bytes).len() % 4 == 0,
        base64_bytes(base64(bytes)) == bytes,
    decreases bytes.len(),
{
    let s = base64(bytes);
    if bytes.len() == 0 {
        assert(base64_bytes(s) =~= bytes);
    } else if bytes.len() <= 3 {
        lemma_base64_group(bytes);
        assert(s.take(4) =~= s);
        assert(s.skip(4) =~= Seq::<char>::empty());
        assert(base64_bytes(s.skip(4)) =~= Seq::<u8>::empty());
        assert(base64_bytes(s) =~= bytes);
    } else {
        lemma_base64_group(bytes.take(3));
        law_base64_reads_back(bytes.skip(3));
        assert(s.take(4) =~= base64_group(bytes.take(3)));
        assert(s.skip(4) =~= base64(bytes.skip(3)));
        assert(base64_bytes(s) =~= bytes);
    }
}

/// What PowerShell decodes is the script: the bytes behind the base64 are the
/// UTF-16 of the text.
pub proof fn law_script_arrives(s: Seq<char>)
    ensures
        encoding::utf16_bytes_text(base64_bytes(base64_text(s)), true) == s,
{
    let bytes = encoding::text_bytes(s, encoding::Encoding::Utf16Le);
    law_base64_reads_back(bytes);
    encoding::lemma_nothing_lost_utf16(s);
    encoding::law_text_comes_back(s, encoding::Encoding::Utf16Le);
    encoding::lemma_body_of_marked(encoding::Encoding::Utf16Le, bytes);
}

// ---- quoting ----------------------------------------------------------------------------

/// A text in PowerShell's single quotes.
pub open spec fn powershell_quoted(s: Seq<char>) -> Seq<char> {
    "'"@ + text::spread(s, '\'', "''"@) + "'"@
}

/// A text as an AppleScript string.
pub open spec fn applescript_quoted(s: Seq<char>) -> Seq<char> {
    "\""@ + text::spread(text::spread(s, '\\', "\\\\"@), '"', "\\\""@) + "\""@
}

/// Quote for PowerShell: single quotes, in which the only special character
/// is the quote itself, doubled.
pub fn powershell_quote(text: &str) -> (r: String)
    ensures
        r@ == powershell_quoted(text@),
{
    text::concat3("'", text::replace_char(text, '\'', "''").as_str(), "'")
}

/// Quote for an AppleScript string literal.
fn applescript_string(text: &str) -> (r: String)
    ensures
        r@ == applescript_quoted(text@),
{
    let once: String = text::replace_char(text, '\\', "\\\\");
    text::concat3("\"", text::replace_char(once.as_str(), '"', "\\\"").as_str(), "\"")
}

/// What PowerShell reads behind an opening single quote: the text up to the
/// next quote that is not doubled, and what follows it.
pub open spec fn powershell_read(s: Seq<char>) -> Option<(Seq<char>, Seq<char>)>
    decreases s.len(),
{
    if s.len() == 0 {
        None
    } else if s[0] != '\'' {
        match powershell_read(s.skip(1)) {
            Some((text, rest)) => Some((seq![s[0]] + text, rest)),
            None => None,
        }
    } else if s.len() > 1 && s[1] == '\'' {
        match powershell_read(s.skip(2)) {
            Some((text, rest)) => Some((seq!['\''] + text, rest)),
            None => None,
        }
    } else {
        Some((Seq::empty(), s.skip(1)))
    }
}

/// Whatever is in a text, PowerShell reads its quoted form as the text and
/// goes on behind it.
pub proof fn law_powershell_reads_the_text(s: Seq<char>, rest: Seq<char>)
    requires
        rest.len() > 0 ==> rest[0] != '\'',
    ensures
        powershell_quoted(s)[0] == '\'',
        powershell_read((powershell_quoted(s) + rest).skip(1)) == Some((s, rest)),
{
    reveal_strlit("'");
    lemma_powershell_body(s, rest);
    assert((powershell_quoted(s) + rest).skip(1) =~= text::spread(s, '\'', "''"@).push('\'')
        + rest);
}

proof fn lemma_powershell_body(s: Seq<char>, rest: Seq<char>)
    requires
        rest.len() > 0 ==> rest[0] != '\'',
    ensures
        powershell_read(text::spread(s, '\'', "''"@).push('\'') + rest) == Some((s, rest)),
    decreases s.len(),
{
    reveal_strlit("''");
    let all = text::spread(s, '\'', "''"@).push('\'') + rest;
    if s.len() == 0 {
        assert(all =~= seq!['\''] + rest);
        assert(all.skip(1) =~= rest);
        assert(powershell_read(all) == Some((Seq::<char>::empty(), rest)));
        assert(s =~= Seq::<char>::empty());
    } else {
        let tail = text::spread(s.skip(1), '\'', "''"@).push('\'') + rest;
        lemma_powershell_body(s.skip(1), rest);
        assert(s =~= seq![s[0]] + s.skip(1));
        if s[0] == '\'' {
            assert(all =~= "''"@ + tail);
            assert(all.skip(2) =~= tail);
        } else {
            assert(all =~= seq![s[0]] + tail);
            assert(all.skip(1) =~= tail);
        }
    }
}

// ---- the commands --------------------------------------------------------------------------

/// A PowerShell script as a command.
pub open spec fn powershell_launch(script: Seq<char>) -> LaunchView {
    LaunchView {
        program: "powershell.exe"@,
        args: seq![
            "-NoProfile"@,
            "-NonInteractive"@,
            "-EncodedCommand"@,
            base64_text(script),
        ],
    }
}

/// A PowerShell command, handed over base64-encoded UTF-16.
///
/// PowerShell re-parses what it is given for `-Command`, and a path with a
/// quote or a `$` in it does not survive that. `-EncodedCommand` has no
/// parsing left to go wrong.
pub fn powershell_command(script: &str) -> (r: Launch)
    ensures
        r@ == powershell_launch(script@),
{
    let mut args: Vec<String> = Vec::new();
    args.push("-NoProfile".to_owned());
    args.push("-NonInteractive".to_owned());
    args.push("-EncodedCommand".to_owned());
    args.push(base64_utf16(script));
    assert(text::views(args@) =~= powershell_launch(script@).args);
    Launch { program: "powershell.exe".to_owned(), args }
}

/// Texts in PowerShell's quotes, a comma between every two.
pub open spec fn powershell_list(args: Seq<Seq<char>>) -> Seq<char>
    decreases args.len(),
{
    if args.len() == 0 {
        Seq::empty()
    } else if args.len() == 1 {
        powershell_quoted(args[0])
    } else {
        powershell_list(args.drop_last()) + ","@ + powershell_quoted(args.last())
    }
}

/// The script that starts a command as administrator.
pub open spec fn windows_script(launch: LaunchView) -> Seq<char> {
    "Start-Process -FilePath "@ + powershell_quoted(launch.program) + (if launch.args.len() > 0 {
        " -ArgumentList "@ + powershell_list(launch.args)
    } else {
        Seq::empty()
    }) + " -Verb RunAs"@
}

/// `Start-Process -Verb RunAs`, which is what raises UAC.
fn windows_elevated(launch: &Launch) -> (r: Launch)
    ensures
        r@ == powershell_launch(windows_script(launch@)),
{
    let mut script: String = text::concat2(
        "Start-Process -FilePath ",
        powershell_quote(launch.program.as_str()).as_str(),
    );
    let ghost front = script@;
    let ghost all = text::views(launch.args@);
    if launch.args.len() > 0 {
        let mut list: String = powershell_quote(launch.args[0].as_str());
        let mut i: usize = 1;
        assert(all.take(1) =~= seq![launch.args@[0]@]);
        while i < launch.args.len()
            invariant
                1 <= i <= launch.args@.len(),
                all == text::views(launch.args@),
                list@ == powershell_list(all.take(i as int)),
            decreases launch.args@.len() - i,
        {
            list.append(",");
            list.append(powershell_quote(launch.args[i].as_str()).as_str());
            proof {
                assert(all.take(i + 1).drop_last() =~= all.take(i as int));
                assert(all.take(i + 1).last() == launch.args@[i as int]@);
            }
            i += 1;
        }
        assert(all.take(i as int) =~= all);
        script.append(text::concat2(" -ArgumentList ", list.as_str()).as_str());
    } else {
        assert(script@ =~= front + Seq::<char>::empty());
    }
    script.append(" -Verb RunAs");
    powershell_command(script.as_str())
}

/// The command that asks macOS to run something as administrator.
pub open spec fn macos_launch(launch: LaunchView) -> LaunchView {
    LaunchView {
        program: "osascript"@,
        args: seq![
            "-e"@,
            "do shell script "@ + applescript_quoted(
                apps::launch_line(launch, Platform::MacOs),
            ) + " with administrator privileges"@,
        ],
    }
}

/// `do shell script ... with administrator privileges`, which raises the
/// macOS authentication panel.
fn macos_elevated(launch: &Launch) -> (r: Launch)
    ensures
        r@ == macos_launch(launch@),
{
    let line: String = apps::line_of(launch, Platform::MacOs);
    let script: String = text::concat3(
        "do shell script ",
        applescript_string(line.as_str()).as_str(),
        " with administrator privileges",
    );
    let mut args: Vec<String> = Vec::new();
    args.push("-e".to_owned());
    args.push(script);
    assert(text::views(args@) =~= macos_launch(launch@).args);
    Launch { program: "osascript".to_owned(), args }
}

/// What `pkexec` needs in front of the command to give a program its display
/// back; the other helpers pass the environment themselves.
pub open spec fn display_args(
    asker: Seq<char>,
    display: Option<(Seq<char>, Seq<char>)>,
) -> Seq<Seq<char>> {
    match display {
        Some((value, authority)) => if asker == "pkexec"@ {
            if authority.len() > 0 {
                seq!["env"@, "DISPLAY="@ + value, "XAUTHORITY="@ + authority]
            } else {
                seq!["env"@, "DISPLAY="@ + value]
            }
        } else {
            Seq::empty()
        },
        None => Seq::empty(),
    }
}

/// The command that asks a Linux helper to run something as administrator.
pub open spec fn linux_launch(
    asker: Seq<char>,
    launch: LaunchView,
    display: Option<(Seq<char>, Seq<char>)>,
) -> LaunchView {
    LaunchView {
        program: asker,
        args: display_args(asker, display) + seq![launch.program] + launch.args,
    }
}

/// A display and its authority, as characters.
pub open spec fn display_view(display: Option<(&str, &str)>) -> Option<(Seq<char>, Seq<char>)> {
    match display {
        Some((value, authority)) => Some((value@, authority@)),
        None => None,
    }
}

/// `pkexec` and friends, which raise PolicyKit's prompt.
fn linux_elevated(asker: &str, launch: &Launch, display: Option<(&str, &str)>) -> (r: Launch)
    ensures
        r@ == linux_launch(asker@, launch@, display_view(display)),
{
    let mut args: Vec<String> = Vec::new();
    if let Some((value, authority)) = display {
        if text::same(asker, "pkexec") {
            args.push("env".to_owned());
            args.push(text::concat2("DISPLAY=", value));
            if !authority.is_empty() {
                args.push(text::concat2("XAUTHORITY=", authority));
            }
        }
    }
    assert(text::views(args@) =~= display_args(asker@, display_view(display)));
    let ghost front = text::views(args@).push(launch.program@);
    args.push(launch.program.clone());
    assert(text::views(args@) =~= front);
    let ghost all = text::views(launch.args@);
    let mut i: usize = 0;
    assert(front + all.take(0) =~= front);
    while i < launch.args.len()
        invariant
            i <= launch.args@.len(),
            all == text::views(launch.args@),
            text::views(args@) == front + all.take(i as int),
        decreases launch.args@.len() - i,
    {
        let ghost was = text::views(args@);
        args.push(launch.args[i].clone());
        assert(text::views(args@) =~= was.push(all[i as int]));
        assert(front + all.take(i + 1) =~= (front + all.take(i as int)).push(all[i as int]));
        i += 1;
    }
    assert(front + all.take(i as int) =~= display_args(asker@, display_view(display)) + seq![
        launch.program@,
    ] + all);
    Launch { program: asker.to_owned(), args }
}

/// Graphical helpers that ask for authorisation on Linux, best first.
pub open spec fn askers() -> Seq<Seq<char>> {
    seq!["pkexec"@, "kdesu"@, "lxqt-sudo"@]
}

/// The first helper at or after `from` that is installed.
pub open spec fn first_asker(installed: Seq<Seq<char>>, from: int) -> Option<Seq<char>>
    decreases askers().len() - from,
{
    if from >= askers().len() {
        None
    } else if installed.contains(askers()[from]) {
        Some(askers()[from])
    } else {
        first_asker(installed, from + 1)
    }
}

/// How a command is run as administrator on a platform.
pub open spec fn elevated(
    platform: Platform,
    launch: LaunchView,
    display: Option<(Seq<char>, Seq<char>)>,
    installed: Seq<Seq<char>>,
) -> ElevationView {
    match platform {
        Platform::Windows => ElevationView::Command(powershell_launch(windows_script(launch))),
        Platform::MacOs => ElevationView::Command(macos_launch(launch)),
        Platform::Linux => match first_asker(installed, 0) {
            Some(asker) => ElevationView::Command(linux_launch(asker, launch, display)),
            None => ElevationView::Shell(
                "sudo "@ + apps::launch_line(launch, Platform::Linux),
            ),
        },
    }
}

/// Graphical helpers that ask for authorisation on Linux, best first.
pub fn linux_askers() -> (r: Vec<&'static str>)
    ensures
        text::words(r@) == askers(),
{
    let r: Vec<&'static str> = vec!["pkexec", "kdesu", "lxqt-sudo"];
    assert(text::words(r@) =~= askers());
    r
}

/// Wrap `launch` so it runs with administrator privileges.
///
/// `installed` are the programs that are there. With no graphical helper the
/// prompt needs a terminal, so the line goes to a shell.
pub fn elevate(
    platform: Platform,
    launch: &Launch,
    display: Option<(&str, &str)>,
    installed: &Vec<String>,
) -> (r: Elevation)
    ensures
        r@ == elevated(platform, launch@, display_view(display), text::views(installed@)),
{
    match platform {
        Platform::Windows => Elevation::Command(windows_elevated(launch)),
        Platform::MacOs => Elevation::Command(macos_elevated(launch)),
        Platform::Linux => {
            let all: Vec<&'static str> = linux_askers();
            let mut i: usize = 0;
            while i < all.len()
                invariant
                    i <= all@.len(),
                    text::words(all@) == askers(),
                    platform == Platform::Linux,
                    first_asker(text::views(installed@), 0) == first_asker(
                        text::views(installed@),
                        i as int,
                    ),
                decreases all@.len() - i,
            {
                assert(text::words(all@)[i as int] == all@[i as int]@);
                if text::among(all[i], installed) {
                    return Elevation::Command(linux_elevated(all[i], launch, display));
                }
                i += 1;
            }
            assert(askers().len() == all@.len());
            Elevation::Shell(sudo_line(launch, Platform::Linux))
        },
    }
}

/// The command as a `sudo` line to type at a shell.
pub fn sudo_line(launch: &Launch, platform: Platform) -> (r: String)
    ensures
        r@ == "sudo "@ + apps::launch_line(launch@, platform),
{
    text::concat2("sudo ", apps::line_of(launch, platform).as_str())
}

/// How a file is edited that one does not own.
pub open spec fn editing(platform: Platform, editor: Seq<char>, path: Seq<char>) -> ElevationView {
    if platform == Platform::Windows {
        ElevationView::Command(
            powershell_launch(
                windows_script((LaunchView { program: editor, args: seq![path] })),
            ),
        )
    } else {
        ElevationView::Shell(
            "SUDO_EDITOR="@ + shell::quoted(editor, platform) + " sudoedit "@ + shell::quoted(
                path,
                platform,
            ),
        )
    }
}

/// Edit a file you do not own, the way that does not need root to hold the
/// editor.
///
/// `sudoedit` copies the file, runs *your* editor as *you*, and installs the
/// result back as root. Windows has no equivalent, so there the editor itself
/// is elevated.
pub fn edit_as_root(platform: Platform, editor: &str, path: &str) -> (r: Elevation)
    ensures
        r@ == editing(platform, editor@, path@),
{
    if platform == Platform::Windows {
        let mut args: Vec<String> = Vec::new();
        args.push(path.to_owned());
        assert(text::views(args@) =~= seq![path@]);
        let launch: Launch = Launch { program: editor.to_owned(), args };
        Elevation::Command(windows_elevated(&launch))
    } else {
        let mut line: String = text::concat3(
            "SUDO_EDITOR=",
            shell::quote(editor, platform).as_str(),
            " sudoedit ",
        );
        line.append(shell::quote(path, platform).as_str());
        Elevation::Shell(line)
    }
}

/// How a shell is opened as administrator in a directory.
pub open spec fn rooting(platform: Platform, cwd: Seq<char>) -> ElevationView {
    if platform == Platform::Windows {
        ElevationView::Command(
            powershell_launch(
                "Start-Process -FilePath 'powershell.exe' -ArgumentList @('-NoExit','-Command','Set-Location -LiteralPath "@
                    + text::spread(cwd, '\'', "''"@) + "') -Verb RunAs"@,
            ),
        )
    } else {
        ElevationView::Shell("cd "@ + shell::quoted(cwd, platform) + " && sudo -i"@)
    }
}

/// A shell running as administrator, in `cwd`.
pub fn root_shell(platform: Platform, cwd: &str) -> (r: Elevation)
    ensures
        r@ == rooting(platform, cwd@),
{
    if platform == Platform::Windows {
        let script: String = text::concat3(
            "Start-Process -FilePath 'powershell.exe' -ArgumentList @('-NoExit','-Command','Set-Location -LiteralPath ",
            text::replace_char(cwd, '\'', "''").as_str(),
            "') -Verb RunAs",
        );
        Elevation::Command(powershell_command(script.as_str()))
    } else {
        Elevation::Shell(
            text::concat3("cd ", shell::quote(cwd, platform).as_str(), " && sudo -i"),
        )
    }
}

proof fn lemma_first_asker(installed: Seq<Seq<char>>, from: int)
    requires
        0 <= from,
    ensures
        first_asker(installed, from) matches Some(asker) ==> askers().contains(asker)
            && installed.contains(asker),
    decreases askers().len() - from,
{
    if from < askers().len() && !installed.contains(askers()[from]) {
        lemma_first_asker(installed, from + 1);
    }
}

/// Nothing gains privilege quietly: what is started is always the program by
/// which the system asks its user - never the command itself - or a line that
/// begins with `sudo`, for a terminal to ask on.
pub proof fn law_the_system_always_asks(
    platform: Platform,
    launch: LaunchView,
    display: Option<(Seq<char>, Seq<char>)>,
    installed: Seq<Seq<char>>,
)
    ensures
        match elevated(platform, launch, display, installed) {
            ElevationView::Command(started) => match platform {
                Platform::Windows => started.program == "powershell.exe"@
                    && started.args.last() == base64_text(windows_script(launch)),
                Platform::MacOs => started.program == "osascript"@,
                Platform::Linux => askers().contains(started.program) && installed.contains(
                    started.program,
                ),
            },
            ElevationView::Shell(line) => platform == Platform::Linux && text::begins(
                line,
                "sudo "@,
            ),
            ElevationView::Refused(_) => false,
        },
        text::ends(windows_script(launch), " -Verb RunAs"@),
{
    lemma_first_asker(installed, 0);
    let line = "sudo "@ + apps::launch_line(launch, Platform::Linux);
    assert(line.take("sudo "@.len() as int) =~= "sudo "@);
    let script = windows_script(launch);
    assert(script.skip(script.len() - " -Verb RunAs"@.len()) =~= " -Verb RunAs"@);
}

/// What AppleScript reads between double quotes up to the closing one: a
/// backslash makes the next character itself.
pub open spec fn applescript_read(s: Seq<char>) -> Option<(Seq<char>, Seq<char>)>
    decreases s.len(),
{
    if s.len() == 0 {
        None
    } else if s[0] == '"' {
        Some((Seq::empty(), s.skip(1)))
    } else if s[0] == '\\' {
        if s.len() < 2 {
            None
        } else {
            match applescript_read(s.skip(2)) {
                Some((text, rest)) => Some((seq![s[1]] + text, rest)),
                None => None,
            }
        }
    } else {
        match applescript_read(s.skip(1)) {
            Some((text, rest)) => Some((seq![s[0]] + text, rest)),
            None => None,
        }
    }
}

spec fn applescript_inner(s: Seq<char>) -> Seq<char> {
    text::spread(text::spread(s, '\\', "\\\\"@), '"', "\\\""@)
}

proof fn lemma_applescript(s: Seq<char>, rest: Seq<char>)
    ensures
        applescript_read(applescript_inner(s) + seq!['"'] + rest) == Some((s, rest)),
    decreases s.len(),
{
    reveal_strlit("\\\\");
    reveal_strlit("\\\"");
    let all = applescript_inner(s) + seq!['"'] + rest;
    if s.len() == 0 {
        assert(all =~= seq!['"'] + rest);
        assert(all.skip(1) =~= rest);
        assert(s =~= Seq::<char>::empty());
    } else {
        let first = seq![s[0]];
        let tail = s.skip(1);
        let after = applescript_inner(tail) + seq!['"'] + rest;
        lemma_applescript(tail, rest);
        assert(s =~= first + tail);
        text::law_every_one_is_replaced(first, tail, '\\', "\\\\"@);
        let head = text::spread(first, '\\', "\\\\"@);
        text::law_every_one_is_replaced(head, text::spread(tail, '\\', "\\\\"@), '"', "\\\""@);
        if s[0] == '\\' {
            assert(head =~= seq!['\\', '\\']);
            assert(!head.contains('"'));
            text::law_every_one_is_replaced(head, head, '"', "\\\""@);
            assert(all =~= seq!['\\', '\\'] + after);
            assert(all.skip(2) =~= after);
        } else {
            assert(!first.contains('\\'));
            text::law_every_one_is_replaced(first, first, '\\', "\\\\"@);
            assert(head =~= first);
            if s[0] == '"' {
                text::law_every_one_is_replaced(first, first, '"', "\\\""@);
                assert(first =~= seq!['"']);
                assert(all =~= seq!['\\', '"'] + after);
                assert(all.skip(2) =~= after);
            } else {
                assert(!first.contains('"'));
                text::law_every_one_is_replaced(first, first, '"', "\\\""@);
                assert(all =~= first + after);
                assert(all.skip(1) =~= after);
            }
        }
    }
}

/// A text quoted for AppleScript is read as the text, whatever it holds, and
/// what follows the quotes is left.
pub proof fn law_applescript_reads_the_text(s: Seq<char>, rest: Seq<char>)
    ensures
        (applescript_quoted(s) + rest)[0] == '"',
        applescript_read((applescript_quoted(s) + rest).skip(1)) == Some((s, rest)),
{
    reveal_strlit("\"");
    lemma_applescript(s, rest);
    assert((applescript_quoted(s) + rest).skip(1) =~= applescript_inner(s) + seq!['"'] + rest);
}

/// On Linux the asker is the first on the list that is installed; it is
/// handed the program and its arguments as they are, behind what it needs to
/// find the display. Where none is installed the line is for a terminal.
pub proof fn law_the_first_asker_installed_asks(
    launch: LaunchView,
    display: Option<(Seq<char>, Seq<char>)>,
    installed: Seq<Seq<char>>,
)
    ensures
        match elevated(Platform::Linux, launch, display, installed) {
            ElevationView::Command(started) => {
                let given = seq![launch.program] + launch.args;
                &&& exists|k: int|
                    0 <= k < askers().len() && started.program == #[trigger] askers()[k]
                        && installed.contains(askers()[k]) && forall|j: int|
                        0 <= j < k ==> !installed.contains(#[trigger] askers()[j])
                &&& given.len() <= started.args.len()
                &&& started.args.skip(started.args.len() - given.len()) == given
                &&& display is None ==> started.args == given
            },
            ElevationView::Shell(_) => forall|k: int|
                0 <= k < askers().len() ==> !installed.contains(#[trigger] askers()[k]),
            ElevationView::Refused(_) => false,
        },
{
    lemma_asker_is_first(installed, 0);
    if let Some(asker) = first_asker(installed, 0) {
        let given = seq![launch.program] + launch.args;
        let started = linux_launch(asker, launch, display);
        assert(started.args =~= display_args(asker, display) + given);
        assert(started.args.skip(started.args.len() - given.len()) =~= given);
        if display is None {
            assert(started.args =~= given);
        }
    }
}

proof fn lemma_asker_is_first(installed: Seq<Seq<char>>, from: int)
    requires
        0 <= from <= askers().len(),
    ensures
        match first_asker(installed, from) {
            Some(asker) => exists|k: int|
                from <= k < askers().len() && asker == #[trigger] askers()[k]
                    && installed.contains(askers()[k]) && forall|j: int|
                    from <= j < k ==> !installed.contains(#[trigger] askers()[j]),
            None => forall|k: int|
                from <= k < askers().len() ==> !installed.contains(#[trigger] askers()[k]),
        },
    decreases askers().len() - from,
{
    if from < askers().len() {
        if installed.contains(askers()[from]) {
            assert(first_asker(installed, from)->0 == askers()[from]);
        } else {
            lemma_asker_is_first(installed, from + 1);
            if let Some(asker) = first_asker(installed, from + 1) {
                let k = choose|k: int|
                    from + 1 <= k < askers().len() && asker == #[trigger] askers()[k]
                        && installed.contains(askers()[k]) && forall|j: int|
                        from + 1 <= j < k ==> !installed.contains(#[trigger] askers()[j]);
                assert(asker == askers()[k]);
            }
        }
    }
}

} // verus!
