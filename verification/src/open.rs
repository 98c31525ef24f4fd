//! Handing a file to the desktop - the "open" that `Enter` means.
//!
//! Opening a document is asking the operating system which application is
//! registered for it. Executing the file itself is a different act with a
//! different risk, and the one worth a question first. Nothing here ever runs
//! the selected file: it names the platform's opener and hands it a path.

use vstd::prelude::*;
use crate::mount::Platform;
use crate::pathname;
use crate::pathname::Style;
use crate::text;

verus! {

broadcast use vstd::string::group_string_axioms;

/// A command to start: resolved for this platform, not yet run.
#[derive(Debug, Clone, PartialEq, Eq)]
pub struct Launch {
    pub program: String,
    pub args: Vec<String>,
}

/// A command with its texts as sequences of characters.
pub struct LaunchView {
    pub program: Seq<char>,
    pub args: Seq<Seq<char>>,
}

impl View for Launch {
    type V = LaunchView;

    open spec fn view(&self) -> LaunchView {
        LaunchView { program: self.program@, args: text::views(self.args@) }
    }
}

/// A program of Linux that opens things, and what it wants in front of the
/// path.
pub struct LinuxOpener {
    pub program: &'static str,
    pub argument: Option<&'static str>,
}

/// The Linux openers, best first.
pub open spec fn openers() -> Seq<(Seq<char>, Seq<Seq<char>>)> {
    seq![
        ("xdg-open"@, Seq::empty()),
        ("gio"@, seq!["open"@]),
        ("kde-open5"@, Seq::empty()),
        ("kde-open"@, Seq::empty()),
        ("gnome-open"@, Seq::empty()),
        ("exo-open"@, Seq::empty()),
    ]
}

/// What an opener says as plain values.
pub open spec fn opener_view(opener: LinuxOpener) -> (Seq<char>, Seq<Seq<char>>) {
    (
        opener.program@,
        match opener.argument {
            Some(argument) => seq![argument@],
            None => Seq::empty(),
        },
    )
}

/// The Linux openers, best first.
///
/// `xdg-open` is the standard and is what should normally answer. A minimal
/// desktop may not have it, so the desktops' own equivalents follow.
pub fn linux_openers() -> (r: Vec<LinuxOpener>)
    ensures
        r@.map_values(|opener: LinuxOpener| opener_view(opener)) == openers(),
{
    let r: Vec<LinuxOpener> = vec![
        LinuxOpener { program: "xdg-open", argument: None },
        LinuxOpener { program: "gio", argument: Some("open") },
        LinuxOpener { program: "kde-open5", argument: None },
        LinuxOpener { program: "kde-open", argument: None },
        LinuxOpener { program: "gnome-open", argument: None },
        LinuxOpener { program: "exo-open", argument: None },
    ];
    assert(r@.map_values(|opener: LinuxOpener| opener_view(opener)) =~= openers());
    r
}

/// The first opener at or after `from` that is installed.
pub open spec fn first_opener(installed: Seq<Seq<char>>, from: int) -> Option<
    (Seq<char>, Seq<Seq<char>>),
>
    decreases openers().len() - from,
{
    if from >= openers().len() {
        None
    } else if installed.contains(openers()[from].0) {
        Some(openers()[from])
    } else {
        first_opener(installed, from + 1)
    }
}

/// The command that opens a path on a platform, or why there is none.
pub open spec fn opening(
    platform: Platform,
    path: Seq<char>,
    installed: Seq<Seq<char>>,
) -> Result<LaunchView, Seq<char>> {
    match platform {
        Platform::MacOs => Ok((LaunchView { program: "open"@, args: seq![path] })),
        Platform::Windows => Ok(
            (LaunchView {
                program: "rundll32.exe"@,
                args: seq!["shell32.dll,ShellExec_RunDLL"@, path],
            }),
        ),
        Platform::Linux => match first_opener(installed, 0) {
            Some((program, prefix)) => Ok((LaunchView { program, args: prefix.push(path) })),
            None => Err("no desktop opener found - install xdg-utils"@),
        },
    }
}

/// The command that hands `path` to whatever the desktop uses to open it.
///
/// `installed` are the programs that are there; only Linux asks.
pub fn open_command(platform: Platform, path: &str, installed: &Vec<String>) -> (r: Result<
    Launch,
    String,
>)
    ensures
        match r {
            Ok(launch) => opening(platform, path@, text::views(installed@)) == Ok::<
                LaunchView,
                Seq<char>,
            >(launch@),
            Err(why) => opening(platform, path@, text::views(installed@)) == Err::<
                LaunchView,
                Seq<char>,
            >(why@),
        },
{
    let mut args: Vec<String> = Vec::new();
    match platform {
        Platform::MacOs => {
            args.push(path.to_owned());
            assert(text::views(args@) =~= seq![path@]);
            Ok(Launch { program: "open".to_owned(), args })
        },
        Platform::Windows => {
            args.push("shell32.dll,ShellExec_RunDLL".to_owned());
            args.push(path.to_owned());
            assert(text::views(args@) =~= seq!["shell32.dll,ShellExec_RunDLL"@, path@]);
            Ok(Launch { program: "rundll32.exe".to_owned(), args })
        },
        Platform::Linux => {
            let all: Vec<LinuxOpener> = linux_openers();
            let ghost views = all@.map_values(|opener: LinuxOpener| opener_view(opener));
            let mut i: usize = 0;
            while i < all.len()
                invariant
                    i <= all@.len(),
                    views == all@.map_values(|opener: LinuxOpener| opener_view(opener)),
                    views == openers(),
                    args@.len() == 0,
                    first_opener(text::views(installed@), 0) == first_opener(
                        text::views(installed@),
                        i as int,
                    ),
                    platform == Platform::Linux,
                decreases all@.len() - i,
            {
                assert(views[i as int] == opener_view(all@[i as int]));
                if text::among(all[i].program, installed) {
                    if let Some(argument) = all[i].argument {
                        args.push(argument.to_owned());
                    }
                    args.push(path.to_owned());
                    assert(text::views(args@) =~= openers()[i as int].1.push(path@));
                    return Ok(Launch { program: all[i].program.to_owned(), args });
                }
                i += 1;
            }
            Err("no desktop opener found - install xdg-utils".to_owned())
        },
    }
}

/// What Windows will *run* rather than display, from the file name alone.
pub open spec fn windows_executable() -> Seq<Seq<char>> {
    seq![
        "exe"@, "com"@, "bat"@, "cmd"@, "scr"@, "pif"@, "msi"@, "msp"@, "ps1"@, "psm1"@, "vbs"@,
        "vbe"@, "js"@, "jse"@, "wsf"@, "wsh"@, "hta"@, "cpl"@, "jar"@, "reg"@, "lnk"@,
    ]
}

/// Names that mean code on Unix once the execute bit is set.
pub open spec fn unix_script() -> Seq<Seq<char>> {
    seq![
        "sh"@, "bash"@, "zsh"@, "ksh"@, "csh"@, "fish"@, "py"@, "pl"@, "rb"@, "lua"@, "tcl"@,
        "php"@, "r"@, "jar"@, "run"@, "appimage"@, "bin"@, "out"@,
    ]
}

/// The ending of a path in small letters; nothing where it has none.
pub open spec fn small_ending(style: Style, path: Seq<char>) -> Seq<char> {
    match pathname::extension(style, path) {
        Some(ending) => text::lowercase(ending),
        None => Seq::empty(),
    }
}

/// Whether opening a path would run code rather than show something.
pub open spec fn would_run(
    style: Style,
    platform: Platform,
    path: Seq<char>,
    executable: bool,
) -> bool {
    let ending = small_ending(style, path);
    if platform == Platform::Windows {
        windows_executable().contains(ending)
    } else {
        ending == "desktop"@ || (executable && (ending.len() == 0 || unix_script().contains(
            ending,
        )))
    }
}

/// Whether opening this would run code rather than show something.
///
/// A launcher runs what it names whether or not it is itself marked
/// executable. The execute bit on its own proves nothing: a FAT stick reports
/// every file as executable. It counts when the name agrees, or says nothing
/// at all.
pub fn runs_code(style: Style, platform: Platform, path: &str, executable: bool) -> (r: bool)
    ensures
        r == would_run(style, platform, path@, executable),
{
    let ending: String = match pathname::extension_of(style, path) {
        Some(ending) => text::to_lowercase(ending.as_str()),
        None => {
            let none: String = String::new();
            assert(none@ =~= Seq::<char>::empty());
            none
        },
    };
    if platform == Platform::Windows {
        let list: Vec<&'static str> = vec![
            "exe", "com", "bat", "cmd", "scr", "pif", "msi", "msp", "ps1", "psm1", "vbs", "vbe",
            "js", "jse", "wsf", "wsh", "hta", "cpl", "jar", "reg", "lnk",
        ];
        assert(text::words(list@) =~= windows_executable());
        text::listed(ending.as_str(), &list)
    } else {
        let list: Vec<&'static str> = vec![
            "sh", "bash", "zsh", "ksh", "csh", "fish", "py", "pl", "rb", "lua", "tcl", "php", "r",
            "jar", "run", "appimage", "bin", "out",
        ];
        assert(text::words(list@) =~= unix_script());
        text::same(ending.as_str(), "desktop") || (executable && (ending.as_str().is_empty()
            || text::listed(ending.as_str(), &list)))
    }
}

/// Whether something is a file with any of its execute bits set.
pub fn is_executable(is_file: bool, mode: u32) -> (r: bool)
    ensures
        r == (is_file && mode & 0o111 != 0),
{
    is_file && mode & 0o111 != 0
}

/// The most files `Enter` hands over at once without asking.
pub const OPEN_MANY: usize = 5;

/// The name at the end of a path; nothing where it has none.
pub open spec fn name_or_nothing(style: Style, path: Seq<char>) -> Seq<char> {
    match pathname::file_name(style, path) {
        Some(name) => name,
        None => Seq::empty(),
    }
}

/// The names of those of a set that would run.
pub open spec fn programs_among(
    style: Style,
    platform: Platform,
    targets: Seq<(String, bool)>,
) -> Seq<Seq<char>>
    decreases targets.len(),
{
    if targets.len() == 0 {
        Seq::empty()
    } else {
        let front = programs_among(style, platform, targets.drop_last());
        let last = targets.last();
        if would_run(style, platform, last.0@, last.1) {
            front.push(name_or_nothing(style, last.0@))
        } else {
            front
        }
    }
}

/// The question that opening a set is worth, by the programs in it and its
/// size.
pub open spec fn question(programs: Seq<Seq<char>>, total: nat) -> Option<Seq<char>> {
    let n = programs.len();
    if n == 1 && total == 1 {
        Some(programs[0] + " is a program. Run it?"@)
    } else if n > 0 && n == total {
        Some("All "@ + text::decimal(n) + " of these are programs. Run them?"@)
    } else if n == 1 {
        Some(
            "Open these "@ + text::decimal(total) + "? "@ + programs[0]
                + " is a program and will be run."@,
        )
    } else if n > 0 {
        Some(
            "Open these "@ + text::decimal(total) + "? "@ + text::decimal(n)
                + " of them are programs and will be run."@,
        )
    } else if total > OPEN_MANY {
        Some(
            "Open "@ + text::decimal(total) + " files? That is "@ + text::decimal(total)
                + " windows."@,
        )
    } else {
        None
    }
}

/// Why opening this set is worth a question first, if it is.
///
/// The wording matches what the button will actually do: a set of documents
/// with one script among them is not "run it?", since confirming opens the
/// documents and runs the one.
pub fn open_warning(
    style: Style,
    platform: Platform,
    targets: &[(String, bool)],
) -> (r: Option<String>)
    ensures
        match r {
            Some(asked) => question(programs_among(style, platform, targets@), targets@.len()) == Some(
                asked@,
            ),
            None => question(programs_among(style, platform, targets@), targets@.len()) is None,
        },
{
    let mut programs: Vec<String> = Vec::new();
    let mut i: usize = 0;
    assert(targets@.take(0) =~= Seq::<(String, bool)>::empty());
    assert(text::views(programs@) =~= Seq::empty());
    while i < targets.len()
        invariant
            i <= targets@.len(),
            text::views(programs@) == programs_among(style, platform, targets@.take(i as int)),
        decreases targets@.len() - i,
    {
        proof {
            assert(targets@.take(i + 1).drop_last() =~= targets@.take(i as int));
            assert(targets@.take(i + 1).last() == targets@[i as int]);
        }
        let path: &str = targets[i].0.as_str();
        if runs_code(style, platform, path, targets[i].1) {
            let name: String = match pathname::file_name_of(style, path) {
                Some(name) => name,
                None => {
                    let none: String = String::new();
                    assert(none@ =~= Seq::<char>::empty());
                    none
                },
            };
            let ghost was = text::views(programs@);
            programs.push(name);
            assert(text::views(programs@) =~= was.push(name@));
        }
        i += 1;
    }
    assert(targets@.take(i as int) =~= targets@);
    let total: usize = targets.len();
    let n: usize = programs.len();
    let shown_total: String = text::decimal_text(total as u64);
    let shown_n: String = text::decimal_text(n as u64);
    let ghost names = text::views(programs@);
    if n == 1 && total == 1 {
        assert(names[0] == programs@[0]@);
        Some(text::concat2(programs[0].as_str(), " is a program. Run it?"))
    } else if n > 0 && n == total {
        Some(text::concat3("All ", shown_n.as_str(), " of these are programs. Run them?"))
    } else if n == 1 {
        assert(names[0] == programs@[0]@);
        let mut asked: String = text::concat3("Open these ", shown_total.as_str(), "? ");
        asked.append(programs[0].as_str());
        asked.append(" is a program and will be run.");
        Some(asked)
    } else if n > 0 {
        let mut asked: String = text::concat3("Open these ", shown_total.as_str(), "? ");
        asked.append(shown_n.as_str());
        asked.append(" of them are programs and will be run.");
        Some(asked)
    } else if total > OPEN_MANY {
        let mut asked: String = text::concat3("Open ", shown_total.as_str(), " files? That is ");
        asked.append(shown_total.as_str());
        asked.append(" windows.");
        Some(asked)
    } else {
        None
    }
}

/// Nothing that would run is ever opened without a question.
pub proof fn law_no_program_runs_unasked(
    style: Style,
    platform: Platform,
    targets: Seq<(String, bool)>,
    i: int,
)
    requires
        0 <= i < targets.len(),
        would_run(style, platform, targets[i].0@, targets[i].1),
    ensures
        question(programs_among(style, platform, targets), targets.len()) is Some,
{
    lemma_program_is_counted(style, platform, targets, i);
}

proof fn lemma_program_is_counted(
    style: Style,
    platform: Platform,
    targets: Seq<(String, bool)>,
    i: int,
)
    requires
        0 <= i < targets.len(),
        would_run(style, platform, targets[i].0@, targets[i].1),
    ensures
        programs_among(style, platform, targets).len() > 0,
    decreases targets.len(),
{
    if i < targets.len() - 1 {
        assert(targets.drop_last()[i] == targets[i]);
        lemma_program_is_counted(style, platform, targets.drop_last(), i);
    }
}

proof fn lemma_first_opener(installed: Seq<Seq<char>>, from: int)
    requires
        0 <= from,
    ensures
        first_opener(installed, from) matches Some(found) ==> openers().contains(found)
            && installed.contains(found.0),
    decreases openers().len() - from,
{
    if from < openers().len() && !installed.contains(openers()[from].0) {
        lemma_first_opener(installed, from + 1);
    }
}

/// Nothing here runs the file itself: what runs is the platform's opener, and
/// the path is the last thing handed to it.
pub proof fn law_only_an_opener_runs(
    platform: Platform,
    path: Seq<char>,
    installed: Seq<Seq<char>>,
)
    ensures
        opening(platform, path, installed) matches Ok(launch) ==> {
            &&& launch.args.len() > 0 && launch.args.last() == path
            &&& match platform {
                Platform::MacOs => launch.program == "open"@,
                Platform::Windows => launch.program == "rundll32.exe"@,
                Platform::Linux => installed.contains(launch.program) && openers().contains(
                    (launch.program, launch.args.drop_last()),
                ),
            }
        },
{
    lemma_first_opener(installed, 0);
    if let Some((program, prefix)) = first_opener(installed, 0) {
        assert(prefix.push(path).drop_last() =~= prefix);
    }
}

/// The opener that is used is the first on the list that is installed, and it
/// is handed the path behind its own arguments; there is none only where none
/// of them is installed.
pub proof fn law_the_first_opener_installed_is_used(path: Seq<char>, installed: Seq<Seq<char>>)
    ensures
        match opening(Platform::Linux, path, installed) {
            Ok(launch) => exists|k: int|
                {
                    &&& 0 <= k < openers().len()
                    &&& launch.program == (#[trigger] openers()[k]).0
                    &&& launch.args == openers()[k].1.push(path)
                    &&& installed.contains(launch.program)
                    &&& forall|j: int|
                        0 <= j < k ==> !installed.contains((#[trigger] openers()[j]).0)
                },
            Err(_) => forall|k: int|
                0 <= k < openers().len() ==> !installed.contains((#[trigger] openers()[k]).0),
        },
{
    lemma_opener_is_first(installed, 0);
}

proof fn lemma_opener_is_first(installed: Seq<Seq<char>>, from: int)
    requires
        0 <= from <= openers().len(),
    ensures
        match first_opener(installed, from) {
            Some(opener) => exists|k: int|
                {
                    &&& from <= k < openers().len()
                    &&& opener == #[trigger] openers()[k]
                    &&& installed.contains(opener.0)
                    &&& forall|j: int|
                        from <= j < k ==> !installed.contains((#[trigger] openers()[j]).0)
                },
            None => forall|k: int|
                from <= k < openers().len() ==> !installed.contains((#[trigger] openers()[k]).0),
        },
    decreases openers().len() - from,
{
    if from < openers().len() {
        if installed.contains(openers()[from].0) {
            assert(openers()[from] == first_opener(installed, from)->0);
        } else {
            lemma_opener_is_first(installed, from + 1);
            if let Some(opener) = first_opener(installed, from + 1) {
                let k = choose|k: int|
                    {
                        &&& from + 1 <= k < openers().len()
                        &&& opener == #[trigger] openers()[k]
                        &&& installed.contains(opener.0)
                        &&& forall|j: int|
                            from + 1 <= j < k ==> !installed.contains((#[trigger] openers()[j]).0)
                    };
                assert(opener == openers()[k]);
            }
        }
    }
}

/// A path is handed over as it is, the last argument, on every platform.
pub proof fn law_the_path_is_handed_over(
    platform: Platform,
    path: Seq<char>,
    installed: Seq<Seq<char>>,
)
    ensures
        opening(platform, path, installed) matches Ok(launch) ==> launch.args.len() > 0
            && launch.args.last() == path,
        platform != Platform::Linux ==> opening(platform, path, installed) is Ok,
{
    lemma_opener_is_first(installed, 0);
}

/// A question is asked exactly where a program is among what is to be opened,
/// or where there are more than five of them.
pub proof fn law_when_a_question_is_asked(
    style: Style,
    platform: Platform,
    targets: Seq<(String, bool)>,
)
    ensures
        question(programs_among(style, platform, targets), targets.len()) is None <==> targets.len()
            <= 5 && forall|i: int|
            0 <= i < targets.len() ==> !would_run(
                style,
                platform,
                (#[trigger] targets[i]).0@,
                targets[i].1,
            ),
        programs_among(style, platform, targets).len() == targets.filter(
            |target: (String, bool)| would_run(style, platform, target.0@, target.1),
        ).len(),
{
    lemma_programs(style, platform, targets);
    let programs = targets.filter(
        |target: (String, bool)| would_run(style, platform, target.0@, target.1),
    );
    let pred = |target: (String, bool)| would_run(style, platform, target.0@, target.1);
    if programs.len() > 0 {
        assert(programs.contains(programs[0]));
        targets.lemma_filter_contains_rev(pred, programs[0]);
        targets.lemma_filter_pred(pred, 0);
        assert(targets.contains(programs[0]));
        let i = choose|i: int| 0 <= i < targets.len() && targets[i] == programs[0];
        assert(would_run(style, platform, targets[i].0@, targets[i].1));
    } else {
        assert forall|i: int| 0 <= i < targets.len() implies !would_run(
            style,
            platform,
            (#[trigger] targets[i]).0@,
            targets[i].1,
        ) by {
            if pred(targets[i]) {
                targets.lemma_filter_contains(pred, i);
                assert(programs.contains(targets[i]));
            }
        }
    }
}

proof fn lemma_programs(style: Style, platform: Platform, targets: Seq<(String, bool)>)
    ensures
        programs_among(style, platform, targets).len() == targets.filter(
            |target: (String, bool)| would_run(style, platform, target.0@, target.1),
        ).len(),
    decreases targets.len(),
{
    reveal(Seq::filter);
    if targets.len() > 0 {
        lemma_programs(style, platform, targets.drop_last());
    }
}

/// What runs by its name alone runs whatever its execute bit; elsewhere than
/// on Windows a file without the bit runs only as a launcher, and one with it
/// only where its ending does not say that it is something else. The case of
/// an ending is no matter.
pub proof fn law_what_runs(
    style: Style,
    platform: Platform,
    path: Seq<char>,
    other: Seq<char>,
    executable: bool,
)
    ensures
        platform == Platform::Windows ==> would_run(style, platform, path, true) == would_run(
            style,
            platform,
            path,
            false,
        ),
        platform != Platform::Windows && !executable ==> (would_run(
            style,
            platform,
            path,
            executable,
        ) <==> small_ending(style, path) == "desktop"@),
        platform != Platform::Windows && pathname::extension(style, path) is None ==> would_run(
            style,
            platform,
            path,
            executable,
        ) == executable,
        would_run(style, platform, path, false) ==> would_run(style, platform, path, true),
        ({
            let (a, b) = (pathname::extension(style, path), pathname::extension(style, other));
            a is Some && b is Some && text::all_ascii(a->0) && text::all_ascii(b->0)
                && text::ascii_lower(a->0) == text::ascii_lower(b->0) ==> would_run(
                style,
                platform,
                path,
                executable,
            ) == would_run(style, platform, other, executable)
        }),
{
    reveal_strlit("desktop");
    assert("desktop"@.len() == 7);
}

} // verus!
