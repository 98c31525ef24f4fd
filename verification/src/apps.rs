//! "Open with...": which applications there are, and how one is started.

use vstd::prelude::*;
use crate::mount::Platform;
use crate::open::{Launch, LaunchView};
use crate::order;
use crate::pathname;
use crate::pathname::Style;
use crate::shell;
use crate::text;
use crate::text::chars;

verus! {

broadcast use vstd::string::group_string_axioms;

/// Something that can open a file.
#[derive(Debug, Clone, PartialEq, Eq)]
pub struct Application {
    /// What the chooser shows.
    pub name: String,
    /// How to start it: a desktop entry's `Exec` line on Linux, a bundle name
    /// on macOS, or whatever was typed into the chooser's own box.
    pub command: String,
    /// It says it handles this file's type, so it is offered first.
    pub handles: bool,
    /// It wants a terminal (`Terminal=true`), so it goes to a shell tab
    /// rather than being started with its output thrown away.
    pub terminal: bool,
}

/// What a `.desktop` file says.
#[derive(Debug, Clone, PartialEq, Eq)]
pub struct DesktopEntry {
    pub name: String,
    pub command: String,
    pub try_exec: Option<String>,
    pub mime_types: Vec<String>,
    pub terminal: bool,
}

/// A desktop entry with its texts as sequences of characters.
pub struct EntryView {
    pub name: Seq<char>,
    pub command: Seq<char>,
    pub try_exec: Option<Seq<char>>,
    pub mime_types: Seq<Seq<char>>,
    pub terminal: bool,
}

impl View for DesktopEntry {
    type V = EntryView;

    open spec fn view(&self) -> EntryView {
        EntryView {
            name: self.name@,
            command: self.command@,
            try_exec: match self.try_exec {
                Some(program) => Some(program@),
                None => None,
            },
            mime_types: text::views(self.mime_types@),
            terminal: self.terminal,
        }
    }
}

// ---- desktop entries ---------------------------------------------------------------

/// Whether a text begins with a character.
pub open spec fn opens_with(s: Seq<char>, c: char) -> bool {
    s.len() > 0 && s[0] == c
}

/// Whether the lines so far end inside the `[Desktop Entry]` section.
pub open spec fn in_entry(lines: Seq<Seq<char>>) -> bool
    decreases lines.len(),
{
    if lines.len() == 0 {
        false
    } else if opens_with(text::trimmed(lines.last()), '[') {
        text::trimmed(lines.last()) == "[Desktop Entry]"@
    } else {
        in_entry(lines.drop_last())
    }
}

/// The settings of the `[Desktop Entry]` section, in order: key and value of
/// every line in it that has a `=` and is no comment.
pub open spec fn settings(lines: Seq<Seq<char>>) -> Seq<(Seq<char>, Seq<char>)>
    decreases lines.len(),
{
    if lines.len() == 0 {
        Seq::empty()
    } else {
        let front = settings(lines.drop_last());
        let line = text::trimmed(lines.last());
        let at = text::seek(line, '=', 0);
        if opens_with(line, '[') || !in_entry(lines.drop_last()) || opens_with(line, '#') || at
            >= line.len() {
            front
        } else {
            front.push((text::trimmed(line.take(at)), text::trimmed(line.skip(at + 1))))
        }
    }
}

/// What a key was last set to.
pub open spec fn last_value(settings: Seq<(Seq<char>, Seq<char>)>, key: Seq<char>) -> Option<
    Seq<char>,
>
    decreases settings.len(),
{
    if settings.len() == 0 {
        None
    } else if settings.last().0 == key {
        Some(settings.last().1)
    } else {
        last_value(settings.drop_last(), key)
    }
}

/// Whether a key was set to `true` anywhere.
pub open spec fn ever_true(settings: Seq<(Seq<char>, Seq<char>)>, key: Seq<char>) -> bool {
    exists|i: int|
        0 <= i < settings.len() && (#[trigger] settings[i]).0 == key && settings[i].1 == "true"@
}

/// The pieces that are more than white space, trimmed.
pub open spec fn trimmed_pieces(pieces: Seq<Seq<char>>) -> Seq<Seq<char>>
    decreases pieces.len(),
{
    if pieces.len() == 0 {
        Seq::empty()
    } else {
        let front = trimmed_pieces(pieces.drop_last());
        let piece = text::trimmed(pieces.last());
        if piece.len() > 0 {
            front.push(piece)
        } else {
            front
        }
    }
}

/// The list that a value separated by `;` writes.
pub open spec fn value_list(value: Option<Seq<char>>) -> Seq<Seq<char>> {
    match value {
        Some(value) => trimmed_pieces(text::split(value, ';')),
        None => Seq::empty(),
    }
}

/// What a `.desktop` file says, if it is one that belongs in a menu: an
/// application, not hidden, with a name and a command.
pub open spec fn entry_of(s: Seq<char>) -> Option<EntryView> {
    let set = settings(text::lines(s));
    let name = last_value(set, "Name"@);
    let command = last_value(set, "Exec"@);
    if ever_true(set, "NoDisplay"@) || ever_true(set, "Hidden"@) || last_value(set, "Type"@)
        != Some("Application"@) || name is None || command is None {
        None
    } else {
        Some(
            (EntryView {
                name: name->0,
                command: command->0,
                try_exec: last_value(set, "TryExec"@),
                mime_types: value_list(last_value(set, "MimeType"@)),
                terminal: last_value(set, "Terminal"@) == Some("true"@),
            }),
        )
    }
}

/// One setting: its key and its value.
struct Setting {
    key: String,
    value: String,
}

spec fn setting_views(list: Seq<Setting>) -> Seq<(Seq<char>, Seq<char>)> {
    list.map_values(|setting: Setting| (setting.key@, setting.value@))
}

fn read_settings(text: &str) -> (r: Vec<Setting>)
    ensures
        setting_views(r@) == settings(text::lines(text@)),
{
    let lines: Vec<String> = text::lines_of(text);
    let ghost all = text::views(lines@);
    let mut out: Vec<Setting> = Vec::new();
    let mut inside: bool = false;
    let mut i: usize = 0;
    assert(all.take(0) =~= Seq::<Seq<char>>::empty());
    assert(setting_views(out@) =~= Seq::empty());
    while i < lines.len()
        invariant
            i <= lines@.len(),
            all == text::views(lines@),
            inside == in_entry(all.take(i as int)),
            setting_views(out@) == settings(all.take(i as int)),
        decreases lines@.len() - i,
    {
        let line: &str = text::trim(lines[i].as_str());
        let s: Vec<char> = chars(line);
        let len: usize = s.len();
        proof {
            assert(all.take(i + 1).drop_last() =~= all.take(i as int));
            assert(all.take(i + 1).last() == lines@[i as int]@);
        }
        i += 1;
        if len > 0 && s[0] == '[' {
            inside = text::same(line, "[Desktop Entry]");
            continue;
        }
        if !inside || (len > 0 && s[0] == '#') {
            continue;
        }
        if let Some(at) = text::find_char(&s, '=', 0) {
            let before: String = text::part(&s, 0, at);
            assert(before@ =~= s@.take(at as int));
            let behind: String = text::part(&s, at + 1, len);
            assert(behind@ =~= s@.skip(at + 1));
            let key: String = text::trim(before.as_str()).to_owned();
            let value: String = text::trim(behind.as_str()).to_owned();
            let ghost was = setting_views(out@);
            let one: Setting = Setting { key, value };
            out.push(one);
            assert(setting_views(out@) =~= was.push((one.key@, one.value@)));
        }
    }
    assert(all.take(i as int) =~= all);
    out
}

fn find_last(list: &Vec<Setting>, key: &str) -> (r: Option<String>)
    ensures
        match r {
            Some(value) => last_value(setting_views(list@), key@) == Some(value@),
            None => last_value(setting_views(list@), key@) is None,
        },
{
    let ghost all = setting_views(list@);
    let mut i: usize = list.len();
    assert(all.take(i as int) =~= all);
    while i > 0
        invariant
            i <= list@.len(),
            all == setting_views(list@),
            last_value(all, key@) == last_value(all.take(i as int), key@),
        decreases i,
    {
        proof {
            assert(all.take(i as int).drop_last() =~= all.take(i - 1));
            assert(all.take(i as int).last() == all[i - 1]);
            assert(all[i - 1] == (list@[i - 1].key@, list@[i - 1].value@));
        }
        if text::same(list[i - 1].key.as_str(), key) {
            return Some(list[i - 1].value.clone());
        }
        i -= 1;
    }
    assert(all.take(0) =~= Seq::<(Seq<char>, Seq<char>)>::empty());
    None
}

fn is_ever_true(list: &Vec<Setting>, key: &str) -> (r: bool)
    ensures
        r == ever_true(setting_views(list@), key@),
{
    let ghost all = setting_views(list@);
    let mut i: usize = 0;
    while i < list.len()
        invariant
            i <= list@.len(),
            all == setting_views(list@),
            forall|j: int| 0 <= j < i ==> !((#[trigger] all[j]).0 == key@ && all[j].1 == "true"@),
        decreases list@.len() - i,
    {
        assert(all[i as int] == (list@[i as int].key@, list@[i as int].value@));
        if text::same(list[i].key.as_str(), key) && text::same(list[i].value.as_str(), "true") {
            return true;
        }
        i += 1;
    }
    false
}

fn read_list(value: &str) -> (r: Vec<String>)
    ensures
        text::views(r@) == trimmed_pieces(text::split(value@, ';')),
{
    let pieces: Vec<String> = text::split_text(value, ';');
    let ghost all = text::views(pieces@);
    let mut out: Vec<String> = Vec::new();
    let mut i: usize = 0;
    assert(all.take(0) =~= Seq::<Seq<char>>::empty());
    assert(text::views(out@) =~= Seq::empty());
    while i < pieces.len()
        invariant
            i <= pieces@.len(),
            all == text::views(pieces@),
            text::views(out@) == trimmed_pieces(all.take(i as int)),
        decreases pieces@.len() - i,
    {
        let piece: &str = text::trim(pieces[i].as_str());
        proof {
            assert(all.take(i + 1).drop_last() =~= all.take(i as int));
            assert(all.take(i + 1).last() == pieces@[i as int]@);
        }
        if !piece.is_empty() {
            let ghost was = text::views(out@);
            out.push(piece.to_owned());
            assert(text::views(out@) =~= was.push(piece@));
        }
        i += 1;
    }
    assert(all.take(i as int) =~= all);
    out
}

/// Read a `.desktop` file. `None` for one that does not belong in a menu.
pub fn parse_desktop_entry(text: &str) -> (r: Option<DesktopEntry>)
    ensures
        match r {
            Some(entry) => entry_of(text@) == Some(entry@),
            None => entry_of(text@) is None,
        },
{
    let list: Vec<Setting> = read_settings(text);
    let hidden: bool = is_ever_true(&list, "NoDisplay") || is_ever_true(&list, "Hidden");
    let is_application: bool = match find_last(&list, "Type") {
        Some(kind) => text::same(kind.as_str(), "Application"),
        None => false,
    };
    if hidden || !is_application {
        return None;
    }
    let terminal: bool = match find_last(&list, "Terminal") {
        Some(value) => text::same(value.as_str(), "true"),
        None => false,
    };
    let mime_types: Vec<String> = match find_last(&list, "MimeType") {
        Some(value) => read_list(value.as_str()),
        None => {
            let none: Vec<String> = Vec::new();
            assert(text::views(none@) =~= Seq::empty());
            none
        },
    };
    let try_exec: Option<String> = find_last(&list, "TryExec");
    match (find_last(&list, "Name"), find_last(&list, "Exec")) {
        (Some(name), Some(command)) => Some(
            DesktopEntry { name, command, try_exec, mime_types, terminal },
        ),
        _ => None,
    }
}

// ---- command lines -------------------------------------------------------------------

/// A word with one more character; a word that has not begun begins with it.
pub open spec fn extended(word: Option<Seq<char>>, c: char) -> Option<Seq<char>> {
    match word {
        Some(word) => Some(word.push(c)),
        None => Some(seq![c]),
    }
}

/// The word that has begun, if one has.
pub open spec fn finished(word: Option<Seq<char>>) -> Seq<Seq<char>> {
    match word {
        Some(word) => seq![word],
        None => Seq::empty(),
    }
}

/// The words of a command line from some point on, given the word that has
/// begun and whether it stands inside quotes. Quotes keep white space; inside
/// them a backslash takes the next character as it is.
pub open spec fn words_from(s: Seq<char>, word: Option<Seq<char>>, quoted: bool) -> Seq<Seq<char>>
    decreases s.len(),
{
    if s.len() == 0 {
        finished(word)
    } else if quoted {
        if s[0] == '\\' {
            if s.len() > 1 {
                words_from(s.skip(2), extended(word, s[1]), true)
            } else {
                words_from(s.skip(1), word, true)
            }
        } else if s[0] == '"' {
            words_from(s.skip(1), word, false)
        } else {
            words_from(s.skip(1), extended(word, s[0]), true)
        }
    } else if s[0] == '"' {
        words_from(
            s.skip(1),
            if word is Some {
                word
            } else {
                Some(Seq::empty())
            },
            true,
        )
    } else if text::white_space(s[0]) {
        finished(word) + words_from(s.skip(1), None, false)
    } else {
        words_from(s.skip(1), extended(word, s[0]), false)
    }
}

/// The words of a command line.
pub open spec fn exec_words(command: Seq<char>) -> Seq<Seq<char>> {
    words_from(command, None, false)
}

spec fn begun(started: bool, current: Seq<char>) -> Option<Seq<char>> {
    if started {
        Some(current)
    } else {
        None
    }
}

/// Cut an `Exec` line into words, quotes and all.
pub fn split_exec(command: &str) -> (r: Vec<String>)
    ensures
        text::views(r@) == exec_words(command@),
{
    let s: Vec<char> = chars(command);
    let mut out: Vec<String> = Vec::new();
    let mut current: String = String::new();
    let mut quoted: bool = false;
    let mut started: bool = false;
    let mut i: usize = 0;
    assert(s@.skip(0) =~= s@);
    assert(text::views(out@) + exec_words(s@) =~= exec_words(s@));
    while i < s.len()
        invariant
            i <= s@.len(),
            s@ == command@,
            quoted ==> started,
            !started ==> current@.len() == 0,
            exec_words(command@) == text::views(out@) + words_from(
                s@.skip(i as int),
                begun(started, current@),
                quoted,
            ),
        decreases s@.len() - i,
    {
        let c: char = s[i];
        let ghost tail = s@.skip(i as int);
        assert(tail.skip(1) =~= s@.skip(i + 1));
        i += 1;
        if quoted {
            if c == '\\' {
                if i < s.len() {
                    assert(tail.skip(2) =~= s@.skip(i + 1));
                    current.push(s[i]);
                    i += 1;
                }
            } else if c == '"' {
                quoted = false;
            } else {
                current.push(c);
            }
            continue;
        }
        if c == '"' {
            quoted = true;
            if !started {
                assert(current@ =~= Seq::<char>::empty());
            }
            started = true;
        } else if text::is_white_space(c) {
            if started {
                proof {
                    assert(text::views(out@.push(current)) =~= text::views(out@).push(current@));
                    assert(text::views(out@) + (finished(Some(current@)) + words_from(
                        s@.skip(i as int),
                        None,
                        false,
                    )) =~= text::views(out@.push(current)) + words_from(
                        s@.skip(i as int),
                        None,
                        false,
                    ));
                }
                out.push(current);
                current = String::new();
                started = false;
            } else {
                assert(finished(None) + words_from(s@.skip(i as int), None, false) =~= words_from(
                    s@.skip(i as int),
                    None,
                    false,
                ));
            }
        } else {
            if !started {
                assert(current@.push(c) =~= seq![c]);
            }
            current.push(c);
            started = true;
        }
    }
    assert(s@.skip(i as int) =~= Seq::<char>::empty());
    if started {
        assert(text::views(out@.push(current)) =~= text::views(out@) + seq![current@]);
        out.push(current);
    } else {
        assert(text::views(out@) + finished(None) =~= text::views(out@));
    }
    out
}

/// The codes that stand for the file, in the order they are looked for.
pub open spec fn file_codes() -> Seq<Seq<char>> {
    seq!["%f"@, "%F"@, "%u"@, "%U"@]
}

/// The codes that stand for something a chooser does not have.
pub open spec fn dropped_codes() -> Seq<Seq<char>> {
    seq!["%i"@, "%c"@, "%k"@, "%d"@, "%D"@, "%n"@, "%N"@, "%v"@, "%m"@]
}

/// The first code of the file at or after `from` that a word holds.
pub open spec fn file_code_in(word: Seq<char>, from: int) -> Option<Seq<char>>
    decreases file_codes().len() - from,
{
    if from >= file_codes().len() {
        None
    } else if text::holds(word, file_codes()[from]) {
        Some(file_codes()[from])
    } else {
        file_code_in(word, from + 1)
    }
}

/// The arguments that words come to, the file put in its place.
pub open spec fn filled_in(words: Seq<Seq<char>>, target: Seq<char>) -> Seq<Seq<char>>
    decreases words.len(),
{
    if words.len() == 0 {
        Seq::empty()
    } else {
        let front = filled_in(words.drop_last(), target);
        let word = words.last();
        if dropped_codes().contains(word) {
            front
        } else {
            match file_code_in(word, 0) {
                Some(code) => front.push(text::replaced(word, code, target)),
                None => front.push(text::replaced(word, "%%"@, "%"@)),
            }
        }
    }
}

/// Whether one of the words has a place for the file.
pub open spec fn takes_file(words: Seq<Seq<char>>) -> bool {
    exists|i: int|
        0 <= i < words.len() && !dropped_codes().contains(#[trigger] words[i]) && file_code_in(
            words[i],
            0,
        ) is Some
}

/// The command that an `Exec` line comes to for a file. A line with no place
/// for the file gets it at the end.
pub open spec fn command_of(command: Seq<char>, target: Seq<char>) -> Option<LaunchView> {
    let words = exec_words(command);
    if words.len() == 0 || words[0].len() == 0 {
        None
    } else {
        let rest = words.skip(1);
        let args = filled_in(rest, target);
        Some(
            (LaunchView {
                program: words[0],
                args: if takes_file(rest) {
                    args
                } else {
                    args.push(target)
                },
            }),
        )
    }
}

fn find_file_code(word: &str) -> (r: Option<&'static str>)
    ensures
        match r {
            Some(code) => file_code_in(word@, 0) == Some(code@) && code@.len() == 2,
            None => file_code_in(word@, 0) is None,
        },
{
    let codes: Vec<&'static str> = vec!["%f", "%F", "%u", "%U"];
    proof {
        reveal_strlit("%f");
        reveal_strlit("%F");
        reveal_strlit("%u");
        reveal_strlit("%U");
    }
    assert(text::words(codes@) =~= file_codes());
    let mut i: usize = 0;
    while i < codes.len()
        invariant
            i <= codes@.len(),
            text::words(codes@) == file_codes(),
            forall|j: int| 0 <= j < codes@.len() ==> (#[trigger] codes@[j])@.len() == 2,
            file_code_in(word@, 0) == file_code_in(word@, i as int),
        decreases codes@.len() - i,
    {
        assert(text::words(codes@)[i as int] == codes@[i as int]@);
        if text::contains(word, codes[i]) {
            return Some(codes[i]);
        }
        i += 1;
    }
    assert(file_codes().len() == codes@.len());
    None
}

fn is_dropped(word: &str) -> (r: bool)
    ensures
        r == dropped_codes().contains(word@),
{
    let codes: Vec<&'static str> = vec!["%i", "%c", "%k", "%d", "%D", "%n", "%N", "%v", "%m"];
    assert(text::words(codes@) =~= dropped_codes());
    text::listed(word, &codes)
}

/// The command for an `Exec` line and a file.
///
/// `%f` and its relations stand for the file; the other codes stand for
/// things there is nothing to put in the place of, and are dropped.
pub fn exec_command(command: &str, path: &str) -> (r: Option<Launch>)
    ensures
        match r {
            Some(launch) => command_of(command@, path@) == Some(launch@),
            None => command_of(command@, path@) is None,
        },
{
    let words: Vec<String> = split_exec(command);
    let ghost all = text::views(words@);
    if words.len() == 0 {
        return None;
    }
    assert(all[0] == words@[0]@);
    if words[0].as_str().is_empty() {
        return None;
    }
    let ghost rest = all.skip(1);
    let mut args: Vec<String> = Vec::new();
    let mut took_file: bool = false;
    let mut i: usize = 1;
    assert(rest.take(0) =~= Seq::<Seq<char>>::empty());
    assert(text::views(args@) =~= Seq::empty());
    while i < words.len()
        invariant
            1 <= i <= words@.len(),
            all == text::views(words@),
            rest == all.skip(1),
            text::views(args@) == filled_in(rest.take(i - 1), path@),
            took_file == takes_file(rest.take(i - 1)),
        decreases words@.len() - i,
    {
        let word: &str = words[i].as_str();
        let ghost front = rest.take(i - 1);
        let ghost now = rest.take(i as int);
        proof {
            assert(now.drop_last() =~= front);
            assert(now.last() == words@[i as int]@);
            assert forall|j: int| 0 <= j < front.len() implies front[j] == now[j] by {}
        }
        let ghost was = text::views(args@);
        if !is_dropped(word) {
            match find_file_code(word) {
                Some(code) => {
                    let arg: String = text::replace_text(word, code, path);
                    args.push(arg);
                    took_file = true;
                    assert(text::views(args@) =~= was.push(arg@));
                    assert(now[i - 1] == word@);
                },
                None => {
                    proof {
                        reveal_strlit("%%");
                    }
                    let arg: String = text::replace_text(word, "%%", "%");
                    args.push(arg);
                    assert(text::views(args@) =~= was.push(arg@));
                    assert(took_file == takes_file(now)) by {
                        lemma_takes_file(front, word@);
                        assert(now =~= front.push(word@));
                    }
                },
            }
        } else {
            assert(took_file == takes_file(now)) by {
                lemma_takes_file(front, word@);
                assert(now =~= front.push(word@));
            }
        }
        i += 1;
    }
    assert(rest.take(i - 1) =~= rest);
    if !took_file {
        let ghost was = text::views(args@);
        args.push(path.to_owned());
        assert(text::views(args@) =~= was.push(path@));
    }
    Some(Launch { program: words[0].clone(), args })
}

proof fn lemma_takes_file(front: Seq<Seq<char>>, word: Seq<char>)
    requires
        dropped_codes().contains(word) || file_code_in(word, 0) is None,
    ensures
        takes_file(front.push(word)) == takes_file(front),
{
    let all = front.push(word);
    if takes_file(front) {
        let i = choose|i: int|
            0 <= i < front.len() && !dropped_codes().contains(#[trigger] front[i])
                && file_code_in(front[i], 0) is Some;
        assert(all[i] == front[i]);
    }
    if takes_file(all) {
        let i = choose|i: int|
            0 <= i < all.len() && !dropped_codes().contains(#[trigger] all[i]) && file_code_in(
                all[i],
                0,
            ) is Some;
        assert(i < front.len());
        assert(front[i] == all[i]);
    }
}

// ---- choosing ---------------------------------------------------------------------------

/// Whether an entry's program is there; one that names none is taken at its
/// word.
pub open spec fn available(entry: DesktopEntry, installed: Seq<Seq<char>>) -> bool {
    match entry.try_exec {
        Some(program) => installed.contains(program@),
        None => true,
    }
}

/// The application of an entry, for a file of a type.
pub open spec fn application_of(entry: DesktopEntry, mime: Option<Seq<char>>) -> Application {
    Application {
        name: entry.name,
        command: entry.command,
        handles: match mime {
            Some(mime) => text::views(entry.mime_types@).contains(mime),
            None => false,
        },
        terminal: entry.terminal,
    }
}

/// The applications of the entries that are available, in their order.
pub open spec fn offered(
    entries: Seq<DesktopEntry>,
    mime: Option<Seq<char>>,
    installed: Seq<Seq<char>>,
) -> Seq<Application>
    decreases entries.len(),
{
    if entries.len() == 0 {
        Seq::empty()
    } else {
        let front = offered(entries.drop_last(), mime, installed);
        if available(entries.last(), installed) {
            front.push(application_of(entries.last(), mime))
        } else {
            front
        }
    }
}

/// Whether one application is offered before another: those that handle the
/// type first, then by name in small letters.
pub open spec fn goes_first(a: Application, b: Application) -> bool {
    if a.handles != b.handles {
        a.handles
    } else {
        text::before(text::lowercase(a.name@), text::lowercase(b.name@))
    }
}

/// Whether two applications are the same: of one name and one command.
pub open spec fn same_application(a: Application, b: Application) -> bool {
    a.name@ == b.name@ && a.command@ == b.command@
}

/// Whether an application is in a list already.
pub open spec fn listed_already(list: Seq<Application>, app: Application) -> bool {
    exists|i: int| 0 <= i < list.len() && same_application(#[trigger] list[i], app)
}

/// A list without what is in it already.
pub open spec fn without_repeats(list: Seq<Application>) -> Seq<Application>
    decreases list.len(),
{
    if list.len() == 0 {
        Seq::empty()
    } else {
        let front = without_repeats(list.drop_last());
        if listed_already(front, list.last()) {
            front
        } else {
            front.push(list.last())
        }
    }
}

fn has_application(list: &Vec<Application>, app: &Application) -> (r: bool)
    ensures
        r == listed_already(list@, *app),
{
    let mut i: usize = 0;
    while i < list.len()
        invariant
            i <= list@.len(),
            forall|k: int| 0 <= k < i ==> !same_application(#[trigger] list@[k], *app),
        decreases list@.len() - i,
    {
        if text::same(list[i].name.as_str(), app.name.as_str()) && text::same(
            list[i].command.as_str(),
            app.command.as_str(),
        ) {
            assert(same_application(list@[i as int], *app));
            return true;
        }
        i += 1;
    }
    false
}

fn dedup(list: &Vec<Application>) -> (r: Vec<Application>)
    ensures
        r@ == without_repeats(list@),
{
    let mut out: Vec<Application> = Vec::new();
    let mut i: usize = 0;
    assert(list@.take(0) =~= Seq::<Application>::empty());
    while i < list.len()
        invariant
            i <= list@.len(),
            out@ == without_repeats(list@.take(i as int)),
        decreases list@.len() - i,
    {
        proof {
            assert(list@.take(i + 1).drop_last() =~= list@.take(i as int));
            assert(list@.take(i + 1).last() == list@[i as int]);
        }
        let app: &Application = &list[i];
        if !has_application(&out, app) {
            out.push(
                Application {
                    name: app.name.clone(),
                    command: app.command.clone(),
                    handles: app.handles,
                    terminal: app.terminal,
                },
            );
        }
        i += 1;
    }
    assert(list@.take(i as int) =~= list@);
    out
}

fn is_first(a: &Application, b: &Application) -> (r: bool)
    ensures
        r == goes_first(*a, *b),
{
    if a.handles != b.handles {
        a.handles
    } else {
        is_named_before(a, b)
    }
}

fn is_named_before(a: &Application, b: &Application) -> (r: bool)
    ensures
        r == named_before(*a, *b),
{
    text::comes_before(
        text::to_lowercase(a.name.as_str()).as_str(),
        text::to_lowercase(b.name.as_str()).as_str(),
    )
}

/// What is offered for a type, the best first and each once.
pub open spec fn ranked(
    entries: Seq<DesktopEntry>,
    mime: Option<Seq<char>>,
    installed: Seq<Seq<char>>,
) -> Seq<Application> {
    without_repeats(
        order::sorted(
            offered(entries, mime, installed),
            |a: Application, b: Application| goes_first(a, b),
        ),
    )
}

/// The applications to offer for a file of a type, best first.
///
/// An entry may name a program that was never installed; `installed` says
/// which are there.
pub fn rank(entries: &Vec<DesktopEntry>, mime: Option<&str>, installed: &Vec<String>) -> (r: Vec<
    Application,
>)
    ensures
        r@ == ranked(entries@, text::maybe(mime), text::views(installed@)),
{
    let mut apps: Vec<Application> = Vec::new();
    let mut i: usize = 0;
    assert(entries@.take(0) =~= Seq::<DesktopEntry>::empty());
    while i < entries.len()
        invariant
            i <= entries@.len(),
            apps@ == offered(
                entries@.take(i as int),
                text::maybe(mime),
                text::views(installed@),
            ),
        decreases entries@.len() - i,
    {
        proof {
            assert(entries@.take(i + 1).drop_last() =~= entries@.take(i as int));
            assert(entries@.take(i + 1).last() == entries@[i as int]);
        }
        let entry: &DesktopEntry = &entries[i];
        let there: bool = match &entry.try_exec {
            Some(program) => text::among(program.as_str(), installed),
            None => true,
        };
        if there {
            let handles: bool = match mime {
                Some(mime) => text::among(mime, &entry.mime_types),
                None => false,
            };
            apps.push(
                Application {
                    name: entry.name.clone(),
                    command: entry.command.clone(),
                    handles,
                    terminal: entry.terminal,
                },
            );
        }
        i += 1;
    }
    assert(entries@.take(i as int) =~= entries@);
    proof {
        law_offered_best_first(apps@);
    }
    order::sort(
        &mut apps,
        is_first,
        Ghost(|a: Application, b: Application| goes_first(a, b)),
    );
    dedup(&apps)
}

/// What was typed, as it is compared: trimmed, in small letters.
pub open spec fn needle(typed: Seq<char>) -> Seq<char> {
    text::lowercase(text::trimmed(typed))
}

/// Whether an application's name holds what was typed.
pub open spec fn answers(application: Application, typed: Seq<char>) -> bool {
    needle(typed).len() == 0 || text::holds(text::lowercase(application.name@), needle(typed))
}

/// The applications whose name holds what was typed, in their order.
pub open spec fn answering(applications: Seq<Application>, typed: Seq<char>) -> Seq<Application>
    decreases applications.len(),
{
    if applications.len() == 0 {
        Seq::empty()
    } else if answers(applications.last(), typed) {
        answering(applications.drop_last(), typed).push(applications.last())
    } else {
        answering(applications.drop_last(), typed)
    }
}

/// The applications behind some references.
pub open spec fn referred<'a>(list: Seq<&'a Application>) -> Seq<Application> {
    list.map_values(|app: &'a Application| *app)
}

/// The applications that match what was typed.
pub fn matching<'a>(applications: &'a [Application], typed: &str) -> (r: Vec<&'a Application>)
    ensures
        referred(r@) == answering(applications@, typed@),
{
    let wanted: String = text::to_lowercase(text::trim(typed));
    let mut out: Vec<&'a Application> = Vec::new();
    let mut i: usize = 0;
    assert(applications@.take(0) =~= Seq::<Application>::empty());
    assert(referred(out@) =~= Seq::empty());
    while i < applications.len()
        invariant
            i <= applications@.len(),
            wanted@ == needle(typed@),
            referred(out@) == answering(applications@.take(i as int), typed@),
        decreases applications@.len() - i,
    {
        proof {
            assert(applications@.take(i + 1).drop_last() =~= applications@.take(i as int));
            assert(applications@.take(i + 1).last() == applications@[i as int]);
        }
        if wanted.as_str().is_empty() || text::contains(
            text::to_lowercase(applications[i].name.as_str()).as_str(),
            wanted.as_str(),
        ) {
            let ghost was = referred(out@);
            out.push(&applications[i]);
            assert(referred(out@) =~= was.push(applications@[i as int]));
        }
        i += 1;
    }
    assert(applications@.take(i as int) =~= applications@);
    out
}

/// What the chooser's `Enter` means.
#[derive(Debug, Clone, PartialEq, Eq)]
pub enum Chosen<'a> {
    /// Start this application.
    App(&'a Application),
    /// Nothing in the list matched, so what was typed is a command.
    Command(&'a str),
}

/// What was chosen: the application under the cursor, or, where none matches,
/// what was typed.
pub fn choice<'a>(applications: &'a [Application], typed: &'a str, cursor: usize) -> (r: Option<
    Chosen<'a>,
>)
    ensures
        ({
            let found = answering(applications@, typed@);
            match r {
                Some(Chosen::App(app)) => found.len() > 0 && *app == found[if cursor < found.len() {
                    cursor as int
                } else {
                    found.len() - 1
                }],
                Some(Chosen::Command(line)) => found.len() == 0 && line@ == text::trimmed(typed@)
                    && line@.len() > 0,
                None => found.len() == 0 && text::trimmed(typed@).len() == 0,
            }
        }),
{
    let found: Vec<&'a Application> = matching(applications, typed);
    assert(referred(found@).len() == found@.len());
    if found.len() == 0 {
        let line: &'a str = text::trim(typed);
        if line.is_empty() {
            None
        } else {
            Some(Chosen::Command(line))
        }
    } else {
        let at: usize = if cursor < found.len() {
            cursor
        } else {
            found.len() - 1
        };
        assert(referred(found@)[at as int] == *found@[at as int]);
        Some(Chosen::App(found[at]))
    }
}

// ---- starting -----------------------------------------------------------------------------

/// The system's own chooser, where it has one.
pub fn chooser_command(platform: Platform, path: &str) -> (r: Option<Launch>)
    ensures
        match r {
            Some(launch) => platform == Platform::Windows && launch@ == (LaunchView {
                program: "rundll32.exe"@,
                args: seq!["shell32.dll,OpenAs_RunDLL"@, path@],
            }),
            None => platform != Platform::Windows,
        },
{
    if platform == Platform::Windows {
        let mut args: Vec<String> = Vec::new();
        args.push("shell32.dll,OpenAs_RunDLL".to_owned());
        args.push(path.to_owned());
        assert(text::views(args@) =~= seq!["shell32.dll,OpenAs_RunDLL"@, path@]);
        Some(Launch { program: "rundll32.exe".to_owned(), args })
    } else {
        None
    }
}

/// The command that opens a path with an application.
pub open spec fn opening_with(
    platform: Platform,
    command: Seq<char>,
    path: Seq<char>,
) -> Option<LaunchView> {
    if platform == Platform::MacOs {
        Some((LaunchView { program: "open"@, args: seq!["-a"@, command, path] }))
    } else {
        command_of(command, path)
    }
}

/// How to open a path with an application: `open -a` on macOS, the `Exec`
/// line elsewhere.
pub fn open_with_command(platform: Platform, app: &Application, path: &str) -> (r: Option<Launch>)
    ensures
        match r {
            Some(launch) => opening_with(platform, app.command@, path@) == Some(launch@),
            None => opening_with(platform, app.command@, path@) is None,
        },
{
    if platform == Platform::MacOs {
        let mut args: Vec<String> = Vec::new();
        args.push("-a".to_owned());
        args.push(app.command.clone());
        args.push(path.to_owned());
        assert(text::views(args@) =~= seq!["-a"@, app.command@, path@]);
        Some(Launch { program: "open".to_owned(), args })
    } else {
        exec_command(app.command.as_str(), path)
    }
}

/// Words quoted for a shell, a space between every two.
pub open spec fn shell_line(words: Seq<Seq<char>>, platform: Platform) -> Seq<char>
    decreases words.len(),
{
    if words.len() == 0 {
        Seq::empty()
    } else if words.len() == 1 {
        shell::quoted(words[0], platform)
    } else {
        shell_line(words.drop_last(), platform) + " "@ + shell::quoted(words.last(), platform)
    }
}

/// A command as one line for a shell.
pub open spec fn launch_line(launch: LaunchView, platform: Platform) -> Seq<char> {
    shell_line(seq![launch.program] + launch.args, platform)
}

/// A command as one line for a shell.
pub fn line_of(launch: &Launch, platform: Platform) -> (r: String)
    ensures
        r@ == launch_line(launch@, platform),
{
    let mut line: String = shell::quote(launch.program.as_str(), platform);
    let ghost all = seq![launch.program@] + text::views(launch.args@);
    let mut i: usize = 0;
    assert(all.take(1) =~= seq![launch.program@]);
    while i < launch.args.len()
        invariant
            i <= launch.args@.len(),
            all == seq![launch.program@] + text::views(launch.args@),
            line@ == shell_line(all.take(i + 1), platform),
        decreases launch.args@.len() - i,
    {
        let ghost was = line@;
        line.append(" ");
        line.append(shell::quote(launch.args[i].as_str(), platform).as_str());
        proof {
            assert(all.take(i + 2).drop_last() =~= all.take(i + 1));
            assert(all.take(i + 2).last() == launch.args@[i as int]@);
        }
        i += 1;
    }
    assert(all.take(i + 1) =~= all);
    line
}

/// The line that starts a terminal application on a file, typed at a shell
/// rather than spawned with an argument list.
pub fn terminal_line(app: &Application, path: &str, platform: Platform) -> (r: String)
    ensures
        r@ == match command_of(app.command@, path@) {
            Some(launch) => launch_line(launch, platform),
            None => Seq::empty(),
        },
{
    match exec_command(app.command.as_str(), path) {
        Some(launch) => line_of(&launch, platform),
        None => {
            let none: String = String::new();
            assert(none@ =~= Seq::<char>::empty());
            none
        },
    }
}

/// The application of a macOS bundle, from the name of its directory.
pub open spec fn mac_name(style: Style, path: Seq<char>) -> Option<Seq<char>> {
    match (pathname::file_name(style, path), pathname::extension(style, path)) {
        (Some(name), Some(ending)) => if ending == "app"@ {
            Some(name.take(name.len() - 4))
        } else {
            None
        },
        _ => None,
    }
}

/// The names of the bundles among some directories, in their order.
pub open spec fn mac_names(style: Style, paths: Seq<Seq<char>>) -> Seq<Seq<char>>
    decreases paths.len(),
{
    if paths.len() == 0 {
        Seq::empty()
    } else {
        match mac_name(style, paths.last()) {
            Some(name) => mac_names(style, paths.drop_last()).push(name),
            None => mac_names(style, paths.drop_last()),
        }
    }
}

fn read_mac_name(style: Style, path: &str) -> (r: Option<String>)
    ensures
        match r {
            Some(name) => mac_name(style, path@) == Some(name@),
            None => mac_name(style, path@) is None,
        },
{
    match (pathname::file_name_of(style, path), pathname::extension_of(style, path)) {
        (Some(name), Some(ending)) => {
            if text::same(ending.as_str(), "app") {
                let n: Vec<char> = chars(name.as_str());
                proof {
                    reveal_strlit("app");
                    let dot = text::seek_back(n@, '.', n@.len() as int);
                    text::lemma_seek_back(n@, '.', n@.len() as int);
                    assert(n@.skip(dot + 1).len() == 3);
                }
                let stem: String = text::part(&n, 0, n.len() - 4);
                assert(stem@ =~= n@.take(n@.len() - 4));
                Some(stem)
            } else {
                None
            }
        },
        _ => None,
    }
}

/// Whether one application's name goes before another's, in small letters.
pub open spec fn named_before(a: Application, b: Application) -> bool {
    text::before(text::lowercase(a.name@), text::lowercase(b.name@))
}

/// A list without what repeats its predecessor's name.
pub open spec fn without_named_twice(list: Seq<Application>) -> Seq<Application>
    decreases list.len(),
{
    if list.len() == 0 {
        Seq::empty()
    } else {
        let front = without_named_twice(list.drop_last());
        if front.len() > 0 && front.last().name@ == list.last().name@ {
            front
        } else {
            front.push(list.last())
        }
    }
}

/// Whether an application stands for a bundle of a name and nothing more.
pub open spec fn bundle(app: Application, name: Seq<char>) -> bool {
    app.name@ == name && app.command@ == name && !app.handles && !app.terminal
}

/// Whether applications stand for the bundles of some names, in order.
pub open spec fn bundles(apps: Seq<Application>, names: Seq<Seq<char>>) -> bool {
    &&& apps.len() == names.len()
    &&& forall|i: int| 0 <= i < apps.len() ==> bundle(#[trigger] apps[i], names[i])
}

/// Whether applications are those of the bundles among some directories, by
/// name, without neighbours of one name.
pub open spec fn stand_for_bundles(
    style: Style,
    apps: Seq<Application>,
    found: Seq<Seq<char>>,
) -> bool {
    exists|unsorted: Seq<Application>|
        {
            &&& #[trigger] bundles(unsorted, mac_names(style, found))
            &&& apps == without_named_twice(
                order::sorted(unsorted, |a: Application, b: Application| named_before(a, b)),
            )
        }
}

/// The applications of the bundles among the directories that were found,
/// by name, without neighbours of one name.
pub fn load_mac_applications(style: Style, found: &Vec<String>) -> (r: Vec<Application>)
    ensures
        stand_for_bundles(style, r@, text::views(found@)),
{
    let ghost all = text::views(found@);
    let mut apps: Vec<Application> = Vec::new();
    let mut i: usize = 0;
    assert(all.take(0) =~= Seq::<Seq<char>>::empty());
    while i < found.len()
        invariant
            i <= found@.len(),
            all == text::views(found@),
            bundles(apps@, mac_names(style, all.take(i as int))),
        decreases found@.len() - i,
    {
        proof {
            assert(all.take(i + 1).drop_last() =~= all.take(i as int));
            assert(all.take(i + 1).last() == found@[i as int]@);
        }
        if let Some(name) = read_mac_name(style, found[i].as_str()) {
            apps.push(
                Application { command: name.clone(), name, handles: false, terminal: false },
            );
        }
        i += 1;
    }
    assert(all.take(i as int) =~= all);
    let ghost unsorted = apps@;
    proof {
        text::lemma_texts_have_an_order();
        order::lemma_orders_through(
            |app: Application| text::lowercase(app.name@),
            |a: Application, b: Application| named_before(a, b),
            text::text_order(),
        );
    }
    order::sort(
        &mut apps,
        is_named_before,
        Ghost(|a: Application, b: Application| named_before(a, b)),
    );
    let mut out: Vec<Application> = Vec::new();
    let mut k: usize = 0;
    assert(apps@.take(0) =~= Seq::<Application>::empty());
    while k < apps.len()
        invariant
            k <= apps@.len(),
            out@ == without_named_twice(apps@.take(k as int)),
        decreases apps@.len() - k,
    {
        proof {
            assert(apps@.take(k + 1).drop_last() =~= apps@.take(k as int));
            assert(apps@.take(k + 1).last() == apps@[k as int]);
        }
        let app: &Application = &apps[k];
        let repeats: bool = out.len() > 0 && text::same(
            out[out.len() - 1].name.as_str(),
            app.name.as_str(),
        );
        if !repeats {
            out.push(
                Application {
                    name: app.name.clone(),
                    command: app.command.clone(),
                    handles: app.handles,
                    terminal: app.terminal,
                },
            );
        }
        k += 1;
    }
    assert(apps@.take(k as int) =~= apps@);
    assert(bundles(unsorted, mac_names(style, all)));
    out
}

// ---- where applications are found -------------------------------------------------------------

/// The directories of desktop entries, the most specific first: the user's
/// own, those of the listed data directories, and the system's.
pub open spec fn entry_dirs(
    style: Style,
    data_dir: Option<Seq<char>>,
    data_dirs: Seq<Seq<char>>,
) -> Seq<Seq<char>> {
    let own = match data_dir {
        Some(dir) => seq![pathname::joined(style, dir, "applications"@)],
        None => Seq::empty(),
    };
    let listed = data_dirs.map_values(|dir: Seq<char>| pathname::joined(style, dir, "applications"@));
    own + listed + seq!["/usr/local/share/applications"@, "/usr/share/applications"@]
}

/// Whether a path stands for a place that is in a list already.
pub open spec fn has_place(style: Style, paths: Seq<Seq<char>>, path: Seq<char>) -> bool {
    exists|i: int| 0 <= i < paths.len() && pathname::same(style, #[trigger] paths[i], path)
}

/// Paths without those that stand for a place that came before.
pub open spec fn each_place_once(style: Style, paths: Seq<Seq<char>>) -> Seq<Seq<char>>
    decreases paths.len(),
{
    if paths.len() == 0 {
        Seq::empty()
    } else {
        let front = each_place_once(style, paths.drop_last());
        if has_place(style, front, paths.last()) {
            front
        } else {
            front.push(paths.last())
        }
    }
}

fn holds_place(style: Style, paths: &Vec<String>, path: &str) -> (r: bool)
    ensures
        r == has_place(style, text::views(paths@), path@),
{
    let ghost all = text::views(paths@);
    let mut i: usize = 0;
    while i < paths.len()
        invariant
            i <= paths@.len(),
            all == text::views(paths@),
            forall|k: int| 0 <= k < i ==> !pathname::same(style, #[trigger] all[k], path@),
        decreases paths@.len() - i,
    {
        assert(all[i as int] == paths@[i as int]@);
        if pathname::is_same(style, paths[i].as_str(), path) {
            return true;
        }
        i += 1;
    }
    false
}

/// Where desktop entries are installed, the most specific first: the user's
/// own, those of the listed data directories, and the system's; each once.
pub fn application_dirs(
    style: Style,
    data_dir: Option<&str>,
    data_dirs: &Vec<String>,
) -> (r: Vec<String>)
    ensures
        text::views(r@) == each_place_once(
            style,
            entry_dirs(style, text::maybe(data_dir), text::views(data_dirs@)),
        ),
{
    let ghost given = text::views(data_dirs@);
    let ghost listed = given.map_values(|dir: Seq<char>| pathname::joined(style, dir, "applications"@));
    let mut dirs: Vec<String> = Vec::new();
    if let Some(dir) = data_dir {
        dirs.push(pathname::join(style, dir, "applications"));
    }
    let ghost own = text::views(dirs@);
    assert(own =~= match data_dir {
        Some(dir) => seq![pathname::joined(style, dir@, "applications"@)],
        None => Seq::empty(),
    });
    let mut i: usize = 0;
    assert(own + listed.take(0) =~= own);
    while i < data_dirs.len()
        invariant
            i <= data_dirs@.len(),
            given == text::views(data_dirs@),
            listed == given.map_values(
                |dir: Seq<char>| pathname::joined(style, dir, "applications"@),
            ),
            text::views(dirs@) == own + listed.take(i as int),
        decreases data_dirs@.len() - i,
    {
        let ghost was = text::views(dirs@);
        dirs.push(pathname::join(style, data_dirs[i].as_str(), "applications"));
        proof {
            assert(given[i as int] == data_dirs@[i as int]@);
            assert(text::views(dirs@) =~= was.push(listed[i as int]));
            assert(was.push(listed[i as int]) =~= own + listed.take(i + 1));
        }
        i += 1;
    }
    assert(listed.take(i as int) =~= listed);
    dirs.push("/usr/local/share/applications".to_owned());
    dirs.push("/usr/share/applications".to_owned());
    assert(text::views(dirs@) =~= entry_dirs(style, text::maybe(data_dir), given));
    let ghost all = text::views(dirs@);
    let mut out: Vec<String> = Vec::new();
    let mut k: usize = 0;
    assert(all.take(0) =~= Seq::<Seq<char>>::empty());
    assert(text::views(out@) =~= Seq::empty());
    while k < dirs.len()
        invariant
            k <= dirs@.len(),
            all == text::views(dirs@),
            text::views(out@) == each_place_once(style, all.take(k as int)),
        decreases dirs@.len() - k,
    {
        let ghost was = text::views(out@);
        proof {
            assert(all.take(k + 1).drop_last() =~= all.take(k as int));
            assert(all.take(k + 1).last() == dirs@[k as int]@);
        }
        if !holds_place(style, &out, dirs[k].as_str()) {
            out.push(dirs[k].clone());
            assert(text::views(out@) =~= was.push(dirs@[k as int]@));
        }
        k += 1;
    }
    assert(all.take(k as int) =~= all);
    out
}

/// Where application bundles are installed: the system's directories, and the
/// user's own.
pub fn mac_application_dirs(style: Style, home: Option<&str>) -> (r: Vec<String>)
    ensures
        text::views(r@) == seq![
            "/Applications"@,
            "/Applications/Utilities"@,
            "/System/Applications"@,
            "/System/Applications/Utilities"@,
        ] + match home {
            Some(home) => seq![pathname::joined(style, home@, "Applications"@)],
            None => Seq::empty(),
        },
{
    let mut dirs: Vec<String> = Vec::new();
    dirs.push("/Applications".to_owned());
    dirs.push("/Applications/Utilities".to_owned());
    dirs.push("/System/Applications".to_owned());
    dirs.push("/System/Applications/Utilities".to_owned());
    if let Some(home) = home {
        dirs.push(pathname::join(style, home, "Applications"));
    }
    assert(text::views(dirs@) =~= seq![
        "/Applications"@,
        "/Applications/Utilities"@,
        "/System/Applications"@,
        "/System/Applications/Utilities"@,
    ] + match home {
        Some(home) => seq![pathname::joined(style, home@, "Applications"@)],
        None => Seq::empty(),
    });
    dirs
}

/// Whether a file is one that may hold a desktop entry.
pub fn is_desktop_file(style: Style, path: &str) -> (r: bool)
    ensures
        r == (pathname::extension(style, path@) == Some("desktop"@)),
{
    match pathname::extension_of(style, path) {
        Some(ending) => text::same(ending.as_str(), "desktop"),
        None => false,
    }
}

/// A file that was found, and its text where it could be read.
#[derive(Debug, Clone)]
pub struct FoundFile {
    pub path: String,
    pub text: Option<String>,
}

/// The desktop entry that a file holds, if it holds one.
pub open spec fn entry_in(style: Style, file: FoundFile) -> Option<EntryView> {
    match file.text {
        Some(text) => if pathname::extension(style, file.path@) == Some("desktop"@) {
            entry_of(text@)
        } else {
            None
        },
        None => None,
    }
}

/// The desktop entries that files hold, in their order.
pub open spec fn entries_in(style: Style, files: Seq<FoundFile>) -> Seq<EntryView>
    decreases files.len(),
{
    if files.len() == 0 {
        Seq::empty()
    } else {
        match entry_in(style, files.last()) {
            Some(entry) => entries_in(style, files.drop_last()).push(entry),
            None => entries_in(style, files.drop_last()),
        }
    }
}

/// The applications that the desktop entries among some files describe. A
/// file that is not one, or could not be read, does not stop the rest.
pub fn load_desktop_entries(style: Style, found: &Vec<FoundFile>) -> (r: Vec<DesktopEntry>)
    ensures
        r@.map_values(|entry: DesktopEntry| entry@) == entries_in(style, found@),
{
    let mut out: Vec<DesktopEntry> = Vec::new();
    let mut i: usize = 0;
    assert(found@.take(0) =~= Seq::<FoundFile>::empty());
    assert(out@.map_values(|entry: DesktopEntry| entry@) =~= Seq::empty());
    while i < found.len()
        invariant
            i <= found@.len(),
            out@.map_values(|entry: DesktopEntry| entry@) == entries_in(style, found@.take(i as int)),
        decreases found@.len() - i,
    {
        let ghost was = out@;
        proof {
            assert(found@.take(i + 1).drop_last() =~= found@.take(i as int));
            assert(found@.take(i + 1).last() == found@[i as int]);
        }
        if let Some(text) = &found[i].text {
            if is_desktop_file(style, found[i].path.as_str()) {
                if let Some(entry) = parse_desktop_entry(text.as_str()) {
                    out.push(entry);
                    assert(out@.map_values(|entry: DesktopEntry| entry@) =~= was.map_values(
                        |entry: DesktopEntry| entry@,
                    ).push(entry@));
                }
            }
        }
        i += 1;
    }
    assert(found@.take(i as int) =~= found@);
    out
}

/// Everything that could open a file of a type, best first: on a Mac the
/// bundles that were found, under Linux what the desktop entries describe.
/// Nothing on Windows, which has a chooser of its own.
pub fn applications_for(
    style: Style,
    platform: Platform,
    entries: &Vec<DesktopEntry>,
    found: &Vec<String>,
    mime: Option<&str>,
    installed: &Vec<String>,
) -> (r: Vec<Application>)
    ensures
        match platform {
            Platform::MacOs => stand_for_bundles(style, r@, text::views(found@)),
            Platform::Windows => r@.len() == 0,
            Platform::Linux => r@ == ranked(
                entries@,
                text::maybe(mime),
                text::views(installed@),
            ),
        },
{
    match platform {
        Platform::MacOs => load_mac_applications(style, found),
        Platform::Windows => Vec::new(),
        Platform::Linux => rank(entries, mime, installed),
    }
}

// ---- laws -------------------------------------------------------------------------------------

/// Being offered first is an order, so the list that is offered is in it:
/// what handles the type stands in front of what does not, and names run in
/// their order within each.
pub proof fn law_offered_best_first(list: Seq<Application>)
    ensures
        order::orders(|a: Application, b: Application| goes_first(a, b)),
        ({
            let r = order::sorted(list, |a: Application, b: Application| goes_first(a, b));
            &&& r.to_multiset() == list.to_multiset()
            &&& forall|i: int, j: int|
                0 <= i < j < r.len() ==> !goes_first(#[trigger] r[j], #[trigger] r[i])
        }),
{
    let less = |a: Application, b: Application| goes_first(a, b);
    assert forall|a: Application| !#[trigger] less(a, a) by {
        text::lemma_before_total(text::lowercase(a.name@), text::lowercase(a.name@));
    }
    assert forall|a: Application, b: Application, c: Application|
        #[trigger] less(a, b) && #[trigger] less(b, c) implies less(a, c) by {
        if a.handles == b.handles && b.handles == c.handles {
            text::lemma_before_transitive(
                text::lowercase(a.name@),
                text::lowercase(b.name@),
                text::lowercase(c.name@),
            );
        }
    }
    assert forall|a: Application, b: Application, c: Application|
        !#[trigger] less(a, b) && !#[trigger] less(b, c) implies !less(a, c) by {
        if a.handles == b.handles && b.handles == c.handles {
            text::lemma_not_before_transitive(
                text::lowercase(a.name@),
                text::lowercase(b.name@),
                text::lowercase(c.name@),
            );
        }
    }
    order::law_sorting_keeps_everything(list, less);
    order::law_sorting_puts_in_order(list, less);
    let r = order::sorted(list, less);
    assert forall|i: int, j: int| 0 <= i < j < r.len() implies !goes_first(
        #[trigger] r[j],
        #[trigger] r[i],
    ) by {
        assert(!less(r[j], r[i]));
    }
}

/// The same application is offered once, in however many directories it is
/// found and whichever of its entries claims the type.
pub proof fn law_no_application_is_offered_twice(list: Seq<Application>, i: int, j: int)
    requires
        0 <= i < j < without_repeats(list).len(),
    ensures
        !same_application(without_repeats(list)[i], without_repeats(list)[j]),
    decreases list.len(),
{
    let front = without_repeats(list.drop_last());
    if j < front.len() {
        law_no_application_is_offered_twice(list.drop_last(), i, j);
    } else {
        assert(front[i] == without_repeats(list)[i]);
    }
}

/// No directory is looked into twice.
pub proof fn law_no_directory_is_listed_twice(style: Style, paths: Seq<Seq<char>>, i: int, j: int)
    requires
        0 <= i < j < each_place_once(style, paths).len(),
    ensures
        !pathname::same(style, each_place_once(style, paths)[i], each_place_once(style, paths)[j]),
    decreases paths.len(),
{
    let front = each_place_once(style, paths.drop_last());
    if j < front.len() {
        law_no_directory_is_listed_twice(style, paths.drop_last(), i, j);
    } else {
        assert(front[i] == each_place_once(style, paths)[i]);
    }
}

/// Whatever a command line looks like, the file is among its arguments.
pub proof fn law_the_file_is_always_passed(command: Seq<char>, target: Seq<char>)
    requires
        command_of(command, target) is Some,
    ensures
        exists|i: int|
            0 <= i < command_of(command, target)->0.args.len() && text::holds(
                #[trigger] command_of(command, target)->0.args[i],
                target,
            ),
{
    let rest = exec_words(command).skip(1);
    let args = command_of(command, target)->0.args;
    if takes_file(rest) {
        lemma_file_filled_in(rest, target);
    } else {
        let last = args.len() - 1;
        assert(args[last] == target);
        assert(target.subrange(0, target.len() as int) =~= target);
        assert(text::stands_at(target, target, 0));
        assert(text::holds(args[last], target));
    }
}

proof fn lemma_file_filled_in(words: Seq<Seq<char>>, target: Seq<char>)
    requires
        takes_file(words),
    ensures
        exists|i: int|
            0 <= i < filled_in(words, target).len() && text::holds(
                #[trigger] filled_in(words, target)[i],
                target,
            ),
    decreases words.len(),
{
    let k = choose|k: int|
        0 <= k < words.len() && !dropped_codes().contains(#[trigger] words[k]) && file_code_in(
            words[k],
            0,
        ) is Some;
    let front = words.drop_last();
    let all = filled_in(words, target);
    if k == words.len() - 1 {
        let word = words.last();
        lemma_file_code(word, 0);
        text::lemma_replaced_holds(word, file_code_in(word, 0)->0, target);
        assert(all[all.len() - 1] == text::replaced(word, file_code_in(word, 0)->0, target));
    } else {
        assert(front[k] == words[k]);
        assert(takes_file(front));
        lemma_file_filled_in(front, target);
        let i = choose|i: int|
            0 <= i < filled_in(front, target).len() && text::holds(
                #[trigger] filled_in(front, target)[i],
                target,
            );
        assert(all[i] == filled_in(front, target)[i]);
    }
}

proof fn lemma_file_code(word: Seq<char>, from: int)
    requires
        0 <= from,
        file_code_in(word, from) is Some,
    ensures
        text::holds(word, file_code_in(word, from)->0),
        file_code_in(word, from)->0.len() == 2,
    decreases file_codes().len() - from,
{
    reveal_strlit("%f");
    reveal_strlit("%F");
    reveal_strlit("%u");
    reveal_strlit("%U");
    if from < file_codes().len() && !text::holds(word, file_codes()[from]) {
        lemma_file_code(word, from + 1);
    }
}

/// What handles a file's type is offered before what does not, and of two
/// that are alike in that the names, in small letters, are in order.
pub proof fn law_what_handles_the_type_comes_first(
    entries: Seq<DesktopEntry>,
    mime: Option<Seq<char>>,
    installed: Seq<Seq<char>>,
    i: int,
    j: int,
)
    requires
        0 <= i < j < ranked(entries, mime, installed).len(),
    ensures
        ({
            let (a, b) = (
                ranked(entries, mime, installed)[i],
                ranked(entries, mime, installed)[j],
            );
            &&& b.handles ==> a.handles
            &&& a.handles == b.handles ==> !text::before(
                text::lowercase(b.name@),
                text::lowercase(a.name@),
            )
        }),
{
    let list = offered(entries, mime, installed);
    law_offered_best_first(list);
    let sorted = order::sorted(list, |a: Application, b: Application| goes_first(a, b));
    lemma_without_repeats(sorted);
    lemma_repeats_keep_order(sorted, i, j);
    let (p, q) = choose|p: int, q: int|
        0 <= p < q < sorted.len() && #[trigger] sorted[p] == without_repeats(sorted)[i]
            && #[trigger] sorted[q] == without_repeats(sorted)[j];
    assert(!goes_first(sorted[q], sorted[p]));
}

proof fn lemma_repeats_keep_order(list: Seq<Application>, i: int, j: int)
    requires
        0 <= i < j < without_repeats(list).len(),
    ensures
        exists|p: int, q: int|
            0 <= p < q < list.len() && #[trigger] list[p] == without_repeats(list)[i]
                && #[trigger] list[q] == without_repeats(list)[j],
    decreases list.len(),
{
    let before = list.drop_last();
    let front = without_repeats(before);
    let out = without_repeats(list);
    if j < front.len() {
        lemma_repeats_keep_order(before, i, j);
        let (p, q) = choose|p: int, q: int|
            0 <= p < q < before.len() && #[trigger] before[p] == front[i] && #[trigger] before[q]
                == front[j];
        assert(list[p] == out[i] && list[q] == out[j]);
    } else {
        lemma_without_repeats(before);
        assert(before.contains(front[i]));
        let p = choose|p: int| 0 <= p < before.len() && before[p] == front[i];
        let q = list.len() - 1;
        assert(list[p] == out[i] && list[q] == out[j]);
    }
}

proof fn lemma_without_repeats(list: Seq<Application>)
    ensures
        forall|k: int|
            0 <= k < without_repeats(list).len() ==> list.contains(
                #[trigger] without_repeats(list)[k],
            ),
        forall|k: int|
            0 <= k < list.len() ==> listed_already(without_repeats(list), #[trigger] list[k]),
    decreases list.len(),
{
    let out = without_repeats(list);
    if list.len() > 0 {
        let before = list.drop_last();
        let front = without_repeats(before);
        lemma_without_repeats(before);
        assert forall|k: int| 0 <= k < out.len() implies list.contains(#[trigger] out[k]) by {
            if k < front.len() {
                assert(before.contains(front[k]));
                let j = choose|j: int| 0 <= j < before.len() && before[j] == front[k];
                assert(list[j] == out[k]);
            } else {
                assert(list[list.len() - 1] == out[k]);
            }
        }
        assert forall|k: int| 0 <= k < list.len() implies listed_already(
            out,
            #[trigger] list[k],
        ) by {
            if k < before.len() {
                assert(before[k] == list[k]);
                assert(listed_already(front, before[k]));
                let m = choose|m: int|
                    0 <= m < front.len() && same_application(#[trigger] front[m], before[k]);
                assert(same_application(out[m], list[k]));
            } else if listed_already(front, list[k]) {
                let m = choose|m: int|
                    0 <= m < front.len() && same_application(#[trigger] front[m], list[k]);
                assert(same_application(out[m], list[k]));
            } else {
                assert(same_application(out[out.len() - 1], list[k]));
            }
        }
    }
}

proof fn lemma_offered(
    entries: Seq<DesktopEntry>,
    mime: Option<Seq<char>>,
    installed: Seq<Seq<char>>,
    i: int,
)
    requires
        0 <= i < entries.len(),
        available(entries[i], installed),
    ensures
        offered(entries, mime, installed).contains(application_of(entries[i], mime)),
    decreases entries.len(),
{
    let out = offered(entries, mime, installed);
    let before = entries.drop_last();
    let front = offered(before, mime, installed);
    let app = application_of(entries[i], mime);
    if i < before.len() {
        assert(before[i] == entries[i]);
        lemma_offered(before, mime, installed, i);
        let k = choose|k: int| 0 <= k < front.len() && front[k] == app;
        assert(out[k] == app);
    } else {
        assert(out[out.len() - 1] == app);
    }
}

proof fn lemma_offered_is(
    entries: Seq<DesktopEntry>,
    mime: Option<Seq<char>>,
    installed: Seq<Seq<char>>,
    k: int,
) -> (i: int)
    requires
        0 <= k < offered(entries, mime, installed).len(),
    ensures
        0 <= i < entries.len(),
        available(entries[i], installed),
        offered(entries, mime, installed)[k] == application_of(entries[i], mime),
    decreases entries.len(),
{
    let before = entries.drop_last();
    let front = offered(before, mime, installed);
    if k < front.len() {
        let i = lemma_offered_is(before, mime, installed, k);
        assert(before[i] == entries[i]);
        i
    } else {
        entries.len() - 1
    }
}

/// Every entry whose program is there is offered under its name and with its
/// command.
pub proof fn law_every_available_entry_is_offered(
    entries: Seq<DesktopEntry>,
    mime: Option<Seq<char>>,
    installed: Seq<Seq<char>>,
    i: int,
)
    requires
        0 <= i < entries.len(),
        entries[i].try_exec is None || installed.contains(entries[i].try_exec->0@),
    ensures
        exists|k: int|
            0 <= k < ranked(entries, mime, installed).len() && (#[trigger] ranked(
                entries,
                mime,
                installed,
            )[k]).name@ == entries[i].name@ && ranked(entries, mime, installed)[k].command@
                == entries[i].command@,
{
    broadcast use vstd::seq_lib::group_to_multiset_ensures;

    let list = offered(entries, mime, installed);
    lemma_offered(entries, mime, installed, i);
    law_offered_best_first(list);
    let sorted = order::sorted(list, |a: Application, b: Application| goes_first(a, b));
    lemma_without_repeats(sorted);
    let out = ranked(entries, mime, installed);
    let app = application_of(entries[i], mime);
    assert(list.to_multiset().count(app) > 0);
    assert(sorted.to_multiset().count(app) > 0);
    assert(sorted.contains(app));
    let m = choose|m: int| 0 <= m < sorted.len() && sorted[m] == app;
    assert(listed_already(out, sorted[m]));
    let k = choose|k: int| 0 <= k < out.len() && same_application(#[trigger] out[k], app);
    assert(out[k].name@ == entries[i].name@);
}

/// Nothing is offered but what has an entry whose program is there, and it is
/// offered as the entry says.
pub proof fn law_nothing_else_is_offered(
    entries: Seq<DesktopEntry>,
    mime: Option<Seq<char>>,
    installed: Seq<Seq<char>>,
    k: int,
)
    requires
        0 <= k < ranked(entries, mime, installed).len(),
    ensures
        exists|i: int|
            {
                &&& 0 <= i < entries.len()
                &&& (#[trigger] entries[i]).try_exec is None || installed.contains(
                    entries[i].try_exec->0@,
                )
                &&& ranked(entries, mime, installed)[k].name == entries[i].name
                &&& ranked(entries, mime, installed)[k].command == entries[i].command
                &&& ranked(entries, mime, installed)[k].terminal == entries[i].terminal
                &&& ranked(entries, mime, installed)[k].handles <==> mime is Some && text::views(
                    entries[i].mime_types@,
                ).contains(mime->0)
            },
{
    broadcast use vstd::seq_lib::group_to_multiset_ensures;

    let list = offered(entries, mime, installed);
    law_offered_best_first(list);
    let sorted = order::sorted(list, |a: Application, b: Application| goes_first(a, b));
    lemma_without_repeats(sorted);
    let app = ranked(entries, mime, installed)[k];
    assert(sorted.contains(app));
    assert(sorted.to_multiset().count(app) > 0);
    assert(list.contains(app));
    let m = choose|m: int| 0 <= m < list.len() && list[m] == app;
    let i = lemma_offered_is(entries, mime, installed, m);
    assert(entries[i].try_exec is None || installed.contains(entries[i].try_exec->0@));
}

/// What is typed narrows the list to the names that hold it, in small letters
/// and without the space around it, in their order; where nothing is typed
/// all are shown.
pub proof fn law_typing_narrows_the_list(applications: Seq<Application>, typed: Seq<char>)
    ensures
        text::trimmed(typed).len() == 0 ==> answering(applications, typed) == applications,
        text::trimmed(typed).len() > 0 && text::all_ascii(text::trimmed(typed)) ==> answering(
            applications,
            typed,
        ) == applications.filter(
            |app: Application| text::holds(
                text::lowercase(app.name@),
                text::ascii_lower(text::trimmed(typed)),
            ),
        ),
    decreases applications.len(),
{
    reveal(Seq::filter);
    if applications.len() > 0 {
        law_typing_narrows_the_list(applications.drop_last(), typed);
        assert(applications =~= applications.drop_last().push(applications.last()));
    } else {
        assert(answering(applications, typed) =~= applications);
    }
    assert(text::all_ascii(Seq::<char>::empty()));
    if text::trimmed(typed).len() == 0 {
        assert(text::trimmed(typed) =~= Seq::<char>::empty());
    }
}

/// Inside the entry a line with `=` sets what stands in front of it to what
/// stands behind, without the space around either; a comment sets nothing.
pub proof fn law_a_line_sets_a_key(lines: Seq<Seq<char>>, key: Seq<char>, value: Seq<char>)
    requires
        in_entry(lines),
        key.len() > 0,
        !key.contains('='),
        text::trimmed(key + seq!['='] + value) == key + seq!['='] + value,
    ensures
        key[0] != '[' && key[0] != '#' ==> settings(lines.push(key + seq!['='] + value))
            == settings(lines).push((text::trimmed(key), text::trimmed(value))),
        key[0] == '#' ==> settings(lines.push(key + seq!['='] + value)) == settings(lines),
        key[0] != '[' ==> in_entry(lines.push(key + seq!['='] + value)),
{
    let line = key + seq!['='] + value;
    let all = lines.push(line);
    assert(all.drop_last() =~= lines);
    assert forall|j: int| 0 <= j < key.len() implies line[j] != '=' by {
        assert(key.contains(key[j]));
    }
    text::lemma_seek_is(line, '=', 0, key.len() as int);
    assert(line.take(key.len() as int) =~= key);
    assert(line.skip(key.len() as int + 1) =~= value);
    assert(line[0] == key[0]);
}

/// Nothing outside the entry sets anything: neither what stands before it, nor
/// what stands in another part of the file.
pub proof fn law_other_parts_set_nothing(lines: Seq<Seq<char>>, line: Seq<char>)
    requires
        !in_entry(lines),
    ensures
        settings(lines.push(line)) == settings(lines),
        in_entry(lines.push(line)) <==> text::trimmed(line) == "[Desktop Entry]"@,
{
    assert(lines.push(line).drop_last() =~= lines);
    reveal_strlit("[Desktop Entry]");
    assert("[Desktop Entry]"@[0] == '[');
}

/// A key has the value that it was last set to, and setting one key is for no
/// other.
pub proof fn law_the_last_setting_counts(
    set: Seq<(Seq<char>, Seq<char>)>,
    key: Seq<char>,
    value: Seq<char>,
    other: Seq<char>,
)
    ensures
        last_value(set.push((key, value)), key) == Some(value),
        other != key ==> last_value(set.push((key, value)), other) == last_value(set, other),
        last_value(Seq::empty(), key) is None,
{
    assert(set.push((key, value)).drop_last() =~= set);
}

/// The items of a list are what stands between semicolons, without the space
/// around them and without empty ones.
pub proof fn law_a_list_is_parted_by_semicolons(pieces: Seq<Seq<char>>, piece: Seq<char>)
    ensures
        trimmed_pieces(pieces.push(piece)) == if text::trimmed(piece).len() == 0 {
            trimmed_pieces(pieces)
        } else {
            trimmed_pieces(pieces).push(text::trimmed(piece))
        },
{
    assert(pieces.push(piece).drop_last() =~= pieces);
}

/// An entry is offered exactly where it is an application with a name and a
/// command that does not say it is hidden; and it is offered as it says.
pub proof fn law_an_entry_says_what_it_is(s: Seq<char>)
    ensures
        ({
            let set = settings(text::lines(s));
            let hidden = exists|i: int|
                0 <= i < set.len() && ((#[trigger] set[i]).0 == "NoDisplay"@ || set[i].0
                    == "Hidden"@) && set[i].1 == "true"@;
            match entry_of(s) {
                Some(entry) => {
                    &&& !hidden
                    &&& last_value(set, "Type"@) == Some("Application"@)
                    &&& last_value(set, "Name"@) == Some(entry.name)
                    &&& last_value(set, "Exec"@) == Some(entry.command)
                    &&& last_value(set, "TryExec"@) == entry.try_exec
                    &&& entry.terminal <==> last_value(set, "Terminal"@) == Some("true"@)
                },
                None => hidden || last_value(set, "Type"@) != Some("Application"@) || last_value(
                    set,
                    "Name"@,
                ) is None || last_value(set, "Exec"@) is None,
            }
        }),
{
    let set = settings(text::lines(s));
    if exists|i: int|
        0 <= i < set.len() && ((#[trigger] set[i]).0 == "NoDisplay"@ || set[i].0 == "Hidden"@)
            && set[i].1 == "true"@ {
        let i = choose|i: int|
            0 <= i < set.len() && ((#[trigger] set[i]).0 == "NoDisplay"@ || set[i].0 == "Hidden"@)
                && set[i].1 == "true"@;
        assert(ever_true(set, set[i].0));
    }
}

/// A word with what is special in quotes escaped.
pub open spec fn escaped(word: Seq<char>) -> Seq<char>
    decreases word.len(),
{
    if word.len() == 0 {
        Seq::empty()
    } else if word[0] == '"' || word[0] == '\\' {
        seq!['\\', word[0]] + escaped(word.skip(1))
    } else {
        seq![word[0]] + escaped(word.skip(1))
    }
}

proof fn lemma_escaped(word: Seq<char>, begun: Seq<char>)
    ensures
        words_from(escaped(word) + seq!['"'], Some(begun), true) == seq![begun + word],
    decreases word.len(),
{
    let all = escaped(word) + seq!['"'];
    if word.len() == 0 {
        assert(all =~= seq!['"']);
        assert(all.skip(1) =~= Seq::<char>::empty());
        assert(begun + word =~= begun);
        assert(words_from(all.skip(1), Some(begun), false) == seq![begun]);
    } else {
        let rest = word.skip(1);
        lemma_escaped(rest, begun.push(word[0]));
        assert(begun.push(word[0]) + rest =~= begun + word);
        if word[0] == '"' || word[0] == '\\' {
            assert(all.skip(2) =~= escaped(rest) + seq!['"']);
            assert(all[0] == '\\' && all[1] == word[0]);
        } else {
            assert(all.skip(1) =~= escaped(rest) + seq!['"']);
            assert(all[0] == word[0]);
        }
    }
}

/// A word in quotes, with what is special in it escaped, is read as the word,
/// whatever it holds.
pub proof fn law_a_quoted_word_reads_back(word: Seq<char>)
    ensures
        exec_words(seq!['"'] + escaped(word) + seq!['"']) == seq![word],
{
    let all = seq!['"'] + escaped(word) + seq!['"'];
    lemma_escaped(word, Seq::empty());
    assert(all.skip(1) =~= escaped(word) + seq!['"']);
    assert(Seq::<char>::empty() + word =~= word);
}

proof fn lemma_plain_words(a: Seq<char>, b: Seq<char>, space: char, word: Option<Seq<char>>)
    requires
        !a.contains('"'),
        text::white_space(space),
    ensures
        words_from(a + seq![space] + b, word, false) == words_from(a, word, false) + exec_words(b),
    decreases a.len(),
{
    let all = a + seq![space] + b;
    if a.len() == 0 {
        assert(all =~= seq![space] + b);
        assert(all.skip(1) =~= b);
        assert(space != '"');
    } else {
        let rest = a.skip(1);
        assert forall|j: int| 0 <= j < rest.len() implies rest[j] != '"' by {
            assert(a.contains(a[j + 1]));
        }
        assert(a.contains(a[0]));
        assert(all.skip(1) =~= rest + seq![space] + b);
        if text::white_space(a[0]) {
            lemma_plain_words(rest, b, space, None);
            assert(words_from(all, word, false) =~= words_from(a, word, false) + exec_words(b));
        } else {
            lemma_plain_words(rest, b, space, extended(word, a[0]));
        }
    }
}

/// White space outside quotes parts words, and a word without any is read as
/// it is.
pub proof fn law_words_are_parted_by_space(a: Seq<char>, b: Seq<char>, space: char)
    requires
        !a.contains('"'),
        text::white_space(space),
    ensures
        exec_words(a + seq![space] + b) == exec_words(a) + exec_words(b),
        a.len() > 0 && (forall|i: int| 0 <= i < a.len() ==> !text::white_space(a[i]))
            ==> exec_words(a) == seq![a],
{
    lemma_plain_words(a, b, space, None);
    if a.len() > 0 && (forall|i: int| 0 <= i < a.len() ==> !text::white_space(a[i])) {
        let first = seq![a[0]];
        assert(a.contains(a[0]));
        assert(first + a.skip(1) =~= a);
        lemma_one_word(a.skip(1), first, a);
    }
}

proof fn lemma_one_word(rest: Seq<char>, begun: Seq<char>, whole: Seq<char>)
    requires
        whole == begun + rest,
        !whole.contains('"'),
        forall|i: int| 0 <= i < whole.len() ==> !text::white_space(whole[i]),
    ensures
        words_from(rest, Some(begun), false) == seq![whole],
    decreases rest.len(),
{
    if rest.len() == 0 {
        assert(whole =~= begun);
    } else {
        assert(whole[begun.len() as int] == rest[0]);
        assert(whole.contains(rest[0]));
        assert(begun.push(rest[0]) + rest.skip(1) =~= whole);
        lemma_one_word(rest.skip(1), begun.push(rest[0]), whole);
    }
}

/// Words are filled in one by one: a word that is the code for a file is the
/// file, a word with a percent sign nowhere in it stays, and a code that says
/// nothing here is dropped.
pub proof fn law_words_are_filled_in_one_by_one(
    first: Seq<Seq<char>>,
    second: Seq<Seq<char>>,
    word: Seq<char>,
    target: Seq<char>,
)
    ensures
        filled_in(first + second, target) == filled_in(first, target) + filled_in(second, target),
        file_codes().contains(word) ==> filled_in(seq![word], target) == seq![target],
        dropped_codes().contains(word) ==> filled_in(seq![word], target).len() == 0,
        !word.contains('%') ==> filled_in(seq![word], target) == seq![word],
    decreases second.len(),
{
    let all = first + second;
    if second.len() == 0 {
        assert(all =~= first);
        assert(filled_in(first, target) + filled_in(second, target) =~= filled_in(first, target));
    } else {
        assert(all.drop_last() =~= first + second.drop_last());
        law_words_are_filled_in_one_by_one(first, second.drop_last(), word, target);
        assert(filled_in(all, target) =~= filled_in(first, target) + filled_in(second, target));
    }
    let one = seq![word];
    assert(one.drop_last() =~= Seq::<Seq<char>>::empty());
    assert(filled_in(one.drop_last(), target) =~= Seq::<Seq<char>>::empty());
    reveal_strlit("%f");
    reveal_strlit("%F");
    reveal_strlit("%u");
    reveal_strlit("%U");
    reveal_strlit("%i");
    reveal_strlit("%c");
    reveal_strlit("%k");
    reveal_strlit("%d");
    reveal_strlit("%D");
    reveal_strlit("%n");
    reveal_strlit("%N");
    reveal_strlit("%v");
    reveal_strlit("%m");
    reveal_strlit("%%");
    let codes = file_codes();
    if codes.contains(word) {
        let k = choose|k: int| 0 <= k < codes.len() && codes[k] == word;
        assert(!dropped_codes().contains(word)) by {
            assert forall|d: int| 0 <= d < dropped_codes().len() implies dropped_codes()[d]
                != word by {
                assert(dropped_codes()[d][1] != codes[k][1]);
            }
        }
        lemma_own_code(word, 0, k);
        let none = Seq::<char>::empty();
        assert(word + none =~= word);
        text::law_replacing_goes_on_behind(none, word, target);
        assert(text::replaced(none, word, target) =~= none);
        assert(target + none =~= target);
        assert(filled_in(one, target) =~= seq![target]);
    }
    if !word.contains('%') {
        assert(!dropped_codes().contains(word)) by {
            assert forall|d: int| 0 <= d < dropped_codes().len() implies dropped_codes()[d]
                != word by {
                assert(dropped_codes()[d][0] == '%');
                assert(dropped_codes()[d].contains('%'));
            }
        }
        lemma_no_code(word, 0);
        if text::holds(word, "%%"@) {
            let at = choose|at: int| text::stands_at(word, "%%"@, at);
            assert(word.subrange(at, at + 2)[0] == '%');
            assert(word[at] == '%');
        }
        text::law_replacing_goes_on_behind(word, "%%"@, "%"@);
        assert(filled_in(one, target) =~= seq![word]);
    }
}

proof fn lemma_own_code(word: Seq<char>, from: int, k: int)
    requires
        0 <= from <= k < file_codes().len(),
        file_codes()[k] == word,
    ensures
        file_code_in(word, from) == Some(word),
    decreases k - from,
{
    reveal_strlit("%f");
    reveal_strlit("%F");
    reveal_strlit("%u");
    reveal_strlit("%U");
    let codes = file_codes();
    if from == k {
        assert(word.subrange(0, 2) =~= word);
        assert(text::stands_at(word, codes[from], 0));
    } else {
        if text::holds(word, codes[from]) {
            let at = choose|at: int| text::stands_at(word, codes[from], at);
            assert(at == 0);
            assert(word.subrange(0, 2) =~= word);
            assert(word[1] != codes[from][1]);
        }
        lemma_own_code(word, from + 1, k);
    }
}

proof fn lemma_no_code(word: Seq<char>, from: int)
    requires
        !word.contains('%'),
        0 <= from,
    ensures
        file_code_in(word, from) is None,
    decreases file_codes().len() - from,
{
    reveal_strlit("%f");
    reveal_strlit("%F");
    reveal_strlit("%u");
    reveal_strlit("%U");
    if from < file_codes().len() {
        if text::holds(word, file_codes()[from]) {
            let at = choose|at: int| text::stands_at(word, file_codes()[from], at);
            assert(word.subrange(at, at + 2)[0] == '%');
            assert(word[at] == '%');
        }
        lemma_no_code(word, from + 1);
    }
}

/// The program of a command is its first word, and its arguments are the
/// others, filled in; the file comes last where none of them asks for it.
pub proof fn law_a_command_is_program_and_arguments(command: Seq<char>, target: Seq<char>)
    ensures
        match command_of(command, target) {
            Some(launch) => {
                let words = exec_words(command);
                let args = filled_in(words.skip(1), target);
                &&& words.len() > 0 && words[0].len() > 0 && launch.program == words[0]
                &&& launch.args == args || launch.args == args.push(target)
                &&& launch.args == args ==> takes_file(words.skip(1))
            },
            None => exec_words(command).len() == 0 || exec_words(command)[0].len() == 0,
        },
{
    if command_of(command, target) is Some {
        let args = filled_in(exec_words(command).skip(1), target);
        assert(args.push(target).len() != args.len());
    }
}

/// Every place that entries are kept in is looked in.
pub proof fn law_every_place_is_looked_in(style: Style, paths: Seq<Seq<char>>, i: int)
    requires
        0 <= i < paths.len(),
    ensures
        has_place(style, each_place_once(style, paths), paths[i]),
    decreases paths.len(),
{
    let out = each_place_once(style, paths);
    let before = paths.drop_last();
    let front = each_place_once(style, before);
    let path = paths[i];
    if i < before.len() {
        assert(before[i] == path);
        law_every_place_is_looked_in(style, before, i);
    }
    if has_place(style, front, path) {
        let m = choose|m: int| 0 <= m < front.len() && pathname::same(style, #[trigger] front[m], path);
        assert(out[m] == front[m]);
    } else {
        assert(out[out.len() - 1] == path);
        assert(pathname::same(style, path, path));
    }
}

/// No other place is looked in, and of two that are the same the first is.
pub proof fn law_places_are_looked_in_as_they_are_given(style: Style, paths: Seq<Seq<char>>, k: int)
    requires
        0 <= k < each_place_once(style, paths).len(),
    ensures
        exists|i: int|
            0 <= i < paths.len() && #[trigger] paths[i] == each_place_once(style, paths)[k]
                && !has_place(style, each_place_once(style, paths.take(i)), paths[i]),
    decreases paths.len(),
{
    let before = paths.drop_last();
    let front = each_place_once(style, before);
    if k < front.len() {
        law_places_are_looked_in_as_they_are_given(style, before, k);
        let i = choose|i: int|
            0 <= i < before.len() && #[trigger] before[i] == front[k] && !has_place(
                style,
                each_place_once(style, before.take(i)),
                before[i],
            );
        assert(paths[i] == before[i]);
        assert(paths.take(i) =~= before.take(i));
    } else {
        let i = paths.len() - 1;
        assert(paths.take(i) =~= before);
        assert(paths[i] == each_place_once(style, paths)[k]);
    }
}

proof fn lemma_named_once(list: Seq<Application>)
    ensures
        forall|k: int|
            0 <= k < list.len() ==> exists|m: int|
                0 <= m < without_named_twice(list).len() && (#[trigger] without_named_twice(
                    list,
                )[m]).name@ == (#[trigger] list[k]).name@,
        forall|m: int|
            0 <= m < without_named_twice(list).len() ==> list.contains(
                #[trigger] without_named_twice(list)[m],
            ),
    decreases list.len(),
{
    let out = without_named_twice(list);
    if list.len() > 0 {
        let before = list.drop_last();
        let front = without_named_twice(before);
        lemma_named_once(before);
        assert forall|k: int| 0 <= k < list.len() implies exists|m: int|
            0 <= m < out.len() && (#[trigger] out[m]).name@ == (#[trigger] list[k]).name@ by {
            if k < before.len() {
                assert(before[k] == list[k]);
                let m = choose|m: int|
                    0 <= m < front.len() && (#[trigger] front[m]).name@ == before[k].name@;
                assert(out[m] == front[m]);
            } else {
                assert(out[out.len() - 1].name@ == list[k].name@);
            }
        }
        assert forall|m: int| 0 <= m < out.len() implies list.contains(#[trigger] out[m]) by {
            if m < front.len() {
                assert(before.contains(front[m]));
                let j = choose|j: int| 0 <= j < before.len() && before[j] == front[m];
                assert(list[j] == out[m]);
            } else {
                assert(list[list.len() - 1] == out[m]);
            }
        }
    }
}

proof fn lemma_mac_names(style: Style, paths: Seq<Seq<char>>, k: int)
    requires
        0 <= k < paths.len(),
        mac_name(style, paths[k]) is Some,
    ensures
        mac_names(style, paths).contains(mac_name(style, paths[k])->0),
    decreases paths.len(),
{
    let before = paths.drop_last();
    let name = mac_name(style, paths[k])->0;
    let out = mac_names(style, paths);
    if k < before.len() {
        assert(before[k] == paths[k]);
        lemma_mac_names(style, before, k);
        let front = mac_names(style, before);
        let m = choose|m: int| 0 <= m < front.len() && front[m] == name;
        assert(out[m] == name);
    } else {
        assert(out[out.len() - 1] == name);
    }
}

/// Every bundle that was found is offered by its name without the ending.
pub proof fn law_every_bundle_is_offered(
    style: Style,
    apps: Seq<Application>,
    found: Seq<Seq<char>>,
    k: int,
    stem: Seq<char>,
)
    requires
        stand_for_bundles(style, apps, found),
        0 <= k < found.len(),
        pathname::file_name(style, found[k]) == Some(stem + seq!['.', 'a', 'p', 'p']),
        pathname::extension(style, found[k]) == Some(seq!['a', 'p', 'p']),
    ensures
        exists|m: int|
            0 <= m < apps.len() && (#[trigger] apps[m]).name@ == stem && apps[m].command@ == stem,
{
    broadcast use vstd::seq_lib::group_to_multiset_ensures;

    reveal_strlit("app");
    assert("app"@ =~= seq!['a', 'p', 'p']);
    let whole = stem + seq!['.', 'a', 'p', 'p'];
    assert(whole.take(whole.len() - 4) =~= stem);
    assert(mac_name(style, found[k]) == Some(stem));
    lemma_mac_names(style, found, k);
    let names = mac_names(style, found);
    let less = |a: Application, b: Application| named_before(a, b);
    let unsorted = choose|unsorted: Seq<Application>|
        {
            &&& #[trigger] bundles(unsorted, names)
            &&& apps == without_named_twice(
                order::sorted(unsorted, |a: Application, b: Application| named_before(a, b)),
            )
        };
    let sorted = order::sorted(unsorted, less);
    order::law_sorting_keeps_everything(unsorted, less);
    let n = choose|n: int| 0 <= n < names.len() && names[n] == stem;
    let app = unsorted[n];
    assert(bundle(unsorted[n], names[n]));
    assert(unsorted.contains(app));
    assert(unsorted.to_multiset().count(app) > 0);
    assert(sorted.to_multiset().count(app) > 0);
    assert(sorted.contains(app));
    let q = choose|q: int| 0 <= q < sorted.len() && sorted[q] == app;
    lemma_named_once(sorted);
    assert(sorted[q].name@ == stem);
    let m = choose|m: int| 0 <= m < apps.len() && (#[trigger] apps[m]).name@ == sorted[q].name@;
    assert(sorted.contains(apps[m]));
    assert(sorted.to_multiset().count(apps[m]) > 0);
    assert(unsorted.contains(apps[m]));
    let u = choose|u: int| 0 <= u < unsorted.len() && unsorted[u] == apps[m];
    assert(bundle(unsorted[u], names[u]));
}

/// The file is put behind the arguments exactly where no word asks for it: a
/// word asks that has one of the codes for a file in it, and is no code that
/// is dropped.
pub proof fn law_the_file_is_passed_once(command: Seq<char>, target: Seq<char>)
    requires
        command_of(command, target) is Some,
    ensures
        ({
            let rest = exec_words(command).skip(1);
            let args = filled_in(rest, target);
            let asks = exists|i: int, c: int|
                0 <= i < rest.len() && 0 <= c < file_codes().len() && text::holds(
                    #[trigger] rest[i],
                    #[trigger] file_codes()[c],
                ) && !dropped_codes().contains(rest[i]);
            command_of(command, target)->0.args == if asks {
                args
            } else {
                args.push(target)
            }
        }),
{
    let rest = exec_words(command).skip(1);
    if takes_file(rest) {
        let i = choose|i: int|
            0 <= i < rest.len() && !dropped_codes().contains(#[trigger] rest[i]) && file_code_in(
                rest[i],
                0,
            ) is Some;
        let c = lemma_code_found(rest[i], 0);
        assert(text::holds(rest[i], file_codes()[c]));
    }
    if exists|i: int, c: int|
        0 <= i < rest.len() && 0 <= c < file_codes().len() && text::holds(
            #[trigger] rest[i],
            #[trigger] file_codes()[c],
        ) && !dropped_codes().contains(rest[i]) {
        let (i, c) = choose|i: int, c: int|
            0 <= i < rest.len() && 0 <= c < file_codes().len() && text::holds(
                #[trigger] rest[i],
                #[trigger] file_codes()[c],
            ) && !dropped_codes().contains(rest[i]);
        lemma_code_is_found(rest[i], 0, c);
    }
}

proof fn lemma_code_found(word: Seq<char>, from: int) -> (c: int)
    requires
        0 <= from,
        file_code_in(word, from) is Some,
    ensures
        from <= c < file_codes().len(),
        text::holds(word, file_codes()[c]),
    decreases file_codes().len() - from,
{
    if text::holds(word, file_codes()[from]) {
        from
    } else {
        lemma_code_found(word, from + 1)
    }
}

proof fn lemma_code_is_found(word: Seq<char>, from: int, c: int)
    requires
        0 <= from <= c < file_codes().len(),
        text::holds(word, file_codes()[c]),
    ensures
        file_code_in(word, from) is Some,
    decreases c - from,
{
    if !text::holds(word, file_codes()[from]) {
        lemma_code_is_found(word, from + 1, c);
    }
}

/// A line for a shell is its words, each quoted, with a space between two.
pub proof fn law_a_line_is_its_words_quoted(
    words: Seq<Seq<char>>,
    word: Seq<char>,
    platform: Platform,
)
    ensures
        shell_line(seq![word], platform) == shell::quoted(word, platform),
        words.len() > 0 ==> shell_line(words.push(word), platform) == shell_line(words, platform)
            + seq![' '] + shell::quoted(word, platform),
{
    reveal_strlit(" ");
    assert(" "@ =~= seq![' ']);
    assert(words.push(word).drop_last() =~= words);
}

proof fn lemma_named_twice_keep_order(list: Seq<Application>, i: int, j: int)
    requires
        0 <= i < j < without_named_twice(list).len(),
    ensures
        exists|p: int, q: int|
            0 <= p < q < list.len() && #[trigger] list[p] == without_named_twice(list)[i]
                && #[trigger] list[q] == without_named_twice(list)[j],
    decreases list.len(),
{
    let before = list.drop_last();
    let front = without_named_twice(before);
    let out = without_named_twice(list);
    if j < front.len() {
        lemma_named_twice_keep_order(before, i, j);
        let (p, q) = choose|p: int, q: int|
            0 <= p < q < before.len() && #[trigger] before[p] == front[i] && #[trigger] before[q]
                == front[j];
        assert(list[p] == out[i] && list[q] == out[j]);
    } else {
        lemma_named_once(before);
        assert(before.contains(front[i]));
        let p = choose|p: int| 0 <= p < before.len() && before[p] == front[i];
        let q = list.len() - 1;
        assert(list[p] == out[i] && list[q] == out[j]);
    }
}

/// Bundles are offered in the order of their names, in small letters.
pub proof fn law_bundles_come_in_name_order(
    style: Style,
    apps: Seq<Application>,
    found: Seq<Seq<char>>,
    i: int,
    j: int,
)
    requires
        stand_for_bundles(style, apps, found),
        0 <= i < j < apps.len(),
    ensures
        !text::before(text::lowercase(apps[j].name@), text::lowercase(apps[i].name@)),
{
    let less = |a: Application, b: Application| named_before(a, b);
    let unsorted = choose|unsorted: Seq<Application>|
        {
            &&& #[trigger] bundles(unsorted, mac_names(style, found))
            &&& apps == without_named_twice(
                order::sorted(unsorted, |a: Application, b: Application| named_before(a, b)),
            )
        };
    assert(order::orders(less)) by {
        assert forall|a: Application| !#[trigger] less(a, a) by {
            text::lemma_before_total(text::lowercase(a.name@), text::lowercase(a.name@));
        }
        assert forall|a: Application, b: Application, c: Application|
            #[trigger] less(a, b) && #[trigger] less(b, c) implies less(a, c) by {
            text::lemma_before_transitive(
                text::lowercase(a.name@),
                text::lowercase(b.name@),
                text::lowercase(c.name@),
            );
        }
        assert forall|a: Application, b: Application, c: Application|
            !#[trigger] less(a, b) && !#[trigger] less(b, c) implies !less(a, c) by {
            text::lemma_not_before_transitive(
                text::lowercase(a.name@),
                text::lowercase(b.name@),
                text::lowercase(c.name@),
            );
        }
    }
    let sorted = order::sorted(unsorted, less);
    order::law_sorting_puts_in_order(unsorted, less);
    lemma_named_twice_keep_order(sorted, i, j);
    let (p, q) = choose|p: int, q: int|
        0 <= p < q < sorted.len() && #[trigger] sorted[p] == apps[i] && #[trigger] sorted[q]
            == apps[j];
    assert(!less(sorted[q], sorted[p]));
}

} // verus!
