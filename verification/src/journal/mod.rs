//! An account of what was done to the files.
//!
//! One file per day and stream, one record per line, appended and never
//! rewritten. A record is what happened, not what was asked for: it is written
//! after the fact and carries the failure when there was one.

use vstd::prelude::*;
use crate::local_time;
use crate::local_time::LocalTime;
use crate::order;
use crate::pathname;
use crate::pathname::Style;
use crate::paths;
use crate::text;
use crate::text::chars;

pub mod past;
pub mod rows;

pub use crate::journal::past::{
    commands_before, happened_in, scene_of, since, since_day, start_of_last, Happening, Past, Scene,
};
pub use crate::journal::rows::{
    arrange, event_at, lines, tally, Filter, Line, Row, Tally,
};

verus! {

broadcast use vstd::string::group_string_axioms;

/// Which stream a record belongs to.
#[derive(Debug, Clone, Copy, PartialEq, Eq, Structural)]
pub enum Stream {
    /// What happened to files and directories.
    Files,
    /// Commands handed to a shell: the line and how it ended, never output.
    Shell,
}

impl Default for Stream {
    fn default() -> (r: Stream)
        ensures
            r == Stream::Files,
    {
        Stream::Files
    }
}

/// What the names of a stream's files begin with.
pub open spec fn stream_prefix(stream: Stream) -> Seq<char> {
    match stream {
        Stream::Files => "files"@,
        Stream::Shell => "shell"@,
    }
}

impl Stream {
    pub fn prefix(self) -> (r: &'static str)
        ensures
            r@ == stream_prefix(self),
    {
        match self {
            Stream::Files => "files",
            Stream::Shell => "shell",
        }
    }

    pub fn label(self) -> (r: &'static str)
        ensures
            r@ == match self {
                Stream::Files => "Files"@,
                Stream::Shell => "Commands"@,
            },
    {
        match self {
            Stream::Files => "Files",
            Stream::Shell => "Commands",
        }
    }
}

/// What the browser is showing.
#[derive(Debug, Clone, Copy, PartialEq, Eq, Structural)]
pub enum Shown {
    /// Both, in the order things happened.
    All,
    Files,
    Commands,
}

impl Default for Shown {
    fn default() -> (r: Shown)
        ensures
            r == Shown::All,
    {
        Shown::All
    }
}

/// The views, in the order they are offered.
pub const SHOWN: [Shown; 3] = [Shown::All, Shown::Files, Shown::Commands];

/// The stored streams a view reads.
pub open spec fn streams_of(shown: Shown) -> Seq<Stream> {
    match shown {
        Shown::All => seq![Stream::Files, Stream::Shell],
        Shown::Files => seq![Stream::Files],
        Shown::Commands => seq![Stream::Shell],
    }
}

impl Shown {
    pub fn label(self) -> (r: &'static str)
        ensures
            r@ == match self {
                Shown::All => "All"@,
                Shown::Files => "Files"@,
                Shown::Commands => "Commands"@,
            },
    {
        match self {
            Shown::All => "All",
            Shown::Files => "Files",
            Shown::Commands => "Commands",
        }
    }

    /// The stored streams this view reads.
    pub fn streams(self) -> (r: Vec<Stream>)
        ensures
            r@ == streams_of(self),
    {
        let r: Vec<Stream> = match self {
            Shown::All => vec![Stream::Files, Stream::Shell],
            Shown::Files => vec![Stream::Files],
            Shown::Commands => vec![Stream::Shell],
        };
        assert(r@ =~= streams_of(self));
        r
    }

    /// Whether a kind can appear here, which is what the filter row offers.
    pub fn holds(self, kind: Kind) -> (r: bool)
        ensures
            r == streams_of(self).contains(stream_of(kind)),
    {
        let stream: Stream = kind.stream();
        assert(streams_of(Shown::All)[0] == Stream::Files);
        assert(streams_of(Shown::All)[1] == Stream::Shell);
        assert(streams_of(Shown::Files)[0] == Stream::Files);
        assert(streams_of(Shown::Commands)[0] == Stream::Shell);
        match self {
            Shown::All => true,
            Shown::Files => stream == Stream::Files,
            Shown::Commands => stream == Stream::Shell,
        }
    }

    /// The next view round, for the terminal front-end's one key.
    pub fn next(self) -> (r: Shown)
        ensures
            r == match self {
                Shown::All => Shown::Files,
                Shown::Files => Shown::Commands,
                Shown::Commands => Shown::All,
            },
    {
        match self {
            Shown::All => Shown::Files,
            Shown::Files => Shown::Commands,
            Shown::Commands => Shown::All,
        }
    }
}

/// What sort of thing was done.
#[derive(Debug, Clone, Copy, PartialEq, Eq, Structural)]
pub enum Kind {
    Copy,
    Move,
    Rename,
    /// Gone for good.
    Delete,
    /// Sent to the trash, where it can be fetched back.
    Trash,
    MakeDir,
    Permissions,
    /// Contents changed: text, bytes, or a picture.
    Edit,
    /// Handed to another program to open. Not a change - but the most this
    /// program can honestly say about one made outside it.
    Open,
    /// A command handed to a shell.
    Command,
    /// Something about a shell session itself rather than a command in it.
    Session,
}

/// Every kind, in the order the filter offers them.
pub const KINDS: [Kind; 11] = [
    Kind::Copy,
    Kind::Move,
    Kind::Rename,
    Kind::Delete,
    Kind::Trash,
    Kind::MakeDir,
    Kind::Permissions,
    Kind::Edit,
    Kind::Open,
    Kind::Command,
    Kind::Session,
];

/// What a kind is called in its column.
pub open spec fn kind_label(kind: Kind) -> Seq<char> {
    match kind {
        Kind::Copy => "Copied"@,
        Kind::Move => "Moved"@,
        Kind::Rename => "Renamed"@,
        Kind::Delete => "Deleted"@,
        Kind::Trash => "Trashed"@,
        Kind::MakeDir => "Created"@,
        Kind::Permissions => "Permissions"@,
        Kind::Edit => "Edited"@,
        Kind::Open => "Opened"@,
        Kind::Command => "Command"@,
        Kind::Session => "Shell"@,
    }
}

/// The stream a kind is written to.
pub open spec fn stream_of(kind: Kind) -> Stream {
    if kind == Kind::Command || kind == Kind::Session {
        Stream::Shell
    } else {
        Stream::Files
    }
}

impl Kind {
    pub fn label(self) -> (r: &'static str)
        ensures
            r@ == kind_label(self),
    {
        match self {
            Kind::Copy => "Copied",
            Kind::Move => "Moved",
            Kind::Rename => "Renamed",
            Kind::Delete => "Deleted",
            Kind::Trash => "Trashed",
            Kind::MakeDir => "Created",
            Kind::Permissions => "Permissions",
            Kind::Edit => "Edited",
            Kind::Open => "Opened",
            Kind::Command => "Command",
            Kind::Session => "Shell",
        }
    }

    /// Which stream a kind is written to.
    ///
    /// Everything about shells goes to the second stream, because commands
    /// arrive in a different order of magnitude from file operations.
    pub fn stream(self) -> (r: Stream)
        ensures
            r == stream_of(self),
    {
        match self {
            Kind::Command | Kind::Session => Stream::Shell,
            _ => Stream::Files,
        }
    }

    /// The one-word form for a filter chip.
    pub fn short(self) -> (r: &'static str)
        ensures
            r@ == match self {
                Kind::Copy => "copy"@,
                Kind::Move => "move"@,
                Kind::Rename => "rename"@,
                Kind::Delete => "delete"@,
                Kind::Trash => "trash"@,
                Kind::MakeDir => "mkdir"@,
                Kind::Permissions => "perms"@,
                Kind::Edit => "edit"@,
                Kind::Open => "open"@,
                Kind::Command => "command"@,
                Kind::Session => "shell"@,
            },
    {
        match self {
            Kind::Copy => "copy",
            Kind::Move => "move",
            Kind::Rename => "rename",
            Kind::Delete => "delete",
            Kind::Trash => "trash",
            Kind::MakeDir => "mkdir",
            Kind::Permissions => "perms",
            Kind::Edit => "edit",
            Kind::Open => "open",
            Kind::Command => "command",
            Kind::Session => "shell",
        }
    }

    /// Whether this kind is worth marking as dangerous when it is listed.
    pub fn is_destructive(self) -> (r: bool)
        ensures
            r == (self == Kind::Delete),
    {
        self == Kind::Delete
    }
}

// ---- records ---------------------------------------------------------------------------

/// One thing that happened to one file.
#[derive(Debug, Clone, PartialEq, Eq)]
pub struct Event {
    /// Unix seconds.
    pub at: i64,
    pub kind: Kind,
    /// What was acted on.
    pub path: String,
    /// Where it ended up, for the operations that move something.
    pub to: Option<String>,
    /// The detail that makes the line worth reading: `644 -> 755`, `exit 1`.
    pub note: String,
    /// Why it did not happen. `None` means it did.
    pub failed: Option<String>,
    /// Which run this belonged to, for the operations that touch many files.
    pub group: Option<u64>,
    /// Which shell ran it: `bash`, `zsh`, `fish`.
    pub shell: Option<String>,
    /// How long it took, in milliseconds. Commands only.
    pub ms: Option<u64>,
}

/// Seconds since 1970 by a reading of the clock; zero where it stands before.
pub open spec fn reading_seconds(reading: Option<(u64, u32)>) -> i64 {
    match reading {
        Some((seconds, _)) => seconds as i64,
        None => 0,
    }
}

/// Unix seconds, now.
///
/// What the clock says is not stated; [`seconds_of`] says what is made of it.
pub fn now() -> (r: i64)
    ensures
        exists|reading: Option<(u64, u32)>| r == #[trigger] reading_seconds(reading),
{
    let reading: Option<(u64, u32)> = local_time::unix_time();
    seconds_of(reading)
}

/// Unix seconds by a reading of the clock.
pub fn seconds_of(reading: Option<(u64, u32)>) -> (r: i64)
    ensures
        r == reading_seconds(reading),
{
    match reading {
        Some((seconds, _)) => seconds as i64,
        None => 0,
    }
}

impl Event {
    /// Something that happened just now.
    pub fn new(kind: Kind, path: &str) -> (r: Event)
        ensures
            bare(r, r.at, kind, path@),
    {
        Event::made_at(now(), kind, path)
    }

    /// Something that happened at a time.
    pub fn made_at(at: i64, kind: Kind, path: &str) -> (r: Event)
        ensures
            bare(r, at, kind, path@),
    {
        Event {
            at,
            kind,
            path: path.to_owned(),
            to: None,
            note: String::new(),
            failed: None,
            group: None,
            shell: None,
            ms: None,
        }
    }

    /// Which shell ran it. No name is no shell.
    pub fn by_shell(self, shell: &str) -> (r: Event)
        ensures
            shell@.len() == 0 ==> r == self,
            shell@.len() > 0 ==> r.shell is Some && r.shell->0@ == shell@ && r == (Event {
                shell: r.shell,
                ..self
            }),
    {
        let mut r: Event = self;
        if !shell.is_empty() {
            r.shell = Some(shell.to_owned());
        }
        r
    }

    /// How long it took.
    pub fn lasting(self, ms: u64) -> (r: Event)
        ensures
            r == (Event { ms: Some(ms), ..self }),
    {
        let mut r: Event = self;
        r.ms = Some(ms);
        r
    }

    /// What to call this in the kind column: the shell's name where there is
    /// one.
    pub fn label(&self) -> (r: &str)
        ensures
            r@ == event_label(*self),
    {
        match &self.shell {
            Some(shell) => shell.as_str(),
            None => self.kind.label(),
        }
    }

    pub fn to(self, to: &str) -> (r: Event)
        ensures
            r.to is Some && r.to->0@ == to@,
            r == (Event { to: r.to, ..self }),
    {
        let mut r: Event = self;
        r.to = Some(to.to_owned());
        r
    }

    pub fn note(self, note: &str) -> (r: Event)
        ensures
            r.note@ == note@,
            r == (Event { note: r.note, ..self }),
    {
        let mut r: Event = self;
        r.note = note.to_owned();
        r
    }

    pub fn failed(self, why: &str) -> (r: Event)
        ensures
            r.failed is Some && r.failed->0@ == why@,
            r == (Event { failed: r.failed, ..self }),
    {
        let mut r: Event = self;
        r.failed = Some(why.to_owned());
        r
    }

    /// Mark it failed only when it was.
    pub fn failed_if(self, failed: bool, why: &str) -> (r: Event)
        ensures
            !failed ==> r == self,
            failed ==> r.failed is Some && r.failed->0@ == why@ && r == (Event {
                failed: r.failed,
                ..self
            }),
    {
        if failed {
            self.failed(why)
        } else {
            self
        }
    }

    pub fn in_group(self, group: u64) -> (r: Event)
        ensures
            r == (Event { group: Some(group), ..self }),
    {
        let mut r: Event = self;
        r.group = Some(group);
        r
    }

    pub fn is_failure(&self) -> (r: bool)
        ensures
            r == self.failed is Some,
    {
        self.failed.is_some()
    }
}

/// Whether an event says when, what and to what, and nothing else.
pub open spec fn bare(event: Event, at: i64, kind: Kind, path: Seq<char>) -> bool {
    &&& event.at == at
    &&& event.kind == kind
    &&& event.path@ == path
    &&& event.to is None
    &&& event.note@ == Seq::<char>::empty()
    &&& event.failed is None
    &&& event.group is None
    &&& event.shell is None
    &&& event.ms is None
}

/// What an event is called in the kind column.
pub open spec fn event_label(event: Event) -> Seq<char> {
    match event.shell {
        Some(shell) => shell@,
        None => kind_label(event.kind),
    }
}

/// A run that touched more than one file. Written before its events, so a run
/// killed halfway still has a heading over whatever it managed.
#[derive(Debug, Clone, PartialEq, Eq)]
pub struct Group {
    pub id: u64,
    pub at: i64,
    pub kind: Kind,
    /// What the run was, in one line: "Copy 42 items to /backup".
    pub summary: String,
}

/// A run that ended, and how long it took altogether. A run with none is a
/// run that did not reach its end.
#[derive(Debug, Clone, Copy, PartialEq, Eq, Structural)]
pub struct Done {
    pub id: u64,
    pub at: i64,
    /// Milliseconds from the first file to the last.
    pub ms: u64,
}

/// One line of a day file.
#[derive(Debug, Clone, PartialEq, Eq)]
pub enum Record {
    Group(Group),
    Event(Event),
    Done(Done),
}

/// When a record's thing happened.
pub open spec fn record_at(record: Record) -> i64 {
    match record {
        Record::Group(group) => group.at,
        Record::Event(event) => event.at,
        Record::Done(done) => done.at,
    }
}

impl Record {
    /// When it happened, whichever kind of record it is.
    pub fn at(&self) -> (r: i64)
        ensures
            r == record_at(*self),
    {
        match self {
            Record::Group(group) => group.at,
            Record::Event(event) => event.at,
            Record::Done(done) => done.at,
        }
    }
}

/// The most events one run will write.
pub const MAX_EVENTS_PER_GROUP: usize = 5_000;

/// How long something took, for a person reading it back. Precision falls
/// away as the number grows.
pub open spec fn took_text(ms: nat) -> Seq<char> {
    let seconds = ms / 1000;
    if ms == 0 {
        "<1ms"@
    } else if ms < 1000 {
        text::decimal(ms) + "ms"@
    } else if ms < 10_000 {
        text::decimal(seconds) + "."@ + text::decimal(ms % 1000 / 100) + "s"@
    } else if seconds < 60 {
        text::decimal(seconds) + "s"@
    } else if seconds < 3600 {
        text::decimal(seconds / 60) + "m "@ + text::padded(text::decimal(seconds % 60), 2, '0')
            + "s"@
    } else {
        text::decimal(seconds / 3600) + "h "@ + text::padded(
            text::decimal(seconds / 60 % 60),
            2,
            '0',
        ) + "m"@
    }
}

fn two(n: u64) -> (r: String)
    ensures
        r@ == text::padded(text::decimal(n as nat), 2, '0'),
{
    text::pad_start(text::decimal_text(n).as_str(), 2, '0')
}

/// How long something took, for a person reading it back.
pub fn took(ms: u64) -> (r: String)
    ensures
        r@ == took_text(ms as nat),
{
    let seconds: u64 = ms / 1000;
    if ms == 0 {
        "<1ms".to_owned()
    } else if ms < 1_000 {
        text::concat2(text::decimal_text(ms).as_str(), "ms")
    } else if ms < 10_000 {
        let mut r: String = text::concat3(
            text::decimal_text(seconds).as_str(),
            ".",
            text::decimal_text(ms % 1000 / 100).as_str(),
        );
        r.append("s");
        r
    } else if seconds < 60 {
        text::concat2(text::decimal_text(seconds).as_str(), "s")
    } else if seconds < 3_600 {
        let mut r: String = text::concat3(
            text::decimal_text(seconds / 60).as_str(),
            "m ",
            two(seconds % 60).as_str(),
        );
        r.append("s");
        r
    } else {
        let mut r: String = text::concat3(
            text::decimal_text(seconds / 3600).as_str(),
            "h ",
            two(seconds / 60 % 60).as_str(),
        );
        r.append("m");
        r
    }
}

// ---- days ---------------------------------------------------------------------------------

/// A calendar day, as the file names carry it.
#[derive(Debug, Clone, Copy, PartialEq, Eq, PartialOrd, Ord, Structural)]
pub struct Day {
    pub year: i32,
    pub month: u32,
    pub day: u32,
}

/// Whether one day comes before another.
pub open spec fn day_before(a: Day, b: Day) -> bool {
    a.year < b.year || (a.year == b.year && (a.month < b.month || (a.month == b.month && a.day
        < b.day)))
}

/// The number of a day, counted from the first of January 1970.
pub open spec fn ordinal(day: Day) -> int {
    local_time::day_number(day.year as int, day.month as int, day.day as int)
}

/// Whether a day can be the local one of a number of seconds since 1970: its
/// numbers lie where they belong, and it is the day of those seconds by
/// universal time or the one on either side. Of seconds that no calendar
/// reaches it may be any.
pub open spec fn may_be_day_of(day: Day, at: int) -> bool {
    &&& 1 <= day.month <= 12
    &&& 1 <= day.day <= 31
    &&& local_time::FIRST_SECOND <= at <= local_time::LAST_SECOND ==> -1 <= ordinal(day) - at
        / 86_400 <= 1
}

/// A day as the file names carry it: `2026-07-28`.
pub open spec fn day_name(day: Day) -> Seq<char> {
    text::signed_padded(day.year as int, 4) + "-"@ + text::padded(
        text::decimal(day.month as nat),
        2,
        '0',
    ) + "-"@ + text::padded(text::decimal(day.day as nat), 2, '0')
}

/// The name of a day file.
pub open spec fn file_name(stream: Stream, day: Day) -> Seq<char> {
    stream_prefix(stream) + "-"@ + day_name(day) + ".jsonl"@
}

/// The date between the prefix and the ending of a day file's name.
pub open spec fn date_part(name: Seq<char>, stream: Stream) -> Option<Seq<char>> {
    let prefix = stream_prefix(stream) + "-"@;
    if text::begins(name, prefix) && text::ends(name.skip(prefix.len() as int), ".jsonl"@) {
        Some(name.subrange(prefix.len() as int, name.len() - 6))
    } else {
        None
    }
}

/// The day that three numbers parted by dashes make, if they make one.
pub open spec fn day_read(date: Seq<char>) -> Option<Day> {
    let parts = text::split(date, '-');
    let year = text::parsed(parts[0], i32::MAX as nat);
    let month = text::parsed(parts[1], u32::MAX as nat);
    let day = text::parsed(parts[2], u32::MAX as nat);
    if parts.len() == 3 && year is Some && month is Some && day is Some && 1 <= month->0 <= 12 && 1
        <= day->0 <= 31 {
        Some(Day { year: year->0 as i32, month: month->0 as u32, day: day->0 as u32 })
    } else {
        None
    }
}

/// The day that a day file's name carries, if it is one: the date has to
/// stand there as the journal writes it.
pub open spec fn day_of_name(name: Seq<char>, stream: Stream) -> Option<Day> {
    match date_part(name, stream) {
        None => None,
        Some(date) => match day_read(date) {
            Some(day) => if day_name(day) == date {
                Some(day)
            } else {
                None
            },
            None => None,
        },
    }
}

/// The name of a month.
pub open spec fn month_name(month: u32) -> Seq<char> {
    match month {
        0 => "January"@,
        1 => "January"@,
        2 => "February"@,
        3 => "March"@,
        4 => "April"@,
        5 => "May"@,
        6 => "June"@,
        7 => "July"@,
        8 => "August"@,
        9 => "September"@,
        10 => "October"@,
        11 => "November"@,
        12 => "December"@,
        _ => "?"@,
    }
}

impl Day {
    /// The day a local time falls on.
    pub fn of(when: LocalTime) -> (r: Day)
        ensures
            r.year == when.year && r.month == when.month && r.day == when.day,
    {
        Day { year: when.year, month: when.month, day: when.day }
    }

    /// Today, by the local clock.
    pub fn today() -> (r: Day)
        ensures
            1 <= r.month <= 12 && 1 <= r.day <= 31,
    {
        Day::of(local_time::local_now())
    }

    /// The day a unix timestamp falls on, in local time - which is the only
    /// answer that matches what someone remembers doing. A time that no
    /// calendar reaches counts as today.
    ///
    /// Which of the days it may be depends on the machine's time zone.
    pub fn of_time(at: i64) -> (r: Day)
        ensures
            may_be_day_of(r, at as int),
    {
        match local_time::local_time(at) {
            Some(when) => Day::of(when),
            None => Day::today(),
        }
    }

    pub fn name(&self) -> (r: String)
        ensures
            r@ == day_name(*self),
    {
        let mut r: String = text::signed_padded_text(self.year as i64, 4);
        r.append("-");
        r.append(two(self.month as u64).as_str());
        r.append("-");
        r.append(two(self.day as u64).as_str());
        r
    }

    /// Parse the date out of a file name's `prefix-YYYY-MM-DD.jsonl`.
    ///
    /// A date written any other way is not one the journal wrote.
    pub fn from_file_name(name: &str, stream: Stream) -> (r: Option<Day>)
        ensures
            r == day_of_name(name@, stream),
    {
        let s: Vec<char> = chars(name);
        let prefix: String = text::concat2(stream.prefix(), "-");
        let p: Vec<char> = chars(prefix.as_str());
        let ending: Vec<char> = chars(".jsonl");
        proof {
            reveal_strlit(".jsonl");
        }
        if !text::is_at(&s, &p, 0) {
            return None;
        }
        let rest: Vec<char> = text::slice(&s, p.len(), s.len());
        assert(rest@ =~= name@.skip(p@.len() as int));
        if rest.len() < 6 || !text::is_at(&rest, &ending, rest.len() - 6) {
            return None;
        }
        let date: Vec<char> = text::slice(&s, p.len(), s.len() - 6);
        assert(date_part(name@, stream) == Some(date@));
        let parts: Vec<String> = text::split_chars(&date, '-');
        let ghost cut = text::views(parts@);
        if parts.len() != 3 {
            return None;
        }
        assert(cut[0] == parts@[0]@ && cut[1] == parts@[1]@ && cut[2] == parts@[2]@);
        let year: Option<u64> = text::parse_unsigned(parts[0].as_str(), i32::MAX as u64);
        let month: Option<u64> = text::parse_unsigned(parts[1].as_str(), u32::MAX as u64);
        let day: Option<u64> = text::parse_unsigned(parts[2].as_str(), u32::MAX as u64);
        match (year, month, day) {
            (Some(year), Some(month), Some(day)) => {
                if month < 1 || month > 12 || day < 1 || day > 31 {
                    return None;
                }
                let found: Day = Day { year: year as i32, month: month as u32, day: day as u32 };
                assert(day_read(date@) == Some(found));
                if text::same(found.name().as_str(), text::string(&date).as_str()) {
                    Some(found)
                } else {
                    None
                }
            },
            _ => None,
        }
    }

    /// How many days before `later` this is. Negative if it is after.
    pub fn days_before(&self, later: Day) -> (r: i64)
        ensures
            r == ordinal(later) - ordinal(*self),
    {
        later.to_ordinal() - self.to_ordinal()
    }

    /// A day number, for subtracting one date from another.
    pub fn to_ordinal(self) -> (r: i64)
        ensures
            r == ordinal(self),
            -1_000_000_000_000 <= r <= 1_000_000_000_000,
    {
        let year: i64 = if self.month <= 2 {
            self.year as i64 - 1
        } else {
            self.year as i64
        };
        let month: i64 = if self.month <= 2 {
            self.month as i64 + 9
        } else {
            self.month as i64 - 3
        };
        let era: i64 = if year >= 0 {
            year / 400
        } else {
            -((399 - year) / 400)
        };
        let year_of_era: i64 = year - era * 400;
        proof {
            assert(0 <= year_of_era < 400);
            assert(year / 4 == 100 * era + year_of_era / 4);
            assert(year / 100 == 4 * era + year_of_era / 100);
            assert(year / 400 == era);
        }
        let day_of_year: i64 = (153 * month + 2) / 5 + self.day as i64 - 1;
        let day_of_era: i64 = year_of_era * 365 + year_of_era / 4 - year_of_era / 100
            + day_of_year;
        era * 146_097 + day_of_era - 719_468
    }

    /// `28 July 2026`, for a heading.
    pub fn describe(&self) -> (r: String)
        ensures
            r@ == text::decimal(self.day as nat) + " "@ + month_name(self.month) + " "@
                + text::signed(self.year as int),
    {
        let month: &'static str = match self.month {
            0 => "January",
            1 => "January",
            2 => "February",
            3 => "March",
            4 => "April",
            5 => "May",
            6 => "June",
            7 => "July",
            8 => "August",
            9 => "September",
            10 => "October",
            11 => "November",
            12 => "December",
            _ => "?",
        };
        let mut r: String = text::concat3(text::decimal_text(self.day as u64).as_str(), " ", month);
        r.append(" ");
        r.append(text::signed_text(self.year as i64).as_str());
        r
    }
}

/// A time of day: `14:32:05`.
pub open spec fn clock_of(t: LocalTime) -> Seq<char> {
    text::padded(text::decimal(t.hour as nat), 2, '0') + ":"@ + text::padded(
        text::decimal(t.minute as nat),
        2,
        '0',
    ) + ":"@ + text::padded(text::decimal(t.second as nat), 2, '0')
}

/// The clock time of an event, for the line it is drawn on; question marks
/// where no calendar reaches it.
pub fn clock(at: i64) -> (r: String)
    ensures
        local_time::FIRST_SECOND <= at <= local_time::LAST_SECOND ==> exists|t: LocalTime|
            local_time::well_formed(t) && local_time::less_than_a_day_off(t, at as int) && r@
                == #[trigger] clock_of(t),
        !(local_time::FIRST_SECOND <= at <= local_time::LAST_SECOND) ==> r@ == "??:??:??"@,
{
    clock_text(local_time::local_time(at))
}

/// The clock time of a local time; question marks where there is none.
pub fn clock_text(when: Option<LocalTime>) -> (r: String)
    ensures
        r@ == match when {
            Some(t) => clock_of(t),
            None => "??:??:??"@,
        },
{
    match when {
        Some(t) => {
            let mut r: String = text::concat3(
                two(t.hour as u64).as_str(),
                ":",
                two(t.minute as u64).as_str(),
            );
            r.append(":");
            r.append(two(t.second as u64).as_str());
            r
        },
        None => "??:??:??".to_owned(),
    }
}

/// How long records are kept, in days.
#[derive(Debug, Clone, Copy, PartialEq, Eq, Structural)]
pub struct Keep(pub u32);

impl Default for Keep {
    fn default() -> (r: Keep)
        ensures
            r.0 == 30,
    {
        Keep(30)
    }
}

impl Keep {
    /// Zero means keep everything: a retention setting that silently deleted
    /// the lot at its lowest value would be a trap.
    pub fn forever(&self) -> (r: bool)
        ensures
            r == (self.0 == 0),
    {
        self.0 == 0
    }

    pub fn describe(&self) -> (r: String)
        ensures
            r@ == if self.0 == 0 {
                "for ever"@
            } else if self.0 == 1 {
                "for a day"@
            } else {
                "for "@ + text::decimal(self.0 as nat) + " days"@
            },
    {
        if self.0 == 0 {
            "for ever".to_owned()
        } else if self.0 == 1 {
            "for a day".to_owned()
        } else {
            text::concat3("for ", text::decimal_text(self.0 as u64).as_str(), " days")
        }
    }
}

// ---- the journal itself --------------------------------------------------------------------

/// Where the records are kept, and what is known of them in memory: a slot
/// per stream, filled the first time a stream is asked for and appended to
/// from then on.
#[derive(Debug)]
pub struct Journal {
    dir: String,
    pub keep: Keep,
    files: Option<Vec<Record>>,
    shell: Option<Vec<Record>>,
    generation: u64,
}

spec fn slot(records: Option<Vec<Record>>) -> Option<Seq<Record>> {
    match records {
        Some(records) => Some(records@),
        None => None,
    }
}

/// A counter after one more change; it starts over at its end.
pub open spec fn moved_on(generation: u64) -> u64 {
    if generation == u64::MAX {
        0
    } else {
        (generation + 1) as u64
    }
}

/// Whether a day file is older than is kept.
pub open spec fn too_old(keep: Keep, day: Day, today: Day) -> bool {
    ordinal(today) - ordinal(day) >= keep.0
}

/// The day that a file's name carries in either stream.
pub open spec fn day_in_either(name: Seq<char>) -> Option<Day> {
    match day_of_name(name, Stream::Files) {
        Some(day) => Some(day),
        None => day_of_name(name, Stream::Shell),
    }
}

/// The positions of the names that some condition picks, in order.
pub open spec fn picked(names: Seq<Seq<char>>, wanted: spec_fn(Seq<char>) -> bool) -> Seq<int>
    decreases names.len(),
{
    if names.len() == 0 {
        Seq::empty()
    } else if wanted(names.last()) {
        picked(names.drop_last(), wanted).push(names.len() - 1)
    } else {
        picked(names.drop_last(), wanted)
    }
}

/// Positions as whole numbers.
pub open spec fn positions(list: Seq<usize>) -> Seq<int> {
    list.map_values(|at: usize| at as int)
}

/// Whether a file is one of the journal's that a sweep removes.
pub open spec fn sweeps(keep: Keep, today: Day) -> spec_fn(Seq<char>) -> bool {
    |name: Seq<char>|
        keep.0 != 0 && (day_in_either(name) matches Some(day) && too_old(keep, day, today))
}

/// Whether a file is one of the journal's at all.
pub open spec fn is_ours() -> spec_fn(Seq<char>) -> bool {
    |name: Seq<char>| day_in_either(name) is Some
}

/// The records of each day.
pub open spec fn day_views(days: Seq<Vec<Record>>) -> Seq<Seq<Record>> {
    days.map_values(|day: Vec<Record>| day@)
}

/// The records of some days, newest day first, as one account, oldest day
/// first.
pub open spec fn oldest_first(days: Seq<Seq<Record>>) -> Seq<Record>
    decreases days.len(),
{
    if days.len() == 0 {
        Seq::empty()
    } else {
        days.last() + oldest_first(days.drop_last())
    }
}

impl Journal {
    /// Where the account is kept unless something says otherwise.
    pub fn default_dir(style: Style, config_dir: Option<&str>) -> (r: Option<String>)
        ensures
            text::optional(r) == paths::own(style, text::maybe(config_dir), "journal"@),
    {
        paths::own_file(style, config_dir, "journal")
    }

    /// What is known of a stream in memory, oldest first.
    pub closed spec fn memory(self, stream: Stream) -> Option<Seq<Record>> {
        match stream {
            Stream::Files => slot(self.files),
            Stream::Shell => slot(self.shell),
        }
    }

    /// How many times the account has changed.
    pub closed spec fn changes(self) -> u64 {
        self.generation
    }

    /// The directory of the day files.
    pub closed spec fn place(self) -> Seq<char> {
        self.dir@
    }

    /// How long the day files are kept.
    pub closed spec fn kept(self) -> Keep {
        self.keep
    }

    pub fn at(dir: &str, keep: Keep) -> (r: Journal)
        ensures
            r.place() == dir@,
            r.kept() == keep,
            r.memory(Stream::Files) is None,
            r.memory(Stream::Shell) is None,
            r.changes() == 0,
    {
        Journal { dir: dir.to_owned(), keep, files: None, shell: None, generation: 0 }
    }

    pub fn dir(&self) -> (r: &str)
        ensures
            r@ == self.place(),
    {
        self.dir.as_str()
    }

    /// How many times the account has changed since this journal was made.
    pub fn generation(&self) -> (r: u64)
        ensures
            r == self.changes(),
    {
        self.generation
    }

    fn touched(&mut self)
        ensures
            final(self).changes() == moved_on(old(self).changes()),
            final(self).place() == old(self).place(),
            final(self).kept() == old(self).kept(),
            final(self).files == old(self).files,
            final(self).shell == old(self).shell,
    {
        if self.generation == u64::MAX {
            self.generation = 0;
        } else {
            self.generation = self.generation + 1;
        }
    }

    /// Whether a stream has to be read from its files before it can answer.
    pub fn wants_reading(&self, stream: Stream) -> (r: bool)
        ensures
            r == self.memory(stream) is None,
    {
        match stream {
            Stream::Files => self.files.is_none(),
            Stream::Shell => self.shell.is_none(),
        }
    }

    /// Hand over what the day files of a stream hold, oldest first. Only the
    /// first reading counts.
    pub fn fill(&mut self, stream: Stream, records: Vec<Record>)
        ensures
            old(self).memory(stream) is None ==> final(self).memory(stream) == Some(records@),
            old(self).memory(stream) is Some ==> final(self).memory(stream) == old(self).memory(
                stream,
            ),
            forall|other: Stream|
                other != stream ==> #[trigger] final(self).memory(other) == old(self).memory(other),
            final(self).changes() == old(self).changes(),
            final(self).place() == old(self).place(),
            final(self).kept() == old(self).kept(),
    {
        if self.wants_reading(stream) {
            match stream {
                Stream::Files => {
                    self.files = Some(records);
                },
                Stream::Shell => {
                    self.shell = Some(records);
                },
            }
        }
    }

    /// Every record of a stream, oldest first, from memory; none where the
    /// stream has not been read yet.
    pub fn with_records(&self, stream: Stream) -> (r: Option<&Vec<Record>>)
        ensures
            match r {
                Some(records) => self.memory(stream) == Some(records@),
                None => self.memory(stream) is None,
            },
    {
        match stream {
            Stream::Files => self.files.as_ref(),
            Stream::Shell => self.shell.as_ref(),
        }
    }

    /// Forget the memory, for the operations that rewrite the files.
    pub fn drop_cache(&mut self)
        ensures
            final(self).memory(Stream::Files) is None,
            final(self).memory(Stream::Shell) is None,
            final(self).changes() == moved_on(old(self).changes()),
            final(self).place() == old(self).place(),
            final(self).kept() == old(self).kept(),
    {
        self.files = None;
        self.shell = None;
        self.touched();
    }

    /// The path of a day file.
    pub fn file(&self, style: Style, stream: Stream, day: Day) -> (r: String)
        ensures
            r@ == pathname::joined(style, self.place(), file_name(stream, day)),
    {
        let mut name: String = text::concat3(stream.prefix(), "-", day.name().as_str());
        name.append(".jsonl");
        pathname::join(style, self.dir.as_str(), name.as_str())
    }

    /// Take one record into the account: into the memory of its stream, if
    /// that has been read. Whether the disk took it as well makes no
    /// difference: the thing it records happened.
    pub fn write(&mut self, stream: Stream, record: Record)
        ensures
            match old(self).memory(stream) {
                Some(records) => final(self).memory(stream) == Some(records.push(record)),
                None => final(self).memory(stream) is None,
            },
            forall|other: Stream|
                other != stream ==> #[trigger] final(self).memory(other) == old(self).memory(other),
            final(self).changes() == moved_on(old(self).changes()),
            final(self).place() == old(self).place(),
            final(self).kept() == old(self).kept(),
    {
        match stream {
            Stream::Files => {
                if let Some(mut records) = self.files.take() {
                    records.push(record);
                    self.files = Some(records);
                }
            },
            Stream::Shell => {
                if let Some(mut records) = self.shell.take() {
                    records.push(record);
                    self.shell = Some(records);
                }
            },
        }
        self.touched();
    }

    /// Record an event in the stream of its kind.
    pub fn record(&mut self, event: Event)
        ensures
            match old(self).memory(stream_of(event.kind)) {
                Some(records) => final(self).memory(stream_of(event.kind)) == Some(
                    records.push(Record::Event(event)),
                ),
                None => final(self).memory(stream_of(event.kind)) is None,
            },
            forall|other: Stream|
                other != stream_of(event.kind) ==> #[trigger] final(self).memory(other) == old(
                    self,
                ).memory(other),
            final(self).changes() == moved_on(old(self).changes()),
            final(self).place() == old(self).place(),
            final(self).kept() == old(self).kept(),
    {
        self.write(event.kind.stream(), Record::Event(event));
    }

    /// Record the heading of a run.
    pub fn open_group(&mut self, group: Group)
        ensures
            match old(self).memory(Stream::Files) {
                Some(records) => final(self).memory(Stream::Files) == Some(
                    records.push(Record::Group(group)),
                ),
                None => final(self).memory(Stream::Files) is None,
            },
            final(self).memory(Stream::Shell) == old(self).memory(Stream::Shell),
            final(self).changes() == moved_on(old(self).changes()),
            final(self).place() == old(self).place(),
            final(self).kept() == old(self).kept(),
    {
        self.write(Stream::Files, Record::Group(group));
    }

    /// Say that a run reached its end at a time, and how long it took.
    pub fn close_group_at(&mut self, id: u64, at: i64, ms: u64)
        ensures
            match old(self).memory(Stream::Files) {
                Some(records) => final(self).memory(Stream::Files) == Some(
                    records.push(Record::Done(Done { id, at, ms })),
                ),
                None => final(self).memory(Stream::Files) is None,
            },
            final(self).memory(Stream::Shell) == old(self).memory(Stream::Shell),
            final(self).changes() == moved_on(old(self).changes()),
            final(self).place() == old(self).place(),
            final(self).kept() == old(self).kept(),
    {
        self.write(Stream::Files, Record::Done(Done { id, at, ms }));
    }

    /// Say that a run has reached its end now, and how long it took.
    pub fn close_group(&mut self, id: u64, ms: u64)
        ensures
            exists|at: i64|
                match old(self).memory(Stream::Files) {
                    Some(records) => final(self).memory(Stream::Files) == Some(
                        records.push(Record::Done(#[trigger] finished(id, at, ms))),
                    ),
                    None => final(self).memory(Stream::Files) is None,
                },
            final(self).memory(Stream::Shell) == old(self).memory(Stream::Shell),
            final(self).changes() == moved_on(old(self).changes()),
            final(self).place() == old(self).place(),
            final(self).kept() == old(self).kept(),
    {
        let at: i64 = now();
        assert(finished(id, at, ms) == Done { id, at, ms });
        self.close_group_at(id, at, ms);
    }

    /// Which of the files in the directory a sweep removes, and forget the
    /// memory: the files are about to change under it.
    pub fn sweep(&mut self, names: &Vec<String>, today: Day) -> (r: Vec<usize>)
        ensures
            positions(r@) == picked(text::views(names@), sweeps(old(self).kept(), today)),
            final(self).memory(Stream::Files) is None,
            final(self).memory(Stream::Shell) is None,
            final(self).changes() == moved_on(old(self).changes()),
            final(self).place() == old(self).place(),
            final(self).kept() == old(self).kept(),
    {
        self.drop_cache();
        let keep: Keep = self.keep;
        let ghost all = text::views(names@);
        let ghost wanted = sweeps(keep, today);
        let mut out: Vec<usize> = Vec::new();
        let mut i: usize = 0;
        assert(all.take(0) =~= Seq::<Seq<char>>::empty());
        assert(positions(out@) =~= Seq::empty());
        while i < names.len()
            invariant
                i <= names@.len(),
                all == text::views(names@),
                wanted == sweeps(keep, today),
                positions(out@) == picked(all.take(i as int), wanted),
            decreases names@.len() - i,
        {
            let name: &str = names[i].as_str();
            let day: Option<Day> = match Day::from_file_name(name, Stream::Files) {
                Some(day) => Some(day),
                None => Day::from_file_name(name, Stream::Shell),
            };
            let old_enough: bool = match day {
                Some(day) => day.days_before(today) >= keep.0 as i64,
                None => false,
            };
            proof {
                assert(all.take(i + 1).drop_last() =~= all.take(i as int));
                assert(all.take(i + 1).last() == names@[i as int]@);
            }
            if !keep.forever() && old_enough {
                let ghost was = positions(out@);
                out.push(i);
                assert(positions(out@) =~= was.push(i as int));
            }
            i += 1;
        }
        assert(all.take(i as int) =~= all);
        out
    }

    /// Which of the files in the directory are the journal's own, and forget
    /// the memory: never anything else that happens to be there.
    pub fn clear(&mut self, names: &Vec<String>) -> (r: Vec<usize>)
        ensures
            positions(r@) == picked(text::views(names@), is_ours()),
            final(self).memory(Stream::Files) is None,
            final(self).memory(Stream::Shell) is None,
            final(self).changes() == moved_on(old(self).changes()),
            final(self).place() == old(self).place(),
            final(self).kept() == old(self).kept(),
    {
        self.drop_cache();
        let ghost all = text::views(names@);
        let ghost wanted = is_ours();
        let mut out: Vec<usize> = Vec::new();
        let mut i: usize = 0;
        assert(all.take(0) =~= Seq::<Seq<char>>::empty());
        assert(positions(out@) =~= Seq::empty());
        while i < names.len()
            invariant
                i <= names@.len(),
                all == text::views(names@),
                wanted == is_ours(),
                positions(out@) == picked(all.take(i as int), wanted),
            decreases names@.len() - i,
        {
            let name: &str = names[i].as_str();
            let ours: bool = Day::from_file_name(name, Stream::Files).is_some()
                || Day::from_file_name(name, Stream::Shell).is_some();
            proof {
                assert(all.take(i + 1).drop_last() =~= all.take(i as int));
                assert(all.take(i + 1).last() == names@[i as int]@);
            }
            if ours {
                let ghost was = positions(out@);
                out.push(i);
                assert(positions(out@) =~= was.push(i as int));
            }
            i += 1;
        }
        assert(all.take(i as int) =~= all);
        out
    }

    /// Every day that has records, newest first, from the names of the files in
    /// the directory.
    pub fn days(&self, names: &Vec<String>, stream: Stream) -> (r: Vec<Day>)
        ensures
            r@ == order::sorted(days_named(text::views(names@), stream), newest_first()),
    {
        let mut found: Vec<Day> = collect_days(names, stream);
        order::sort(&mut found, is_newer, Ghost(newest_first()));
        found
    }

    /// Every day this view has anything on, newest first.
    pub fn days_shown(&self, names: &Vec<String>, shown: Shown) -> (r: Vec<Day>)
        ensures
            r@ == each_day_once(
                order::sorted(days_of_view(text::views(names@), shown), newest_first()),
            ),
    {
        let mut found: Vec<Day> = match shown {
            Shown::All => {
                let mut both: Vec<Day> = collect_days(names, Stream::Files);
                let mut rest: Vec<Day> = collect_days(names, Stream::Shell);
                both.append(&mut rest);
                both
            },
            Shown::Files => collect_days(names, Stream::Files),
            Shown::Commands => collect_days(names, Stream::Shell),
        };
        order::sort(&mut found, is_newer, Ghost(newest_first()));
        let mut out: Vec<Day> = Vec::new();
        let mut i: usize = 0;
        assert(found@.take(0) =~= Seq::<Day>::empty());
        while i < found.len()
            invariant
                i <= found@.len(),
                out@ == each_day_once(found@.take(i as int)),
            decreases found@.len() - i,
        {
            proof {
                assert(found@.take(i + 1).drop_last() =~= found@.take(i as int));
                assert(found@.take(i + 1).last() == found@[i as int]);
            }
            let repeats: bool = out.len() > 0 && out[out.len() - 1] == found[i];
            if !repeats {
                out.push(found[i]);
            }
            i += 1;
        }
        assert(found@.take(i as int) =~= found@);
        out
    }

    /// What a view of one day shows: the day's records in each of its streams,
    /// one stream after the other.
    pub fn read_shown(&self, shown: Shown, files: Vec<Record>, shell: Vec<Record>) -> (r: Vec<
        Record,
    >)
        ensures
            r@ == match shown {
                Shown::All => files@ + shell@,
                Shown::Files => files@,
                Shown::Commands => shell@,
            },
    {
        match shown {
            Shown::All => {
                let mut all: Vec<Record> = files;
                let mut rest: Vec<Record> = shell;
                all.append(&mut rest);
                all
            },
            Shown::Files => files,
            Shown::Commands => shell,
        }
    }

    /// Everything a stream holds, oldest first, out of the records of its
    /// days, newest day first.
    pub fn read_everything(&self, days: Vec<Vec<Record>>) -> (r: Vec<Record>)
        ensures
            r@ == oldest_first(day_views(days@)),
    {
        let mut days: Vec<Vec<Record>> = days;
        let mut out: Vec<Record> = Vec::new();
        let ghost all = oldest_first(day_views(days@));
        assert(out@ + all =~= all);
        while days.len() > 0
            invariant
                out@ + oldest_first(day_views(days@)) == all,
            decreases days@.len(),
        {
            let ghost was = days@;
            let ghost before = out@;
            if let Some(mut day) = days.pop() {
                let ghost oldest = day@;
                out.append(&mut day);
                proof {
                    assert(day_views(was).drop_last() =~= day_views(days@));
                    assert(day_views(was).last() == oldest);
                    assert(out@ + oldest_first(day_views(days@)) =~= before + (oldest
                        + oldest_first(day_views(days@))));
                }
            }
        }
        assert(out@ + oldest_first(day_views(days@)) =~= out@);
        out
    }

    /// The lines of a day file that may hold a record. One that then will not
    /// parse is skipped by the reader rather than failing the day: it may be a
    /// half-written last one.
    pub fn read(&self, text: &str) -> (r: Vec<String>)
        ensures
            text::views(r@) == record_lines(text::lines(text@)),
    {
        let lines: Vec<String> = text::lines_of(text);
        let ghost all = text::views(lines@);
        let mut out: Vec<String> = Vec::new();
        let mut i: usize = 0;
        assert(all.take(0) =~= Seq::<Seq<char>>::empty());
        assert(text::views(out@) =~= Seq::empty());
        while i < lines.len()
            invariant
                i <= lines@.len(),
                all == text::views(lines@),
                text::views(out@) == record_lines(all.take(i as int)),
            decreases lines@.len() - i,
        {
            proof {
                assert(all.take(i + 1).drop_last() =~= all.take(i as int));
                assert(all.take(i + 1).last() == lines@[i as int]@);
            }
            if !text::is_blank(lines[i].as_str()) {
                let ghost was = text::views(out@);
                out.push(lines[i].clone());
                assert(text::views(out@) =~= was.push(lines@[i as int]@));
            }
            i += 1;
        }
        assert(all.take(i as int) =~= all);
        out
    }
}

/// The end of a run.
pub open spec fn finished(id: u64, at: i64, ms: u64) -> Done {
    Done { id, at, ms }
}

/// The days that the names of a stream's files carry, in the order of the
/// names.
pub open spec fn days_named(names: Seq<Seq<char>>, stream: Stream) -> Seq<Day>
    decreases names.len(),
{
    if names.len() == 0 {
        Seq::empty()
    } else {
        match day_of_name(names.last(), stream) {
            Some(day) => days_named(names.drop_last(), stream).push(day),
            None => days_named(names.drop_last(), stream),
        }
    }
}

/// The order of days, the newest first.
pub open spec fn newest_first() -> spec_fn(Day, Day) -> bool {
    |a: Day, b: Day| day_before(b, a)
}

fn is_newer(a: &Day, b: &Day) -> (r: bool)
    ensures
        r == day_before(*b, *a),
{
    b.year < a.year || (b.year == a.year && (b.month < a.month || (b.month == a.month && b.day
        < a.day)))
}

fn collect_days(names: &Vec<String>, stream: Stream) -> (r: Vec<Day>)
    ensures
        r@ == days_named(text::views(names@), stream),
{
    let ghost all = text::views(names@);
    let mut out: Vec<Day> = Vec::new();
    let mut i: usize = 0;
    assert(all.take(0) =~= Seq::<Seq<char>>::empty());
    while i < names.len()
        invariant
            i <= names@.len(),
            all == text::views(names@),
            out@ == days_named(all.take(i as int), stream),
        decreases names@.len() - i,
    {
        proof {
            assert(all.take(i + 1).drop_last() =~= all.take(i as int));
            assert(all.take(i + 1).last() == names@[i as int]@);
        }
        if let Some(day) = Day::from_file_name(names[i].as_str(), stream) {
            out.push(day);
        }
        i += 1;
    }
    assert(all.take(i as int) =~= all);
    out
}

/// The days of every stream of a view, stream by stream.
pub open spec fn days_of_view(names: Seq<Seq<char>>, shown: Shown) -> Seq<Day> {
    match shown {
        Shown::All => days_named(names, Stream::Files) + days_named(names, Stream::Shell),
        Shown::Files => days_named(names, Stream::Files),
        Shown::Commands => days_named(names, Stream::Shell),
    }
}

/// A list of days without what repeats its predecessor.
pub open spec fn each_day_once(list: Seq<Day>) -> Seq<Day>
    decreases list.len(),
{
    if list.len() == 0 {
        Seq::empty()
    } else {
        let front = each_day_once(list.drop_last());
        if front.len() > 0 && front.last() == list.last() {
            front
        } else {
            front.push(list.last())
        }
    }
}

/// The lines of a day file that may hold a record: all that are not blank.
pub open spec fn record_lines(lines: Seq<Seq<char>>) -> Seq<Seq<char>>
    decreases lines.len(),
{
    if lines.len() == 0 {
        Seq::empty()
    } else if text::trimmed(lines.last()).len() > 0 {
        record_lines(lines.drop_last()).push(lines.last())
    } else {
        record_lines(lines.drop_last())
    }
}

/// The microseconds of a reading of the clock, as far as 64 bits hold them; 0
/// where there was none.
pub open spec fn reading_micros(reading: Option<(u64, u32)>) -> int {
    match reading {
        Some((seconds, micros)) => (seconds * 1_000_000 + micros) % 0x1_0000_0000_0000_0000,
        None => 0,
    }
}

/// The microseconds of a reading of the clock, as far as 64 bits hold them.
pub fn micros_of(reading: Option<(u64, u32)>) -> (r: u64)
    ensures
        r == reading_micros(reading),
{
    match reading {
        Some((seconds, micros)) => {
            let whole: u128 = seconds as u128 * 1_000_000 + micros as u128;
            (whole % 0x1_0000_0000_0000_0000) as u64
        },
        None => 0,
    }
}

/// A fresh group id: the clock in microseconds, which is unique enough for
/// something that only has to tell one run apart from another within one day
/// file.
pub fn new_group_id() -> (r: u64)
    ensures
        exists|reading: Option<(u64, u32)>| r == #[trigger] reading_micros(reading),
{
    let reading: Option<(u64, u32)> = local_time::unix_time();
    micros_of(reading)
}

// ---- laws -------------------------------------------------------------------------------------

/// Whether a year has a leap day.
pub open spec fn leap(year: int) -> bool {
    year % 4 == 0 && (year % 100 != 0 || year % 400 == 0)
}

/// How many days a month has.
pub open spec fn month_len(year: int, month: int) -> int {
    if month == 2 {
        if leap(year) {
            29
        } else {
            28
        }
    } else if month == 4 || month == 6 || month == 9 || month == 11 {
        30
    } else {
        31
    }
}

/// Whether a day is one of the calendar.
pub open spec fn on_the_calendar(day: Day) -> bool {
    1 <= day.month <= 12 && 1 <= day.day <= month_len(day.year as int, day.month as int)
}

/// The day after a day.
pub open spec fn next_day(day: Day) -> Day {
    if day.day < month_len(day.year as int, day.month as int) {
        Day { day: (day.day + 1) as u32, ..day }
    } else if day.month < 12 {
        Day { month: (day.month + 1) as u32, day: 1, ..day }
    } else {
        Day { year: (day.year + 1) as i32, month: 1, day: 1 }
    }
}

/// Day numbers follow the calendar: the next day has the next number.
pub proof fn law_days_are_counted_one_by_one(day: Day)
    requires
        on_the_calendar(day),
        day.year < i32::MAX || day.month < 12 || day.day < 31,
    ensures
        on_the_calendar(next_day(day)),
        ordinal(next_day(day)) == ordinal(day) + 1,
{
    let y = day.year as int;
    lemma_leap_steps(y);
    lemma_leap_steps(y - 1);
}

proof fn lemma_quotient_steps(year: int, by_years: int)
    requires
        by_years > 0,
    ensures
        year / by_years - (year - 1) / by_years == if year % by_years == 0 {
            1int
        } else {
            0int
        },
{
    let q = year / by_years;
    let r = year % by_years;
    vstd::arithmetic::div_mod::lemma_fundamental_div_mod(year, by_years);
    if r == 0 {
        assert(year - 1 == (q - 1) * by_years + (by_years - 1)) by (nonlinear_arith)
            requires
                year == by_years * q + r,
                r == 0,
        ;
        vstd::arithmetic::div_mod::lemma_fundamental_div_mod_converse(
            year - 1,
            by_years,
            q - 1,
            by_years - 1,
        );
    } else {
        assert(year - 1 == q * by_years + (r - 1)) by (nonlinear_arith)
            requires
                year == by_years * q + r,
        ;
        vstd::arithmetic::div_mod::lemma_fundamental_div_mod_converse(
            year - 1,
            by_years,
            q,
            r - 1,
        );
    }
}

/// What a number divides evenly, its own divisors divide too.
proof fn lemma_part_divides(year: int, whole: int, part: int, times: int)
    requires
        part > 0,
        times > 0,
        whole == part * times,
        year % whole == 0,
    ensures
        year % part == 0,
{
    let q = year / whole;
    assert(whole > 0) by (nonlinear_arith)
        requires
            part > 0,
            times > 0,
            whole == part * times,
    ;
    vstd::arithmetic::div_mod::lemma_fundamental_div_mod(year, whole);
    assert(year == (times * q) * part + 0) by (nonlinear_arith)
        requires
            year == whole * q + 0,
            whole == part * times,
    ;
    vstd::arithmetic::div_mod::lemma_fundamental_div_mod_converse(year, part, times * q, 0);
}

#[verifier::spinoff_prover]
proof fn lemma_leap_steps(year: int)
    ensures
        (year / 4 - year / 100 + year / 400) - ((year - 1) / 4 - (year - 1) / 100 + (year - 1)
            / 400) == if leap(year) {
            1int
        } else {
            0int
        },
{
    lemma_quotient_steps(year, 4);
    lemma_quotient_steps(year, 100);
    lemma_quotient_steps(year, 400);
    if year % 100 == 0 {
        lemma_part_divides(year, 100, 4, 25);
    }
    if year % 400 == 0 {
        lemma_part_divides(year, 400, 100, 4);
    }
}

/// The first day of 1970 has the number 0.
pub proof fn law_counting_starts_in_1970()
    ensures
        ordinal(Day { year: 1970, month: 1, day: 1 }) == 0,
{
}

/// Three texts without the separator, joined by it, split into the three.
proof fn lemma_three_parts(y: Seq<char>, m: Seq<char>, d: Seq<char>)
    requires
        !y.contains('-'),
        !m.contains('-'),
        !d.contains('-'),
    ensures
        text::split(y + seq!['-'] + m + seq!['-'] + d, '-') == seq![y, m, d],
{
    let tail = m + seq!['-'] + d;
    let whole = y + seq!['-'] + m + seq!['-'] + d;
    assert(whole =~= y + seq!['-'] + tail);
    assert forall|j: int| 0 <= j < y.len() implies whole[j] != '-' by {
        assert(y.contains(y[j]));
    }
    text::lemma_split_at(whole, '-', y.len() as int);
    assert(whole.take(y.len() as int) =~= y);
    assert(whole.skip(y.len() as int + 1) =~= tail);
    assert forall|j: int| 0 <= j < m.len() implies tail[j] != '-' by {
        assert(m.contains(m[j]));
    }
    text::lemma_split_at(tail, '-', m.len() as int);
    assert(tail.take(m.len() as int) =~= m);
    assert(tail.skip(m.len() as int + 1) =~= d);
    assert forall|j: int| 0 <= j < d.len() implies d[j] != '-' by {
        assert(d.contains(d[j]));
    }
    text::lemma_split_whole(d, '-');
    assert(seq![y] + (seq![m] + seq![d]) =~= seq![y, m, d]);
}

/// A number written with leading zeroes reads back, and has no separator in
/// it.
proof fn lemma_part_reads(n: nat, width: nat, most: nat)
    requires
        n <= most,
    ensures
        !text::padded(text::decimal(n), width, '0').contains('-'),
        text::parsed(text::padded(text::decimal(n), width, '0'), most) == Some(n),
{
    let s = text::padded(text::decimal(n), width, '0');
    text::lemma_padded_reads(n, width);
    assert('0' <= s[0] <= '9');
    assert(text::unsigned(s) == s);
    if s.contains('-') {
        let i = choose|i: int| 0 <= i < s.len() && s[i] == '-';
        assert('0' <= s[i] <= '9');
    }
}

/// The date stands between the prefix and the ending of a day file's name.
proof fn lemma_date_stands(stream: Stream, day: Day)
    ensures
        date_part(file_name(stream, day), stream) == Some(day_name(day)),
{
    reveal_strlit(".jsonl");
    let prefix = stream_prefix(stream) + "-"@;
    let date = day_name(day);
    let name = file_name(stream, day);
    assert(name =~= prefix + (date + ".jsonl"@));
    assert(name.take(prefix.len() as int) =~= prefix);
    let rest = name.skip(prefix.len() as int);
    assert(rest =~= date + ".jsonl"@);
    assert(rest.skip(rest.len() - 6) =~= ".jsonl"@);
    assert(name.subrange(prefix.len() as int, name.len() - 6) =~= date);
}

/// The name of a day file reads back as its day.
pub proof fn law_file_name_reads_back(stream: Stream, day: Day)
    requires
        day.year >= 0,
        1 <= day.month <= 12,
        1 <= day.day <= 31,
    ensures
        day_of_name(file_name(stream, day), stream) == Some(day),
{
    lemma_date_stands(stream, day);
    let y = text::padded(text::decimal(day.year as nat), 4, '0');
    let m = text::padded(text::decimal(day.month as nat), 2, '0');
    let d = text::padded(text::decimal(day.day as nat), 2, '0');
    lemma_part_reads(day.year as nat, 4, i32::MAX as nat);
    lemma_part_reads(day.month as nat, 2, u32::MAX as nat);
    lemma_part_reads(day.day as nat, 2, u32::MAX as nat);
    lemma_three_parts(y, m, d);
    assert(day_name(day) == y + seq!['-'] + m + seq!['-'] + d) by {
        reveal_strlit("-");
        assert("-"@ =~= seq!['-']);
    }
}

proof fn lemma_own_name(name: Seq<char>, stream: Stream)
    requires
        day_of_name(name, stream) is Some,
    ensures
        name == file_name(stream, day_of_name(name, stream)->0),
{
    reveal_strlit(".jsonl");
    let prefix = stream_prefix(stream) + "-"@;
    let rest = name.skip(prefix.len() as int);
    let date = name.subrange(prefix.len() as int, name.len() - 6);
    assert(name =~= name.take(prefix.len() as int) + rest);
    assert(rest =~= date + rest.skip(rest.len() - 6));
    assert(name =~= prefix + date + ".jsonl"@);
}

/// The journal's own files are those with a name that the journal writes: no
/// other file is ever cleared away.
pub proof fn law_own_files_have_the_names_of_days(name: Seq<char>)
    requires
        is_ours()(name),
    ensures
        exists|stream: Stream, day: Day| name == #[trigger] file_name(stream, day),
{
    if day_of_name(name, Stream::Files) is Some {
        lemma_own_name(name, Stream::Files);
    } else {
        lemma_own_name(name, Stream::Shell);
    }
}

/// A sweep touches the journal's own files and nothing else.
pub proof fn law_only_own_files_are_swept(keep: Keep, today: Day, name: Seq<char>)
    requires
        sweeps(keep, today)(name),
    ensures
        is_ours()(name),
{
}

/// The memory of a stream is what its files would say: a record added to the
/// newest day comes at the end of the account.
pub proof fn law_memory_follows_the_files(days: Seq<Seq<Record>>, record: Record)
    requires
        days.len() > 0,
    ensures
        oldest_first(days.update(0, days[0].push(record))) == oldest_first(days).push(record),
    decreases days.len(),
{
    let more = days.update(0, days[0].push(record));
    if days.len() == 1 {
        assert(more.drop_last() =~= Seq::empty());
        assert(days.drop_last() =~= Seq::empty());
        assert(more.last() + oldest_first(more.drop_last()) =~= days[0].push(record));
        assert(days.last() + oldest_first(days.drop_last()) =~= days[0]);
    } else {
        let front = days.drop_last();
        law_memory_follows_the_files(front, record);
        assert(more.drop_last() =~= front.update(0, front[0].push(record)));
        assert(more.last() == days.last());
        assert(oldest_first(more) =~= oldest_first(days).push(record));
    }
}

/// What is picked from a list of files is every one that is wanted and no
/// other, by its place.
pub proof fn law_every_wanted_file_is_picked(
    names: Seq<Seq<char>>,
    wanted: spec_fn(Seq<char>) -> bool,
    at: int,
)
    ensures
        picked(names, wanted).contains(at) <==> 0 <= at < names.len() && wanted(names[at]),
        picked(names, wanted).no_duplicates(),
        forall|k: int|
            0 <= k < picked(names, wanted).len() ==> 0 <= #[trigger] picked(names, wanted)[k]
                < names.len(),
    decreases names.len(),
{
    let out = picked(names, wanted);
    if names.len() > 0 {
        let before = names.drop_last();
        let front = picked(before, wanted);
        law_every_wanted_file_is_picked(before, wanted, at);
        if out.contains(at) {
            let k = choose|k: int| 0 <= k < out.len() && out[k] == at;
            if k < front.len() {
                assert(front[k] == at);
                assert(front.contains(at));
                assert(before[at] == names[at]);
            }
        }
        if 0 <= at < names.len() && wanted(names[at]) {
            if at < before.len() {
                assert(before[at] == names[at]);
                assert(front.contains(at));
                let k = choose|k: int| 0 <= k < front.len() && front[k] == at;
                assert(out[k] == at);
            } else {
                assert(out[out.len() - 1] == at);
            }
        }
    }
}

/// A sweep takes a file of the journal exactly where a limit is set and the
/// file's day is that many days ago or more.
pub proof fn law_a_sweep_takes_what_is_too_old(stream: Stream, day: Day, keep: Keep, today: Day)
    requires
        day.year >= 0,
        1 <= day.month <= 12,
        1 <= day.day <= 31,
    ensures
        sweeps(keep, today)(file_name(stream, day)) <==> keep.0 > 0 && ordinal(today) - ordinal(day)
            >= keep.0,
        is_ours()(file_name(stream, day)),
{
    law_file_name_reads_back(stream, day);
    if stream == Stream::Shell {
        let name = file_name(stream, day);
        if day_of_name(name, Stream::Files) is Some {
            lemma_own_name(name, Stream::Files);
            reveal_strlit("files");
            reveal_strlit("shell");
            let other = file_name(Stream::Files, day_of_name(name, Stream::Files)->0);
            assert(name[0] == 's');
            assert(other[0] == 'f');
        }
    }
}

/// An account is read with its oldest day first: the days of two lists, the
/// newer list first, come the other way round.
pub proof fn law_older_days_come_first(newer: Seq<Seq<Record>>, older: Seq<Seq<Record>>, day: Seq<Record>)
    ensures
        oldest_first(newer + older) == oldest_first(older) + oldest_first(newer),
        oldest_first(seq![day]) == day,
    decreases older.len(),
{
    let all = newer + older;
    if older.len() == 0 {
        assert(all =~= newer);
        assert(oldest_first(older) + oldest_first(newer) =~= oldest_first(newer));
    } else {
        assert(all.drop_last() =~= newer + older.drop_last());
        law_older_days_come_first(newer, older.drop_last(), day);
        assert(oldest_first(all) =~= oldest_first(older) + oldest_first(newer));
    }
    let one = seq![day];
    assert(one.drop_last() =~= Seq::<Seq<Record>>::empty());
    assert(oldest_first(one.drop_last()) =~= Seq::<Record>::empty());
    assert(oldest_first(one) =~= day);
}

/// Every line of a day's file that is not blank is a record, as it stands and
/// in its order, and nothing else is.
pub proof fn law_every_line_but_blank_ones_is_a_record(lines: Seq<Seq<char>>)
    ensures
        record_lines(lines) == lines.filter(|line: Seq<char>| text::trimmed(line).len() > 0),
    decreases lines.len(),
{
    reveal(Seq::filter);
    if lines.len() > 0 {
        law_every_line_but_blank_ones_is_a_record(lines.drop_last());
    }
}

proof fn lemma_days_named(names: Seq<Seq<char>>, stream: Stream)
    ensures
        forall|day: Day| #[trigger]
            days_named(names, stream).contains(day) <==> exists|i: int|
                0 <= i < names.len() && day_of_name(#[trigger] names[i], stream) == Some(day),
    decreases names.len(),
{
    let out = days_named(names, stream);
    if names.len() > 0 {
        let before = names.drop_last();
        let front = days_named(before, stream);
        lemma_days_named(before, stream);
        assert forall|day: Day| #[trigger] out.contains(day) <==> exists|i: int|
            0 <= i < names.len() && day_of_name(#[trigger] names[i], stream) == Some(day) by {
            if out.contains(day) {
                let k = choose|k: int| 0 <= k < out.len() && out[k] == day;
                if k < front.len() {
                    assert(front[k] == day);
                    assert(front.contains(day));
                    let i = choose|i: int|
                        0 <= i < before.len() && day_of_name(#[trigger] before[i], stream) == Some(
                            day,
                        );
                    assert(names[i] == before[i]);
                } else {
                    assert(day_of_name(names[names.len() - 1], stream) == Some(day));
                }
            }
            if exists|i: int|
                0 <= i < names.len() && day_of_name(#[trigger] names[i], stream) == Some(day) {
                let i = choose|i: int|
                    0 <= i < names.len() && day_of_name(#[trigger] names[i], stream) == Some(day);
                if i < before.len() {
                    assert(before[i] == names[i]);
                    assert(front.contains(day));
                    let k = choose|k: int| 0 <= k < front.len() && front[k] == day;
                    assert(out[k] == day);
                } else {
                    assert(out[out.len() - 1] == day);
                }
            }
        }
    }
}

proof fn lemma_each_day_once(list: Seq<Day>)
    ensures
        forall|day: Day| #[trigger] each_day_once(list).contains(day) <==> list.contains(day),
        list.len() > 0 ==> each_day_once(list).len() > 0 && each_day_once(list).last()
            == list.last(),
    decreases list.len(),
{
    let out = each_day_once(list);
    if list.len() > 0 {
        let before = list.drop_last();
        let front = each_day_once(before);
        lemma_each_day_once(before);
        assert forall|day: Day| #[trigger] out.contains(day) <==> list.contains(day) by {
            if out.contains(day) {
                let k = choose|k: int| 0 <= k < out.len() && out[k] == day;
                if k < front.len() {
                    assert(front[k] == day);
                    assert(front.contains(day));
                    let j = choose|j: int| 0 <= j < before.len() && before[j] == day;
                    assert(list[j] == day);
                } else {
                    assert(list[list.len() - 1] == day);
                }
            }
            if list.contains(day) {
                let j = choose|j: int| 0 <= j < list.len() && list[j] == day;
                if j < before.len() {
                    assert(before[j] == day);
                    assert(before.contains(day));
                    assert(front.contains(day));
                    let k = choose|k: int| 0 <= k < front.len() && front[k] == day;
                    assert(out[k] == day);
                } else {
                    assert(out[out.len() - 1] == day);
                }
            }
        }
    }
}

proof fn lemma_each_day_falls(list: Seq<Day>)
    requires
        forall|i: int, j: int|
            0 <= i < j < list.len() ==> !day_before(#[trigger] list[i], #[trigger] list[j]),
    ensures
        forall|i: int, j: int|
            0 <= i < j < each_day_once(list).len() ==> day_before(
                #[trigger] each_day_once(list)[j],
                #[trigger] each_day_once(list)[i],
            ),
    decreases list.len(),
{
    let out = each_day_once(list);
    if list.len() > 0 {
        let before = list.drop_last();
        let front = each_day_once(before);
        assert forall|i: int, j: int| 0 <= i < j < before.len() implies !day_before(
            #[trigger] before[i],
            #[trigger] before[j],
        ) by {
            assert(!day_before(list[i], list[j]));
        }
        lemma_each_day_falls(before);
        lemma_each_day_once(before);
        assert forall|i: int, j: int| 0 <= i < j < out.len() implies day_before(
            #[trigger] out[j],
            #[trigger] out[i],
        ) by {
            if j < front.len() {
                assert(day_before(front[j], front[i]));
            } else {
                assert(out[i] == front[i] && out[j] == list.last());
                assert(front.contains(front[i]));
                let m = choose|m: int| 0 <= m < before.len() && before[m] == front[i];
                assert(!day_before(list[m], list[list.len() - 1]));
                if front[i] == list.last() {
                    assert(front.last() != list.last());
                    assert(i < front.len() - 1);
                    assert(day_before(front[front.len() - 1], front[i]));
                    assert(before.last() == front.last());
                    assert(!day_before(list[before.len() - 1], list[list.len() - 1]));
                }
            }
        }
    }
}

/// The days that a view offers are those of its streams' files, each once and
/// the newest first.
pub proof fn law_days_are_offered_newest_first(names: Seq<Seq<char>>, shown: Shown)
    ensures
        ({
            let days = each_day_once(order::sorted(days_of_view(names, shown), newest_first()));
            &&& forall|day: Day| #[trigger]
                days.contains(day) <==> exists|i: int|
                    0 <= i < names.len() && ((shown != Shown::Commands && day_of_name(
                        #[trigger] names[i],
                        Stream::Files,
                    ) == Some(day)) || (shown != Shown::Files && day_of_name(
                        names[i],
                        Stream::Shell,
                    ) == Some(day)))
            &&& forall|i: int, j: int|
                0 <= i < j < days.len() ==> day_before(#[trigger] days[j], #[trigger] days[i])
        }),
{
    broadcast use vstd::seq_lib::group_to_multiset_ensures;

    let list = days_of_view(names, shown);
    let sorted = order::sorted(list, newest_first());
    assert(order::orders(newest_first()));
    order::law_sorting_keeps_everything(list, newest_first());
    order::law_sorting_puts_in_order(list, newest_first());
    lemma_days_named(names, Stream::Files);
    lemma_days_named(names, Stream::Shell);
    lemma_each_day_once(sorted);
    assert forall|i: int, j: int| 0 <= i < j < sorted.len() implies !day_before(
        #[trigger] sorted[i],
        #[trigger] sorted[j],
    ) by {
        let less = newest_first();
        assert(!less(sorted[j], sorted[i]));
    }
    lemma_each_day_falls(sorted);
    let days = each_day_once(sorted);
    let (files, shell) = (days_named(names, Stream::Files), days_named(names, Stream::Shell));
    assert forall|day: Day| #[trigger] days.contains(day) <==> exists|i: int|
        0 <= i < names.len() && ((shown != Shown::Commands && day_of_name(
            #[trigger] names[i],
            Stream::Files,
        ) == Some(day)) || (shown != Shown::Files && day_of_name(names[i], Stream::Shell) == Some(
            day,
        ))) by {
        assert(sorted.contains(day) <==> list.contains(day)) by {
            assert(sorted.contains(day) <==> sorted.to_multiset().count(day) > 0);
            assert(list.contains(day) <==> list.to_multiset().count(day) > 0);
        }
        assert(list.contains(day) <==> (shown != Shown::Commands && files.contains(day)) || (shown
            != Shown::Files && shell.contains(day))) by {
            if shown == Shown::All {
                if list.contains(day) {
                    let k = choose|k: int| 0 <= k < list.len() && list[k] == day;
                    if k < files.len() {
                        assert(files[k] == day);
                    } else {
                        assert(shell[k - files.len()] == day);
                    }
                }
                if files.contains(day) {
                    let k = choose|k: int| 0 <= k < files.len() && files[k] == day;
                    assert(list[k] == day);
                }
                if shell.contains(day) {
                    let k = choose|k: int| 0 <= k < shell.len() && shell[k] == day;
                    assert(list[files.len() + k] == day);
                }
            }
        }
        if exists|i: int|
            0 <= i < names.len() && ((shown != Shown::Commands && day_of_name(
                #[trigger] names[i],
                Stream::Files,
            ) == Some(day)) || (shown != Shown::Files && day_of_name(names[i], Stream::Shell)
                == Some(day))) {
            let i = choose|i: int|
                0 <= i < names.len() && ((shown != Shown::Commands && day_of_name(
                    #[trigger] names[i],
                    Stream::Files,
                ) == Some(day)) || (shown != Shown::Files && day_of_name(names[i], Stream::Shell)
                    == Some(day)));
            if shown != Shown::Commands && day_of_name(names[i], Stream::Files) == Some(day) {
                assert(files.contains(day));
            } else {
                assert(shell.contains(day));
            }
        }
    }
}

/// A time that something took reads as it was measured: in milliseconds below
/// a second, in seconds and tenths below ten, in seconds below a minute, and
/// then in minutes and seconds, or in hours and minutes.
pub proof fn law_what_it_took_reads_as_measured(hours: nat, minutes: nat, seconds: nat, ms: nat)
    requires
        minutes < 60,
        seconds < 60,
        ms < 1000,
    ensures
        ({
            let took = ((hours * 60 + minutes) * 60 + seconds) * 1000 + ms;
            let two = |n: nat| text::padded(text::decimal(n), 2, '0');
            &&& hours > 0 ==> took_text(took) == text::decimal(hours) + seq!['h', ' '] + two(
                minutes,
            ) + seq!['m']
            &&& hours == 0 && minutes > 0 ==> took_text(took) == text::decimal(minutes) + seq![
                'm',
                ' ',
            ] + two(seconds) + seq!['s']
            &&& hours == 0 && minutes == 0 && seconds >= 10 ==> took_text(took) == text::decimal(
                seconds,
            ) + seq!['s']
            &&& hours == 0 && minutes == 0 && 1 <= seconds < 10 ==> took_text(took)
                == text::decimal(seconds) + seq!['.'] + text::decimal(ms / 100) + seq!['s']
            &&& hours == 0 && minutes == 0 && seconds == 0 && ms > 0 ==> took_text(took)
                == text::decimal(ms) + seq!['m', 's']
        }),
{
    let took = ((hours * 60 + minutes) * 60 + seconds) * 1000 + ms;
    assert(took / 1000 == (hours * 60 + minutes) * 60 + seconds && took % 1000 == ms);
    let total = took / 1000;
    assert(total / 3600 == hours);
    assert(total / 60 == hours * 60 + minutes);
    assert(total / 60 % 60 == minutes);
    assert(total % 60 == seconds);
    reveal_strlit("h ");
    reveal_strlit("m");
    reveal_strlit("m ");
    reveal_strlit("s");
    reveal_strlit(".");
    reveal_strlit("ms");
    assert("h "@ =~= seq!['h', ' ']);
    assert("m"@ =~= seq!['m']);
    assert("m "@ =~= seq!['m', ' ']);
    assert("s"@ =~= seq!['s']);
    assert("."@ =~= seq!['.']);
    assert("ms"@ =~= seq!['m', 's']);
}

/// A clock reads as hour, minute and second, each with two digits at a place
/// of its own.
pub proof fn law_a_clock_reads_from_hour_to_second(t: LocalTime)
    requires
        local_time::well_formed(t),
    ensures
        ({
            let s = clock_of(t);
            &&& s.len() == 8
            &&& text::number(s.subrange(0, 2)) == t.hour
            &&& text::number(s.subrange(3, 5)) == t.minute
            &&& text::number(s.subrange(6, 8)) == t.second
        }),
{
    reveal_strlit(":");
    lemma_two_figures(t.hour as nat);
    lemma_two_figures(t.minute as nat);
    lemma_two_figures(t.second as nat);
    let s = clock_of(t);
    assert(s.subrange(0, 2) =~= text::padded(text::decimal(t.hour as nat), 2, '0'));
    assert(s.subrange(3, 5) =~= text::padded(text::decimal(t.minute as nat), 2, '0'));
    assert(s.subrange(6, 8) =~= text::padded(text::decimal(t.second as nat), 2, '0'));
}

proof fn lemma_two_figures(n: nat)
    requires
        n < 100,
    ensures
        text::padded(text::decimal(n), 2, '0').len() == 2,
        text::number(text::padded(text::decimal(n), 2, '0')) == n,
{
    text::lemma_padded_reads(n, 2);
    if n < 10 {
        assert(text::decimal(n).len() == 1);
    } else {
        assert(text::decimal(n / 10).len() == 1);
        assert(text::decimal(n).len() == 2);
    }
}

/// Days in their order are days by their numbers: a day is before another
/// exactly where its number is the lesser one.
pub proof fn law_later_days_have_greater_numbers(a: Day, b: Day)
    requires
        on_the_calendar(a),
        on_the_calendar(b),
    ensures
        day_before(a, b) <==> ordinal(a) < ordinal(b),
{
    lemma_days_in_order(a, b);
    lemma_days_in_order(b, a);
    if !day_before(a, b) && !day_before(b, a) {
        assert(a == b);
    }
}

proof fn lemma_days_in_order(a: Day, b: Day)
    requires
        on_the_calendar(a),
        on_the_calendar(b),
    ensures
        day_before(a, b) ==> ordinal(a) < ordinal(b),
{
    if a.year == b.year {
        lemma_one_year(a, b);
    } else if a.year < b.year {
        let last = Day { year: a.year, month: 12, day: 31 };
        let first = Day { year: b.year, month: 1, day: 1 };
        lemma_one_year(a, last);
        lemma_one_year(first, b);
        lemma_years(a.year as int, b.year as int);
    }
}

proof fn lemma_one_year(a: Day, b: Day)
    requires
        on_the_calendar(a),
        on_the_calendar(b),
        a.year == b.year,
    ensures
        day_before(a, b) ==> ordinal(a) < ordinal(b),
{
    lemma_leap_steps(a.year as int);
}

proof fn lemma_years(from: int, to: int)
    requires
        from < to,
    ensures
        local_time::day_number(from, 12, 31) < local_time::day_number(to, 1, 1),
    decreases to - from,
{
    lemma_leap_steps(to - 1);
    if from + 1 < to {
        lemma_years(from, to - 1);
    }
}

/// What is about shells is kept apart from what is about files, and a view
/// reads the streams it is for.
pub proof fn law_commands_are_kept_apart(kind: Kind, shown: Shown)
    ensures
        stream_of(kind) == Stream::Shell <==> kind == Kind::Command || kind == Kind::Session,
        streams_of(shown).contains(Stream::Files) <==> shown != Shown::Commands,
        streams_of(shown).contains(Stream::Shell) <==> shown != Shown::Files,
{
    let all = streams_of(shown);
    assert(all.contains(all[0]));
    if shown == Shown::All {
        assert(all.contains(all[1]));
    }
}

} // verus!
