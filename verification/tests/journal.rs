use lost_commander::journal::{
    arrange, clock, clock_text, commands_before, event_at, happened_in, lines, micros_of,
    new_group_id, now, scene_of, seconds_of, since, since_day, start_of_last, tally, took, Day, Event,
    Filter, Group, Journal, Keep, Kind, Line, Record, Row, Shown, Stream, KINDS,
    MAX_EVENTS_PER_GROUP, SHOWN,
};
use lost_commander::local_time::LocalTime;
use lost_commander::pathname::Style;
use std::collections::BTreeMap;

/// A journal with its day files kept in memory.
struct Account {
    journal: Journal,
    files: BTreeMap<String, Vec<Record>>,
}

fn account() -> Account {
    account_in(Keep::default())
}

fn account_in(keep: Keep) -> Account {
    Account {
        journal: Journal::at("/journal", keep),
        files: BTreeMap::new(),
    }
}

impl Account {
    fn write(&mut self, stream: Stream, record: Record) {
        let path = self.journal.file(Style::Unix, stream, Day::of_time(record.at()));
        let name = path.rsplit('/').next().unwrap().to_string();
        self.files.entry(name).or_default().push(record.clone());
        self.journal.write(stream, record);
    }

    fn record(&mut self, event: Event) {
        self.write(event.kind.stream(), Record::Event(event));
    }

    fn open_group(&mut self, group: Group) {
        self.write(Stream::Files, Record::Group(group));
    }

    fn names(&self) -> Vec<String> {
        self.files.keys().cloned().collect()
    }

    /// How many records of a stream are known, reading them the first time.
    fn known(&mut self, stream: Stream) -> usize {
        if self.journal.wants_reading(stream) {
            let days = self
                .days(stream)
                .iter()
                .map(|day| self.read(stream, *day))
                .collect();
            let all = self.journal.read_everything(days);
            self.journal.fill(stream, all);
        }
        self.journal.with_records(stream).unwrap().len()
    }

    fn days(&self, stream: Stream) -> Vec<Day> {
        self.journal.days(&self.names(), stream)
    }

    fn days_shown(&self, shown: Shown) -> Vec<Day> {
        self.journal.days_shown(&self.names(), shown)
    }

    fn read(&self, stream: Stream, day: Day) -> Vec<Record> {
        let path = self.journal.file(Style::Unix, stream, day);
        let name = path.rsplit('/').next().unwrap();
        self.files.get(name).cloned().unwrap_or_default()
    }

    fn read_shown(&self, shown: Shown, day: Day) -> Vec<Record> {
        self.journal.read_shown(
            shown,
            self.read(Stream::Files, day),
            self.read(Stream::Shell, day),
        )
    }

    fn drop_files(&mut self, which: Vec<usize>) -> usize {
        let names = self.names();
        for at in &which {
            self.files.remove(&names[*at]);
        }
        which.len()
    }

    fn sweep(&mut self, today: Day) -> usize {
        let which = self.journal.sweep(&self.names(), today);
        self.drop_files(which)
    }

    fn clear(&mut self) -> usize {
        let which = self.journal.clear(&self.names());
        self.drop_files(which)
    }

    fn generation(&self) -> u64 {
        self.journal.generation()
    }
}

#[test]
fn the_account_answers_from_memory_once_read() {
    let mut journal = account();
    journal.record(Event::new(Kind::Copy, "/a"));
    assert_eq!(journal.known(Stream::Files), 1);

    // Take the files away behind its back: memory is what answers now,
    // and a write keeps feeding it.
    journal.files.clear();
    journal.record(Event::new(Kind::Copy, "/b"));
    assert_eq!(
        journal.known(Stream::Files),
        2,
        "one read at the start, appends from then on - never a re-read per query"
    );
}

#[test]
fn the_generation_moves_when_the_account_does_and_only_then() {
    let mut journal = account();
    let before = journal.generation();

    journal.known(Stream::Files);
    journal.days(Stream::Files);
    assert_eq!(journal.generation(), before, "reading is not a change");

    journal.record(Event::new(Kind::Copy, "/a"));
    let after_write = journal.generation();
    assert!(after_write > before);

    journal.clear();
    assert!(
        journal.generation() > after_write,
        "clearing is a change too"
    );
}

#[test]
fn sweeping_drops_the_memory_along_with_the_files() {
    let mut journal = account_in(Keep(7));
    let mut old = Event::new(Kind::Copy, "/old");
    old.at = now() - 30 * 86_400;
    journal.write(Stream::Files, Record::Event(old));
    journal.record(Event::new(Kind::Copy, "/new"));
    assert_eq!(journal.known(Stream::Files), 2);

    journal.sweep(Day::today());
    assert_eq!(
        journal.known(Stream::Files),
        1,
        "the memory re-read what the sweep left"
    );
}

#[test]
fn since_cuts_by_age_through_one_binary_search() {
    let mut records = Vec::new();
    for days_ago in [30, 8, 6, 0] {
        let mut event = Event::new(Kind::Command, "/somewhere");
        event.at = now() - days_ago * 86_400;
        records.push(Record::Event(event));
    }

    let week = since(&records, 7);
    assert_eq!(week.len(), 2, "six days ago and today");
    assert_eq!(since(&records, 365).len(), 4);
    assert!(since(&records, 0).is_empty());
}

fn day(year: i32, month: u32, day: u32) -> Day {
    Day { year, month, day }
}

#[test]
fn commands_go_to_their_own_stream() {
    // Mixed together, a build's twenty commands a minute would bury the
    // file operations they were meant to sit beside.
    let mut journal = account();
    let command = Event::new(Kind::Command, "/work")
        .note("cargo build")
        .note("exit 0");
    let copy = Event::new(Kind::Copy, "/a").to("/b");
    journal.record(command);
    journal.record(copy.clone());

    let today = Day::today();
    assert_eq!(
        journal.read(Stream::Files, today),
        vec![Record::Event(copy)]
    );
    assert_eq!(journal.read(Stream::Shell, today).len(), 1);
    assert_eq!(journal.days(Stream::Files), vec![today]);
    assert_eq!(journal.days(Stream::Shell), vec![today]);
}

#[test]
fn the_two_streams_can_be_read_back_as_one_story() {
    // Kept apart on disk so a build does not bury the file work; put back
    // together for reading, because "what was I doing at four o'clock"
    // needs both, and a copy followed by the make that consumed it is one
    // story told in two files.
    let mut journal = account();
    journal.record(Event {
        at: 100,
        ..Event::new(Kind::Copy, "/src/a.c").to("/build/a.c")
    });
    journal.record(Event {
        at: 200,
        ..Event::new(Kind::Command, "/build").note("make")
    });
    journal.record(Event {
        at: 300,
        ..Event::new(Kind::Delete, "/build/a.o")
    });

    let day = Day::of_time(100);
    let rows = arrange(journal.read_shown(Shown::All, day));
    let kinds: Vec<Kind> = rows
        .iter()
        .map(|row| match row {
            Row::One(event) => event.kind,
            Row::Run { group, .. } => group.kind,
        })
        .collect();
    assert_eq!(
        kinds,
        vec![Kind::Delete, Kind::Command, Kind::Copy],
        "newest first, and interleaved by when they happened"
    );

    // The narrower views still show only their own.
    assert_eq!(arrange(journal.read_shown(Shown::Files, day)).len(), 2);
    assert_eq!(arrange(journal.read_shown(Shown::Commands, day)).len(), 1);
}

#[test]
fn a_view_offers_the_kinds_it_can_actually_hold() {
    // Offering a filter that can only ever match nothing is offering a
    // way to see nothing.
    assert!(Shown::Files.holds(Kind::Copy));
    assert!(!Shown::Files.holds(Kind::Command));
    assert!(Shown::Commands.holds(Kind::Command));
    assert!(Shown::Commands.holds(Kind::Session));
    assert!(!Shown::Commands.holds(Kind::Copy));
    assert!(KINDS.into_iter().all(|kind| Shown::All.holds(kind)));
}

#[test]
fn the_days_of_a_mixed_view_are_the_days_of_either() {
    let mut journal = account();
    // Two different days, one in each stream.
    journal.record(Event {
        at: 1_700_000_000,
        ..Event::new(Kind::Copy, "/a")
    });
    journal.record(Event {
        at: 1_700_500_000,
        ..Event::new(Kind::Command, "/w").note("ls")
    });

    let files = Day::of_time(1_700_000_000);
    let commands = Day::of_time(1_700_500_000);
    assert_eq!(journal.days_shown(Shown::Files), vec![files]);
    assert_eq!(journal.days_shown(Shown::Commands), vec![commands]);

    let both = journal.days_shown(Shown::All);
    assert_eq!(both.len(), 2, "got {both:?}");
    assert!(both[0] > both[1], "newest first");
}

#[test]
fn a_day_in_both_streams_is_offered_once() {
    let mut journal = account();
    journal.record(Event::new(Kind::Copy, "/a"));
    journal.record(Event::new(Kind::Command, "/w").note("ls"));
    assert_eq!(journal.days_shown(Shown::All), vec![Day::today()]);
}

#[test]
fn a_command_is_labelled_with_the_shell_that_ran_it() {
    // "Command" on every line of a list of commands says nothing. Which
    // shell ran it is the thing that cannot be worked out afterwards -
    // and "why did that behave oddly" is often "that was the other one".
    let event = Event::new(Kind::Command, "/work").note("ls").by_shell("zsh");
    assert_eq!(event.label(), "zsh");
    assert_eq!(event.shell.as_deref(), Some("zsh"));

    // A file operation has no shell, and says what it did instead.
    let copy = Event::new(Kind::Copy, "/a").to("/b");
    assert_eq!(copy.label(), "Copied");
    assert_eq!(copy.shell, None);

    // An empty name is no name, not a blank column.
    assert_eq!(Event::new(Kind::Command, "/w").by_shell("").label(), "Command");
}

#[test]
fn a_run_carries_a_total_and_a_single_file_does_not() {
    // Per-file durations would be sixteen bytes copied in under a
    // millisecond, four hundred times over. The total for the run is the
    // number anybody actually wants.
    let mut journal = Journal::at("/journal", Keep::default());
    journal.fill(Stream::Files, Vec::new());
    let id = new_group_id();
    journal.open_group(Group {
        id,
        at: now(),
        kind: Kind::Copy,
        summary: "Copy 2 item(s) to /to".to_string(),
    });
    journal.record(Event::new(Kind::Copy, "/a").in_group(id));
    journal.record(Event::new(Kind::Copy, "/b").in_group(id));
    journal.close_group(id, 2_500);

    let rows = arrange(journal.with_records(Stream::Files).unwrap().clone());
    assert_eq!(rows.len(), 1);
    assert_eq!(rows[0].took(), Some(2_500));
    let Row::Run { events, .. } = &rows[0] else {
        panic!("not a run")
    };
    assert!(events.iter().all(|event| event.ms.is_none()));
}

#[test]
fn a_run_that_never_finished_has_no_total() {
    // Killed halfway, or the program closed under it. The heading is
    // written before the work starts precisely so that this case still
    // has one, and the missing total is how it shows.
    let mut journal = account();
    let id = new_group_id();
    journal.open_group(Group {
        id,
        at: now(),
        kind: Kind::Copy,
        summary: "Copy 400 item(s) to /to".to_string(),
    });
    journal.record(Event::new(Kind::Copy, "/a").in_group(id));

    let rows = arrange(journal.read(Stream::Files, Day::today()));
    assert_eq!(rows[0].took(), None);
}

#[test]
fn a_duration_is_said_the_way_it_is_read() {
    // Precision falls away as the number grows: milliseconds matter for
    // something that felt instant, and nobody wants three decimal places
    // on a twenty-minute build.
    assert_eq!(took(0), "<1ms", "under the resolution, not zero");
    assert_eq!(took(999), "999ms");
    assert_eq!(took(1_000), "1.0s");
    assert_eq!(took(2_460), "2.4s");
    assert_eq!(took(9_999), "9.9s");
    assert_eq!(took(10_000), "10s");
    assert_eq!(took(59_999), "59s");
    assert_eq!(took(60_000), "1m 00s");
    assert_eq!(took(3_599_000), "59m 59s");
    assert_eq!(took(3_600_000), "1h 00m");
    assert_eq!(took(7_830_000), "2h 10m");
}

#[test]
fn the_views_come_round_in_order() {
    assert_eq!(Shown::All.next(), Shown::Files);
    assert_eq!(Shown::Files.next(), Shown::Commands);
    assert_eq!(Shown::Commands.next(), Shown::All);
}

#[test]
fn nothing_recorded_is_not_an_error() {
    let mut journal = account();
    assert!(journal.read(Stream::Files, Day::today()).is_empty());
    assert!(journal.days(Stream::Files).is_empty());
    assert_eq!(journal.clear(), 0);
    assert_eq!(journal.sweep(Day::today()), 0);
}

#[test]
fn the_days_with_records_are_listed_newest_first() {
    let mut journal = account();
    for name in [
        "files-2026-07-26.jsonl",
        "files-2026-07-28.jsonl",
        "files-2026-07-27.jsonl",
        "shell-2026-07-28.jsonl",
        "notes.txt",
        "files-nonsense.jsonl",
    ] {
        journal.files.insert(name.to_string(), Vec::new());
    }
    assert_eq!(
        journal.days(Stream::Files),
        vec![day(2026, 7, 28), day(2026, 7, 27), day(2026, 7, 26)]
    );
    assert_eq!(journal.days(Stream::Shell), vec![day(2026, 7, 28)]);
}

#[test]
fn a_file_name_gives_up_its_date_or_is_not_ours() {
    assert_eq!(
        Day::from_file_name("files-2026-07-28.jsonl", Stream::Files),
        Some(day(2026, 7, 28))
    );
    assert_eq!(
        Day::from_file_name("shell-1999-12-31.jsonl", Stream::Shell),
        Some(day(1999, 12, 31))
    );
    // The other stream's file is not this stream's day.
    assert_eq!(
        Day::from_file_name("shell-2026-07-28.jsonl", Stream::Files),
        None
    );
    for wrong in [
        "files-2026-07.jsonl",
        "files-2026-13-01.jsonl",
        "files-2026-07-32.jsonl",
        "files-2026-07-28.txt",
        "settings.toml",
        "",
    ] {
        assert_eq!(Day::from_file_name(wrong, Stream::Files), None, "{wrong}");
    }
}

#[test]
fn a_date_the_journal_would_not_write_is_not_its_own() {
    for other in [
        "files-2026-7-28.jsonl",
        "files-2026-07-8.jsonl",
        "files-+2026-07-28.jsonl",
        "files-02026-07-28.jsonl",
        "files-26-07-28.jsonl",
        "files-1-1-1.jsonl",
    ] {
        assert_eq!(Day::from_file_name(other, Stream::Files), None, "{other}");
    }
    assert_eq!(
        Day::from_file_name("files-0026-07-28.jsonl", Stream::Files),
        Some(day(26, 7, 28))
    );
    assert_eq!(
        Day::from_file_name("files-12026-07-28.jsonl", Stream::Files),
        Some(day(12026, 7, 28))
    );
}

#[test]
fn one_date_subtracted_from_another_counts_days() {
    assert_eq!(day(2026, 7, 28).days_before(day(2026, 7, 28)), 0);
    assert_eq!(day(2026, 7, 27).days_before(day(2026, 7, 28)), 1);
    assert_eq!(day(2026, 6, 28).days_before(day(2026, 7, 28)), 30);
    // Across a year, and across a leap day.
    assert_eq!(day(2025, 7, 28).days_before(day(2026, 7, 28)), 365);
    assert_eq!(day(2024, 2, 28).days_before(day(2024, 3, 1)), 2);
    assert_eq!(day(2023, 2, 28).days_before(day(2023, 3, 1)), 1);
    // And backwards.
    assert_eq!(day(2026, 7, 29).days_before(day(2026, 7, 28)), -1);
}

#[test]
fn sweeping_takes_the_old_days_and_leaves_the_rest() {
    let mut journal = account_in(Keep(7));
    for name in [
        "files-2026-07-28.jsonl", // today
        "files-2026-07-22.jsonl", // six days ago
        "files-2026-07-21.jsonl", // seven - out
        "shell-2026-07-01.jsonl", // long gone
        "keep-me.txt",            // not ours
    ] {
        journal.files.insert(name.to_string(), Vec::new());
    }

    assert_eq!(journal.sweep(day(2026, 7, 28)), 2);
    assert_eq!(
        journal.names(),
        vec![
            "files-2026-07-22.jsonl",
            "files-2026-07-28.jsonl",
            "keep-me.txt"
        ]
    );
}

#[test]
fn keeping_for_ever_sweeps_nothing() {
    // A retention setting whose lowest value silently deleted everything
    // would be a trap. Zero means for ever.
    let mut journal = account_in(Keep(0));
    journal.files.insert("files-2001-01-01.jsonl".to_string(), Vec::new());
    assert!(journal.journal.keep.forever());
    assert_eq!(journal.sweep(day(2026, 7, 28)), 0);
    assert_eq!(journal.names(), vec!["files-2001-01-01.jsonl"]);
    assert_eq!(Keep(0).describe(), "for ever");
    assert_eq!(Keep(1).describe(), "for a day");
    assert_eq!(Keep(30).describe(), "for 30 days");
}

#[test]
fn clearing_takes_the_journals_own_files_and_nothing_else() {
    let mut journal = account();
    for name in ["files-2026-07-28.jsonl", "shell-2026-07-28.jsonl", "important.txt"] {
        journal.files.insert(name.to_string(), Vec::new());
    }

    assert_eq!(journal.clear(), 2);
    assert_eq!(journal.names(), vec!["important.txt"]);
}

#[test]
fn a_run_gathers_its_files_under_one_heading() {
    let group = Group {
        id: 7,
        at: 1000,
        kind: Kind::Copy,
        summary: "Copy 2 items to /backup".to_string(),
    };
    let records = vec![
        Record::Group(group.clone()),
        Record::Event(Event::new(Kind::Copy, "/a").in_group(7)),
        Record::Event(Event::new(Kind::Copy, "/b").in_group(7)),
        Record::Event(Event::new(Kind::Rename, "/loose")),
    ];

    let rows = arrange(records);
    assert_eq!(rows.len(), 2, "one run and one loose event");
    let run = rows
        .iter()
        .find(|row| matches!(row, Row::Run { .. }))
        .expect("a run");
    assert_eq!(run.items(), 2);
    assert_eq!(run.kind(), Kind::Copy);
    let Row::Run { group: heading, .. } = run else {
        panic!("not a run")
    };
    assert_eq!(heading.summary, "Copy 2 items to /backup");
}

#[test]
fn an_event_whose_heading_is_missing_is_still_shown() {
    // The heading fell on the other side of midnight, or the run was
    // killed before it was written. A record that exists must not vanish
    // because its heading did.
    let rows = arrange(vec![Record::Event(
        Event::new(Kind::Copy, "/orphan").in_group(99),
    )]);
    assert_eq!(rows.len(), 1);
    assert!(matches!(rows[0], Row::One(_)));
}

#[test]
fn rows_come_back_newest_first() {
    let mut older = Event::new(Kind::Copy, "/old");
    older.at = 100;
    let mut newer = Event::new(Kind::Copy, "/new");
    newer.at = 200;
    let rows = arrange(vec![Record::Event(older), Record::Event(newer)]);
    assert_eq!(rows[0].at(), 200);
    assert_eq!(rows[1].at(), 100);
}

#[test]
fn the_filter_narrows_by_kind_by_failure_and_by_name() {
    let group = Group {
        id: 1,
        at: 500,
        kind: Kind::Copy,
        summary: "Copy 3 items".to_string(),
    };
    let rows = arrange(vec![
        Record::Group(group),
        Record::Event(Event::new(Kind::Copy, "/photos/beach.jpg").in_group(1)),
        Record::Event(Event::new(Kind::Copy, "/photos/hill.jpg").in_group(1)),
        Record::Event(
            Event::new(Kind::Copy, "/photos/broken.jpg")
                .in_group(1)
                .failed("no room"),
        ),
        Record::Event(Event::new(Kind::Delete, "/notes.txt")),
    ]);

    let open = Filter::default();
    assert!(open.is_open());
    assert_eq!(tally(&open.apply(rows.clone())).items, 4);

    let mut by_kind = Filter::default();
    by_kind.toggle(Kind::Delete);
    assert!(by_kind.has(Kind::Delete));
    let only_deletes = by_kind.apply(rows.clone());
    assert_eq!(only_deletes.len(), 1);
    assert_eq!(only_deletes[0].kind(), Kind::Delete);

    // Failures only trims a run to the file that failed rather than
    // dropping the run - the run is where you look for it.
    let failures = Filter {
        failures_only: true,
        ..Default::default()
    };
    let kept = failures.apply(rows.clone());
    assert_eq!(kept.len(), 1);
    assert_eq!(kept[0].items(), 1);
    assert_eq!(kept[0].failures(), 1);

    // And by name, which is how "where did that file go" is answered.
    let named = Filter {
        text: "BEACH".to_string(),
        ..Default::default()
    };
    let found = named.apply(rows);
    assert_eq!(found.len(), 1);
    let Row::Run { events, .. } = &found[0] else {
        panic!("not a run")
    };
    assert_eq!(events.len(), 1);
    assert_eq!(events[0].path, "/photos/beach.jpg");
}

#[test]
fn the_search_box_looks_at_everything_the_line_shows() {
    // A path is the least interesting thing on most of these lines. The
    // rule is that what is on screen is what can be found - which is also
    // the only rule that answers the questions worth asking.
    let rows = arrange(vec![
        Record::Event(
            Event::new(Kind::Command, "/work")
                .note("cargo build --release")
                .by_shell("zsh")
                .lasting(9_000),
        ),
        Record::Event(
            Event::new(Kind::Command, "/work")
                .note("rm -rf target")
                .by_shell("bash")
                .failed("exit 1"),
        ),
        Record::Event(Event::new(Kind::Open, "/photos/holiday.raw").note("GIMP (gimp)")),
        Record::Event(Event::new(Kind::Edit, "/notes.txt").note("UTF-8 -> Windows-1251")),
    ]);

    let found = |needle: &str| {
        Filter {
            text: needle.to_string(),
            ..Default::default()
        }
        .apply(rows.clone())
    };

    // By what was run, which is a note and not a path.
    assert_eq!(found("--release").len(), 1);
    // By which shell ran it.
    assert_eq!(found("zsh").len(), 1);
    // By how it failed.
    assert_eq!(found("exit 1").len(), 1);
    // By what a file was opened with - the question that makes recording
    // an open worth doing at all.
    assert_eq!(found("gimp").len(), 1, "case does not matter");
    // By what an edit did.
    assert_eq!(found("windows-1251").len(), 1);
    // By the kind as the column writes it.
    assert_eq!(found("opened").len(), 1);
    // And still by path.
    assert_eq!(found("/photos").len(), 1);
    // Something on no line finds nothing.
    assert!(found("nowhere").is_empty());
}

#[test]
fn a_run_found_by_its_heading_keeps_all_of_its_files() {
    // Searching for "backup" and finding "Copy 42 items to /backup"
    // should show the forty-two, not hide them because their own paths
    // say nothing about a backup.
    let rows = arrange(vec![
        Record::Group(Group {
            id: 1,
            at: 500,
            kind: Kind::Copy,
            summary: "Copy 3 item(s) to /backup".to_string(),
        }),
        Record::Event(Event::new(Kind::Copy, "/photos/a.jpg").in_group(1)),
        Record::Event(Event::new(Kind::Copy, "/photos/b.jpg").in_group(1)),
        Record::Event(Event::new(Kind::Copy, "/photos/c.jpg").in_group(1)),
    ]);

    let found = Filter {
        text: "backup".to_string(),
        ..Default::default()
    }
    .apply(rows.clone());
    assert_eq!(found.len(), 1);
    assert_eq!(found[0].items(), 3, "the whole run, not an empty heading");

    // A search that matches one file still narrows to that file.
    let narrowed = Filter {
        text: "b.jpg".to_string(),
        ..Default::default()
    }
    .apply(rows);
    assert_eq!(narrowed[0].items(), 1);
}

#[test]
fn an_open_records_what_it_was_handed_to() {
    // Not a change - this program cannot see what another one does to a
    // file - but the most it can honestly say about one made outside it.
    let event = Event::new(Kind::Open, "/photos/holiday.raw").note("GIMP (gimp)");
    assert_eq!(event.kind.stream(), Stream::Files);
    assert_eq!(event.label(), "Opened");
    assert_eq!(event.kind.short(), "open");
    assert!(!event.kind.is_destructive());
}

#[test]
fn a_run_that_recorded_nothing_still_shows_under_an_open_filter() {
    // Killed before it wrote a single file. The heading is the record
    // that it happened at all.
    let rows = arrange(vec![Record::Group(Group {
        id: 1,
        at: 10,
        kind: Kind::Copy,
        summary: "Copy 900 items".to_string(),
    })]);
    assert_eq!(rows.len(), 1);
    assert_eq!(Filter::default().apply(rows.clone()).len(), 1);

    let narrowed = Filter {
        text: "anything".to_string(),
        ..Default::default()
    };
    assert!(narrowed.apply(rows).is_empty());
}

#[test]
fn what_is_on_the_list_is_counted() {
    let rows = arrange(vec![
        Record::Event(Event::new(Kind::Copy, "/a")),
        Record::Event(Event::new(Kind::Copy, "/b").failed("gone")),
    ]);
    let counted = tally(&rows);
    assert_eq!(counted.rows, 2);
    assert_eq!(counted.items, 2);
    assert_eq!(counted.failures, 1);
}

#[test]
fn a_run_becomes_a_heading_and_a_line_for_each_file() {
    let rows = arrange(vec![
        Record::Group(Group {
            id: 1,
            at: 500,
            kind: Kind::Copy,
            summary: "Copy 2 items".to_string(),
        }),
        Record::Event(Event::new(Kind::Copy, "/a").in_group(1)),
        Record::Event(Event::new(Kind::Copy, "/b").in_group(1)),
    ]);
    let drawn = lines(&rows);
    assert_eq!(drawn.len(), 3, "a heading and its two files");
    assert!(drawn[0].is_heading());
    assert!(!drawn[1].is_heading());

    // A heading is about a run, not about a file.
    assert!(event_at(&rows, &drawn[0]).is_none());
    assert_eq!(event_at(&rows, &drawn[1]).unwrap().path, "/a");
    assert_eq!(event_at(&rows, &drawn[2]).unwrap().path, "/b");

    // And one that stood alone is one line.
    let alone = arrange(vec![Record::Event(Event::new(Kind::Rename, "/c"))]);
    let drawn = lines(&alone);
    assert_eq!(drawn.len(), 1);
    assert!(!drawn[0].is_heading());
    assert_eq!(event_at(&alone, &drawn[0]).unwrap().path, "/c");
}

#[test]
fn a_day_says_itself_in_words() {
    assert_eq!(day(2026, 7, 28).describe(), "28 July 2026");
    assert_eq!(day(2026, 7, 28).name(), "2026-07-28");
    assert_eq!(day(2026, 12, 1).name(), "2026-12-01");
}

#[test]
fn group_ids_differ_between_runs() {
    let first = new_group_id();
    let start = std::time::Instant::now();
    while start.elapsed() < std::time::Duration::from_millis(2) {}
    assert_ne!(first, new_group_id());
}

#[test]
fn a_copy_puts_both_ends_on_screen() {
    // The question anybody asks after a copy is what both ends look like
    // now, and that is two directories rather than one.
    let event = Event::new(Kind::Copy, "/src/notes/a.txt").to("/backup/2026/a.txt");
    let scene = scene_of(Style::Unix, &event).expect("a scene");
    assert_eq!(scene.left, "/src/notes".to_string());
    assert_eq!(scene.right, Some("/backup/2026".to_string()));
}

#[test]
fn a_copy_inside_one_directory_is_one_place() {
    // Sending both panels to the same directory says nothing twice.
    let event = Event::new(Kind::Copy, "/src/a.txt").to("/src/a.copy.txt");
    let scene = scene_of(Style::Unix, &event).expect("a scene");
    assert_eq!(scene.left, "/src".to_string());
    assert_eq!(scene.right, None);
}

#[test]
fn a_command_ran_in_a_directory_rather_than_on_a_file() {
    // Its path is already where to stand; taking a parent would send the
    // panel one level above where the command ran.
    let event = Event::new(Kind::Command, "/work/project").note("cargo test");
    let scene = scene_of(Style::Unix, &event).expect("a scene");
    assert_eq!(scene.left, "/work/project".to_string());
    assert_eq!(scene.right, None);
}

#[test]
fn a_deleted_file_still_says_where_it_was() {
    // The file has gone; the directory it was in is exactly what somebody
    // wants to look at afterwards.
    let event = Event::new(Kind::Delete, "/src/old/gone.txt");
    assert_eq!(
        scene_of(Style::Unix, &event).expect("a scene").left,
        "/src/old".to_string()
    );
}

#[test]
fn a_record_with_no_path_has_nowhere_to_send_anybody() {
    let event = Event::new(Kind::Command, "");
    assert!(scene_of(Style::Unix, &event).is_none());
}

#[test]
fn what_was_run_here_is_offered_first() {
    // The point of recording where a command ran: `cargo test` here and
    // `cargo test` somewhere else are the same words about different
    // work, and the one you want is nearly always the one from where you
    // are standing.
    let records = vec![
        Record::Event(Event::new(Kind::Command, "/elsewhere").note("make")),
        Record::Event(Event::new(Kind::Command, "/work").note("cargo build")),
        Record::Event(Event::new(Kind::Command, "/work").note("cargo test")),
    ];
    let past = commands_before(Style::Unix, &records, "/work");
    let lines: Vec<&str> = past.iter().map(|p| p.line.as_str()).collect();
    assert_eq!(lines, vec!["cargo test", "cargo build", "make"]);
}

#[test]
fn the_same_command_is_offered_once() {
    // A history that offers the same line four times makes you press the
    // key four times to get past it.
    let records = vec![
        Record::Event(Event::new(Kind::Command, "/work").note("ls")),
        Record::Event(Event::new(Kind::Command, "/work").note("ls")),
        Record::Event(Event::new(Kind::Command, "/work").note("ls")),
    ];
    assert_eq!(commands_before(Style::Unix, &records, "/work").len(), 1);
}

#[test]
fn only_commands_and_only_ones_with_a_line() {
    let records = vec![
        Record::Event(Event::new(Kind::Copy, "/a").to("/b")),
        Record::Event(Event::new(Kind::Command, "/work")),
    ];
    assert!(commands_before(Style::Unix, &records, "/work").is_empty());
}

#[test]
fn what_happened_here_is_newest_first_and_names_the_file() {
    let records = vec![
        Record::Event(Event::new(Kind::MakeDir, "/work/build")),
        Record::Event(Event::new(Kind::Delete, "/work/old.txt")),
    ];
    let here = happened_in(Style::Unix, &records, "/work");
    let names: Vec<&str> = here.iter().map(|h| h.name.as_str()).collect();
    assert_eq!(names, vec!["old.txt", "build"]);
    // A made directory belongs to the folder it appeared in, not to
    // itself - that listing is where somebody would have seen it happen.
    assert_eq!(here[1].kind, Kind::MakeDir);
}

#[test]
fn both_ends_of_a_copy_are_part_of_a_folder_s_story() {
    let records = vec![Record::Event(
        Event::new(Kind::Copy, "/src/report.txt").to("/work/report.txt"),
    )];

    // Where it came from: it left here, and the row can point at where
    // it went.
    let out = happened_in(Style::Unix, &records, "/src");
    assert_eq!(out.len(), 1);
    assert_eq!(out[0].name, "report.txt");
    assert!(!out[0].incoming);
    assert_eq!(out[0].other, Some("/work".to_string()));

    // Where it arrived: the same event, read from the other end. A file
    // appearing in a folder is the thing you most want explained.
    let into = happened_in(Style::Unix, &records, "/work");
    assert_eq!(into.len(), 1);
    assert!(into[0].incoming);
    assert_eq!(into[0].other, Some("/src".to_string()));
}

#[test]
fn a_copy_within_one_folder_points_nowhere_else() {
    let records = vec![Record::Event(
        Event::new(Kind::Copy, "/work/a.txt").to("/work/b.txt"),
    )];
    let here = happened_in(Style::Unix, &records, "/work");
    assert_eq!(here.len(), 1);
    assert_eq!(here[0].other, None, "both ends are this folder");
}

#[test]
fn a_folder_s_story_is_about_its_own_contents() {
    let records = vec![
        Record::Event(Event::new(Kind::Delete, "/work/sub/deep.txt")),
        Record::Event(Event::new(Kind::Delete, "/elsewhere/other.txt")),
        // A command is filed against the directory it ran in, so reading
        // its path the same way would put every command in the folder
        // above the one it ran in.
        Record::Event(Event::new(Kind::Command, "/work/sub").note("make")),
    ];
    assert!(happened_in(Style::Unix, &records, "/work").is_empty());
    assert_eq!(happened_in(Style::Unix, &records, "/work/sub").len(), 1);
}

#[test]
fn a_failure_is_kept_because_it_is_the_answer_more_often_than_not() {
    let records = vec![Record::Event(
        Event::new(Kind::Delete, "/work/locked.txt").failed("in use"),
    )];
    let here = happened_in(Style::Unix, &records, "/work");
    assert_eq!(here[0].failed.as_deref(), Some("in use"));
}

#[test]
fn a_reading_of_the_clock_becomes_seconds_and_an_id() {
    assert_eq!(seconds_of(Some((1_700_000_000, 5))), 1_700_000_000);
    assert_eq!(seconds_of(None), 0);
    assert_eq!(micros_of(Some((2, 5))), 2_000_005);
    assert_eq!(micros_of(None), 0);
    assert!(now() > 1_600_000_000);
}

#[test]
fn a_time_of_day_is_two_digits_each() {
    let when = LocalTime {
        year: 2026,
        month: 7,
        day: 28,
        hour: 9,
        minute: 5,
        second: 7,
    };
    assert_eq!(clock_text(Some(when)), "09:05:07");
    assert_eq!(Day::of(when), day(2026, 7, 28));
    assert_eq!(clock(0).len(), 8);
    assert_eq!(Day::of_time(0).to_ordinal().abs(), 0);
}

#[test]
fn the_day_after_counts_one_more() {
    for (before, after) in [
        (day(2024, 2, 28), day(2024, 2, 29)),
        (day(2023, 12, 31), day(2024, 1, 1)),
        (day(1900, 2, 28), day(1900, 3, 1)),
    ] {
        assert_eq!(after.to_ordinal() - before.to_ordinal(), 1);
    }
}

#[test]
fn only_the_last_days_are_looked_at() {
    assert_eq!(start_of_last(&vec![30, 8, 6, 0], 7), 2);
    assert_eq!(start_of_last(&vec![30, 8, 6, 0], 0), 4);
    assert_eq!(start_of_last(&vec![], 7), 0);
}

#[test]
fn a_day_file_is_read_line_by_line() {
    let journal = Journal::at("/journal", Keep::default());
    assert_eq!(journal.read("one\n\n  \ntwo\n"), vec!["one", "two"]);
    assert_eq!(journal.dir(), "/journal");
    assert_eq!(
        journal.file(Style::Unix, Stream::Shell, day(2026, 7, 28)),
        "/journal/shell-2026-07-28.jsonl"
    );
}

#[test]
fn the_end_of_a_run_is_recorded_in_its_stream() {
    let mut journal = Journal::at("/journal", Keep::default());
    journal.fill(Stream::Files, Vec::new());
    journal.close_group_at(77, 500, 1_234);
    let Some(Record::Done(done)) = journal.with_records(Stream::Files).unwrap().first() else {
        panic!("no record")
    };
    assert_eq!((done.id, done.at, done.ms), (77, 500, 1_234));
    journal.drop_cache();
    assert!(journal.wants_reading(Stream::Files));
    assert!(journal.with_records(Stream::Files).is_none());
}

#[test]
fn toggling_a_kind_twice_changes_nothing() {
    let mut filter = Filter::default();
    filter.toggle(Kind::Move);
    assert!(!filter.is_open());
    filter.toggle(Kind::Move);
    assert_eq!(filter, Filter::default());
    let event = Event::new(Kind::Move, "/a").failed_if(true, "no room");
    assert!(event.is_failure());
    assert!(!Event::new(Kind::Move, "/a").failed_if(false, "no room").is_failure());
    assert!(filter.matches_text(&event));
    assert_eq!(Line::Alone { row: 3 }.row(), 3);
    assert!(MAX_EVENTS_PER_GROUP > 0);
    assert_eq!(SHOWN.len(), 3);
}

#[test]
fn the_account_is_kept_with_the_settings() {
    assert_eq!(
        Journal::default_dir(Style::Unix, Some("/home/u/.config")).as_deref(),
        Some("/home/u/.config/lost-commander/journal")
    );
}

#[test]
fn a_view_reads_the_streams_it_shows() {
    assert_eq!(Shown::All.streams(), vec![Stream::Files, Stream::Shell]);
    assert_eq!(Shown::Files.streams(), vec![Stream::Files]);
    assert_eq!(Shown::Commands.streams(), vec![Stream::Shell]);
}

#[test]
fn the_last_days_are_counted_back_from_a_day() {
    let day = |day: u32| Day { year: 2026, month: 7, day };
    let records: Vec<Record> = (0..3)
        .map(|i| Record::Event(Event::made_at(i, Kind::Copy, "/a")))
        .collect();
    let days_of = vec![day(1), day(20), day(28)];
    assert_eq!(since_day(&records, &days_of, day(28), 7).len(), 1);
    assert_eq!(since_day(&records, &days_of, day(28), 9).len(), 2);
    assert_eq!(since_day(&records, &days_of, day(28), 0).len(), 0);
}

#[test]
fn a_time_falls_on_a_day_near_it() {
    for at in [0, 86_399, 1_785_000_000, -1] {
        let off = Day::of_time(at).to_ordinal() - at.div_euclid(86_400);
        assert!((-1..=1).contains(&off), "{at}: {off}");
    }
}
