//! The account read the other way round: from where you stand.

use vstd::prelude::*;
use vstd::slice::slice_subrange;
use crate::journal;
use crate::journal::{Day, Event, Kind, Record};
use crate::pathname;
use crate::pathname::Style;
use crate::text;

verus! {

broadcast use vstd::string::group_string_axioms;

/// A command that was run, as much as is needed to offer it again.
#[derive(Debug, Clone, PartialEq, Eq)]
pub struct Past {
    pub line: String,
    /// Where it ran. The same words in another directory are about other
    /// work.
    pub cwd: String,
}

/// A command that was run, as characters.
pub struct PastView {
    pub line: Seq<char>,
    pub cwd: Seq<char>,
}

impl View for Past {
    type V = PastView;

    open spec fn view(&self) -> PastView {
        PastView { line: self.line@, cwd: self.cwd@ }
    }
}

/// Commands as characters.
pub open spec fn past_views(list: Seq<Past>) -> Seq<PastView> {
    list.map_values(|past: Past| past@)
}

/// The first place where something is younger than so many days.
pub open spec fn first_within(ages: Seq<int>, days: int, from: int) -> int
    decreases ages.len() - from,
{
    if from >= ages.len() {
        ages.len() as int
    } else if ages[from] < days {
        from
    } else {
        first_within(ages, days, from + 1)
    }
}

/// Ages as numbers.
pub open spec fn age_numbers(ages: Seq<i64>) -> Seq<int> {
    ages.map_values(|age: i64| age as int)
}

/// How many days before `today` each of some days is.
pub open spec fn ages_of(days_of: Seq<Day>, today: Day) -> Seq<int> {
    days_of.map_values(|day: Day| journal::ordinal(today) - journal::ordinal(day))
}

/// Where the last so many days begin, among ages in days, the oldest first.
pub fn start_of_last(ages: &Vec<i64>, days: i64) -> (r: usize)
    ensures
        r == first_within(age_numbers(ages@), days as int, 0),
        r <= ages@.len(),
{
    let ghost all = age_numbers(ages@);
    let mut at: usize = 0;
    while at < ages.len() && ages[at] >= days
        invariant
            at <= ages@.len(),
            all == age_numbers(ages@),
            first_within(all, days as int, 0) == first_within(all, days as int, at as int),
        decreases ages@.len() - at,
    {
        assert(all[at as int] == ages@[at as int]);
        at += 1;
    }
    assert(at < ages@.len() ==> all[at as int] == ages@[at as int]);
    at
}

/// The tail of a stream that is at most this many days old on a day, given the
/// day of each record: records come the oldest first, so it is everything
/// after one cut.
pub fn since_day<'a>(
    records: &'a [Record],
    days_of: &Vec<Day>,
    today: Day,
    days: i64,
) -> (r: &'a [Record])
    requires
        days_of@.len() == records@.len(),
    ensures
        r@ == records@.skip(first_within(ages_of(days_of@, today), days as int, 0)),
{
    let ghost wanted = ages_of(days_of@, today);
    let mut ages: Vec<i64> = Vec::new();
    let mut i: usize = 0;
    while i < days_of.len()
        invariant
            i <= days_of@.len(),
            wanted == ages_of(days_of@, today),
            age_numbers(ages@) =~= wanted.take(i as int),
        decreases days_of@.len() - i,
    {
        let ghost was = age_numbers(ages@);
        let age: i64 = days_of[i].days_before(today);
        ages.push(age);
        assert(wanted[i as int] == age);
        assert(age_numbers(ages@) =~= was.push(age as int));
        i += 1;
    }
    assert(age_numbers(ages@) =~= wanted);
    let start: usize = start_of_last(&ages, days);
    let tail: &'a [Record] = slice_subrange(records, start, records.len());
    assert(tail@ =~= records@.skip(start as int));
    tail
}

/// Whether days can be the local ones of some records.
pub open spec fn may_be_days_of(days_of: Seq<Day>, records: Seq<Record>) -> bool {
    &&& days_of.len() == records.len()
    &&& forall|i: int|
        0 <= i < records.len() ==> journal::may_be_day_of(#[trigger] days_of[i], journal::record_at(records[i]) as int)
}

/// The tail of a stream that is at most this many days old today.
///
/// Which day it is today, and on which day each record falls here, depends on
/// the machine; [`since_day`] says what is made of them.
pub fn since(records: &[Record], days: i64) -> (r: &[Record])
    ensures
        exists|today: Day, days_of: Seq<Day>|
            1 <= today.month <= 12 && 1 <= today.day <= 31 && may_be_days_of(days_of, records@)
                && r@ == records@.skip(
                #[trigger] first_within(ages_of(days_of, today), days as int, 0),
            ),
{
    let today: Day = Day::today();
    let mut days_of: Vec<Day> = Vec::new();
    let mut i: usize = 0;
    while i < records.len()
        invariant
            i <= records@.len(),
            days_of@.len() == i,
            forall|k: int|
                0 <= k < i ==> journal::may_be_day_of(#[trigger] days_of@[k], journal::record_at(records@[k]) as int),
        decreases records@.len() - i,
    {
        days_of.push(Day::of_time(records[i].at()));
        i += 1;
    }
    since_day(records, &days_of, today, days)
}

/// Whether a record is of a command that can be offered again.
pub open spec fn is_command(record: Record) -> bool {
    match record {
        Record::Event(event) => event.kind is Command && text::trimmed(event.note@).len() > 0,
        _ => false,
    }
}

/// Whether a record's path is a directory.
pub open spec fn ran_at(style: Style, record: Record, here: Seq<char>) -> bool {
    match record {
        Record::Event(event) => pathname::same(style, event.path@, here),
        _ => false,
    }
}

/// The command that a record is of.
pub open spec fn command_of(record: Record) -> PastView {
    match record {
        Record::Event(event) => PastView { line: event.note@, cwd: event.path@ },
        _ => PastView { line: Seq::empty(), cwd: Seq::empty() },
    }
}

/// The commands among some records that ran in a directory, or that ran
/// anywhere else, the newest first.
pub open spec fn commands_at(
    style: Style,
    records: Seq<Record>,
    here: Seq<char>,
    inside: bool,
) -> Seq<PastView>
    decreases records.len(),
{
    if records.len() == 0 {
        Seq::empty()
    } else {
        let older = commands_at(style, records.drop_last(), here, inside);
        if is_command(records.last()) && ran_at(style, records.last(), here) == inside {
            seq![command_of(records.last())] + older
        } else {
            older
        }
    }
}

/// Whether a line is among some commands.
pub open spec fn has_line(list: Seq<PastView>, line: Seq<char>) -> bool {
    exists|i: int| 0 <= i < list.len() && (#[trigger] list[i]).line == line
}

/// A list of commands, each line once: the first of it stays.
pub open spec fn each_line_once(list: Seq<PastView>) -> Seq<PastView>
    decreases list.len(),
{
    if list.len() == 0 {
        Seq::empty()
    } else {
        let front = each_line_once(list.drop_last());
        if has_line(front, list.last().line) {
            front
        } else {
            front.push(list.last())
        }
    }
}

/// What has been run before: here first, then anywhere else, each the newest
/// first, and no line twice.
pub open spec fn offered(style: Style, records: Seq<Record>, here: Seq<char>) -> Seq<PastView> {
    each_line_once(commands_at(style, records, here, true) + commands_at(style, records, here, false))
}

fn collect_commands(style: Style, records: &[Record], here: &str, inside: bool) -> (r: Vec<Past>)
    ensures
        past_views(r@) == commands_at(style, records@, here@, inside),
{
    let ghost all = records@;
    let mut out: Vec<Past> = Vec::new();
    let mut i: usize = records.len();
    assert(all.take(all.len() as int) =~= all);
    assert(past_views(out@) =~= Seq::empty());
    while i > 0
        invariant
            i <= records@.len(),
            all == records@,
            past_views(out@) + commands_at(style, all.take(i as int), here@, inside) =~= commands_at(
                style,
                all,
                here@,
                inside,
            ),
        decreases i,
    {
        i -= 1;
        proof {
            assert(all.take(i + 1).drop_last() =~= all.take(i as int));
            assert(all.take(i + 1).last() == all[i as int]);
        }
        if let Record::Event(event) = &records[i] {
            let command: bool = match event.kind {
                Kind::Command => true,
                _ => false,
            };
            if command && !text::is_blank(event.note.as_str()) && pathname::is_same(
                style,
                event.path.as_str(),
                here,
            ) == inside {
                let ghost was = past_views(out@);
                let past: Past = Past { line: event.note.clone(), cwd: event.path.clone() };
                out.push(past);
                assert(past@ == command_of(all[i as int]));
                assert(past_views(out@) =~= was.push(past@));
            }
        }
    }
    assert(all.take(0) =~= Seq::<Record>::empty());
    out
}

fn line_is_among(line: &str, list: &Vec<Past>) -> (r: bool)
    ensures
        r == has_line(past_views(list@), line@),
{
    let ghost views = past_views(list@);
    let mut i: usize = 0;
    while i < list.len()
        invariant
            i <= list@.len(),
            views == past_views(list@),
            forall|j: int| 0 <= j < i ==> (#[trigger] views[j]).line != line@,
        decreases list@.len() - i,
    {
        assert(views[i as int] == list@[i as int]@);
        if text::same(list[i].line.as_str(), line) {
            assert(views[i as int].line == line@);
            return true;
        }
        i += 1;
    }
    false
}

/// Commands run before now, newest first, ready to be offered back: the ones
/// run here before the ones run anywhere else, and no line twice.
pub fn commands_before(style: Style, records: &[Record], here: &str) -> (r: Vec<Past>)
    ensures
        past_views(r@) == offered(style, records@, here@),
{
    let mut ran: Vec<Past> = collect_commands(style, records, here, true);
    let ghost inside = past_views(ran@);
    let mut elsewhere: Vec<Past> = collect_commands(style, records, here, false);
    let ghost outside = past_views(elsewhere@);
    ran.append(&mut elsewhere);
    assert(past_views(ran@) =~= inside + outside);
    let ghost all = past_views(ran@);
    let ghost given = ran@;
    let mut out: Vec<Past> = Vec::new();
    assert(all.take(0) =~= Seq::<PastView>::empty());
    assert(past_views(out@) =~= Seq::empty());
    for past in it: ran
        invariant
            it.seq() == given,
            all == past_views(given),
            past_views(out@) == each_line_once(all.take(it.index() as int)),
    {
        proof {
            let i = it.index() as int;
            assert(all.take(i + 1).drop_last() =~= all.take(i));
            assert(all.take(i + 1).last() == given[i]@);
        }
        if !line_is_among(past.line.as_str(), &out) {
            let ghost was = past_views(out@);
            out.push(past);
            assert(past_views(out@) =~= was.push(past@));
        }
    }
    assert(all.take(all.len() as int) =~= all);
    out
}

// ---- scenes -----------------------------------------------------------------------------------

/// Where the panels would have to be to see what an entry describes.
///
/// Directories, not the files themselves: a panel shows a directory. Whether
/// either still exists is the caller's question.
#[derive(Debug, Clone, PartialEq, Eq)]
pub struct Scene {
    pub left: String,
    /// The other end, for the operations that have one.
    pub right: Option<String>,
}

/// The directory a recorded path was in. A command records the directory it
/// ran in; a path with no parent is a root.
pub open spec fn directory(style: Style, kind: Kind, path: Seq<char>) -> Option<Seq<char>> {
    if text::trimmed(path).len() == 0 {
        None
    } else if kind is Command || kind is MakeDir {
        Some(path)
    } else {
        match pathname::parent(style, path) {
            None => Some(path),
            Some(above) => if above.len() == 0 {
                Some(path)
            } else {
                Some(above)
            },
        }
    }
}

fn directory_of(style: Style, kind: Kind, path: &str) -> (r: Option<String>)
    ensures
        match r {
            Some(dir) => directory(style, kind, path@) == Some(dir@),
            None => directory(style, kind, path@) is None,
        },
{
    if text::is_blank(path) {
        return None;
    }
    let itself: bool = match kind {
        Kind::Command => true,
        Kind::MakeDir => true,
        _ => false,
    };
    if itself {
        return Some(path.to_owned());
    }
    match pathname::parent_of(style, path) {
        None => Some(path.to_owned()),
        Some(above) => {
            if above.as_str().is_empty() {
                Some(path.to_owned())
            } else {
                Some(above)
            }
        },
    }
}

/// The other end of what an event describes, if it is another directory.
pub open spec fn far_directory(style: Style, event: Event, left: Seq<char>) -> Option<Seq<char>> {
    match event.to {
        Some(to) => match directory(style, event.kind, to@) {
            Some(right) => if pathname::same(style, right, left) {
                None
            } else {
                Some(right)
            },
            None => None,
        },
        None => None,
    }
}

/// Where to stand to look at what this entry describes.
pub fn scene_of(style: Style, event: &Event) -> (r: Option<Scene>)
    ensures
        match r {
            Some(scene) => {
                &&& directory(style, event.kind, event.path@) == Some(scene.left@)
                &&& text::optional(scene.right) == far_directory(style, *event, scene.left@)
            },
            None => directory(style, event.kind, event.path@) is None,
        },
{
    let left: String = match directory_of(style, event.kind, event.path.as_str()) {
        Some(left) => left,
        None => {
            return None;
        },
    };
    let right: Option<String> = match &event.to {
        Some(to) => match directory_of(style, event.kind, to.as_str()) {
            Some(right) => {
                if pathname::is_same(style, right.as_str(), left.as_str()) {
                    None
                } else {
                    Some(right)
                }
            },
            None => None,
        },
        None => None,
    };
    Some(Scene { left, right })
}

// ---- happenings -------------------------------------------------------------------------------

/// One thing that was done to something living in a directory.
#[derive(Debug, Clone, PartialEq, Eq)]
pub struct Happening {
    pub at: i64,
    pub kind: Kind,
    /// The name inside this directory that it was about.
    pub name: String,
    /// The other end, when there is one and it is somewhere else: where a
    /// copy came from, or where a move went.
    pub other: Option<String>,
    /// Set when this end is where the thing arrived, so a row can say "from"
    /// rather than "to".
    pub incoming: bool,
    /// What it became, when the other end has a different name.
    pub became: Option<String>,
    pub note: String,
    pub failed: Option<String>,
}

/// One thing that was done, as characters.
#[verifier::ext_equal]
pub struct HappeningView {
    pub at: i64,
    pub kind: Kind,
    pub name: Seq<char>,
    pub other: Option<Seq<char>>,
    pub incoming: bool,
    pub became: Option<Seq<char>>,
    pub note: Seq<char>,
    pub failed: Option<Seq<char>>,
}

impl View for Happening {
    type V = HappeningView;

    open spec fn view(&self) -> HappeningView {
        HappeningView {
            at: self.at,
            kind: self.kind,
            name: self.name@,
            other: text::optional(self.other),
            incoming: self.incoming,
            became: text::optional(self.became),
            note: self.note@,
            failed: text::optional(self.failed),
        }
    }
}

/// Things that were done, as characters.
pub open spec fn happening_views(list: Seq<Happening>) -> Seq<HappeningView> {
    list.map_values(|happening: Happening| happening@)
}

/// The directory a path lives in, not the one it is.
pub open spec fn holder(style: Style, path: Seq<char>) -> Option<Seq<char>> {
    if text::trimmed(path).len() == 0 {
        None
    } else {
        pathname::parent(style, path)
    }
}

/// The last name of a path, or all of it where it has none.
pub open spec fn last_name(style: Style, path: Seq<char>) -> Seq<char> {
    match pathname::file_name(style, path) {
        Some(name) => name,
        None => path,
    }
}

/// Whether a directory is known and is this one.
pub open spec fn is_here(style: Style, dir: Option<Seq<char>>, here: Seq<char>) -> bool {
    match dir {
        Some(dir) => pathname::same(style, dir, here),
        None => false,
    }
}

/// A directory, if it is known and not this one.
pub open spec fn if_elsewhere(
    style: Style,
    dir: Option<Seq<char>>,
    here: Seq<char>,
) -> Option<Seq<char>> {
    if is_here(style, dir, here) {
        None
    } else {
        dir
    }
}

/// A name, if it is another one.
pub open spec fn if_other(name: Option<Seq<char>>, than: Seq<char>) -> Option<Seq<char>> {
    if name == Some(than) {
        None
    } else {
        name
    }
}

/// Where an event's far path lives.
pub open spec fn far_holder(style: Style, event: Event) -> Option<Seq<char>> {
    match event.to {
        Some(to) => holder(style, to@),
        None => None,
    }
}

/// What an event did to the contents of a directory: nothing, for a command
/// or where neither end is there. The end that is here names the row.
pub open spec fn happening(style: Style, record: Record, here: Seq<char>) -> Option<HappeningView> {
    match record {
        Record::Event(event) => {
            let near = holder(style, event.path@);
            let from_here = is_here(style, near, here);
            let arrived = is_here(style, far_holder(style, event), here);
            if event.kind is Command || (!from_here && !arrived) {
                None
            } else if from_here {
                let name = last_name(style, event.path@);
                Some(
                    HappeningView {
                        at: event.at,
                        kind: event.kind,
                        name,
                        other: if_elsewhere(style, far_holder(style, event), here),
                        incoming: false,
                        became: match event.to {
                            Some(to) => if_other(Some(last_name(style, to@)), name),
                            None => None,
                        },
                        note: event.note@,
                        failed: text::optional(event.failed),
                    },
                )
            } else {
                let name = last_name(style, event.to->0@);
                Some(
                    HappeningView {
                        at: event.at,
                        kind: event.kind,
                        name,
                        other: if_elsewhere(style, near, here),
                        incoming: true,
                        became: if_other(Some(last_name(style, event.path@)), name),
                        note: event.note@,
                        failed: text::optional(event.failed),
                    },
                )
            }
        },
        _ => None,
    }
}

/// What was done to the contents of a directory, the newest first.
pub open spec fn story(style: Style, records: Seq<Record>, here: Seq<char>) -> Seq<HappeningView>
    decreases records.len(),
{
    if records.len() == 0 {
        Seq::empty()
    } else {
        let older = story(style, records.drop_last(), here);
        match happening(style, records.last(), here) {
            Some(one) => seq![one] + older,
            None => older,
        }
    }
}

fn holder_of(style: Style, path: &str) -> (r: Option<String>)
    ensures
        text::optional(r) == holder(style, path@),
{
    if text::is_blank(path) {
        return None;
    }
    pathname::parent_of(style, path)
}

fn name_of(style: Style, path: &str) -> (r: String)
    ensures
        r@ == last_name(style, path@),
{
    match pathname::file_name_of(style, path) {
        Some(name) => name,
        None => path.to_owned(),
    }
}

fn stands_here(style: Style, dir: &Option<String>, here: &str) -> (r: bool)
    ensures
        r == is_here(style, text::optional(*dir), here@),
{
    match dir {
        Some(dir) => pathname::is_same(style, dir.as_str(), here),
        None => false,
    }
}

fn unless_here(style: Style, dir: Option<String>, here: &str) -> (r: Option<String>)
    ensures
        text::optional(r) == if_elsewhere(style, text::optional(dir), here@),
{
    if stands_here(style, &dir, here) {
        None
    } else {
        dir
    }
}

fn unless_same(name: String, than: &str) -> (r: Option<String>)
    ensures
        text::optional(r) == if_other(Some(name@), than@),
{
    if text::same(name.as_str(), than) {
        None
    } else {
        Some(name)
    }
}

fn copy_of(field: &Option<String>) -> (r: Option<String>)
    ensures
        text::optional(r) == text::optional(*field),
{
    match field {
        Some(field) => Some(field.clone()),
        None => None,
    }
}

fn happened(style: Style, event: &Event, here: &str) -> (r: Option<Happening>)
    ensures
        match r {
            Some(one) => happening(style, Record::Event(*event), here@) == Some(one@),
            None => happening(style, Record::Event(*event), here@) is None,
        },
{
    if let Kind::Command = event.kind {
        return None;
    }
    let near: Option<String> = holder_of(style, event.path.as_str());
    let far: Option<String> = match &event.to {
        Some(to) => holder_of(style, to.as_str()),
        None => None,
    };
    if stands_here(style, &near, here) {
        let name: String = name_of(style, event.path.as_str());
        let became: Option<String> = match &event.to {
            Some(to) => unless_same(name_of(style, to.as_str()), name.as_str()),
            None => None,
        };
        let one: Happening = Happening {
            at: event.at,
            kind: event.kind,
            name,
            other: unless_here(style, far, here),
            incoming: false,
            became,
            note: event.note.clone(),
            failed: copy_of(&event.failed),
        };
        return Some(one);
    }
    if !stands_here(style, &far, here) {
        return None;
    }
    let name: String = match &event.to {
        Some(to) => name_of(style, to.as_str()),
        None => name_of(style, event.path.as_str()),
    };
    let became: Option<String> = unless_same(name_of(style, event.path.as_str()), name.as_str());
    let one: Happening = Happening {
        at: event.at,
        kind: event.kind,
        name,
        other: unless_here(style, near, here),
        incoming: true,
        became,
        note: event.note.clone(),
        failed: copy_of(&event.failed),
    };
    Some(one)
}

/// What was done to the contents of one directory, newest first.
///
/// Both ends count: a file copied into here belongs in this folder's story as
/// much as one copied out of it. Commands are left out: they have their own
/// list.
pub fn happened_in(style: Style, records: &[Record], here: &str) -> (r: Vec<Happening>)
    ensures
        happening_views(r@) == story(style, records@, here@),
{
    let ghost all = records@;
    let mut out: Vec<Happening> = Vec::new();
    let mut i: usize = records.len();
    assert(all.take(all.len() as int) =~= all);
    assert(happening_views(out@) =~= Seq::empty());
    while i > 0
        invariant
            i <= records@.len(),
            all == records@,
            happening_views(out@) + story(style, all.take(i as int), here@) =~= story(style, all, here@),
        decreases i,
    {
        i -= 1;
        proof {
            assert(all.take(i + 1).drop_last() =~= all.take(i as int));
            assert(all.take(i + 1).last() == all[i as int]);
        }
        if let Record::Event(event) = &records[i] {
            if let Some(one) = happened(style, event, here) {
                let ghost was = happening_views(out@);
                out.push(one);
                assert(happening_views(out@) =~= was.push(one@));
            }
        }
    }
    assert(all.take(0) =~= Seq::<Record>::empty());
    out
}

// ---- laws -------------------------------------------------------------------------------------

/// No line is offered twice.
pub proof fn law_no_line_is_offered_twice(
    style: Style,
    records: Seq<Record>,
    here: Seq<char>,
    i: int,
    j: int,
)
    requires
        0 <= i < j < offered(style, records, here).len(),
    ensures
        offered(style, records, here)[i].line != offered(style, records, here)[j].line,
{
    lemma_lines_differ(
        commands_at(style, records, here, true) + commands_at(style, records, here, false),
        i,
        j,
    );
}

proof fn lemma_lines_differ(list: Seq<PastView>, i: int, j: int)
    requires
        0 <= i < j < each_line_once(list).len(),
    ensures
        each_line_once(list)[i].line != each_line_once(list)[j].line,
    decreases list.len(),
{
    if list.len() > 0 {
        let front = each_line_once(list.drop_last());
        if j < front.len() {
            lemma_lines_differ(list.drop_last(), i, j);
        } else {
            assert(each_line_once(list)[i] == front[i]);
        }
    }
}

/// Every command that was run is offered, by some directory it ran in.
pub proof fn law_every_command_is_offered(
    style: Style,
    records: Seq<Record>,
    here: Seq<char>,
    i: int,
)
    requires
        0 <= i < records.len(),
        is_command(records[i]),
    ensures
        has_line(offered(style, records, here), command_of(records[i]).line),
{
    let inside = ran_at(style, records[i], here);
    lemma_commands_at(style, records, here, inside, i);
    let both = commands_at(style, records, here, true) + commands_at(style, records, here, false);
    let k = choose|k: int|
        0 <= k < commands_at(style, records, here, inside).len() && commands_at(style, records, here, inside)[k]
            == command_of(records[i]);
    let at = if inside {
        k
    } else {
        k + commands_at(style, records, here, true).len()
    };
    assert(both[at] == command_of(records[i]));
    lemma_each_line_once(both, at);
}

proof fn lemma_commands_at(
    style: Style,
    records: Seq<Record>,
    here: Seq<char>,
    inside: bool,
    i: int,
)
    requires
        0 <= i < records.len(),
        is_command(records[i]),
        ran_at(style, records[i], here) == inside,
    ensures
        exists|k: int|
            0 <= k < commands_at(style, records, here, inside).len() && commands_at(
                style,
                records,
                here,
                inside,
            )[k] == command_of(records[i]),
    decreases records.len(),
{
    let all = commands_at(style, records, here, inside);
    let older = commands_at(style, records.drop_last(), here, inside);
    if i == records.len() - 1 {
        assert(all[0] == command_of(records[i]));
    } else {
        lemma_commands_at(style, records.drop_last(), here, inside, i);
        let k = choose|k: int| 0 <= k < older.len() && older[k] == command_of(records[i]);
        if all.len() == older.len() {
            assert(all[k] == command_of(records[i]));
        } else {
            assert(all[k + 1] == command_of(records[i]));
        }
    }
}

proof fn lemma_each_line_once(list: Seq<PastView>, at: int)
    requires
        0 <= at < list.len(),
    ensures
        has_line(each_line_once(list), list[at].line),
    decreases list.len(),
{
    let front = each_line_once(list.drop_last());
    let all = each_line_once(list);
    if at == list.len() - 1 {
        if !has_line(front, list.last().line) {
            assert(all[front.len() as int].line == list[at].line);
        }
    } else {
        lemma_each_line_once(list.drop_last(), at);
        let k = choose|k: int| 0 <= k < front.len() && (#[trigger] front[k]).line == list[at].line;
        assert(all[k].line == list[at].line);
    }
}

/// What is kept of a stream in its order is what is younger than so many
/// days, and all of it: where the records come oldest first, those from the
/// cut on are the younger ones.
pub proof fn law_the_cut_parts_old_from_young(ages: Seq<int>, days: int, i: int)
    requires
        forall|j: int, k: int| 0 <= j < k < ages.len() ==> #[trigger] ages[j] >= #[trigger] ages[k],
        0 <= i < ages.len(),
    ensures
        0 <= first_within(ages, days, 0) <= ages.len(),
        first_within(ages, days, 0) <= i <==> ages[i] < days,
{
    lemma_first_within(ages, days, 0);
    let cut = first_within(ages, days, 0);
    if cut < i {
        assert(ages[cut] >= ages[i]);
    }
}

proof fn lemma_first_within(ages: Seq<int>, days: int, from: int)
    requires
        0 <= from <= ages.len(),
    ensures
        ({
            let cut = first_within(ages, days, from);
            &&& from <= cut <= ages.len()
            &&& cut < ages.len() ==> ages[cut] < days
            &&& forall|k: int| from <= k < cut ==> #[trigger] ages[k] >= days
        }),
    decreases ages.len() - from,
{
    if from < ages.len() && ages[from] >= days {
        lemma_first_within(ages, days, from + 1);
    }
}

/// Of two runs of records the newer one's commands come first; one record
/// gives its line and where it ran, if it is a command with something in it.
pub proof fn law_newer_commands_come_first(
    style: Style,
    older: Seq<Record>,
    newer: Seq<Record>,
    here: Seq<char>,
    inside: bool,
)
    ensures
        commands_at(style, older + newer, here, inside) == commands_at(style, newer, here, inside)
            + commands_at(style, older, here, inside),
    decreases newer.len(),
{
    let all = older + newer;
    let (a, b) = (
        commands_at(style, newer, here, inside),
        commands_at(style, older, here, inside),
    );
    if newer.len() == 0 {
        assert(all =~= older);
        assert(a + b =~= b);
    } else {
        assert(all.drop_last() =~= older + newer.drop_last());
        law_newer_commands_come_first(style, older, newer.drop_last(), here, inside);
        assert(commands_at(style, all, here, inside) =~= a + b);
    }
}

proof fn lemma_once_holds(list: Seq<PastView>, k: int)
    requires
        0 <= k < each_line_once(list).len(),
    ensures
        list.contains(each_line_once(list)[k]),
    decreases list.len(),
{
    let before = list.drop_last();
    let front = each_line_once(before);
    let one = each_line_once(list)[k];
    if k < front.len() {
        lemma_once_holds(before, k);
        assert(one == front[k]);
        let j = choose|j: int| 0 <= j < before.len() && before[j] == front[k];
        assert(list[j] == one);
    } else {
        assert(list[list.len() - 1] == one);
    }
}

proof fn lemma_first_of_a_line(list: Seq<PastView>, k: int)
    requires
        0 <= k < list.len(),
        forall|j: int| 0 <= j < k ==> (#[trigger] list[j]).line != list[k].line,
    ensures
        each_line_once(list).contains(list[k]),
    decreases list.len(),
{
    let before = list.drop_last();
    let front = each_line_once(before);
    let out = each_line_once(list);
    if k < before.len() {
        assert(before[k] == list[k]);
        assert forall|j: int| 0 <= j < k implies (#[trigger] before[j]).line != before[k].line by {
            assert(list[j] == before[j]);
        }
        lemma_first_of_a_line(before, k);
        let m = choose|m: int| 0 <= m < front.len() && front[m] == before[k];
        assert(out[m] == list[k]);
    } else {
        if has_line(front, list.last().line) {
            let m = choose|m: int|
                0 <= m < front.len() && (#[trigger] front[m]).line == list.last().line;
            lemma_once_holds(before, m);
            let j = choose|j: int| 0 <= j < before.len() && before[j] == front[m];
            assert(list[j].line != list[k].line);
        }
        assert(out[out.len() - 1] == list[k]);
    }
}

/// Of several commands of one line the first of the list is offered: the one
/// run here, and the newest.
pub proof fn law_the_first_of_a_line_is_offered(
    style: Style,
    records: Seq<Record>,
    here: Seq<char>,
    k: int,
)
    requires
        ({
            let all = commands_at(style, records, here, true) + commands_at(
                style,
                records,
                here,
                false,
            );
            0 <= k < all.len() && forall|j: int|
                0 <= j < k ==> (#[trigger] all[j]).line != all[k].line
        }),
    ensures
        offered(style, records, here).contains(
            (commands_at(style, records, here, true) + commands_at(style, records, here, false))[k],
        ),
{
    lemma_first_of_a_line(
        commands_at(style, records, here, true) + commands_at(style, records, here, false),
        k,
    );
}

proof fn lemma_where_they_ran(
    style: Style,
    records: Seq<Record>,
    here: Seq<char>,
    inside: bool,
)
    ensures
        forall|k: int|
            0 <= k < commands_at(style, records, here, inside).len() ==> pathname::same(
                style,
                (#[trigger] commands_at(style, records, here, inside)[k]).cwd,
                here,
            ) == inside,
    decreases records.len(),
{
    if records.len() > 0 {
        lemma_where_they_ran(style, records.drop_last(), here, inside);
        let out = commands_at(style, records, here, inside);
        let older = commands_at(style, records.drop_last(), here, inside);
        assert forall|k: int| 0 <= k < out.len() implies pathname::same(
            style,
            (#[trigger] out[k]).cwd,
            here,
        ) == inside by {
            if out.len() == older.len() {
                assert(out[k] == older[k]);
            } else if k > 0 {
                assert(out[k] == older[k - 1]);
            }
        }
    }
}

/// Whether a list comes from one list up to a place, and from another past
/// it.
spec fn parted(
    list: Seq<PastView>,
    first: Seq<PastView>,
    second: Seq<PastView>,
    cut: int,
) -> bool {
    &&& 0 <= cut <= list.len()
    &&& forall|k: int| 0 <= k < cut ==> first.contains(#[trigger] list[k])
    &&& forall|k: int| cut <= k < list.len() ==> second.contains(#[trigger] list[k])
}

proof fn lemma_once_in_order(first: Seq<PastView>, second: Seq<PastView>)
    ensures
        exists|cut: int| #[trigger] parted(each_line_once(first + second), first, second, cut),
    decreases second.len(),
{
    let all = first + second;
    let out = each_line_once(all);
    if second.len() == 0 {
        assert(all =~= first);
        assert forall|k: int| 0 <= k < out.len() implies first.contains(#[trigger] out[k]) by {
            lemma_once_holds(first, k);
        }
        assert(parted(out, first, second, out.len() as int));
    } else {
        let before = second.drop_last();
        assert(all.drop_last() =~= first + before);
        lemma_once_in_order(first, before);
        let front = each_line_once(first + before);
        let cut = choose|cut: int| #[trigger] parted(front, first, before, cut);
        assert forall|k: int| 0 <= k < cut implies first.contains(#[trigger] out[k]) by {
            assert(out[k] == front[k]);
        }
        assert forall|k: int| cut <= k < out.len() implies second.contains(#[trigger] out[k]) by {
            if k < front.len() {
                assert(out[k] == front[k]);
                let j = choose|j: int| 0 <= j < before.len() && before[j] == front[k];
                assert(second[j] == out[k]);
            } else {
                assert(second[second.len() - 1] == out[k]);
            }
        }
        assert(parted(out, first, second, cut));
    }
}

/// Commands that were run here are offered before any that were run
/// elsewhere.
pub proof fn law_what_ran_here_is_offered_first(
    style: Style,
    records: Seq<Record>,
    here: Seq<char>,
    i: int,
    j: int,
)
    requires
        0 <= i < j < offered(style, records, here).len(),
        pathname::same(style, offered(style, records, here)[j].cwd, here),
    ensures
        pathname::same(style, offered(style, records, here)[i].cwd, here),
{
    let first = commands_at(style, records, here, true);
    let second = commands_at(style, records, here, false);
    lemma_where_they_ran(style, records, here, true);
    lemma_where_they_ran(style, records, here, false);
    lemma_once_in_order(first, second);
    let out = offered(style, records, here);
    let cut = choose|cut: int| #[trigger] parted(out, first, second, cut);
    if j >= cut {
        assert(second.contains(out[j]));
        let m = choose|m: int| 0 <= m < second.len() && second[m] == out[j];
        assert(!pathname::same(style, second[m].cwd, here));
    }
    assert(first.contains(out[i]));
    let m = choose|m: int| 0 <= m < first.len() && first[m] == out[i];
    assert(pathname::same(style, first[m].cwd, here));
}

/// What was done in a directory is told newest first, each record by itself.
pub proof fn law_newer_happenings_come_first(
    style: Style,
    older: Seq<Record>,
    newer: Seq<Record>,
    here: Seq<char>,
)
    ensures
        story(style, older + newer, here) == story(style, newer, here) + story(style, older, here),
    decreases newer.len(),
{
    let all = older + newer;
    let (a, b) = (story(style, newer, here), story(style, older, here));
    if newer.len() == 0 {
        assert(all =~= older);
        assert(a + b =~= b);
    } else {
        assert(all.drop_last() =~= older + newer.drop_last());
        law_newer_happenings_come_first(style, older, newer.drop_last(), here);
        assert(story(style, all, here) =~= a + b);
    }
}

/// An event belongs to a directory's story exactly where it is no command and
/// one of its ends lies in that directory. The row is named by the end that
/// is here, says which way it went, and tells the rest as it was recorded.
pub proof fn law_both_ends_belong_to_the_story(style: Style, event: Event, here: Seq<char>)
    ensures
        ({
            let near = text::trimmed(event.path@).len() > 0 && pathname::parent(
                style,
                event.path@,
            ) is Some && pathname::same(style, pathname::parent(style, event.path@)->0, here);
            let far = event.to is Some && text::trimmed(event.to->0@).len() > 0 && pathname::parent(
                style,
                event.to->0@,
            ) is Some && pathname::same(style, pathname::parent(style, event.to->0@)->0, here);
            let told = happening(style, Record::Event(event), here);
            &&& told is Some <==> event.kind != Kind::Command && (near || far)
            &&& told matches Some(row) ==> {
                let end = if near {
                    event.path@
                } else {
                    event.to->0@
                };
                &&& row.at == event.at && row.kind == event.kind && row.note == event.note@
                    && row.failed == text::optional(event.failed)
                &&& row.incoming == !near
                &&& pathname::file_name(style, end) is Some ==> Some(row.name)
                    == pathname::file_name(style, end)
                &&& near && far ==> row.other is None
                &&& near && event.to is None ==> row.other is None && row.became is None
                &&& !near && pathname::file_name(style, event.path@) is Some ==> (row.became is None
                    <==> pathname::file_name(style, event.path@) == Some(row.name))
                &&& row.became != Some(row.name)
            }
        }),
{
}

/// A command that was recorded with something in it is offered by its line,
/// and what is offered is such a command, with its line and where it ran.
pub proof fn law_only_commands_are_offered(
    style: Style,
    records: Seq<Record>,
    here: Seq<char>,
    k: int,
)
    requires
        0 <= k < offered(style, records, here).len(),
    ensures
        exists|i: int|
            {
                &&& 0 <= i < records.len()
                &&& (#[trigger] records[i]) is Event
                &&& records[i]->Event_0.kind == Kind::Command
                &&& text::trimmed(records[i]->Event_0.note@).len() > 0
                &&& offered(style, records, here)[k].line == records[i]->Event_0.note@
                &&& offered(style, records, here)[k].cwd == records[i]->Event_0.path@
            },
{
    let first = commands_at(style, records, here, true);
    let second = commands_at(style, records, here, false);
    let all = first + second;
    lemma_once_holds(all, k);
    let one = offered(style, records, here)[k];
    assert(all.contains(one));
    let m = choose|m: int| 0 <= m < all.len() && all[m] == one;
    if m < first.len() {
        lemma_command_recorded(style, records, here, true, m);
    } else {
        lemma_command_recorded(style, records, here, false, m - first.len());
    }
}

proof fn lemma_command_recorded(
    style: Style,
    records: Seq<Record>,
    here: Seq<char>,
    inside: bool,
    m: int,
)
    requires
        0 <= m < commands_at(style, records, here, inside).len(),
    ensures
        exists|i: int|
            {
                &&& 0 <= i < records.len()
                &&& (#[trigger] records[i]) is Event
                &&& records[i]->Event_0.kind == Kind::Command
                &&& text::trimmed(records[i]->Event_0.note@).len() > 0
                &&& commands_at(style, records, here, inside)[m].line == records[i]->Event_0.note@
                &&& commands_at(style, records, here, inside)[m].cwd == records[i]->Event_0.path@
            },
    decreases records.len(),
{
    let before = records.drop_last();
    let older = commands_at(style, before, here, inside);
    let out = commands_at(style, records, here, inside);
    let last = records.len() - 1;
    let own = out.len() > older.len();
    if own && m == 0 {
        assert(records[last] is Event);
    } else {
        let n = if own {
            m - 1
        } else {
            m
        };
        assert(out[m] == older[n]);
        lemma_command_recorded(style, before, here, inside, n);
        let i = choose|i: int|
            {
                &&& 0 <= i < before.len()
                &&& (#[trigger] before[i]) is Event
                &&& before[i]->Event_0.kind == Kind::Command
                &&& text::trimmed(before[i]->Event_0.note@).len() > 0
                &&& older[n].line == before[i]->Event_0.note@
                &&& older[n].cwd == before[i]->Event_0.path@
            };
        assert(records[i] == before[i]);
    }
}

/// What is a command to be offered is an event of that kind with something in
/// it.
pub proof fn law_which_records_are_commands(record: Record)
    ensures
        is_command(record) <==> record is Event && record->Event_0.kind == Kind::Command
            && text::trimmed(record->Event_0.note@).len() > 0,
        is_command(record) ==> command_of(record).line == record->Event_0.note@,
{
}

/// Where to stand to see what was acted on: in the directory a command ran in
/// or that was made, and else in the one that holds the file; in the path
/// itself where nothing holds it, and nowhere where no path was recorded.
pub proof fn law_where_to_stand(style: Style, kind: Kind, path: Seq<char>)
    ensures
        text::trimmed(path).len() == 0 ==> directory(style, kind, path) is None,
        text::trimmed(path).len() > 0 ==> directory(style, kind, path) is Some && {
            let dir = directory(style, kind, path)->0;
            let above = pathname::parent(style, path);
            &&& kind == Kind::Command || kind == Kind::MakeDir ==> dir == path
            &&& kind != Kind::Command && kind != Kind::MakeDir && above is Some && above->0.len()
                > 0 ==> dir == above->0
            &&& above is None || above->0.len() == 0 ==> dir == path
        },
{
}

/// Two ends in one directory are one place to stand; another end is the other
/// place, and there is none where the record names none.
pub proof fn law_two_ends_are_two_places(style: Style, event: Event, left: Seq<char>)
    ensures
        event.to is None ==> far_directory(style, event, left) is None,
        event.to matches Some(to) ==> match directory(style, event.kind, to@) {
            Some(right) => if pathname::same(style, right, left) {
                far_directory(style, event, left) is None
            } else {
                far_directory(style, event, left) == Some(right)
            },
            None => far_directory(style, event, left) is None,
        },
{
}

} // verus!
