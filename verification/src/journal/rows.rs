//! The account as it is shown: runs with what they did, and single things.

use vstd::prelude::*;
use vstd::multiset::Multiset;
use crate::journal;
use crate::journal::{Done, Event, Group, Kind, Record};
use crate::order;
use crate::text;

verus! {

broadcast use vstd::string::group_string_axioms;

/// What the browser shows: a run and what it did, or a single thing.
#[derive(Debug, Clone, PartialEq, Eq)]
pub enum Row {
    /// A run, with everything recorded under it. `took` is `None` for a run
    /// that never reached its end.
    Run { group: Group, events: Vec<Event>, took: Option<u64> },
    /// Something that stood on its own.
    One(Event),
}

/// A row with the events of a run as a sequence.
pub enum RowView {
    Run { group: Group, events: Seq<Event>, took: Option<u64> },
    One(Event),
}

impl View for Row {
    type V = RowView;

    open spec fn view(&self) -> RowView {
        match *self {
            Row::Run { group, events, took } => RowView::Run { group, events: events@, took },
            Row::One(event) => RowView::One(event),
        }
    }
}

/// The rows, each with its events as a sequence.
pub open spec fn row_views(rows: Seq<Row>) -> Seq<RowView> {
    rows.map_values(|row: Row| row@)
}

/// When a row's thing happened.
pub open spec fn row_at(row: RowView) -> i64 {
    match row {
        RowView::Run { group, .. } => group.at,
        RowView::One(event) => event.at,
    }
}

/// How many of some events failed.
pub open spec fn failures_in(events: Seq<Event>) -> nat
    decreases events.len(),
{
    if events.len() == 0 {
        0
    } else {
        failures_in(events.drop_last()) + (if events.last().failed is Some {
            1nat
        } else {
            0
        })
    }
}

/// How many failures a row accounts for.
pub open spec fn row_failures(row: RowView) -> nat {
    match row {
        RowView::Run { events, .. } => failures_in(events),
        RowView::One(event) => if event.failed is Some {
            1
        } else {
            0
        },
    }
}

/// How many files a row accounts for.
pub open spec fn row_items(row: RowView) -> nat {
    match row {
        RowView::Run { events, .. } => events.len(),
        RowView::One(_) => 1,
    }
}

impl Row {
    pub fn at(&self) -> (r: i64)
        ensures
            r == row_at(self@),
    {
        match self {
            Row::Run { group, .. } => group.at,
            Row::One(event) => event.at,
        }
    }

    pub fn kind(&self) -> (r: Kind)
        ensures
            r == match self@ {
                RowView::Run { group, .. } => group.kind,
                RowView::One(event) => event.kind,
            },
    {
        match self {
            Row::Run { group, .. } => group.kind,
            Row::One(event) => event.kind,
        }
    }

    pub fn failures(&self) -> (r: usize)
        ensures
            r == row_failures(self@),
            r <= row_items(self@),
    {
        match self {
            Row::Run { events, .. } => {
                let mut count: usize = 0;
                let mut i: usize = 0;
                assert(events@.take(0) =~= Seq::<Event>::empty());
                while i < events.len()
                    invariant
                        i <= events@.len(),
                        count <= i,
                        count == failures_in(events@.take(i as int)),
                    decreases events@.len() - i,
                {
                    assert(events@.take(i + 1).drop_last() =~= events@.take(i as int));
                    if events[i].is_failure() {
                        count += 1;
                    }
                    i += 1;
                }
                assert(events@.take(i as int) =~= events@);
                count
            },
            Row::One(event) => if event.is_failure() {
                1
            } else {
                0
            },
        }
    }

    /// How many files this row accounts for.
    pub fn items(&self) -> (r: usize)
        ensures
            r == row_items(self@),
    {
        match self {
            Row::Run { events, .. } => events.len(),
            Row::One(_) => 1,
        }
    }

    /// How long it took, where that is a thing worth saying: the total of a
    /// run, the duration of a command.
    pub fn took(&self) -> (r: Option<u64>)
        ensures
            r == match self@ {
                RowView::Run { took, .. } => took,
                RowView::One(event) => event.ms,
            },
    {
        match self {
            Row::Run { took, .. } => *took,
            Row::One(event) => event.ms,
        }
    }
}

/// The headings among some records, in their order.
pub open spec fn groups_in(records: Seq<Record>) -> Seq<Group>
    decreases records.len(),
{
    if records.len() == 0 {
        Seq::empty()
    } else {
        match records.last() {
            Record::Group(group) => groups_in(records.drop_last()).push(group),
            _ => groups_in(records.drop_last()),
        }
    }
}

/// The events among some records, in their order.
pub open spec fn events_in(records: Seq<Record>) -> Seq<Event>
    decreases records.len(),
{
    if records.len() == 0 {
        Seq::empty()
    } else {
        match records.last() {
            Record::Event(event) => events_in(records.drop_last()).push(event),
            _ => events_in(records.drop_last()),
        }
    }
}

/// The ends of runs among some records, in their order.
pub open spec fn ends_in(records: Seq<Record>) -> Seq<Done>
    decreases records.len(),
{
    if records.len() == 0 {
        Seq::empty()
    } else {
        match records.last() {
            Record::Done(done) => ends_in(records.drop_last()).push(done),
            _ => ends_in(records.drop_last()),
        }
    }
}

/// How long a run took, by the first end at or after `from` that names it.
pub open spec fn took_by(done: Seq<Done>, id: u64, from: int) -> Option<u64>
    decreases done.len() - from,
{
    if from >= done.len() {
        None
    } else if done[from].id == id {
        Some(done[from].ms)
    } else {
        took_by(done, id, from + 1)
    }
}

/// The rows of the headings, with nothing under them yet.
pub open spec fn heading_rows(groups: Seq<Group>, done: Seq<Done>) -> Seq<RowView> {
    groups.map_values(
        |group: Group|
            RowView::Run { group, events: Seq::empty(), took: took_by(done, group.id, 0) },
    )
}

/// The first row at or after `from` that is the run of an id; the length
/// where there is none.
pub open spec fn run_of(rows: Seq<RowView>, id: u64, from: int) -> int
    decreases rows.len() - from,
{
    if from >= rows.len() {
        rows.len() as int
    } else if rows[from] matches RowView::Run { group, .. } && group.id == id {
        from
    } else {
        run_of(rows, id, from + 1)
    }
}

/// A run with one more event under it.
pub open spec fn with_event(row: RowView, event: Event) -> RowView {
    match row {
        RowView::Run { group, events, took } => RowView::Run {
            group,
            events: events.push(event),
            took,
        },
        RowView::One(other) => RowView::One(other),
    }
}

/// Rows with one more event: under the run it names, or, where it names none
/// that is there, on its own at the end.
pub open spec fn event_placed(rows: Seq<RowView>, event: Event) -> Seq<RowView> {
    match event.group {
        Some(id) => {
            let at = run_of(rows, id, 0);
            if at < rows.len() {
                rows.update(at, with_event(rows[at], event))
            } else {
                rows.push(RowView::One(event))
            }
        },
        None => rows.push(RowView::One(event)),
    }
}

/// Rows with some more events.
pub open spec fn events_placed(rows: Seq<RowView>, events: Seq<Event>) -> Seq<RowView>
    decreases events.len(),
{
    if events.len() == 0 {
        rows
    } else {
        event_placed(events_placed(rows, events.drop_last()), events.last())
    }
}

/// The rows of a day's records before they are put in order.
pub open spec fn rows_of(records: Seq<Record>) -> Seq<RowView> {
    events_placed(heading_rows(groups_in(records), ends_in(records)), events_in(records))
}

/// The order of rows: the latest first.
pub open spec fn latest_first() -> spec_fn(RowView, RowView) -> bool {
    |a: RowView, b: RowView| row_at(a) > row_at(b)
}

/// A day's records as rows, the latest first.
pub open spec fn arranged(records: Seq<Record>) -> Seq<RowView> {
    order::sorted(rows_of(records), latest_first())
}

fn is_later(a: &Row, b: &Row) -> (r: bool)
    ensures
        r == (row_at(a@) > row_at(b@)),
{
    a.at() > b.at()
}

fn find_run(rows: &Vec<Row>, id: u64) -> (r: Option<usize>)
    ensures
        match r {
            Some(at) => at < rows@.len() && run_of(row_views(rows@), id, 0) == at,
            None => run_of(row_views(rows@), id, 0) == rows@.len(),
        },
{
    let ghost views = row_views(rows@);
    let mut i: usize = 0;
    while i < rows.len()
        invariant
            i <= rows@.len(),
            views == row_views(rows@),
            run_of(views, id, 0) == run_of(views, id, i as int),
        decreases rows@.len() - i,
    {
        assert(views[i as int] == rows@[i as int]@);
        if let Row::Run { group, .. } = &rows[i] {
            if group.id == id {
                return Some(i);
            }
        }
        i += 1;
    }
    None
}

fn find_end(done: &Vec<Done>, id: u64) -> (r: Option<u64>)
    ensures
        r == took_by(done@, id, 0),
{
    let mut i: usize = 0;
    while i < done.len()
        invariant
            i <= done@.len(),
            took_by(done@, id, 0) == took_by(done@, id, i as int),
        decreases done@.len() - i,
    {
        if done[i].id == id {
            return Some(done[i].ms);
        }
        i += 1;
    }
    None
}

fn place_event(rows: &mut Vec<Row>, event: Event)
    ensures
        row_views(final(rows)@) == event_placed(row_views(old(rows)@), event),
{
    let ghost was = row_views(rows@);
    let placed: Option<usize> = match event.group {
        Some(id) => find_run(rows, id),
        None => None,
    };
    match placed {
        Some(at) => {
            let row: Row = rows.remove(at);
            proof {
                assert(was[at as int] == row@);
                lemma_run_of(was, event.group->0, 0);
            }
            let filled: Row = match row {
                Row::Run { group, events, took } => {
                    let mut all: Vec<Event> = events;
                    all.push(event);
                    Row::Run { group, events: all, took }
                },
                Row::One(other) => Row::One(other),
            };
            rows.insert(at, filled);
            assert(filled@ == with_event(was[at as int], event));
            assert(row_views(rows@) =~= was.update(at as int, filled@));
        },
        None => {
            rows.push(Row::One(event));
            assert(row_views(rows@) =~= was.push(RowView::One(event)));
        },
    }
}

proof fn lemma_run_of(rows: Seq<RowView>, id: u64, from: int)
    requires
        0 <= from <= rows.len(),
    ensures
        from <= run_of(rows, id, from) <= rows.len(),
        run_of(rows, id, from) < rows.len() ==> rows[run_of(rows, id, from)] is Run,
    decreases rows.len() - from,
{
    if from < rows.len() && !(rows[from] matches RowView::Run { group, .. } && group.id == id) {
        lemma_run_of(rows, id, from + 1);
    }
}

/// Turn a day's records into rows, newest first.
///
/// Events that name a group go under it; events that do not stand alone. An
/// event whose group is missing is kept as its own row rather than dropped.
pub fn arrange(records: Vec<Record>) -> (r: Vec<Row>)
    ensures
        row_views(r@) == arranged(records@),
{
    let ghost all = records@;
    let mut groups: Vec<Group> = Vec::new();
    let mut events: Vec<Event> = Vec::new();
    let mut done: Vec<Done> = Vec::new();
    assert(all.take(0) =~= Seq::<Record>::empty());
    for record in it: records
        invariant
            it.seq() == all,
            groups@ == groups_in(all.take(it.index() as int)),
            events@ == events_in(all.take(it.index() as int)),
            done@ == ends_in(all.take(it.index() as int)),
    {
        proof {
            let i = it.index() as int;
            assert(all.take(i + 1).drop_last() =~= all.take(i));
            assert(all.take(i + 1).last() == all[i]);
        }
        match record {
            Record::Group(group) => groups.push(group),
            Record::Event(event) => events.push(event),
            Record::Done(one) => done.push(one),
        }
    }
    assert(all.take(all.len() as int) =~= all);
    let ghost headings = groups@;
    let mut rows: Vec<Row> = Vec::new();
    for group in it: groups
        invariant
            it.seq() == headings,
            row_views(rows@) =~= heading_rows(headings, done@).take(it.index() as int),
    {
        let took: Option<u64> = find_end(&done, group.id);
        let ghost was = row_views(rows@);
        let row: Row = Row::Run { group, events: Vec::new(), took };
        rows.push(row);
        assert(row@ == RowView::Run { group, events: Seq::empty(), took });
        assert(row_views(rows@) =~= was.push(row@));
    }
    assert(row_views(rows@) =~= heading_rows(headings, done@));
    let ghost base = row_views(rows@);
    let ghost story = events@;
    assert(story.take(0) =~= Seq::<Event>::empty());
    for event in it: events
        invariant
            it.seq() == story,
            row_views(rows@) == events_placed(base, story.take(it.index() as int)),
    {
        proof {
            let i = it.index() as int;
            assert(story.take(i + 1).drop_last() =~= story.take(i));
            assert(story.take(i + 1).last() == story[i]);
        }
        place_event(&mut rows, event);
    }
    assert(story.take(story.len() as int) =~= story);
    let ghost unsorted = rows@;
    let ghost by_row = |a: Row, b: Row| row_at(a@) > row_at(b@);
    order::sort(&mut rows, is_later, Ghost(by_row));
    proof {
        order::lemma_sorted_map(unsorted, |row: Row| row@, by_row, latest_first());
    }
    rows
}

// ---- filtering ------------------------------------------------------------------------------

/// What the browser is showing: which kinds, and whether only the failures.
#[derive(Debug, Clone, PartialEq, Eq)]
pub struct Filter {
    /// Empty means everything, which is what an untouched filter row means.
    pub kinds: Vec<Kind>,
    pub failures_only: bool,
    /// Matched against everything a line shows, case-insensitively.
    pub text: String,
}

impl Default for Filter {
    fn default() -> (r: Filter)
        ensures
            r.kinds@.len() == 0,
            !r.failures_only,
            r.text@.len() == 0,
    {
        let text: String = String::new();
        assert(text@ =~= Seq::<char>::empty());
        Filter { kinds: Vec::new(), failures_only: false, text }
    }
}

/// Whether a filter lets everything through.
pub open spec fn filter_is_open(filter: Filter) -> bool {
    filter.kinds@.len() == 0 && !filter.failures_only && text::trimmed(filter.text@).len() == 0
}

/// The first place at or after `from` where a kind stands; the length where
/// there is none.
pub open spec fn seek_kind(kinds: Seq<Kind>, kind: Kind, from: int) -> int
    decreases kinds.len() - from,
{
    if from >= kinds.len() {
        kinds.len() as int
    } else if kinds[from] == kind {
        from
    } else {
        seek_kind(kinds, kind, from + 1)
    }
}

/// A list of kinds with one of them switched: the first of its kind taken
/// out, or it added at the end.
pub open spec fn toggled(kinds: Seq<Kind>, kind: Kind) -> Seq<Kind> {
    let at = seek_kind(kinds, kind, 0);
    if at < kinds.len() {
        kinds.remove(at)
    } else {
        kinds.push(kind)
    }
}

/// Whether a filter lets a kind through.
pub open spec fn allows(filter: Filter, kind: Kind) -> bool {
    filter.kinds@.len() == 0 || filter.kinds@.contains(kind)
}

/// What is looked for: the text typed, without the space around it, in
/// lower case.
pub open spec fn needle(filter: Filter) -> Seq<char> {
    text::lowercase(text::trimmed(filter.text@))
}

/// Whether a text holds what is looked for, whatever its case.
pub open spec fn shows(field: Seq<char>, needle: Seq<char>) -> bool {
    text::holds(text::lowercase(field), needle)
}

/// Whether a text that may be missing holds what is looked for.
pub open spec fn may_show(field: Option<String>, needle: Seq<char>) -> bool {
    match field {
        Some(field) => shows(field@, needle),
        None => false,
    }
}

/// Whether anything that an event's line shows holds the text typed.
pub open spec fn text_matches(filter: Filter, event: Event) -> bool {
    let needle = needle(filter);
    needle.len() == 0 || shows(event.path@, needle) || may_show(event.to, needle) || shows(
        event.note@,
        needle,
    ) || may_show(event.failed, needle) || may_show(event.shell, needle) || shows(
        journal::event_label(event),
        needle,
    )
}

/// Whether a run's heading holds the text typed.
pub open spec fn heading_shows(filter: Filter, group: Group) -> bool {
    needle(filter).len() == 0 || shows(group.summary@, needle(filter))
}

/// The events of a run that a filter lets through.
pub open spec fn kept_events(filter: Filter, events: Seq<Event>, by_heading: bool) -> Seq<Event>
    decreases events.len(),
{
    if events.len() == 0 {
        Seq::empty()
    } else {
        let front = kept_events(filter, events.drop_last(), by_heading);
        let event = events.last();
        if (!filter.failures_only || event.failed is Some) && (by_heading || text_matches(
            filter,
            event,
        )) {
            front.push(event)
        } else {
            front
        }
    }
}

/// What a filter leaves of a row.
pub open spec fn kept_row(filter: Filter, row: RowView) -> Option<RowView> {
    match row {
        RowView::One(event) => {
            if allows(filter, event.kind) && (!filter.failures_only || event.failed is Some)
                && text_matches(filter, event) {
                Some(row)
            } else {
                None
            }
        },
        RowView::Run { group, events, took } => {
            let kept = kept_events(filter, events, heading_shows(filter, group));
            if !allows(filter, group.kind) || (kept.len() == 0 && !filter_is_open(filter)) {
                None
            } else {
                Some(RowView::Run { group, events: kept, took })
            }
        },
    }
}

/// What a filter leaves of some rows.
pub open spec fn kept_rows(filter: Filter, rows: Seq<RowView>) -> Seq<RowView>
    decreases rows.len(),
{
    if rows.len() == 0 {
        Seq::empty()
    } else {
        match kept_row(filter, rows.last()) {
            Some(row) => kept_rows(filter, rows.drop_last()).push(row),
            None => kept_rows(filter, rows.drop_last()),
        }
    }
}

proof fn lemma_seek_kind(kinds: Seq<Kind>, kind: Kind, from: int)
    requires
        0 <= from <= kinds.len(),
    ensures
        from <= seek_kind(kinds, kind, from) <= kinds.len(),
        seek_kind(kinds, kind, from) < kinds.len() ==> kinds[seek_kind(kinds, kind, from)] == kind,
        forall|i: int| from <= i < seek_kind(kinds, kind, from) ==> kinds[i] != kind,
    decreases kinds.len() - from,
{
    if from < kinds.len() && kinds[from] != kind {
        lemma_seek_kind(kinds, kind, from + 1);
    }
}

fn find_kind(kinds: &Vec<Kind>, kind: Kind) -> (r: Option<usize>)
    ensures
        match r {
            Some(at) => at < kinds@.len() && seek_kind(kinds@, kind, 0) == at,
            None => seek_kind(kinds@, kind, 0) == kinds@.len(),
        },
{
    let mut i: usize = 0;
    while i < kinds.len()
        invariant
            i <= kinds@.len(),
            seek_kind(kinds@, kind, 0) == seek_kind(kinds@, kind, i as int),
        decreases kinds@.len() - i,
    {
        if kinds[i] == kind {
            return Some(i);
        }
        i += 1;
    }
    None
}

fn field_shows(field: &str, wanted: &str) -> (r: bool)
    ensures
        r == shows(field@, wanted@),
{
    let small: String = text::to_lowercase(field);
    text::contains(small.as_str(), wanted)
}

fn field_may_show(field: &Option<String>, wanted: &str) -> (r: bool)
    ensures
        r == may_show(*field, wanted@),
{
    match field {
        Some(field) => field_shows(field.as_str(), wanted),
        None => false,
    }
}

impl Filter {
    pub fn is_open(&self) -> (r: bool)
        ensures
            r == filter_is_open(*self),
    {
        self.kinds.len() == 0 && !self.failures_only && text::is_blank(self.text.as_str())
    }

    pub fn toggle(&mut self, kind: Kind)
        ensures
            final(self).kinds@ == toggled(old(self).kinds@, kind),
            final(self).failures_only == old(self).failures_only,
            final(self).text == old(self).text,
    {
        match find_kind(&self.kinds, kind) {
            Some(at) => {
                self.kinds.remove(at);
            },
            None => {
                self.kinds.push(kind);
            },
        }
    }

    pub fn has(&self, kind: Kind) -> (r: bool)
        ensures
            r == self.kinds@.contains(kind),
    {
        proof {
            lemma_seek_kind(self.kinds@, kind, 0);
        }
        find_kind(&self.kinds, kind).is_some()
    }

    fn allows_kind(&self, kind: Kind) -> (r: bool)
        ensures
            r == allows(*self, kind),
    {
        self.kinds.len() == 0 || self.has(kind)
    }

    fn wanted(&self) -> (r: String)
        ensures
            r@ == needle(*self),
    {
        text::to_lowercase(text::trim(self.text.as_str()))
    }

    /// Whether an entry matches what was typed in the search box: everything
    /// the line shows is searched, not the path alone.
    pub fn matches_text(&self, event: &Event) -> (r: bool)
        ensures
            r == text_matches(*self, *event),
    {
        let wanted: String = self.wanted();
        let wanted: &str = wanted.as_str();
        wanted.is_empty() || field_shows(event.path.as_str(), wanted) || field_may_show(
            &event.to,
            wanted,
        ) || field_shows(event.note.as_str(), wanted) || field_may_show(&event.failed, wanted)
            || field_may_show(&event.shell, wanted) || field_shows(event.label(), wanted)
    }

    /// The same question of a run's heading.
    pub fn heading_matches(&self, group: &Group) -> (r: bool)
        ensures
            r == heading_shows(*self, *group),
    {
        let wanted: String = self.wanted();
        wanted.as_str().is_empty() || field_shows(group.summary.as_str(), wanted.as_str())
    }

    fn keep_events(&self, events: Vec<Event>, by_heading: bool) -> (r: Vec<Event>)
        ensures
            r@ == kept_events(*self, events@, by_heading),
    {
        let ghost all = events@;
        let mut kept: Vec<Event> = Vec::new();
        assert(all.take(0) =~= Seq::<Event>::empty());
        for event in it: events
            invariant
                it.seq() == all,
                kept@ == kept_events(*self, all.take(it.index() as int), by_heading),
        {
            proof {
                let i = it.index() as int;
                assert(all.take(i + 1).drop_last() =~= all.take(i));
                assert(all.take(i + 1).last() == all[i]);
            }
            if (!self.failures_only || event.is_failure()) && (by_heading || self.matches_text(
                &event,
            )) {
                kept.push(event);
            }
        }
        assert(all.take(all.len() as int) =~= all);
        kept
    }

    fn keep_row(&self, row: Row) -> (r: Option<Row>)
        ensures
            match r {
                Some(kept) => kept_row(*self, row@) == Some(kept@),
                None => kept_row(*self, row@) is None,
            },
    {
        match row {
            Row::One(event) => {
                let keep: bool = self.allows_kind(event.kind) && (!self.failures_only
                    || event.is_failure()) && self.matches_text(&event);
                if keep {
                    Some(Row::One(event))
                } else {
                    None
                }
            },
            Row::Run { group, events, took } => {
                if !self.allows_kind(group.kind) {
                    return None;
                }
                let by_heading: bool = self.heading_matches(&group);
                let kept: Vec<Event> = self.keep_events(events, by_heading);
                if kept.len() == 0 && !self.is_open() {
                    return None;
                }
                Some(Row::Run { group, events: kept, took })
            },
        }
    }

    /// Keep the rows the filter allows, trimming a run's events to those that
    /// match rather than dropping the whole run.
    ///
    /// A run whose heading matches keeps all of its files; a run with one
    /// matching file is kept, showing that one; a run that recorded nothing
    /// at all is still shown under an open filter.
    pub fn apply(&self, rows: Vec<Row>) -> (r: Vec<Row>)
        ensures
            row_views(r@) == kept_rows(*self, row_views(rows@)),
    {
        let ghost all = row_views(rows@);
        let ghost given = rows@;
        let mut out: Vec<Row> = Vec::new();
        assert(all.take(0) =~= Seq::<RowView>::empty());
        assert(row_views(out@) =~= Seq::empty());
        for row in it: rows
            invariant
                it.seq() == given,
                all == row_views(given),
                row_views(out@) == kept_rows(*self, all.take(it.index() as int)),
        {
            proof {
                let i = it.index() as int;
                assert(all.take(i + 1).drop_last() =~= all.take(i));
                assert(all.take(i + 1).last() == given[i]@);
            }
            if let Some(kept) = self.keep_row(row) {
                let ghost was = row_views(out@);
                out.push(kept);
                assert(row_views(out@) =~= was.push(kept@));
            }
        }
        assert(all.take(all.len() as int) =~= all);
        out
    }
}

// ---- lines ------------------------------------------------------------------------------------

/// One drawable line of the account: a run is its heading followed by its
/// files. Indices rather than borrows, so the list can be built once while
/// the rows stay owned by whoever owns them.
#[derive(Debug, Clone, Copy, PartialEq, Eq, Structural)]
pub enum Line {
    /// A run's heading.
    Heading { row: usize },
    /// One file, belonging to the run above it.
    Under { row: usize, event: usize },
    /// One file that stood on its own.
    Alone { row: usize },
}

impl Line {
    pub fn row(&self) -> (r: usize)
        ensures
            r == match *self {
                Line::Heading { row } => row,
                Line::Under { row, .. } => row,
                Line::Alone { row } => row,
            },
    {
        match self {
            Line::Heading { row } => *row,
            Line::Under { row, .. } => *row,
            Line::Alone { row } => *row,
        }
    }

    pub fn is_heading(&self) -> (r: bool)
        ensures
            r == (*self is Heading),
    {
        match self {
            Line::Heading { .. } => true,
            _ => false,
        }
    }
}

/// The lines of one row.
pub open spec fn lines_of_row(row: RowView, at: int) -> Seq<Line> {
    match row {
        RowView::One(_) => seq![Line::Alone { row: at as usize }],
        RowView::Run { events, .. } => seq![Line::Heading { row: at as usize }] + Seq::new(
            events.len(),
            |event: int| Line::Under { row: at as usize, event: event as usize },
        ),
    }
}

/// The lines of some rows, one after another.
pub open spec fn lines_of(rows: Seq<RowView>) -> Seq<Line>
    decreases rows.len(),
{
    if rows.len() == 0 {
        Seq::empty()
    } else {
        lines_of(rows.drop_last()) + lines_of_row(rows.last(), rows.len() - 1)
    }
}

/// Flatten rows into lines, headings and all.
pub fn lines(rows: &[Row]) -> (r: Vec<Line>)
    ensures
        r@ == lines_of(row_views(rows@)),
{
    let ghost all = row_views(rows@);
    let mut out: Vec<Line> = Vec::new();
    let mut at: usize = 0;
    assert(all.take(0) =~= Seq::<RowView>::empty());
    while at < rows.len()
        invariant
            at <= rows@.len(),
            all == row_views(rows@),
            out@ == lines_of(all.take(at as int)),
        decreases rows@.len() - at,
    {
        proof {
            assert(all.take(at + 1).drop_last() =~= all.take(at as int));
            assert(all.take(at + 1).last() == rows@[at as int]@);
        }
        let ghost was = out@;
        match &rows[at] {
            Row::One(_) => {
                out.push(Line::Alone { row: at });
                assert(out@ =~= was + lines_of_row(rows@[at as int]@, at as int));
            },
            Row::Run { events, .. } => {
                out.push(Line::Heading { row: at });
                let mut event: usize = 0;
                while event < events.len()
                    invariant
                        event <= events@.len(),
                        out@ =~= was + seq![Line::Heading { row: at }] + Seq::new(
                            event as nat,
                            |event: int| Line::Under { row: at, event: event as usize },
                        ),
                    decreases events@.len() - event,
                {
                    out.push(Line::Under { row: at, event });
                    event += 1;
                }
                assert(out@ =~= was + lines_of_row(rows@[at as int]@, at as int));
            },
        }
        at += 1;
    }
    assert(all.take(at as int) =~= all);
    out
}

/// The event that one line is about, if it is about one.
pub open spec fn event_of_line(rows: Seq<RowView>, line: Line) -> Option<Event> {
    match line {
        Line::Heading { .. } => None,
        Line::Alone { row } => {
            if row < rows.len() {
                match rows[row as int] {
                    RowView::One(event) => Some(event),
                    _ => None,
                }
            } else {
                None
            }
        },
        Line::Under { row, event } => {
            if row < rows.len() {
                match rows[row as int] {
                    RowView::Run { events, .. } => if event < events.len() {
                        Some(events[event as int])
                    } else {
                        None
                    },
                    _ => None,
                }
            } else {
                None
            }
        },
    }
}

/// The event one line is about, if it is about one.
pub fn event_at<'a>(rows: &'a [Row], line: &Line) -> (r: Option<&'a Event>)
    ensures
        match r {
            Some(event) => event_of_line(row_views(rows@), *line) == Some(*event),
            None => event_of_line(row_views(rows@), *line) is None,
        },
{
    match line {
        Line::Heading { .. } => None,
        Line::Alone { row } => {
            if *row >= rows.len() {
                return None;
            }
            match &rows[*row] {
                Row::One(event) => Some(event),
                Row::Run { .. } => None,
            }
        },
        Line::Under { row, event } => {
            if *row >= rows.len() {
                return None;
            }
            match &rows[*row] {
                Row::Run { events, .. } => {
                    if *event >= events.len() {
                        return None;
                    }
                    Some(&events[*event])
                },
                Row::One(_) => None,
            }
        },
    }
}

// ---- counting ---------------------------------------------------------------------------------

/// Counts for the line above the list.
#[derive(Debug, Clone, Copy, PartialEq, Eq, Structural)]
pub struct Tally {
    pub rows: usize,
    pub items: usize,
    pub failures: usize,
}

impl Default for Tally {
    fn default() -> (r: Tally)
        ensures
            r == (Tally { rows: 0, items: 0, failures: 0 }),
    {
        Tally { rows: 0, items: 0, failures: 0 }
    }
}

/// How many files some rows account for.
pub open spec fn items_in(rows: Seq<RowView>) -> nat
    decreases rows.len(),
{
    if rows.len() == 0 {
        0
    } else {
        items_in(rows.drop_last()) + row_items(rows.last())
    }
}

/// How many failures some rows account for.
pub open spec fn all_failures(rows: Seq<RowView>) -> nat
    decreases rows.len(),
{
    if rows.len() == 0 {
        0
    } else {
        all_failures(rows.drop_last()) + row_failures(rows.last())
    }
}

proof fn lemma_items_grow(rows: Seq<RowView>, to: int)
    requires
        0 <= to <= rows.len(),
    ensures
        items_in(rows.take(to)) <= items_in(rows),
    decreases rows.len() - to,
{
    if to < rows.len() {
        lemma_items_grow(rows, to + 1);
        assert(rows.take(to + 1).drop_last() =~= rows.take(to));
    } else {
        assert(rows.take(to) =~= rows);
    }
}

pub fn tally(rows: &[Row]) -> (r: Tally)
    requires
        items_in(row_views(rows@)) <= usize::MAX,
    ensures
        r.rows == rows@.len(),
        r.items == items_in(row_views(rows@)),
        r.failures == all_failures(row_views(rows@)),
{
    let ghost all = row_views(rows@);
    let mut items: usize = 0;
    let mut failures: usize = 0;
    let mut at: usize = 0;
    assert(all.take(0) =~= Seq::<RowView>::empty());
    while at < rows.len()
        invariant
            at <= rows@.len(),
            all == row_views(rows@),
            items_in(all) <= usize::MAX,
            items == items_in(all.take(at as int)),
            failures == all_failures(all.take(at as int)),
            failures <= items,
        decreases rows@.len() - at,
    {
        proof {
            assert(all.take(at + 1).drop_last() =~= all.take(at as int));
            assert(all.take(at + 1).last() == rows@[at as int]@);
            lemma_items_grow(all, at + 1);
        }
        failures = failures + rows[at].failures();
        items = items + rows[at].items();
        at += 1;
    }
    assert(all.take(at as int) =~= all);
    Tally { rows: rows.len(), items, failures }
}

// ---- laws -------------------------------------------------------------------------------------

/// What a row is a record of.
pub open spec fn events_of(row: RowView) -> Seq<Event> {
    match row {
        RowView::Run { events, .. } => events,
        RowView::One(event) => seq![event],
    }
}

/// Every event that some rows hold, with how often.
pub open spec fn held(rows: Seq<RowView>) -> Multiset<Event>
    decreases rows.len(),
{
    if rows.len() == 0 {
        Multiset::empty()
    } else {
        held(rows.drop_last()).add(events_of(rows.last()).to_multiset())
    }
}

proof fn lemma_held_push(rows: Seq<RowView>, row: RowView)
    ensures
        held(rows.push(row)) == held(rows).add(events_of(row).to_multiset()),
{
    assert(rows.push(row).drop_last() =~= rows);
}

proof fn lemma_held_placed(rows: Seq<RowView>, row: RowView, less: spec_fn(
    RowView,
    RowView,
) -> bool)
    ensures
        held(order::placed(rows, row, less)) == held(rows.push(row)),
    decreases rows.len(),
{
    lemma_held_push(rows, row);
    if rows.len() > 0 && less(row, rows.last()) {
        let front = rows.drop_last();
        lemma_held_placed(front, row, less);
        lemma_held_push(front, row);
        lemma_held_push(order::placed(front, row, less), rows.last());
        assert(held(order::placed(rows, row, less)) =~= held(rows.push(row)));
    }
}

proof fn lemma_held_sorted(rows: Seq<RowView>, less: spec_fn(RowView, RowView) -> bool)
    ensures
        held(order::sorted(rows, less)) == held(rows),
    decreases rows.len(),
{
    if rows.len() > 0 {
        let front = rows.drop_last();
        lemma_held_sorted(front, less);
        lemma_held_placed(order::sorted(front, less), rows.last(), less);
        lemma_held_push(order::sorted(front, less), rows.last());
    }
}

proof fn lemma_held_update(rows: Seq<RowView>, at: int, event: Event)
    requires
        0 <= at < rows.len(),
        rows[at] is Run,
    ensures
        held(rows.update(at, with_event(rows[at], event))) == held(rows).insert(event),
    decreases rows.len(),
{
    broadcast use vstd::seq_lib::group_to_multiset_ensures;

    let filled = rows.update(at, with_event(rows[at], event));
    if at == rows.len() - 1 {
        assert(filled.drop_last() =~= rows.drop_last());
        assert(held(filled) =~= held(rows).insert(event));
    } else {
        lemma_held_update(rows.drop_last(), at, event);
        assert(filled.drop_last() =~= rows.drop_last().update(
            at,
            with_event(rows.drop_last()[at], event),
        ));
        assert(held(filled) =~= held(rows).insert(event));
    }
}

proof fn lemma_held_event(rows: Seq<RowView>, event: Event)
    ensures
        held(event_placed(rows, event)) == held(rows).insert(event),
{
    broadcast use vstd::seq_lib::group_to_multiset_ensures;

    if event.group is Some && run_of(rows, event.group->0, 0) < rows.len() {
        lemma_run_of(rows, event.group->0, 0);
        lemma_held_update(rows, run_of(rows, event.group->0, 0), event);
    } else {
        lemma_held_push(rows, RowView::One(event));
        assert(seq![event] =~= Seq::<Event>::empty().push(event));
        assert(seq![event].to_multiset() =~= Multiset::<Event>::empty().insert(event));
        assert(held(event_placed(rows, event)) =~= held(rows).insert(event));
    }
}

proof fn lemma_held_events(rows: Seq<RowView>, events: Seq<Event>)
    ensures
        held(events_placed(rows, events)) == held(rows).add(events.to_multiset()),
    decreases events.len(),
{
    broadcast use vstd::seq_lib::group_to_multiset_ensures;

    if events.len() > 0 {
        let front = events.drop_last();
        lemma_held_events(rows, front);
        lemma_held_event(events_placed(rows, front), events.last());
        assert(events =~= front.push(events.last()));
        assert(held(events_placed(rows, events)) =~= held(rows).add(events.to_multiset()));
    } else {
        assert(held(events_placed(rows, events)) =~= held(rows).add(events.to_multiset()));
    }
}

proof fn lemma_headings_hold_nothing(groups: Seq<Group>, done: Seq<Done>)
    ensures
        held(heading_rows(groups, done)) == Multiset::<Event>::empty(),
    decreases groups.len(),
{
    broadcast use vstd::seq_lib::group_to_multiset_ensures;

    if groups.len() > 0 {
        lemma_headings_hold_nothing(groups.drop_last(), done);
        assert(heading_rows(groups, done).drop_last() =~= heading_rows(groups.drop_last(), done));
        assert(held(heading_rows(groups, done)) =~= Multiset::<Event>::empty());
    }
}

/// No event vanishes and none is made up: the rows of a day hold exactly the
/// events that were recorded, each as often.
pub proof fn law_no_event_vanishes(records: Seq<Record>)
    ensures
        held(arranged(records)) == events_in(records).to_multiset(),
{
    let headings = heading_rows(groups_in(records), ends_in(records));
    lemma_headings_hold_nothing(groups_in(records), ends_in(records));
    lemma_held_events(headings, events_in(records));
    lemma_held_sorted(rows_of(records), latest_first());
    assert(held(arranged(records)) =~= events_in(records).to_multiset());
}

/// The rows of a day come newest first.
pub proof fn law_rows_come_newest_first(records: Seq<Record>, i: int, j: int)
    requires
        0 <= i < j < arranged(records).len(),
    ensures
        row_at(arranged(records)[i]) >= row_at(arranged(records)[j]),
{
    assert(order::orders(latest_first()));
    order::law_sorting_puts_in_order(rows_of(records), latest_first());
}

proof fn lemma_open_keeps_events(filter: Filter, events: Seq<Event>, by_heading: bool)
    requires
        filter_is_open(filter),
    ensures
        kept_events(filter, events, by_heading) == events,
    decreases events.len(),
{
    if events.len() > 0 {
        lemma_open_keeps_events(filter, events.drop_last(), by_heading);
        assert(text_matches(filter, events.last()));
        assert(events =~= events.drop_last().push(events.last()));
    } else {
        assert(kept_events(filter, events, by_heading) =~= events);
    }
}

/// An open filter shows every row as it is.
pub proof fn law_open_filter_shows_everything(filter: Filter, rows: Seq<RowView>)
    requires
        filter_is_open(filter),
    ensures
        kept_rows(filter, rows) == rows,
    decreases rows.len(),
{
    if rows.len() > 0 {
        law_open_filter_shows_everything(filter, rows.drop_last());
        match rows.last() {
            RowView::One(event) => {
                assert(text_matches(filter, event));
            },
            RowView::Run { group, events, took } => {
                lemma_open_keeps_events(filter, events, heading_shows(filter, group));
            },
        }
        assert(rows =~= rows.drop_last().push(rows.last()));
    } else {
        assert(kept_rows(filter, rows) =~= rows);
    }
}

/// Switching a kind twice, where it was not chosen, changes nothing.
pub proof fn law_toggling_twice_changes_nothing(kinds: Seq<Kind>, kind: Kind)
    requires
        !kinds.contains(kind),
    ensures
        toggled(toggled(kinds, kind), kind) == kinds,
{
    lemma_seek_kind(kinds, kind, 0);
    let once = kinds.push(kind);
    assert(toggled(kinds, kind) == once);
    lemma_seek_kind(once, kind, 0);
    let at = seek_kind(once, kind, 0);
    assert(once[kinds.len() as int] == kind);
    if at < kinds.len() {
        assert(once[at] == kinds[at]);
    }
    assert(once.remove(at) =~= kinds);
}

/// Every line but a heading is about an event that is there.
pub proof fn law_every_line_leads_somewhere(rows: Seq<RowView>, i: int)
    requires
        0 <= i < lines_of(rows).len(),
        rows.len() <= usize::MAX,
        forall|r: int| 0 <= r < rows.len() ==> row_items(#[trigger] rows[r]) <= usize::MAX,
    ensures
        lines_of(rows)[i] is Heading <==> event_of_line(rows, lines_of(rows)[i]) is None,
    decreases rows.len(),
{
    if rows.len() > 0 {
        let front = rows.drop_last();
        if i < lines_of(front).len() {
            law_every_line_leads_somewhere(front, i);
            lemma_lines_stay_inside(front, i);
        } else {
            let at = rows.len() - 1;
            let own = lines_of_row(rows.last(), at);
            assert(lines_of(rows)[i] == own[i - lines_of(front).len()]);
            assert(rows[at] == rows.last());
        }
    }
}

proof fn lemma_lines_stay_inside(rows: Seq<RowView>, i: int)
    requires
        0 <= i < lines_of(rows).len(),
        rows.len() <= usize::MAX,
    ensures
        match lines_of(rows)[i] {
            Line::Heading { row } => row < rows.len(),
            Line::Under { row, .. } => row < rows.len(),
            Line::Alone { row } => row < rows.len(),
        },
    decreases rows.len(),
{
    if rows.len() > 0 {
        let front = rows.drop_last();
        if i < lines_of(front).len() {
            lemma_lines_stay_inside(front, i);
        } else {
            let own = lines_of_row(rows.last(), rows.len() - 1);
            assert(lines_of(rows)[i] == own[i - lines_of(front).len()]);
        }
    }
}

/// The events of a list that belong to a run.
pub open spec fn of_run(events: Seq<Event>, id: u64) -> Seq<Event> {
    events.filter(|event: Event| event.group == Some(id))
}

spec fn first_heading(groups: Seq<Group>, k: int) -> bool {
    forall|j: int| 0 <= j < k ==> (#[trigger] groups[j]).id != groups[k].id
}

/// How the rows stand after some events were put under their runs.
spec fn rows_stand(
    rows: Seq<RowView>,
    groups: Seq<Group>,
    done: Seq<Done>,
    events: Seq<Event>,
) -> bool {
    &&& groups.len() <= rows.len()
    &&& forall|k: int|
        0 <= k < groups.len() ==> (#[trigger] rows[k]) == (RowView::Run {
            group: groups[k],
            events: if first_heading(groups, k) {
                of_run(events, groups[k].id)
            } else {
                Seq::empty()
            },
            took: took_by(done, groups[k].id, 0),
        })
    &&& forall|k: int|
        groups.len() <= k < rows.len() ==> (#[trigger] rows[k]) is One && events.contains(
            rows[k]->One_0,
        ) && stands_alone(groups, rows[k]->One_0)
}

/// Whether an event stands alone: it names no run, or one that has no
/// heading.
pub open spec fn stands_alone(groups: Seq<Group>, event: Event) -> bool {
    event.group is None || forall|j: int|
        0 <= j < groups.len() ==> (#[trigger] groups[j]).id != event.group->0
}

proof fn lemma_first_run(rows: Seq<RowView>, id: u64, from: int)
    requires
        0 <= from <= rows.len(),
    ensures
        ({
            let at = run_of(rows, id, from);
            &&& from <= at <= rows.len()
            &&& at < rows.len() ==> rows[at] is Run && rows[at]->group.id == id
            &&& forall|k: int|
                from <= k < at ==> !((#[trigger] rows[k]) is Run && rows[k]->group.id == id)
        }),
    decreases rows.len() - from,
{
    if from < rows.len() {
        if !(rows[from] is Run && rows[from]->group.id == id) {
            lemma_first_run(rows, id, from + 1);
        }
    }
}

proof fn lemma_rows_stand(groups: Seq<Group>, done: Seq<Done>, events: Seq<Event>)
    ensures
        rows_stand(
            events_placed(heading_rows(groups, done), events),
            groups,
            done,
            events,
        ),
    decreases events.len(),
{
    reveal(Seq::filter);
    let start = heading_rows(groups, done);
    let out = events_placed(start, events);
    if events.len() == 0 {
        assert forall|k: int| 0 <= k < groups.len() implies (#[trigger] out[k]) == (RowView::Run {
            group: groups[k],
            events: if first_heading(groups, k) {
                of_run(events, groups[k].id)
            } else {
                Seq::empty()
            },
            took: took_by(done, groups[k].id, 0),
        }) by {
            assert(of_run(events, groups[k].id) =~= Seq::<Event>::empty());
        }
    } else {
        let before = events.drop_last();
        let event = events.last();
        let rows = events_placed(start, before);
        lemma_rows_stand(groups, done, before);
        assert(events[events.len() - 1] == event);
        assert forall|e: Event| before.contains(e) implies events.contains(e) by {
            let m = choose|m: int| 0 <= m < before.len() && before[m] == e;
            assert(events[m] == e);
        }
        match event.group {
            Some(id) => {
                let at = run_of(rows, id, 0);
                lemma_first_run(rows, id, 0);
                if at < rows.len() {
                    assert(at < groups.len());
                    assert(first_heading(groups, at)) by {
                        assert forall|j: int| 0 <= j < at implies (#[trigger] groups[j]).id
                            != groups[at].id by {
                            assert(rows[j] is Run);
                        }
                    }
                    assert forall|k: int| 0 <= k < groups.len() implies (#[trigger] out[k]) == (
                    RowView::Run {
                        group: groups[k],
                        events: if first_heading(groups, k) {
                            of_run(events, groups[k].id)
                        } else {
                            Seq::empty()
                        },
                        took: took_by(done, groups[k].id, 0),
                    }) by {
                        assert(rows[k] is Run);
                        if k != at && first_heading(groups, k) && groups[k].id == id {
                            if k < at {
                                assert(rows[k]->group.id == id);
                            } else {
                                assert(groups[at].id != groups[k].id);
                            }
                        }
                    }
                    assert forall|k: int| groups.len() <= k < out.len() implies (#[trigger] out[k])
                        is One && events.contains(out[k]->One_0) && stands_alone(
                        groups,
                        out[k]->One_0,
                    ) by {
                        assert(out[k] == rows[k]);
                    }
                } else {
                    assert(stands_alone(groups, event)) by {
                        assert forall|j: int| 0 <= j < groups.len() implies (
                        #[trigger] groups[j]).id != id by {
                            assert(rows[j] is Run);
                        }
                    }
                    assert forall|k: int| 0 <= k < groups.len() implies (#[trigger] out[k]) == (
                    RowView::Run {
                        group: groups[k],
                        events: if first_heading(groups, k) {
                            of_run(events, groups[k].id)
                        } else {
                            Seq::empty()
                        },
                        took: took_by(done, groups[k].id, 0),
                    }) by {
                        assert(out[k] == rows[k]);
                        assert(groups[k].id != id);
                    }
                    assert forall|k: int| groups.len() <= k < out.len() implies (#[trigger] out[k])
                        is One && events.contains(out[k]->One_0) && stands_alone(
                        groups,
                        out[k]->One_0,
                    ) by {
                        if k < rows.len() {
                            assert(out[k] == rows[k]);
                        }
                    }
                }
            },
            None => {
                assert forall|k: int| 0 <= k < groups.len() implies (#[trigger] out[k]) == (
                RowView::Run {
                    group: groups[k],
                    events: if first_heading(groups, k) {
                        of_run(events, groups[k].id)
                    } else {
                        Seq::empty()
                    },
                    took: took_by(done, groups[k].id, 0),
                }) by {
                    assert(out[k] == rows[k]);
                }
                assert forall|k: int| groups.len() <= k < out.len() implies (#[trigger] out[k]) is One
                    && events.contains(out[k]->One_0) && stands_alone(groups, out[k]->One_0) by {
                    if k < rows.len() {
                        assert(out[k] == rows[k]);
                    }
                }
            },
        }
    }
}

/// Every run has a row, with all the events that name it and no other, in the
/// order they were recorded, and with how long it took.
pub proof fn law_a_run_has_its_own_events(records: Seq<Record>, k: int)
    requires
        0 <= k < groups_in(records).len(),
        forall|j: int|
            0 <= j < k ==> (#[trigger] groups_in(records)[j]).id != groups_in(records)[k].id,
    ensures
        exists|i: int|
            0 <= i < arranged(records).len() && (#[trigger] arranged(records)[i]) == (RowView::Run {
                group: groups_in(records)[k],
                events: events_in(records).filter(
                    |event: Event| event.group == Some(groups_in(records)[k].id),
                ),
                took: took_by(ends_in(records), groups_in(records)[k].id, 0),
            }),
{
    broadcast use vstd::seq_lib::group_to_multiset_ensures;

    let groups = groups_in(records);
    lemma_rows_stand(groups, ends_in(records), events_in(records));
    let rows = rows_of(records);
    let row = rows[k];
    assert(first_heading(groups, k));
    assert(row == (RowView::Run {
        group: groups[k],
        events: of_run(events_in(records), groups[k].id),
        took: took_by(ends_in(records), groups[k].id, 0),
    }));
    order::law_sorting_keeps_everything(rows, latest_first());
    let out = arranged(records);
    assert(rows.contains(row));
    assert(rows.to_multiset().count(row) > 0);
    assert(out.to_multiset().count(row) > 0);
    assert(out.contains(row));
    let i = choose|i: int| 0 <= i < out.len() && out[i] == row;
    assert(out[i] == row);
    assert(of_run(events_in(records), groups[k].id) =~= events_in(records).filter(
        |event: Event| event.group == Some(groups_in(records)[k].id),
    ));
}

/// A row of its own has an event that names no run, or one whose heading is
/// not there.
pub proof fn law_only_events_without_a_heading_stand_alone(records: Seq<Record>, i: int)
    requires
        0 <= i < arranged(records).len(),
        arranged(records)[i] is One,
    ensures
        stands_alone(groups_in(records), arranged(records)[i]->One_0),
        events_in(records).contains(arranged(records)[i]->One_0),
{
    broadcast use vstd::seq_lib::group_to_multiset_ensures;

    let rows = rows_of(records);
    lemma_rows_stand(groups_in(records), ends_in(records), events_in(records));
    order::law_sorting_keeps_everything(rows, latest_first());
    let row = arranged(records)[i];
    assert(arranged(records).contains(row));
    assert(arranged(records).to_multiset().count(row) > 0);
    assert(rows.contains(row));
    let k = choose|k: int| 0 <= k < rows.len() && rows[k] == row;
    if k < groups_in(records).len() {
        assert(rows[k] is Run);
    }
}

/// A run took as long as the first end of it that was recorded says, and
/// nothing where none was.
pub proof fn law_a_run_took_what_its_end_says(done: Seq<Done>, id: u64)
    ensures
        match took_by(done, id, 0) {
            Some(ms) => exists|i: int|
                0 <= i < done.len() && (#[trigger] done[i]).id == id && done[i].ms == ms
                    && forall|j: int| 0 <= j < i ==> (#[trigger] done[j]).id != id,
            None => forall|i: int| 0 <= i < done.len() ==> (#[trigger] done[i]).id != id,
        },
{
    lemma_took_by(done, id, 0);
}

proof fn lemma_took_by(done: Seq<Done>, id: u64, from: int)
    requires
        0 <= from <= done.len(),
    ensures
        match took_by(done, id, from) {
            Some(ms) => exists|i: int|
                from <= i < done.len() && (#[trigger] done[i]).id == id && done[i].ms == ms
                    && forall|j: int| from <= j < i ==> (#[trigger] done[j]).id != id,
            None => forall|i: int| from <= i < done.len() ==> (#[trigger] done[i]).id != id,
        },
    decreases done.len() - from,
{
    if from < done.len() {
        if done[from].id == id {
            assert(done[from].id == id);
        } else {
            lemma_took_by(done, id, from + 1);
            if let Some(ms) = took_by(done, id, from + 1) {
                let i = choose|i: int|
                    from + 1 <= i < done.len() && (#[trigger] done[i]).id == id && done[i].ms == ms
                        && forall|j: int| from + 1 <= j < i ==> (#[trigger] done[j]).id != id;
                assert(done[i].id == id);
            }
        }
    }
}

/// The records of a day are parted by what they are, in their order.
pub proof fn law_records_are_parted_by_what_they_are(first: Seq<Record>, record: Record)
    ensures
        groups_in(first.push(record)) == match record {
            Record::Group(group) => groups_in(first).push(group),
            _ => groups_in(first),
        },
        events_in(first.push(record)) == match record {
            Record::Event(event) => events_in(first).push(event),
            _ => events_in(first),
        },
        ends_in(first.push(record)) == match record {
            Record::Done(done) => ends_in(first).push(done),
            _ => ends_in(first),
        },
{
    assert(first.push(record).drop_last() =~= first);
}

/// What is on screen can be found: an event is found exactly where the text
/// that was typed, in small letters and without the space around it, stands
/// in something that its line shows, in small letters.
pub proof fn law_what_is_shown_can_be_found(filter: Filter, event: Event, field: Seq<char>)
    requires
        text::trimmed(filter.text@).len() > 0,
        text::all_ascii(text::trimmed(filter.text@)),
    ensures
        ({
            let sought = text::lowercase(text::trimmed(filter.text@));
            let shown = |field: Seq<char>| text::holds(text::lowercase(field), sought);
            &&& (field == event.path@ || field == event.note@ || (event.to is Some && field
                == event.to->0@) || (event.failed is Some && field == event.failed->0@) || (
            event.shell is Some && field == event.shell->0@) || field == journal::event_label(
                event,
            )) && shown(field) ==> text_matches(filter, event)
            &&& text_matches(filter, event) ==> shown(event.path@) || shown(event.note@) || (
            event.to is Some && shown(event.to->0@)) || (event.failed is Some && shown(
                event.failed->0@,
            )) || (event.shell is Some && shown(event.shell->0@)) || shown(
                journal::event_label(event),
            )
        }),
{
}

/// The events that a filter keeps of a run: those that failed, where only
/// those were asked for, and that show the text, unless the heading does; in
/// their order.
pub proof fn law_a_run_keeps_what_matches(filter: Filter, events: Seq<Event>, by_heading: bool)
    ensures
        kept_events(filter, events, by_heading) == events.filter(
            |event: Event|
                (filter.failures_only ==> event.failed is Some) && (by_heading || text_matches(
                    filter,
                    event,
                )),
        ),
    decreases events.len(),
{
    reveal(Seq::filter);
    if events.len() > 0 {
        law_a_run_keeps_what_matches(filter, events.drop_last(), by_heading);
    }
}

/// A filter looks at each row by itself and keeps the order. A single event
/// is kept where its kind is asked for, it failed where only those were asked
/// for, and it shows the text; a run where its kind is asked for and
/// something of it is left.
pub proof fn law_a_filter_keeps_what_was_asked_for(
    filter: Filter,
    first: Seq<RowView>,
    second: Seq<RowView>,
    event: Event,
    group: Group,
    events: Seq<Event>,
    took: Option<u64>,
)
    ensures
        kept_rows(filter, first + second) == kept_rows(filter, first) + kept_rows(filter, second),
        ({
            let wanted = |kind: Kind| filter.kinds@.len() == 0 || filter.kinds@.contains(kind);
            let one = seq![RowView::One(event)];
            let run = seq![RowView::Run { group, events, took }];
            let left = kept_events(filter, events, heading_shows(filter, group));
            &&& kept_rows(filter, one) == if wanted(event.kind) && (filter.failures_only
                ==> event.failed is Some) && text_matches(filter, event) {
                one
            } else {
                Seq::empty()
            }
            &&& left.len() > 0 ==> kept_rows(filter, run) == if wanted(group.kind) {
                seq![RowView::Run { group, events: left, took }]
            } else {
                Seq::empty()
            }
            &&& left.len() == 0 && !filter_is_open(filter) ==> kept_rows(filter, run).len() == 0
        }),
    decreases second.len(),
{
    let all = first + second;
    if second.len() == 0 {
        assert(all =~= first);
        assert(kept_rows(filter, first) + kept_rows(filter, second) =~= kept_rows(filter, first));
    } else {
        assert(all.drop_last() =~= first + second.drop_last());
        law_a_filter_keeps_what_was_asked_for(
            filter,
            first,
            second.drop_last(),
            event,
            group,
            events,
            took,
        );
        assert(kept_rows(filter, all) =~= kept_rows(filter, first) + kept_rows(filter, second));
    }
    let none = Seq::<RowView>::empty();
    let one = seq![RowView::One(event)];
    let run = seq![RowView::Run { group, events, took }];
    assert(one.drop_last() =~= none);
    assert(run.drop_last() =~= none);
    assert(kept_rows(filter, none) =~= none);
    assert(kept_rows(filter, one) =~= match kept_row(filter, RowView::One(event)) {
        Some(row) => seq![row],
        None => Seq::empty(),
    });
    assert(kept_rows(filter, run) =~= match kept_row(filter, RowView::Run { group, events, took }) {
        Some(row) => seq![row],
        None => Seq::empty(),
    });
}

/// The numbers above a list add up over two lists; a run counts its events
/// and their failures, and a single event one.
pub proof fn law_tallies_add_up(
    first: Seq<RowView>,
    second: Seq<RowView>,
    event: Event,
    events: Seq<Event>,
)
    ensures
        items_in(first + second) == items_in(first) + items_in(second),
        all_failures(first + second) == all_failures(first) + all_failures(second),
        failures_in(events) == events.filter(|event: Event| event.failed is Some).len(),
        row_items(RowView::One(event)) == 1,
        row_failures(RowView::One(event)) == 1 <==> event.failed is Some,
        row_failures(RowView::One(event)) <= 1,
    decreases second.len(),
{
    let all = first + second;
    if second.len() == 0 {
        assert(all =~= first);
    } else {
        assert(all.drop_last() =~= first + second.drop_last());
        law_tallies_add_up(first, second.drop_last(), event, events);
    }
    lemma_failures(events);
}

proof fn lemma_failures(events: Seq<Event>)
    ensures
        failures_in(events) == events.filter(|event: Event| event.failed is Some).len(),
    decreases events.len(),
{
    reveal(Seq::filter);
    if events.len() > 0 {
        lemma_failures(events.drop_last());
    }
}

/// Turning a kind on or off in a filter turns that kind alone.
pub proof fn law_toggling_turns_one_kind(kinds: Seq<Kind>, kind: Kind, other: Kind)
    requires
        kinds.no_duplicates(),
    ensures
        toggled(kinds, kind).contains(kind) <==> !kinds.contains(kind),
        other != kind ==> (toggled(kinds, kind).contains(other) <==> kinds.contains(other)),
        toggled(kinds, kind).no_duplicates(),
{
    lemma_seek_kind_is(kinds, kind, 0);
    let at = seek_kind(kinds, kind, 0);
    let out = toggled(kinds, kind);
    if at < kinds.len() {
        assert(kinds.contains(kind));
        assert(forall|i: int|
            0 <= i < out.len() ==> #[trigger] out[i] == if i < at {
                kinds[i]
            } else {
                kinds[i + 1]
            });
        if out.contains(kind) {
            let i = choose|i: int| 0 <= i < out.len() && out[i] == kind;
            assert(kinds[at] == kind);
        }
        if other != kind && kinds.contains(other) {
            let i = choose|i: int| 0 <= i < kinds.len() && kinds[i] == other;
            if i < at {
                assert(out[i] == other);
            } else {
                assert(out[i - 1] == other);
            }
        }
        if out.contains(other) {
            let i = choose|i: int| 0 <= i < out.len() && out[i] == other;
            assert(kinds.contains(other));
        }
    } else {
        if kinds.contains(kind) {
            let i = choose|i: int| 0 <= i < kinds.len() && kinds[i] == kind;
            assert(kinds[i] != kind);
        }
        assert(out[out.len() - 1] == kind);
        if other != kind && kinds.contains(other) {
            let i = choose|i: int| 0 <= i < kinds.len() && kinds[i] == other;
            assert(out[i] == other);
        }
        if other != kind && out.contains(other) {
            let i = choose|i: int| 0 <= i < out.len() && out[i] == other;
            assert(kinds[i] == other);
        }
    }
}

proof fn lemma_seek_kind_is(kinds: Seq<Kind>, kind: Kind, from: int)
    requires
        0 <= from <= kinds.len(),
    ensures
        ({
            let at = seek_kind(kinds, kind, from);
            &&& from <= at <= kinds.len()
            &&& at < kinds.len() ==> kinds[at] == kind
            &&& forall|i: int| from <= i < at ==> #[trigger] kinds[i] != kind
        }),
    decreases kinds.len() - from,
{
    if from < kinds.len() && kinds[from] != kind {
        lemma_seek_kind_is(kinds, kind, from + 1);
    }
}

/// A heading is found by its summary, in small letters; a filter is open where
/// no kind, no failures and no text are asked for; and a line is labelled by
/// the shell that ran it, or else by its kind.
pub proof fn law_what_a_filter_asks_for(filter: Filter, group: Group, event: Event)
    ensures
        ({
            let sought = text::lowercase(text::trimmed(filter.text@));
            &&& sought.len() > 0 ==> (heading_shows(filter, group) <==> text::holds(
                text::lowercase(group.summary@),
                sought,
            ))
            &&& sought.len() == 0 ==> heading_shows(filter, group) && text_matches(filter, event)
            &&& filter_is_open(filter) <==> filter.kinds@.len() == 0 && !filter.failures_only
                && text::trimmed(filter.text@).len() == 0
            &&& journal::event_label(event) == match event.shell {
                Some(shell) => shell@,
                None => journal::kind_label(event.kind),
            }
        }),
{
}

/// A row stands at the time of its heading, or of its one event.
pub proof fn law_a_row_stands_at_its_time(group: Group, events: Seq<Event>, took: Option<u64>, event: Event)
    ensures
        row_at(RowView::Run { group, events, took }) == group.at,
        row_at(RowView::One(event)) == event.at,
        row_items(RowView::Run { group, events, took }) == events.len(),
{
}

/// Every row has a line of its own, and every event of a run one.
pub proof fn law_every_event_has_a_line(rows: Seq<RowView>, r: int, e: int)
    requires
        0 <= r < rows.len() <= usize::MAX,
        row_items(rows[r]) <= usize::MAX,
    ensures
        rows[r] is One ==> lines_of(rows).contains(Line::Alone { row: r as usize }),
        rows[r] is Run ==> lines_of(rows).contains(Line::Heading { row: r as usize }),
        rows[r] is Run && 0 <= e < row_items(rows[r]) ==> lines_of(rows).contains(
            Line::Under { row: r as usize, event: e as usize },
        ),
    decreases rows.len(),
{
    let before = rows.drop_last();
    let front = lines_of(before);
    let tail = lines_of_row(rows.last(), rows.len() - 1);
    let all = lines_of(rows);
    if r < before.len() {
        assert(before[r] == rows[r]);
        law_every_event_has_a_line(before, r, e);
        assert forall|line: Line| front.contains(line) implies all.contains(line) by {
            let k = choose|k: int| 0 <= k < front.len() && front[k] == line;
            assert(all[k] == line);
        }
    } else {
        assert(all[front.len() as int] == tail[0]);
        if rows[r] is Run && 0 <= e < row_items(rows[r]) {
            assert(all[front.len() + 1 + e] == tail[1 + e]);
        }
    }
}

} // verus!
