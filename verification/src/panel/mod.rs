//! One of the two file panes: what directory it shows, where the cursor is,
//! how entries are sorted, and which of them are marked.
//!
//! A pane never looks at a disk itself. What was seen of the directory that
//! it is to show is handed to it as a [`Look`]; `way_in`, `way_up` and
//! `way_out` say which directory that has to be.

use vstd::prelude::*;
use crate::archive;
use crate::archive::{Level, LevelView, Listing, Member};
use crate::entry;
use crate::entry::{Entry, EntryKind, EntryView};
use crate::pathname;
use crate::pathname::Style;
use crate::perms::Mode;
use crate::text;
use crate::text::chars;
use crate::trouble::Trouble;

pub mod glob;
pub mod listing;
pub mod tags;

pub use crate::panel::glob::{matches_glob, matches_glob_with};
pub use crate::panel::listing::{
    is_hidden, read_entries, signature, sort_entries, Found, Order, Seen, Signature, SortBy,
    WATCH_DETAIL_LIMIT,
};

verus! {

broadcast use vstd::string::group_string_axioms;

// ---- what a pane is ---------------------------------------------------------------------------

/// Where a panel is when it is not simply in a directory. The archive is read
/// once on the way in and the index kept here.
#[derive(Debug)]
pub struct Inside {
    /// The archive file itself, which is a real path on disk.
    pub archive: String,
    /// Which level inside it is showing. `""` is the top.
    pub at: String,
    pub format: &'static str,
    pub members: Vec<Member>,
    /// Held for this session only, and never written anywhere.
    pub password: Option<String>,
}

/// Where a panel is inside an archive, as characters.
#[verifier::ext_equal]
pub struct InsideView {
    pub archive: Seq<char>,
    pub at: Seq<char>,
    pub format: Seq<char>,
    pub members: Seq<Member>,
    pub password: Option<Seq<char>>,
}

impl View for Inside {
    type V = InsideView;

    open spec fn view(&self) -> InsideView {
        InsideView {
            archive: self.archive@,
            at: self.at@,
            format: self.format@,
            members: self.members@,
            password: text::optional(self.password),
        }
    }
}

/// The path shown for a level: the archive's own with the level below it.
pub open spec fn path_shown(style: Style, inside: InsideView) -> Seq<char> {
    if inside.at.len() == 0 {
        inside.archive
    } else {
        pathname::joined(style, inside.archive, inside.at)
    }
}

impl Inside {
    /// The path shown for a level inside the archive, which is the archive's
    /// own path with the level below it: `/home/me/docs.zip/notes`. Not a
    /// path anything can open.
    pub fn shown_path(&self, style: Style) -> (r: String)
        ensures
            r@ == path_shown(style, self@),
    {
        if self.at.as_str().is_empty() {
            self.archive.clone()
        } else {
            pathname::join(style, self.archive.as_str(), self.at.as_str())
        }
    }
}

/// Who opened a tab.
#[derive(Debug, Clone, Copy, PartialEq, Eq, Structural)]
pub enum Opened {
    /// The reader asked for it.
    ByHand,
    /// The program opened it to show where something in the account
    /// happened.
    FromRecord,
}

impl Default for Opened {
    fn default() -> (r: Opened)
        ensures
            r == Opened::ByHand,
    {
        Opened::ByHand
    }
}

/// What was seen of a directory: what is in it, or why it could not be read,
/// and what it looks like from outside, taken after that.
#[derive(Debug)]
pub struct Look {
    pub entries: Result<Vec<Found>, String>,
    pub signature: Signature,
}

#[derive(Debug)]
pub struct Panel {
    /// How the paths of this panel are read.
    pub style: Style,
    pub cwd: String,
    pub entries: Vec<Entry>,
    pub cursor: usize,
    pub sort_by: SortBy,
    /// Which way round `sort_by` runs. Set from the column's natural order
    /// when the column changes, and flipped on its own by `flip_order`.
    pub order: Order,
    pub show_hidden: bool,
    /// Set when the directory could not be listed.
    pub error: Option<String>,
    /// Whether the panel shows a directory tree instead of a listing.
    pub tree: bool,
    /// Who opened this tab.
    pub opened: Opened,
    /// Files tagged while walking a tree, by full path. Only while a tree is
    /// up: without one every marked file is on screen.
    pub tagged: Vec<String>,
    /// When present the panel is inside an archive rather than a directory.
    pub inside: Option<Inside>,
    /// What the directory looked like when it was last read, so a change made
    /// by something else can be noticed.
    pub watching: Signature,
}

/// A panel with its texts as characters.
#[verifier::ext_equal]
pub struct PanelView {
    pub style: Style,
    pub cwd: Seq<char>,
    pub entries: Seq<EntryView>,
    pub cursor: int,
    pub sort_by: SortBy,
    pub order: Order,
    pub show_hidden: bool,
    pub error: Option<Seq<char>>,
    pub tree: bool,
    pub opened: Opened,
    pub tagged: Seq<Seq<char>>,
    pub inside: Option<InsideView>,
    pub watching: Signature,
}

/// Where a panel is inside an archive, if it is.
pub open spec fn inside_view(inside: Option<Inside>) -> Option<InsideView> {
    match inside {
        Some(inside) => Some(inside@),
        None => None,
    }
}

impl View for Panel {
    type V = PanelView;

    open spec fn view(&self) -> PanelView {
        PanelView {
            style: self.style,
            cwd: self.cwd@,
            entries: entry::entry_views(self.entries@),
            cursor: self.cursor as int,
            sort_by: self.sort_by,
            order: self.order,
            show_hidden: self.show_hidden,
            error: text::optional(self.error),
            tree: self.tree,
            opened: self.opened,
            tagged: text::views(self.tagged@),
            inside: inside_view(self.inside),
            watching: self.watching,
        }
    }
}

// ---- the cursor -------------------------------------------------------------------------------

/// The entry under the cursor.
pub open spec fn under_cursor(p: PanelView) -> Option<EntryView> {
    if 0 <= p.cursor < p.entries.len() {
        Some(p.entries[p.cursor])
    } else {
        None
    }
}

/// The first line at or after `from` with a name; the length where there is
/// none.
pub open spec fn line_named(entries: Seq<EntryView>, name: Seq<char>, from: int) -> int
    decreases entries.len() - from,
{
    if from >= entries.len() {
        entries.len() as int
    } else if entries[from].name == name {
        from
    } else {
        line_named(entries, name, from + 1)
    }
}

/// A cursor brought back into a list.
pub open spec fn clamped(cursor: int, len: nat) -> int {
    if len == 0 {
        0
    } else if cursor >= len {
        len - 1
    } else {
        cursor
    }
}

/// A panel with the cursor on a name, if it is there.
pub open spec fn landed(p: PanelView, name: Option<Seq<char>>) -> PanelView {
    match name {
        Some(name) => if line_named(p.entries, name, 0) < p.entries.len() {
            PanelView { cursor: line_named(p.entries, name, 0), ..p }
        } else {
            p
        },
        None => p,
    }
}

/// A panel with the cursor moved by so many lines.
pub open spec fn moved(p: PanelView, delta: int) -> PanelView {
    if p.entries.len() == 0 {
        p
    } else if p.cursor + delta < 0 {
        PanelView { cursor: 0, ..p }
    } else if p.cursor + delta >= p.entries.len() {
        PanelView { cursor: p.entries.len() - 1, ..p }
    } else {
        PanelView { cursor: p.cursor + delta, ..p }
    }
}

// ---- marks ------------------------------------------------------------------------------------

/// An entry with its mark as given.
pub open spec fn marking(entry: EntryView, marked: bool) -> EntryView {
    EntryView { marked, ..entry }
}

/// Whether some entry with a name is marked.
pub open spec fn name_is_marked(entries: Seq<EntryView>, name: Seq<char>) -> bool {
    exists|i: int| 0 <= i < entries.len() && (#[trigger] entries[i]).marked && entries[i].name == name
}

/// The tags after the marks of a directory's entries are folded into them:
/// the entries in view are the authority for their own directory.
pub open spec fn tags_with(
    style: Style,
    tags: Seq<Seq<char>>,
    cwd: Seq<char>,
    entries: Seq<EntryView>,
) -> Seq<Seq<char>>
    decreases entries.len(),
{
    if entries.len() == 0 {
        tags
    } else {
        let front = tags_with(style, tags, cwd, entries.drop_last());
        let entry = entries.last();
        let path = pathname::joined(style, cwd, entry.name);
        if entry.kind == EntryKind::Parent {
            front
        } else if entry.marked {
            tags::with_tag(style, front, path)
        } else {
            tags::without_tag(style, front, path)
        }
    }
}

/// A panel after something changed a mark.
pub open spec fn remembered(p: PanelView) -> PanelView {
    if p.tree {
        PanelView { tagged: tags_with(p.style, p.tagged, p.cwd, p.entries), ..p }
    } else {
        p
    }
}

/// Entries with their marks taken from the tags.
pub open spec fn marks_from_tags(
    style: Style,
    entries: Seq<EntryView>,
    cwd: Seq<char>,
    tags: Seq<Seq<char>>,
) -> Seq<EntryView> {
    entries.map_values(
        |entry: EntryView|
            if entry.kind == EntryKind::Parent {
                entry
            } else {
                marking(entry, tags::has_tag(style, tags, pathname::joined(style, cwd, entry.name)))
            },
    )
}

/// Entries with none marked.
pub open spec fn none_marked(entries: Seq<EntryView>) -> Seq<EntryView> {
    entries.map_values(|entry: EntryView| marking(entry, false))
}

/// Entries with all marked but the way up, which is not a file.
pub open spec fn all_marked(entries: Seq<EntryView>) -> Seq<EntryView> {
    entries.map_values(|entry: EntryView| marking(entry, entry.kind != EntryKind::Parent))
}

/// Entries with every mark turned over but that of the way up.
pub open spec fn marks_inverted(entries: Seq<EntryView>) -> Seq<EntryView> {
    entries.map_values(
        |entry: EntryView|
            if entry.kind == EntryKind::Parent {
                entry
            } else {
                marking(entry, !entry.marked)
            },
    )
}

/// Entries with those from one line to another marked.
pub open spec fn range_marked(entries: Seq<EntryView>, low: int, high: int) -> Seq<EntryView> {
    entries.map(
        |at: int, entry: EntryView|
            if low <= at <= high && entry.kind != EntryKind::Parent {
                marking(entry, true)
            } else {
                entry
            },
    )
}

/// The lower of two, brought back into a list.
pub open spec fn lower_end(from: int, to: int, len: nat) -> int {
    clamped(
        if from <= to {
            from
        } else {
            to
        },
        len,
    )
}

/// The higher of two, brought back into a list.
pub open spec fn upper_end(from: int, to: int, len: nat) -> int {
    clamped(
        if from <= to {
            to
        } else {
            from
        },
        len,
    )
}

/// A panel with a range marked, on its own or besides what was marked.
pub open spec fn with_range(p: PanelView, from: int, to: int, additive: bool) -> PanelView {
    let base = if additive {
        p
    } else {
        remembered(PanelView { entries: none_marked(p.entries), ..p })
    };
    if p.entries.len() == 0 {
        base
    } else {
        remembered(
            PanelView {
                entries: range_marked(
                    base.entries,
                    lower_end(from, to, p.entries.len()),
                    upper_end(from, to, p.entries.len()),
                ),
                ..base
            },
        )
    }
}

/// Whether a pattern changes an entry's mark.
pub open spec fn pattern_changes(entry: EntryView, pattern: Seq<char>, marked: bool) -> bool {
    entry.kind != EntryKind::Parent && entry.marked != marked && glob::glob(
        text::lowercase(pattern),
        text::lowercase(entry.name),
    )
}

/// Entries with those that match a pattern marked, or unmarked.
pub open spec fn matching_marked(
    entries: Seq<EntryView>,
    pattern: Seq<char>,
    marked: bool,
) -> Seq<EntryView> {
    entries.map_values(
        |entry: EntryView|
            if pattern_changes(entry, pattern, marked) {
                marking(entry, marked)
            } else {
                entry
            },
    )
}

/// How many entries a pattern changes.
pub open spec fn count_changes(entries: Seq<EntryView>, pattern: Seq<char>, marked: bool) -> nat
    decreases entries.len(),
{
    if entries.len() == 0 {
        0
    } else {
        count_changes(entries.drop_last(), pattern, marked) + (if pattern_changes(
            entries.last(),
            pattern,
            marked,
        ) {
            1nat
        } else {
            0
        })
    }
}

/// How many entries are marked.
pub open spec fn count_marked(entries: Seq<EntryView>) -> nat
    decreases entries.len(),
{
    if entries.len() == 0 {
        0
    } else {
        count_marked(entries.drop_last()) + (if entries.last().marked {
            1nat
        } else {
            0
        })
    }
}

/// The sizes of the marked entries together.
pub open spec fn size_marked(entries: Seq<EntryView>) -> nat
    decreases entries.len(),
{
    if entries.len() == 0 {
        0
    } else {
        size_marked(entries.drop_last()) + (if entries.last().marked {
            entries.last().size as nat
        } else {
            0
        })
    }
}

/// The marked entries but the way up, in the order they are listed.
pub open spec fn marked_entries(entries: Seq<EntryView>) -> Seq<EntryView>
    decreases entries.len(),
{
    if entries.len() == 0 {
        Seq::empty()
    } else {
        let front = marked_entries(entries.drop_last());
        if entries.last().marked && entries.last().kind != EntryKind::Parent {
            front.push(entries.last())
        } else {
            front
        }
    }
}

/// The entries an operation should act on: every marked one, or else just the
/// one under the cursor. The way up is never one of them.
pub open spec fn to_act_on(p: PanelView) -> Seq<EntryView> {
    let marked = marked_entries(p.entries);
    if marked.len() > 0 {
        marked
    } else {
        match under_cursor(p) {
            Some(entry) => if entry.kind != EntryKind::Parent {
                seq![entry]
            } else {
                Seq::empty()
            },
            None => Seq::empty(),
        }
    }
}

/// A panel after the mark under the cursor was turned over and the cursor
/// stepped down.
pub open spec fn mark_toggled(p: PanelView) -> PanelView {
    let turned = match under_cursor(p) {
        Some(entry) => if entry.kind != EntryKind::Parent {
            PanelView { entries: p.entries.update(p.cursor, marking(entry, !entry.marked)), ..p }
        } else {
            p
        },
        None => p,
    };
    moved(remembered(turned), 1)
}

// ---- reading ----------------------------------------------------------------------------------

/// Entries with the marks that others of their names have.
pub open spec fn marks_kept(entries: Seq<EntryView>, before: Seq<EntryView>) -> Seq<EntryView> {
    entries.map_values(
        |entry: EntryView|
            if name_is_marked(before, entry.name) {
                marking(entry, true)
            } else {
                entry
            },
    )
}

/// The name under the cursor.
pub open spec fn name_under_cursor(p: PanelView) -> Option<Seq<char>> {
    match under_cursor(p) {
        Some(entry) => Some(entry.name),
        None => None,
    }
}

/// The cursor on a name where it is there, and at the top where not.
pub open spec fn cursor_kept(entries: Seq<EntryView>, name: Option<Seq<char>>) -> int {
    match name {
        Some(name) => if line_named(entries, name, 0) < entries.len() {
            line_named(entries, name, 0)
        } else {
            0
        },
        None => 0,
    }
}

/// The entries of a directory as it was seen, with the marks kept.
pub open spec fn entries_seen(p: PanelView, look: Look) -> Seq<EntryView> {
    let entries = match look.entries {
        Ok(found) => marks_kept(
            listing::listing(p.style, found@, p.cwd, p.show_hidden, p.sort_by, p.order),
            p.entries,
        ),
        Err(_) => listing::up_lines(p.style, p.cwd),
    };
    if p.tree {
        marks_from_tags(p.style, entries, p.cwd, p.tagged)
    } else {
        entries
    }
}

/// A panel after its directory was seen.
pub open spec fn directory_read(p: PanelView, look: Look) -> PanelView {
    let entries = entries_seen(p, look);
    PanelView {
        entries,
        error: match look.entries {
            Ok(_) => None,
            Err(why) => Some(why@),
        },
        cursor: cursor_kept(entries, name_under_cursor(p)),
        watching: look.signature,
        ..p
    }
}

/// The mode that some permission bits are.
pub open spec fn mode_of_bits(bits: Option<u32>) -> Option<Mode> {
    match bits {
        Some(bits) => Some(Mode::of_value(bits & 0o7777)),
        None => None,
    }
}

/// The entry of a line inside an archive.
pub open spec fn entry_of_level(
    style: Style,
    archive: Seq<char>,
    level: LevelView,
    before: Seq<EntryView>,
) -> EntryView {
    EntryView {
        name: level.name,
        path: pathname::joined(style, archive, level.path),
        kind: if level.is_dir {
            EntryKind::Dir
        } else {
            EntryKind::File
        },
        size: level.size,
        modified: level.modified,
        is_symlink: false,
        mode: mode_of_bits(level.mode),
        marked: name_is_marked(before, level.name),
    }
}

/// Where `..` leads inside an archive: a level up, or to the archive itself.
pub open spec fn up_inside(style: Style, inside: InsideView) -> Seq<char> {
    let cut = text::seek_back(inside.at, '/', inside.at.len() as int);
    if cut >= 0 {
        pathname::joined(style, inside.archive, inside.at.take(cut))
    } else {
        inside.archive
    }
}

/// The entries of the level being shown inside an archive.
pub open spec fn entries_inside(
    style: Style,
    inside: InsideView,
    before: Seq<EntryView>,
    sort_by: SortBy,
    order: Order,
) -> Seq<EntryView> {
    seq![listing::up_line(up_inside(style, inside))] + listing::in_listing_order(
        style,
        archive::lines_at(inside.members, archive::level_prefix(inside.at)).map_values(
            |level: LevelView| entry_of_level(style, inside.archive, level, before),
        ),
        sort_by,
        order,
    )
}

/// A panel after the level it shows inside an archive was worked out.
pub open spec fn level_read(p: PanelView) -> PanelView {
    match p.inside {
        Some(inside) => {
            let entries = entries_inside(p.style, inside, p.entries, p.sort_by, p.order);
            PanelView {
                cwd: path_shown(p.style, inside),
                entries,
                error: None,
                cursor: cursor_kept(entries, name_under_cursor(p)),
                ..p
            }
        },
        None => p,
    }
}

/// A panel after a re-reading.
pub open spec fn reloaded(p: PanelView, look: Look) -> PanelView {
    if p.inside is Some {
        level_read(p)
    } else {
        directory_read(p, look)
    }
}

// ---- moving -----------------------------------------------------------------------------------

/// A panel after a change of directory.
pub open spec fn gone_to(p: PanelView, path: Seq<char>, look: Look) -> PanelView {
    directory_read(
        PanelView { inside: None, cwd: path, entries: Seq::empty(), cursor: 0, ..p },
        look,
    )
}

/// A panel showing a level of the archive it is in.
pub open spec fn at_level(p: PanelView, at: Seq<char>, land_on: Option<Seq<char>>) -> PanelView {
    match p.inside {
        Some(inside) => landed(
            level_read(PanelView { inside: Some(InsideView { at, ..inside }), cursor: 0, ..p }),
            land_on,
        ),
        None => p,
    }
}

/// The folder that an archive sits in.
pub open spec fn folder_of(style: Style, archive: Seq<char>) -> Seq<char> {
    match pathname::parent(style, archive) {
        Some(folder) => folder,
        None => "/"@,
    }
}

/// A panel after it came out of its archive.
pub open spec fn out_of_archive(p: PanelView, look: Look) -> PanelView {
    match p.inside {
        Some(inside) => landed(
            gone_to(p, folder_of(p.style, inside.archive), look),
            pathname::file_name(p.style, inside.archive),
        ),
        None => p,
    }
}

/// Where an entry sits inside an archive.
pub open spec fn member_path(
    style: Style,
    inside: Option<InsideView>,
    entry: EntryView,
) -> Option<Seq<char>> {
    match inside {
        Some(inside) => match pathname::below(style, entry.path, inside.archive) {
            Some(rest) => Some(archive::normal(text::joined_by(rest, '/'))),
            None => None,
        },
        None => None,
    }
}

/// A panel after the way up was taken inside an archive.
pub open spec fn up_from_level(p: PanelView, inside: InsideView, look: Look) -> PanelView {
    let cut = text::seek_back(inside.at, '/', inside.at.len() as int);
    if cut >= 0 {
        at_level(p, inside.at.take(cut), Some(inside.at.skip(cut + 1)))
    } else if inside.at.len() == 0 {
        out_of_archive(p, look)
    } else {
        at_level(p, Seq::empty(), Some(inside.at))
    }
}

/// A panel after what is under the cursor was entered, and whether it was.
pub open spec fn entered(p: PanelView, look: Look) -> (PanelView, bool) {
    match under_cursor(p) {
        None => (p, false),
        Some(entry) => {
            if !entry::walks_into(entry.kind) {
                (p, false)
            } else if p.inside is Some {
                if entry.kind == EntryKind::Parent {
                    (up_from_level(p, p.inside->0, look), true)
                } else {
                    match member_path(p.style, p.inside, entry) {
                        Some(member) => (at_level(p, member, None), true),
                        None => (p, false),
                    }
                }
            } else {
                let leaving = if entry.kind == EntryKind::Parent {
                    pathname::file_name(p.style, p.cwd)
                } else {
                    None
                };
                (landed(gone_to(p, entry.path, look), leaving), true)
            }
        },
    }
}

/// A panel after it went up.
pub open spec fn gone_up(p: PanelView, look: Look) -> PanelView {
    if p.inside is Some {
        entered(PanelView { cursor: 0, ..p }, look).0
    } else {
        match pathname::parent(p.style, p.cwd) {
            Some(above) => landed(gone_to(p, above, look), pathname::file_name(p.style, p.cwd)),
            None => p,
        }
    }
}

/// The directory that has to be looked at before what is under the cursor is
/// entered, if any.
pub open spec fn directory_to_enter(p: PanelView) -> Option<Seq<char>> {
    match under_cursor(p) {
        None => None,
        Some(entry) => {
            if !entry::walks_into(entry.kind) {
                None
            } else if p.inside is Some {
                if entry.kind == EntryKind::Parent && p.inside->0.at.len() == 0 {
                    Some(folder_of(p.style, p.inside->0.archive))
                } else {
                    None
                }
            } else {
                Some(entry.path)
            }
        },
    }
}

// ---- helpers ----------------------------------------------------------------------------------

fn find_line(entries: &Vec<Entry>, name: &str) -> (r: Option<usize>)
    ensures
        match r {
            Some(at) => at < entries@.len() && line_named(entry::entry_views(entries@), name@, 0)
                == at,
            None => line_named(entry::entry_views(entries@), name@, 0) == entries@.len(),
        },
{
    let ghost views = entry::entry_views(entries@);
    let mut i: usize = 0;
    while i < entries.len()
        invariant
            i <= entries@.len(),
            views == entry::entry_views(entries@),
            line_named(views, name@, 0) == line_named(views, name@, i as int),
        decreases entries@.len() - i,
    {
        assert(views[i as int] == entries@[i as int]@);
        if text::same(entries[i].name.as_str(), name) {
            return Some(i);
        }
        i += 1;
    }
    None
}

fn has_marked_name(entries: &Vec<Entry>, name: &str) -> (r: bool)
    ensures
        r == name_is_marked(entry::entry_views(entries@), name@),
{
    let ghost views = entry::entry_views(entries@);
    let mut i: usize = 0;
    while i < entries.len()
        invariant
            i <= entries@.len(),
            views == entry::entry_views(entries@),
            forall|j: int| 0 <= j < i ==> !((#[trigger] views[j]).marked && views[j].name == name@),
        decreases entries@.len() - i,
    {
        assert(views[i as int] == entries@[i as int]@);
        if entries[i].marked && text::same(entries[i].name.as_str(), name) {
            assert(views[i as int].marked && views[i as int].name == name@);
            return true;
        }
        i += 1;
    }
    false
}

fn set_mark(entries: &mut Vec<Entry>, at: usize, marked: bool)
    requires
        at < old(entries)@.len(),
    ensures
        entry::entry_views(final(entries)@) == entry::entry_views(old(entries)@).update(
            at as int,
            marking(old(entries)@[at as int]@, marked),
        ),
{
    let entry: &mut Entry = &mut entries[at];
    entry.marked = marked;
    assert(entry::entry_views(final(entries)@) =~= entry::entry_views(old(entries)@).update(
        at as int,
        marking(old(entries)@[at as int]@, marked),
    ));
}

fn keep_marks(entries: &mut Vec<Entry>, before: &Vec<Entry>)
    ensures
        entry::entry_views(final(entries)@) == marks_kept(
            entry::entry_views(old(entries)@),
            entry::entry_views(before@),
        ),
{
    let ghost given = entry::entry_views(entries@);
    let ghost wanted = marks_kept(given, entry::entry_views(before@));
    let mut i: usize = 0;
    while i < entries.len()
        invariant
            i <= entries@.len(),
            entries@.len() == given.len(),
            given == entry::entry_views(old(entries)@),
            wanted == marks_kept(given, entry::entry_views(before@)),
            entry::entry_views(entries@) =~= wanted.take(i as int) + given.skip(i as int),
        decreases entries@.len() - i,
    {
        let ghost was = entry::entry_views(entries@);
        assert(was[i as int] == entries@[i as int]@);
        assert(was[i as int] == given[i as int]);
        if has_marked_name(before, entries[i].name.as_str()) {
            set_mark(entries, i, true);
        }
        assert(entry::entry_views(entries@) =~= wanted.take(i + 1) + given.skip(i + 1));
        i += 1;
    }
    assert(entry::entry_views(entries@) =~= wanted);
}

fn mark_from_tags(style: Style, entries: &mut Vec<Entry>, cwd: &str, tagged: &Vec<String>)
    ensures
        entry::entry_views(final(entries)@) == marks_from_tags(
            style,
            entry::entry_views(old(entries)@),
            cwd@,
            text::views(tagged@),
        ),
{
    let ghost given = entry::entry_views(entries@);
    let ghost wanted = marks_from_tags(style, given, cwd@, text::views(tagged@));
    let mut i: usize = 0;
    while i < entries.len()
        invariant
            i <= entries@.len(),
            entries@.len() == given.len(),
            given == entry::entry_views(old(entries)@),
            wanted == marks_from_tags(style, given, cwd@, text::views(tagged@)),
            entry::entry_views(entries@) =~= wanted.take(i as int) + given.skip(i as int),
        decreases entries@.len() - i,
    {
        let ghost was = entry::entry_views(entries@);
        assert(was[i as int] == entries@[i as int]@);
        assert(was[i as int] == given[i as int]);
        if !entries[i].is_parent() {
            let path: String = pathname::join(style, cwd, entries[i].name.as_str());
            let marked: bool = tags::is_tagged(style, tagged, path.as_str());
            set_mark(entries, i, marked);
        }
        assert(entry::entry_views(entries@) =~= wanted.take(i + 1) + given.skip(i + 1));
        i += 1;
    }
    assert(entry::entry_views(entries@) =~= wanted);
}

fn unmark_all(entries: &mut Vec<Entry>)
    ensures
        entry::entry_views(final(entries)@) == none_marked(entry::entry_views(old(entries)@)),
{
    let ghost given = entry::entry_views(entries@);
    let ghost wanted = none_marked(given);
    let mut i: usize = 0;
    while i < entries.len()
        invariant
            i <= entries@.len(),
            entries@.len() == given.len(),
            given == entry::entry_views(old(entries)@),
            wanted == none_marked(given),
            entry::entry_views(entries@) =~= wanted.take(i as int) + given.skip(i as int),
        decreases entries@.len() - i,
    {
        let ghost was = entry::entry_views(entries@);
        assert(was[i as int] == entries@[i as int]@);
        assert(was[i as int] == given[i as int]);
        set_mark(entries, i, false);
        assert(entry::entry_views(entries@) =~= wanted.take(i + 1) + given.skip(i + 1));
        i += 1;
    }
    assert(entry::entry_views(entries@) =~= wanted);
}

fn mark_every(entries: &mut Vec<Entry>)
    ensures
        entry::entry_views(final(entries)@) == all_marked(entry::entry_views(old(entries)@)),
{
    let ghost given = entry::entry_views(entries@);
    let ghost wanted = all_marked(given);
    let mut i: usize = 0;
    while i < entries.len()
        invariant
            i <= entries@.len(),
            entries@.len() == given.len(),
            given == entry::entry_views(old(entries)@),
            wanted == all_marked(given),
            entry::entry_views(entries@) =~= wanted.take(i as int) + given.skip(i as int),
        decreases entries@.len() - i,
    {
        let ghost was = entry::entry_views(entries@);
        assert(was[i as int] == entries@[i as int]@);
        assert(was[i as int] == given[i as int]);
        let marked: bool = !entries[i].is_parent();
        set_mark(entries, i, marked);
        assert(entry::entry_views(entries@) =~= wanted.take(i + 1) + given.skip(i + 1));
        i += 1;
    }
    assert(entry::entry_views(entries@) =~= wanted);
}

fn turn_marks(entries: &mut Vec<Entry>)
    ensures
        entry::entry_views(final(entries)@) == marks_inverted(entry::entry_views(old(entries)@)),
{
    let ghost given = entry::entry_views(entries@);
    let ghost wanted = marks_inverted(given);
    let mut i: usize = 0;
    while i < entries.len()
        invariant
            i <= entries@.len(),
            entries@.len() == given.len(),
            given == entry::entry_views(old(entries)@),
            wanted == marks_inverted(given),
            entry::entry_views(entries@) =~= wanted.take(i as int) + given.skip(i as int),
        decreases entries@.len() - i,
    {
        let ghost was = entry::entry_views(entries@);
        assert(was[i as int] == entries@[i as int]@);
        assert(was[i as int] == given[i as int]);
        if !entries[i].is_parent() {
            let marked: bool = !entries[i].marked;
            set_mark(entries, i, marked);
        }
        assert(entry::entry_views(entries@) =~= wanted.take(i + 1) + given.skip(i + 1));
        i += 1;
    }
    assert(entry::entry_views(entries@) =~= wanted);
}

fn mark_between(entries: &mut Vec<Entry>, low: usize, high: usize)
    ensures
        entry::entry_views(final(entries)@) == range_marked(entry::entry_views(old(entries)@), low as int, high as int),
{
    let ghost given = entry::entry_views(entries@);
    let ghost wanted = range_marked(given, low as int, high as int);
    let mut i: usize = 0;
    while i < entries.len()
        invariant
            i <= entries@.len(),
            entries@.len() == given.len(),
            given == entry::entry_views(old(entries)@),
            wanted == range_marked(given, low as int, high as int),
            entry::entry_views(entries@) =~= wanted.take(i as int) + given.skip(i as int),
        decreases entries@.len() - i,
    {
        let ghost was = entry::entry_views(entries@);
        assert(was[i as int] == entries@[i as int]@);
        assert(was[i as int] == given[i as int]);
        if low <= i && i <= high && !entries[i].is_parent() {
            set_mark(entries, i, true);
        }
        assert(entry::entry_views(entries@) =~= wanted.take(i + 1) + given.skip(i + 1));
        i += 1;
    }
    assert(entry::entry_views(entries@) =~= wanted);
}

fn kept_cursor(entries: &Vec<Entry>, name: &Option<String>) -> (r: usize)
    ensures
        r == cursor_kept(entry::entry_views(entries@), text::optional(*name)),
{
    match name {
        Some(name) => match find_line(entries, name.as_str()) {
            Some(at) => at,
            None => 0,
        },
        None => 0,
    }
}

// ---- the pane ---------------------------------------------------------------------------------

/// A panel on a directory that has not been looked at yet.
pub open spec fn fresh(style: Style, path: Seq<char>) -> PanelView {
    PanelView {
        style,
        cwd: path,
        entries: Seq::empty(),
        cursor: 0,
        sort_by: SortBy::Name,
        order: listing::natural(SortBy::Name),
        show_hidden: false,
        error: None,
        tree: false,
        opened: Opened::ByHand,
        tagged: Seq::empty(),
        inside: None,
        watching: Signature { directory: None, count: 0, bytes: 0, newest: None },
    }
}

impl Panel {
    pub fn new(style: Style, path: String, look: Look) -> (r: Panel)
        ensures
            r@ == reloaded(fresh(style, path@), look),
    {
        let mut panel: Panel = Panel {
            style,
            cwd: path,
            opened: Opened::ByHand,
            entries: Vec::new(),
            tagged: Vec::new(),
            cursor: 0,
            sort_by: SortBy::Name,
            order: SortBy::Name.natural_order(),
            show_hidden: false,
            error: None,
            tree: false,
            inside: None,
            watching: Signature { directory: None, count: 0, bytes: 0, newest: None },
        };
        assert(panel@ =~= fresh(style, path@));
        panel.reload(look);
        panel
    }

    /// Fold the marks on the rows in view into the set that outlives them.
    fn remember_marks(&mut self)
        ensures
            final(self)@ == remembered(old(self)@),
    {
        if !self.tree {
            return;
        }
        let ghost p = self@;
        let ghost entries = self@.entries;
        let mut i: usize = 0;
        assert(entries.take(0) =~= Seq::<EntryView>::empty());
        while i < self.entries.len()
            invariant
                i <= self.entries@.len(),
                p == old(self)@,
                entries == p.entries,
                self.entries@ == old(self).entries@,
                self@ =~= (PanelView {
                    tagged: tags_with(self.style, p.tagged, p.cwd, entries.take(i as int)),
                    ..p
                }),
            decreases self.entries@.len() - i,
        {
            proof {
                assert(entries.take(i + 1).drop_last() =~= entries.take(i as int));
                assert(entries.take(i + 1).last() == self.entries@[i as int]@);
            }
            if !self.entries[i].is_parent() {
                let path: String = pathname::join(
                    self.style,
                    self.cwd.as_str(),
                    self.entries[i].name.as_str(),
                );
                if self.entries[i].marked {
                    tags::tag(self.style, &mut self.tagged, path);
                } else {
                    tags::untag(self.style, &mut self.tagged, path.as_str());
                }
            }
            i += 1;
        }
        assert(entries.take(i as int) =~= entries);
    }

    /// Everything tagged, in a stable order.
    pub fn tagged_paths(&self) -> (r: Vec<String>)
        ensures
            text::views(r@) == self@.tagged,
    {
        text::copied(&self.tagged)
    }

    /// How many files are tagged, including the ones not on screen.
    pub fn tagged_count(&self) -> (r: usize)
        ensures
            r == self@.tagged.len(),
    {
        self.tagged.len()
    }

    pub fn in_tree_mode(&self) -> (r: bool)
        ensures
            r == self@.tree,
    {
        self.tree
    }

    /// Show a tree. Whatever was marked in this directory is the start of
    /// the set of tags.
    pub fn enter_tree_mode(&mut self)
        ensures
            final(self)@ == remembered(PanelView { tree: true, ..old(self)@ }),
    {
        self.tree = true;
        self.remember_marks();
    }

    /// Leave the tree. Tags do not outlive the tree that made them reachable.
    pub fn leave_tree_mode(&mut self)
        ensures
            final(self)@ == (PanelView { tree: false, tagged: Seq::empty(), ..old(self)@ }),
    {
        self.tree = false;
        self.tagged = Vec::new();
        assert(text::views(self.tagged@) =~= Seq::empty());
    }

    /// Re-read the current directory, keeping the cursor on the same file
    /// when it still exists, and the marks by name.
    ///
    /// Inside an archive what was seen on disk does not matter. With a tree up
    /// the marks come from the tags: this may be a different directory
    /// entirely, and `a.txt` there is not `a.txt` here.
    pub fn reload(&mut self, look: Look)
        ensures
            final(self)@ == reloaded(old(self)@, look),
    {
        if self.inside.is_some() {
            self.reload_inside();
            return;
        }
        let previous: Option<String> = self.name_selected();
        let ghost p = self@;
        match look.entries {
            Ok(found) => {
                let mut entries: Vec<Entry> = listing::read_entries(
                    self.style,
                    found,
                    self.cwd.as_str(),
                    self.show_hidden,
                    self.sort_by,
                    self.order,
                );
                keep_marks(&mut entries, &self.entries);
                self.entries = entries;
                self.error = None;
            },
            Err(why) => {
                let mut entries: Vec<Entry> = Vec::new();
                if let Some(parent) = Entry::parent_entry(self.style, self.cwd.as_str()) {
                    entries.push(parent);
                    assert(parent@ =~= listing::up_line(pathname::parent(self.style, p.cwd)->0));
                }
                self.entries = entries;
                assert(entry::entry_views(self.entries@) =~= listing::up_lines(self.style, p.cwd));
                self.error = Some(why);
            },
        }
        if self.tree {
            mark_from_tags(self.style, &mut self.entries, self.cwd.as_str(), &self.tagged);
        }
        self.cursor = kept_cursor(&self.entries, &previous);
        self.watching = look.signature;
        assert(self@ =~= directory_read(p, look));
    }

    /// Build the listing for the level being shown inside an archive.
    fn reload_inside(&mut self)
        ensures
            final(self)@ == level_read(old(self)@),
    {
        let previous: Option<String> = self.name_selected();
        let ghost p = self@;
        let entries: Vec<Entry> = match &self.inside {
            Some(inside) => {
                self.cwd = inside.shown_path(self.style);
                let up: String = level_up(self.style, inside);
                let levels: Vec<Level> = archive::at(inside.members.as_slice(), inside.at.as_str());
                let mut entries: Vec<Entry> = entries_of_levels(
                    self.style,
                    inside.archive.as_str(),
                    levels,
                    &self.entries,
                );
                listing::sort_entries(self.style, &mut entries, self.sort_by, self.order);
                let ghost sorted = entry::entry_views(entries@);
                let first: Entry = Entry::up_to(up);
                entries.insert(0, first);
                assert(first@ =~= listing::up_line(up_inside(self.style, inside@)));
                assert(entry::entry_views(entries@) =~= seq![first@] + sorted);
                entries
            },
            None => {
                return;
            },
        };
        self.entries = entries;
        self.error = None;
        self.cursor = kept_cursor(&self.entries, &previous);
        assert(self@ =~= level_read(p));
    }

    /// Whether something else has changed the directory, by what it looks
    /// like now. A panel showing a tree or an archive has none to watch.
    pub fn has_changed(&self, now: Signature) -> (r: bool)
        ensures
            r == (!self@.tree && self@.inside is None && now != self@.watching),
    {
        !self.tree && self.inside.is_none() && now != self.watching
    }

    /// Re-read the directory if something else has changed it. Returns
    /// whether it did; the cursor and the marks survive.
    pub fn poll_changes(&mut self, now: Signature, look: Look) -> (r: bool)
        ensures
            r == (!old(self)@.tree && old(self)@.inside is None && now != old(self)@.watching),
            final(self)@ == if r {
                reloaded(old(self)@, look)
            } else {
                old(self)@
            },
    {
        if !self.has_changed(now) {
            return false;
        }
        self.reload(look);
        true
    }

    fn name_selected(&self) -> (r: Option<String>)
        ensures
            text::optional(r) == name_under_cursor(self@),
    {
        match self.selected() {
            Some(entry) => Some(entry.name.clone()),
            None => None,
        }
    }

    pub fn selected(&self) -> (r: Option<&Entry>)
        ensures
            match r {
                Some(entry) => under_cursor(self@) == Some(entry@) && self.cursor
                    < self.entries@.len() && *entry == self.entries@[self.cursor as int],
                None => under_cursor(self@) is None && self.cursor >= self.entries@.len(),
            },
    {
        if self.cursor < self.entries.len() {
            Some(&self.entries[self.cursor])
        } else {
            None
        }
    }

    pub fn move_cursor(&mut self, delta: isize)
        ensures
            final(self)@ == moved(old(self)@, delta as int),
    {
        if self.entries.len() == 0 {
            return;
        }
        let last: usize = self.entries.len() - 1;
        let next: i128 = self.cursor as i128 + delta as i128;
        if next < 0 {
            self.cursor = 0;
        } else if next > last as i128 {
            self.cursor = last;
        } else {
            self.cursor = next as usize;
        }
    }

    pub fn cursor_to(&mut self, index: usize)
        ensures
            final(self)@ == (PanelView {
                cursor: clamped(index as int, old(self)@.entries.len()),
                ..old(self)@
            }),
    {
        let len: usize = self.entries.len();
        self.cursor = if len == 0 {
            0
        } else if index >= len {
            len - 1
        } else {
            index
        };
    }

    pub fn cursor_home(&mut self)
        ensures
            final(self)@ == (PanelView { cursor: 0, ..old(self)@ }),
    {
        self.cursor = 0;
    }

    pub fn cursor_end(&mut self)
        ensures
            final(self)@ == (PanelView {
                cursor: if old(self)@.entries.len() == 0 {
                    0
                } else {
                    old(self)@.entries.len() - 1
                },
                ..old(self)@
            }),
    {
        let len: usize = self.entries.len();
        self.cursor = if len == 0 {
            0
        } else {
            len - 1
        };
    }

    fn land_on(&mut self, name: &Option<String>)
        ensures
            final(self)@ == landed(old(self)@, text::optional(*name)),
    {
        if let Some(name) = name {
            if let Some(at) = find_line(&self.entries, name.as_str()) {
                self.cursor = at;
            }
        }
    }

    /// Change directory, resetting cursor and marks. Leaves any archive:
    /// asking for a directory means a directory.
    pub fn chdir(&mut self, path: String, look: Look)
        ensures
            final(self)@ == gone_to(old(self)@, path@, look),
    {
        let ghost p = self@;
        self.inside = None;
        self.cwd = path;
        self.entries = Vec::new();
        self.cursor = 0;
        assert(self@ =~= (PanelView {
            inside: None,
            cwd: path@,
            entries: Seq::empty(),
            cursor: 0,
            ..p
        }));
        self.reload(look);
    }

    /// The directory that `enter` has to be shown a look at, if any.
    pub fn way_in(&self) -> (r: Option<String>)
        ensures
            text::optional(r) == directory_to_enter(self@),
    {
        let entry: &Entry = match self.selected() {
            Some(entry) => entry,
            None => {
                return None;
            },
        };
        if !entry.is_dir() {
            return None;
        }
        match &self.inside {
            Some(inside) => {
                if entry.is_parent() && inside.at.as_str().is_empty() {
                    Some(folder(self.style, inside.archive.as_str()))
                } else {
                    None
                }
            },
            None => Some(entry.path.clone()),
        }
    }

    /// Enter the directory under the cursor. Returns false when the cursor is
    /// on a plain file (the caller decides what to do with it).
    ///
    /// Inside an archive there is no directory to change to: the levels are
    /// worked out from the index already in hand. Coming up from somewhere,
    /// the cursor lands on where that was.
    pub fn enter(&mut self, look: Look) -> (r: bool)
        ensures
            (final(self)@, r) == entered(old(self)@, look),
    {
        let (is_dir, is_parent, target): (bool, bool, String) = match self.selected() {
            Some(entry) => (entry.is_dir(), entry.is_parent(), entry.path.clone()),
            None => {
                return false;
            },
        };
        if !is_dir {
            return false;
        }
        if self.inside.is_some() {
            if is_parent {
                self.up_a_level(look);
                return true;
            }
            let member: Option<String> = match self.selected() {
                Some(entry) => self.member_of(entry),
                None => None,
            };
            return match member {
                Some(member) => {
                    self.show_level(member, None);
                    true
                },
                None => false,
            };
        }
        let leaving: Option<String> = if is_parent {
            pathname::file_name_of(self.style, self.cwd.as_str())
        } else {
            None
        };
        self.chdir(target, look);
        self.land_on(&leaving);
        true
    }

    fn up_a_level(&mut self, look: Look)
        requires
            old(self)@.inside is Some,
        ensures
            final(self)@ == up_from_level(old(self)@, old(self)@.inside->0, look),
    {
        let at: Vec<char> = match &self.inside {
            Some(inside) => chars(inside.at.as_str()),
            None => Vec::new(),
        };
        let ghost inside = self@.inside->0;
        assert(at@ == inside.at);
        let len: usize = at.len();
        match text::rfind_char(&at, '/') {
            Some(cut) => {
                proof {
                    assert(at@.subrange(0, cut as int) =~= at@.take(cut as int));
                    assert(at@.subrange(cut + 1, at@.len() as int) =~= at@.skip(cut + 1));
                }
                let leaving: String = text::part(&at, cut + 1, len);
                let above: String = text::part(&at, 0, cut);
                self.show_level(above, Some(leaving));
            },
            None => {
                if at.len() == 0 {
                    self.leave_archive(look);
                } else {
                    let leaving: String = text::string(&at);
                    let top: String = String::new();
                    assert(top@ =~= Seq::<char>::empty());
                    self.show_level(top, Some(leaving));
                }
            },
        }
    }

    /// The directory that `go_parent` has to be shown a look at, if any.
    pub fn way_up(&self) -> (r: Option<String>)
        ensures
            text::optional(r) == if self@.inside is Some {
                directory_to_enter(PanelView { cursor: 0, ..self@ })
            } else {
                pathname::parent(self.style, self@.cwd)
            },
    {
        match &self.inside {
            Some(inside) => {
                if self.entries.len() == 0 || !self.entries[0].is_dir() {
                    return None;
                }
                if self.entries[0].is_parent() && inside.at.as_str().is_empty() {
                    Some(folder(self.style, inside.archive.as_str()))
                } else {
                    None
                }
            },
            None => pathname::parent_of(self.style, self.cwd.as_str()),
        }
    }

    /// Go up: the same walk `..` does.
    pub fn go_parent(&mut self, look: Look)
        ensures
            final(self)@ == gone_up(old(self)@, look),
    {
        if self.inside.is_some() {
            self.cursor = 0;
            self.enter(look);
            return;
        }
        if let Some(parent) = pathname::parent_of(self.style, self.cwd.as_str()) {
            let from: Option<String> = pathname::file_name_of(self.style, self.cwd.as_str());
            self.chdir(parent, look);
            self.land_on(&from);
        }
    }

    // ---- archives -----------------------------------------------------------------------------

    /// Whether this panel is looking inside an archive rather than a folder.
    pub fn in_archive(&self) -> (r: bool)
        ensures
            r == self@.inside is Some,
    {
        self.inside.is_some()
    }

    /// Step into an archive whose index was read, showing its top level; or
    /// stay where one could not be read.
    pub fn open_archive(
        &mut self,
        path: &str,
        listing: Result<Listing, Trouble>,
        password: Option<String>,
    ) -> (r: Result<(), Trouble>)
        ensures
            match listing {
                Ok(listing) => {
                    &&& r is Ok
                    &&& final(self)@ == level_read(
                        PanelView {
                            inside: Some(
                                InsideView {
                                    archive: path@,
                                    at: Seq::empty(),
                                    format: listing.format@,
                                    members: listing.members@,
                                    password: text::optional(password),
                                },
                            ),
                            cursor: 0,
                            ..old(self)@
                        },
                    )
                },
                Err(trouble) => {
                    &&& r is Err
                    &&& r->Err_0 == trouble
                    &&& final(self)@ == old(self)@
                },
            },
    {
        let listing: Listing = match listing {
            Ok(listing) => listing,
            Err(trouble) => {
                return Err(trouble);
            },
        };
        let ghost p = self@;
        let at: String = String::new();
        assert(at@ =~= Seq::<char>::empty());
        let inside: Inside = Inside {
            archive: path.to_owned(),
            at,
            format: listing.format,
            members: listing.members,
            password,
        };
        self.inside = Some(inside);
        self.cursor = 0;
        assert(self@ =~= (PanelView { inside: Some(inside@), cursor: 0, ..p }));
        self.reload_inside();
        Ok(())
    }

    /// The directory that `leave_archive` has to be shown a look at, if any.
    pub fn way_out(&self) -> (r: Option<String>)
        ensures
            text::optional(r) == match self@.inside {
                Some(inside) => Some(folder_of(self.style, inside.archive)),
                None => None,
            },
    {
        match &self.inside {
            Some(inside) => Some(folder(self.style, inside.archive.as_str())),
            None => None,
        }
    }

    /// Come back out to the folder the archive sits in, with the cursor on it.
    pub fn leave_archive(&mut self, look: Look)
        ensures
            final(self)@ == out_of_archive(old(self)@, look),
    {
        let (name, out): (Option<String>, String) = match &self.inside {
            Some(inside) => (
                pathname::file_name_of(self.style, inside.archive.as_str()),
                folder(self.style, inside.archive.as_str()),
            ),
            None => {
                return;
            },
        };
        self.chdir(out, look);
        self.land_on(&name);
    }

    /// Show a level inside the archive already open.
    fn show_level(&mut self, at: String, land_on: Option<String>)
        ensures
            final(self)@ == at_level(old(self)@, at@, text::optional(land_on)),
    {
        let ghost p = self@;
        match self.inside.take() {
            Some(inside) => {
                let moved: Inside = Inside {
                    archive: inside.archive,
                    at,
                    format: inside.format,
                    members: inside.members,
                    password: inside.password,
                };
                self.inside = Some(moved);
                self.cursor = 0;
                assert(self@ =~= (PanelView {
                    inside: Some(InsideView { at: at@, ..p.inside->0 }),
                    cursor: 0,
                    ..p
                }));
                self.reload_inside();
                self.land_on(&land_on);
            },
            None => {},
        }
    }

    /// Where an entry sits inside the archive.
    pub fn member_of(&self, entry: &Entry) -> (r: Option<String>)
        ensures
            text::optional(r) == member_path(self.style, self@.inside, entry@),
    {
        match &self.inside {
            Some(inside) => match pathname::below_text(
                self.style,
                entry.path.as_str(),
                inside.archive.as_str(),
            ) {
                Some(rest) => Some(archive::normalise(rest.as_str())),
                None => None,
            },
            None => None,
        }
    }

    // ---- marking ------------------------------------------------------------------------------

    /// Toggle the mark under the cursor and step down, like Insert in NC.
    pub fn toggle_mark(&mut self)
        ensures
            final(self)@ == mark_toggled(old(self)@),
    {
        let cursor: usize = self.cursor;
        let ghost p = self@;
        if cursor < self.entries.len() && !self.entries[cursor].is_parent() {
            let marked: bool = !self.entries[cursor].marked;
            set_mark(&mut self.entries, cursor, marked);
            assert(self@ =~= (PanelView {
                entries: p.entries.update(
                    p.cursor,
                    marking(p.entries[p.cursor], !p.entries[p.cursor].marked),
                ),
                ..p
            }));
        }
        self.remember_marks();
        self.move_cursor(1);
    }

    pub fn clear_marks(&mut self)
        ensures
            final(self)@ == remembered(
                PanelView { entries: none_marked(old(self)@.entries), ..old(self)@ },
            ),
    {
        unmark_all(&mut self.entries);
        self.remember_marks();
    }

    /// Mark everything. `..` is never marked - it is not a file.
    pub fn mark_all(&mut self)
        ensures
            final(self)@ == remembered(
                PanelView { entries: all_marked(old(self)@.entries), ..old(self)@ },
            ),
    {
        mark_every(&mut self.entries);
        self.remember_marks();
    }

    pub fn invert_marks(&mut self)
        ensures
            final(self)@ == remembered(
                PanelView { entries: marks_inverted(old(self)@.entries), ..old(self)@ },
            ),
    {
        turn_marks(&mut self.entries);
        self.remember_marks();
    }

    /// Mark every entry between `from` and `to`, whichever way round they
    /// are. `additive` keeps what was already marked.
    pub fn mark_range(&mut self, from: usize, to: usize, additive: bool)
        ensures
            final(self)@ == with_range(old(self)@, from as int, to as int, additive),
    {
        if !additive {
            self.clear_marks();
        }
        if self.entries.len() == 0 {
            return;
        }
        let last: usize = self.entries.len() - 1;
        let (low, high): (usize, usize) = if from <= to {
            (from, to)
        } else {
            (to, from)
        };
        let low: usize = if low > last {
            last
        } else {
            low
        };
        let high: usize = if high > last {
            last
        } else {
            high
        };
        mark_between(&mut self.entries, low, high);
        self.remember_marks();
    }

    /// Mark, or unmark, every name matching a glob. Returns how many entries
    /// changed.
    pub fn mark_matching(&mut self, pattern: &str, marked: bool) -> (r: usize)
        ensures
            final(self)@ == remembered(
                PanelView {
                    entries: matching_marked(old(self)@.entries, pattern@, marked),
                    ..old(self)@
                },
            ),
            r == count_changes(old(self)@.entries, pattern@, marked),
    {
        let changed: usize = mark_names(&mut self.entries, pattern, marked);
        self.remember_marks();
        changed
    }

    pub fn marked_count(&self) -> (r: usize)
        ensures
            r == count_marked(self@.entries),
    {
        let ghost views = self@.entries;
        let mut count: usize = 0;
        let mut i: usize = 0;
        assert(views.take(0) =~= Seq::<EntryView>::empty());
        while i < self.entries.len()
            invariant
                i <= self.entries@.len(),
                views == self@.entries,
                count <= i,
                count == count_marked(views.take(i as int)),
            decreases self.entries@.len() - i,
        {
            proof {
                assert(views.take(i + 1).drop_last() =~= views.take(i as int));
                assert(views.take(i + 1).last() == self.entries@[i as int]@);
            }
            if self.entries[i].marked {
                count += 1;
            }
            i += 1;
        }
        assert(views.take(i as int) =~= views);
        count
    }

    pub fn marked_size(&self) -> (r: u64)
        requires
            size_marked(self@.entries) <= u64::MAX,
        ensures
            r == size_marked(self@.entries),
    {
        let ghost views = self@.entries;
        let mut size: u64 = 0;
        let mut i: usize = 0;
        assert(views.take(0) =~= Seq::<EntryView>::empty());
        while i < self.entries.len()
            invariant
                i <= self.entries@.len(),
                views == self@.entries,
                size_marked(views) <= u64::MAX,
                size == size_marked(views.take(i as int)),
            decreases self.entries@.len() - i,
        {
            proof {
                assert(views.take(i + 1).drop_last() =~= views.take(i as int));
                assert(views.take(i + 1).last() == self.entries@[i as int]@);
                lemma_size_grows(views, i + 1);
            }
            if self.entries[i].marked {
                size += self.entries[i].size;
            }
            i += 1;
        }
        assert(views.take(i as int) =~= views);
        size
    }

    /// The entries an operation should act on: every marked one, or else
    /// just the one under the cursor. `..` is never a target. In the order
    /// they are listed.
    pub fn action_entries(&self) -> (r: Vec<&Entry>)
        ensures
            r@.map_values(|entry: &Entry| entry@) == to_act_on(self@),
    {
        let ghost views = self@.entries;
        let mut marked: Vec<&Entry> = Vec::new();
        let mut i: usize = 0;
        assert(views.take(0) =~= Seq::<EntryView>::empty());
        assert(marked@.map_values(|entry: &Entry| entry@) =~= Seq::empty());
        while i < self.entries.len()
            invariant
                i <= self.entries@.len(),
                views == self@.entries,
                marked@.map_values(|entry: &Entry| entry@) == marked_entries(views.take(i as int)),
            decreases self.entries@.len() - i,
        {
            proof {
                assert(views.take(i + 1).drop_last() =~= views.take(i as int));
                assert(views.take(i + 1).last() == self.entries@[i as int]@);
            }
            if self.entries[i].marked && !self.entries[i].is_parent() {
                let ghost was = marked@.map_values(|entry: &Entry| entry@);
                marked.push(&self.entries[i]);
                assert(marked@.map_values(|entry: &Entry| entry@) =~= was.push(
                    self.entries@[i as int]@,
                ));
            }
            i += 1;
        }
        assert(views.take(i as int) =~= views);
        if marked.len() > 0 {
            return marked;
        }
        if let Some(entry) = self.selected() {
            if !entry.is_parent() {
                marked.push(entry);
            }
        }
        assert(marked@.map_values(|entry: &Entry| entry@) =~= to_act_on(self@));
        marked
    }

    /// The paths an operation should act on.
    pub fn action_targets(&self) -> (r: Vec<String>)
        ensures
            text::views(r@) == to_act_on(self@).map_values(|entry: EntryView| entry.path),
    {
        let entries: Vec<&Entry> = self.action_entries();
        let ghost wanted = to_act_on(self@).map_values(|entry: EntryView| entry.path);
        let mut out: Vec<String> = Vec::new();
        let mut i: usize = 0;
        while i < entries.len()
            invariant
                i <= entries@.len(),
                entries@.map_values(|entry: &Entry| entry@) == to_act_on(self@),
                wanted == to_act_on(self@).map_values(|entry: EntryView| entry.path),
                text::views(out@) =~= wanted.take(i as int),
            decreases entries@.len() - i,
        {
            proof {
                assert(entries@.map_values(|entry: &Entry| entry@)[i as int] == entries@[i as int]@);
            }
            let ghost was = text::views(out@);
            out.push(entries[i].path.clone());
            assert(text::views(out@) =~= was.push(wanted[i as int]));
            i += 1;
        }
        assert(text::views(out@) =~= wanted);
        out
    }

    // ---- columns ------------------------------------------------------------------------------

    /// Sort by a column, starting in the direction that column reads best.
    pub fn set_sort(&mut self, sort_by: SortBy, look: Look)
        ensures
            final(self)@ == reloaded(
                PanelView { sort_by, order: listing::natural(sort_by), ..old(self)@ },
                look,
            ),
    {
        self.order = sort_by.natural_order();
        self.sort_by = sort_by;
        self.reload(look);
    }

    /// Turn the column over.
    pub fn flip_order(&mut self, look: Look)
        ensures
            final(self)@ == reloaded(
                PanelView { order: listing::flipped(old(self)@.order), ..old(self)@ },
                look,
            ),
    {
        self.order = self.order.flip();
        self.reload(look);
    }

    /// Show what is hidden, or hide it again.
    pub fn toggle_hidden(&mut self, look: Look)
        ensures
            final(self)@ == reloaded(
                PanelView { show_hidden: !old(self)@.show_hidden, ..old(self)@ },
                look,
            ),
    {
        self.show_hidden = !self.show_hidden;
        self.reload(look);
    }
}

proof fn lemma_size_grows(entries: Seq<EntryView>, to: int)
    requires
        0 <= to <= entries.len(),
    ensures
        size_marked(entries.take(to)) <= size_marked(entries),
    decreases entries.len() - to,
{
    if to < entries.len() {
        lemma_size_grows(entries, to + 1);
        assert(entries.take(to + 1).drop_last() =~= entries.take(to));
    } else {
        assert(entries.take(to) =~= entries);
    }
}

fn mark_names(entries: &mut Vec<Entry>, pattern: &str, marked: bool) -> (r: usize)
    ensures
        entry::entry_views(final(entries)@) == matching_marked(
            entry::entry_views(old(entries)@),
            pattern@,
            marked,
        ),
        r == count_changes(entry::entry_views(old(entries)@), pattern@, marked),
{
    let ghost given = entry::entry_views(entries@);
    let ghost wanted = matching_marked(given, pattern@, marked);
    let mut changed: usize = 0;
    let mut i: usize = 0;
    assert(given.take(0) =~= Seq::<EntryView>::empty());
    while i < entries.len()
        invariant
            i <= entries@.len(),
            entries@.len() == given.len(),
            given == entry::entry_views(old(entries)@),
            wanted == matching_marked(given, pattern@, marked),
            entry::entry_views(entries@) =~= wanted.take(i as int) + given.skip(i as int),
            changed <= i,
            changed == count_changes(given.take(i as int), pattern@, marked),
        decreases entries@.len() - i,
    {
        let ghost was = entry::entry_views(entries@);
        proof {
            assert(was[i as int] == entries@[i as int]@);
            assert(was[i as int] == given[i as int]);
            assert(given.take(i + 1).drop_last() =~= given.take(i as int));
        }
        if !entries[i].is_parent() && entries[i].marked != marked && glob::matches_glob(
            pattern,
            entries[i].name.as_str(),
        ) {
            set_mark(entries, i, marked);
            changed += 1;
        }
        assert(entry::entry_views(entries@) =~= wanted.take(i + 1) + given.skip(i + 1));
        i += 1;
    }
    assert(given.take(i as int) =~= given);
    assert(entry::entry_views(entries@) =~= wanted);
    changed
}

fn folder(style: Style, archive: &str) -> (r: String)
    ensures
        r@ == folder_of(style, archive@),
{
    match pathname::parent_of(style, archive) {
        Some(folder) => folder,
        None => "/".to_owned(),
    }
}

fn level_up(style: Style, inside: &Inside) -> (r: String)
    ensures
        r@ == up_inside(style, inside@),
{
    let at: Vec<char> = chars(inside.at.as_str());
    match text::rfind_char(&at, '/') {
        Some(cut) => {
            assert(at@.subrange(0, cut as int) =~= at@.take(cut as int));
            let above: String = text::part(&at, 0, cut);
            pathname::join(style, inside.archive.as_str(), above.as_str())
        },
        None => inside.archive.clone(),
    }
}

fn entries_of_levels(
    style: Style,
    archive: &str,
    levels: Vec<Level>,
    before: &Vec<Entry>,
) -> (r: Vec<Entry>)
    ensures
        entry::entry_views(r@) == archive::level_views(levels@).map_values(
            |level: LevelView|
                entry_of_level(style, archive@, level, entry::entry_views(before@)),
        ),
{
    let ghost given = levels@;
    let ghost wanted = archive::level_views(levels@).map_values(
        |level: LevelView| entry_of_level(style, archive@, level, entry::entry_views(before@)),
    );
    let mut out: Vec<Entry> = Vec::new();
    for level in it: levels
        invariant
            it.seq() == given,
            wanted == archive::level_views(given).map_values(
                |level: LevelView|
                    entry_of_level(style, archive@, level, entry::entry_views(before@)),
            ),
            entry::entry_views(out@) =~= wanted.take(it.index() as int),
    {
        let marked: bool = has_marked_name(before, level.name.as_str());
        let path: String = pathname::join(style, archive, level.path.as_str());
        let ghost was = entry::entry_views(out@);
        let entry: Entry = Entry {
            name: level.name,
            path,
            kind: if level.is_dir {
                EntryKind::Dir
            } else {
                EntryKind::File
            },
            size: level.size,
            modified: level.modified,
            is_symlink: false,
            mode: match level.mode {
                Some(bits) => Some(Mode::from_bits(bits)),
                None => None,
            },
            marked,
        };
        out.push(entry);
        assert(entry@ =~= wanted[it.index() as int]);
        assert(entry::entry_views(out@) =~= was.push(entry@));
    }
    assert(entry::entry_views(out@) =~= wanted);
    out
}

// ---- laws -------------------------------------------------------------------------------------

proof fn lemma_line_named(entries: Seq<EntryView>, name: Seq<char>, from: int)
    requires
        0 <= from <= entries.len(),
    ensures
        from <= line_named(entries, name, from) <= entries.len(),
        line_named(entries, name, from) < entries.len() ==> entries[line_named(
            entries,
            name,
            from,
        )].name == name,
        forall|i: int| from <= i < line_named(entries, name, from) ==> (#[trigger] entries[i]).name
            != name,
    decreases entries.len() - from,
{
    if from < entries.len() && entries[from].name != name {
        lemma_line_named(entries, name, from + 1);
    }
}

/// After a re-reading the cursor stands on a line, unless there is none.
pub proof fn law_cursor_stands_on_a_line(p: PanelView, look: Look)
    ensures
        reloaded(p, look).entries.len() == 0 ==> reloaded(p, look).cursor == 0,
        reloaded(p, look).entries.len() > 0 ==> 0 <= reloaded(p, look).cursor < reloaded(
            p,
            look,
        ).entries.len(),
{
    let out = reloaded(p, look);
    match name_under_cursor(p) {
        Some(name) => {
            lemma_line_named(out.entries, name, 0);
        },
        None => {},
    }
}

/// A re-reading keeps the cursor on the same name when it is still there.
pub proof fn law_cursor_stays_on_its_name(p: PanelView, look: Look, at: int)
    requires
        0 <= p.cursor < p.entries.len(),
        0 <= at < reloaded(p, look).entries.len(),
        reloaded(p, look).entries[at].name == p.entries[p.cursor].name,
    ensures
        ({
            let out = reloaded(p, look);
            0 <= out.cursor < out.entries.len() && out.entries[out.cursor].name
                == p.entries[p.cursor].name
        }),
{
    lemma_line_named(reloaded(p, look).entries, p.entries[p.cursor].name, 0);
}

/// A re-reading of a directory keeps the marks by name.
pub proof fn law_marks_survive_a_reload(p: PanelView, look: Look, was: int, at: int)
    requires
        p.inside is None,
        !p.tree,
        look.entries is Ok,
        0 <= was < p.entries.len(),
        p.entries[was].marked,
        0 <= at < reloaded(p, look).entries.len(),
        reloaded(p, look).entries[at].name == p.entries[was].name,
    ensures
        reloaded(p, look).entries[at].marked,
{
    assert(name_is_marked(p.entries, p.entries[was].name));
}

/// The way up is never among what an operation acts on.
pub proof fn law_way_up_is_never_a_target(p: PanelView, i: int)
    requires
        0 <= i < to_act_on(p).len(),
    ensures
        to_act_on(p)[i].kind != EntryKind::Parent,
{
    lemma_marked_entries(p.entries);
}

proof fn lemma_marked_entries(entries: Seq<EntryView>)
    ensures
        forall|i: int|
            0 <= i < marked_entries(entries).len() ==> (#[trigger] marked_entries(entries)[i]).kind
                != EntryKind::Parent,
    decreases entries.len(),
{
    if entries.len() > 0 {
        lemma_marked_entries(entries.drop_last());
    }
}

/// Whether the way up carries no mark.
pub open spec fn way_up_unmarked(entries: Seq<EntryView>) -> bool {
    forall|i: int|
        0 <= i < entries.len() && (#[trigger] entries[i]).kind == EntryKind::Parent
            ==> !entries[i].marked
}

/// No way of marking marks the way up.
pub proof fn law_way_up_is_never_marked(
    entries: Seq<EntryView>,
    low: int,
    high: int,
    pattern: Seq<char>,
    marked: bool,
)
    requires
        way_up_unmarked(entries),
    ensures
        way_up_unmarked(all_marked(entries)),
        way_up_unmarked(none_marked(entries)),
        way_up_unmarked(marks_inverted(entries)),
        way_up_unmarked(range_marked(entries, low, high)),
        way_up_unmarked(matching_marked(entries, pattern, marked)),
{
    assert forall|i: int|
        0 <= i < entries.len() && entries[i].kind == EntryKind::Parent implies !entries[i].marked by {
    }
}

/// Turning every mark over twice changes nothing.
pub proof fn law_inverting_twice_changes_nothing(entries: Seq<EntryView>)
    ensures
        marks_inverted(marks_inverted(entries)) == entries,
{
    assert(marks_inverted(marks_inverted(entries)) =~= entries);
}

/// A range is the same whichever end it is given from.
pub proof fn law_a_range_is_the_same_either_way(p: PanelView, from: int, to: int, additive: bool)
    ensures
        with_range(p, from, to, additive) == with_range(p, to, from, additive),
{
}

/// A pattern changes nothing when it is given a second time.
pub proof fn law_matching_again_changes_nothing(
    entries: Seq<EntryView>,
    pattern: Seq<char>,
    marked: bool,
)
    ensures
        count_changes(matching_marked(entries, pattern, marked), pattern, marked) == 0,
    decreases entries.len(),
{
    if entries.len() > 0 {
        law_matching_again_changes_nothing(entries.drop_last(), pattern, marked);
        let out = matching_marked(entries, pattern, marked);
        assert(out.drop_last() =~= matching_marked(entries.drop_last(), pattern, marked));
    }
}

/// Folding marks into the tags keeps these in order.
pub proof fn law_tags_stay_in_order(p: PanelView)
    requires
        tags::in_order(p.style, p.tagged),
    ensures
        tags::in_order(p.style, remembered(p).tagged),
{
    lemma_tags_with(p.style, p.tagged, p.cwd, p.entries);
}

proof fn lemma_tags_with(
    style: Style,
    tags: Seq<Seq<char>>,
    cwd: Seq<char>,
    entries: Seq<EntryView>,
)
    requires
        tags::in_order(style, tags),
    ensures
        tags::in_order(style, tags_with(style, tags, cwd, entries)),
    decreases entries.len(),
{
    if entries.len() > 0 {
        lemma_tags_with(style, tags, cwd, entries.drop_last());
        let front = tags_with(style, tags, cwd, entries.drop_last());
        let path = pathname::joined(style, cwd, entries.last().name);
        tags::law_tagging_keeps_the_order(style, front, path);
        tags::law_untagging_takes_it_out(style, front, path);
    }
}

/// Whether no two entries of a directory are the same path.
pub open spec fn paths_differ(style: Style, cwd: Seq<char>, entries: Seq<EntryView>) -> bool {
    forall|i: int, j: int|
        0 <= i < j < entries.len() ==> !pathname::same(
            style,
            pathname::joined(style, cwd, (#[trigger] entries[i]).name),
            pathname::joined(style, cwd, (#[trigger] entries[j]).name),
        )
}

proof fn lemma_tag_is_the_mark(
    style: Style,
    tags: Seq<Seq<char>>,
    cwd: Seq<char>,
    entries: Seq<EntryView>,
    at: int,
)
    requires
        tags::in_order(style, tags),
        paths_differ(style, cwd, entries),
        0 <= at < entries.len(),
        entries[at].kind != EntryKind::Parent,
    ensures
        tags::has_tag(
            style,
            tags_with(style, tags, cwd, entries),
            pathname::joined(style, cwd, entries[at].name),
        ) == entries[at].marked,
    decreases entries.len(),
{
    let front = entries.drop_last();
    let before = tags_with(style, tags, cwd, front);
    let path = pathname::joined(style, cwd, entries.last().name);
    let own = pathname::joined(style, cwd, entries[at].name);
    lemma_tags_with(style, tags, cwd, front);
    if at == entries.len() - 1 {
        tags::law_tagging_keeps_the_order(style, before, path);
        tags::law_untagging_takes_it_out(style, before, path);
    } else {
        assert(paths_differ(style, cwd, front)) by {
            assert forall|i: int, j: int| 0 <= i < j < front.len() implies !pathname::same(
                style,
                pathname::joined(style, cwd, (#[trigger] front[i]).name),
                pathname::joined(style, cwd, (#[trigger] front[j]).name),
            ) by {
                assert(front[i] == entries[i]);
                assert(front[j] == entries[j]);
            }
        }
        assert(front[at] == entries[at]);
        lemma_tag_is_the_mark(style, tags, cwd, front, at);
        assert(!pathname::same(
            style,
            pathname::joined(style, cwd, entries[at].name),
            pathname::joined(style, cwd, entries[entries.len() - 1].name),
        ));
        tags::law_tagging_is_for_one_path(style, before, path, own);
        tags::law_untagging_is_for_one_path(style, before, path, own);
    }
}

/// With a tree up, what was marked in a directory is marked again when it is
/// come back to, and what was unmarked is not.
pub proof fn law_tags_bring_the_marks_back(p: PanelView)
    requires
        p.tree,
        tags::in_order(p.style, p.tagged),
        paths_differ(p.style, p.cwd, p.entries),
    ensures
        marks_from_tags(p.style, p.entries, p.cwd, remembered(p).tagged) == p.entries,
{
    let tags = remembered(p).tagged;
    let out = marks_from_tags(p.style, p.entries, p.cwd, tags);
    assert forall|i: int| 0 <= i < p.entries.len() implies out[i] == p.entries[i] by {
        if p.entries[i].kind != EntryKind::Parent {
            lemma_tag_is_the_mark(p.style, p.tagged, p.cwd, p.entries, i);
        }
    }
    assert(out =~= p.entries);
}

/// Stepping into an archive and out again leads back to the folder that holds
/// it, with the cursor on it where it is listed.
pub proof fn law_coming_out_lands_on_the_archive(p: PanelView, look: Look, at: int)
    requires
        p.inside is Some,
        p.inside->0.archive.len() > 0,
        pathname::file_name(p.style, p.inside->0.archive) is Some,
        0 <= at < out_of_archive(p, look).entries.len(),
        out_of_archive(p, look).entries[at].name == pathname::file_name(p.style, p.inside->0.archive)->0,
    ensures
        ({
            let out = out_of_archive(p, look);
            out.inside is None && out.cwd == folder_of(p.style, p.inside->0.archive) && out.entries[out.cursor].name
                == pathname::file_name(p.style, p.inside->0.archive)->0
        }),
{
    let name = pathname::file_name(p.style, p.inside->0.archive)->0;
    let gone = gone_to(p, folder_of(p.style, p.inside->0.archive), look);
    lemma_line_named(gone.entries, name, 0);
}

/// A re-reading inside an archive keeps the level being looked at.
pub proof fn law_a_reload_keeps_the_level(p: PanelView, look: Look)
    requires
        p.inside is Some,
    ensures
        reloaded(p, look).inside == p.inside,
{
}

/// An operation acts on what is marked, in the order it is listed, and where
/// nothing is, on what is under the cursor; never on the way up.
pub proof fn law_what_an_operation_acts_on(p: PanelView)
    ensures
        ({
            let marked = p.entries.filter(
                |entry: EntryView| entry.marked && entry.kind != EntryKind::Parent,
            );
            let at_cursor = 0 <= p.cursor < p.entries.len() && p.entries[p.cursor].kind
                != EntryKind::Parent;
            if marked.len() > 0 {
                to_act_on(p) == marked
            } else if at_cursor {
                to_act_on(p) == seq![p.entries[p.cursor]]
            } else {
                to_act_on(p).len() == 0
            }
        }),
{
    lemma_marked_filter(p.entries);
}

proof fn lemma_marked_filter(entries: Seq<EntryView>)
    ensures
        marked_entries(entries) == entries.filter(
            |entry: EntryView| entry.marked && entry.kind != EntryKind::Parent,
        ),
    decreases entries.len(),
{
    reveal(Seq::filter);
    if entries.len() > 0 {
        lemma_marked_filter(entries.drop_last());
    }
}

/// Toggling turns the mark under the cursor, unless that is the way up, and
/// no other mark; then the cursor goes one line down, if there is one.
pub proof fn law_toggling_turns_one_mark(p: PanelView)
    requires
        0 <= p.cursor < p.entries.len(),
    ensures
        ({
            let out = mark_toggled(p);
            &&& out.entries.len() == p.entries.len()
            &&& forall|i: int|
                0 <= i < p.entries.len() ==> (#[trigger] out.entries[i]) == (EntryView {
                    marked: if i == p.cursor && p.entries[i].kind != EntryKind::Parent {
                        !p.entries[i].marked
                    } else {
                        p.entries[i].marked
                    },
                    ..p.entries[i]
                })
            &&& out.cursor == if p.cursor + 1 < p.entries.len() {
                p.cursor + 1
            } else {
                p.cursor
            }
            &&& out.cwd == p.cwd
        }),
{
}

/// Marking a range marks every line from the one end to the other, both
/// included and as far as there are lines, but the way up. What was marked
/// before stays so only where that was asked for.
pub proof fn law_a_range_is_marked_from_end_to_end(
    p: PanelView,
    from: int,
    to: int,
    additive: bool,
    i: int,
)
    requires
        0 <= from,
        0 <= to,
        0 <= i < p.entries.len(),
    ensures
        ({
            let out = with_range(p, from, to, additive);
            let last = p.entries.len() - 1;
            let within = (from <= i <= to) || (to <= i <= from) || (i == last && from >= last && to
                >= last);
            &&& out.entries.len() == p.entries.len()
            &&& p.entries[i].kind != EntryKind::Parent ==> out.entries[i].marked == (within || (
            additive && p.entries[i].marked))
            &&& p.entries[i].kind == EntryKind::Parent ==> out.entries[i].marked == (additive
                && p.entries[i].marked)
            &&& out.entries[i] == (EntryView { marked: out.entries[i].marked, ..p.entries[i] })
            &&& out.cursor == p.cursor
        }),
{
}

/// Marking by a pattern sets the mark of every name that matches, whatever
/// its case, and of no other; it says how many marks it changed.
pub proof fn law_a_pattern_marks_what_it_matches(
    entries: Seq<EntryView>,
    pattern: Seq<char>,
    marked: bool,
)
    ensures
        ({
            let out = matching_marked(entries, pattern, marked);
            &&& out.len() == entries.len()
            &&& forall|i: int|
                0 <= i < entries.len() ==> (#[trigger] out[i]) == (EntryView {
                    marked: if entries[i].kind != EntryKind::Parent && glob::glob(
                        text::lowercase(pattern),
                        text::lowercase(entries[i].name),
                    ) {
                        marked
                    } else {
                        entries[i].marked
                    },
                    ..entries[i]
                })
            &&& count_changes(entries, pattern, marked) == marks_that_differ(entries, out)
        }),
{
    lemma_changes(entries, pattern, marked);
}

/// How many marks differ between two lists of the same length.
pub open spec fn marks_that_differ(before: Seq<EntryView>, after: Seq<EntryView>) -> nat
    decreases before.len(),
{
    if before.len() == 0 {
        0
    } else {
        marks_that_differ(before.drop_last(), after.drop_last()) + (if before.last().marked
            != after.last().marked {
            1nat
        } else {
            0
        })
    }
}

proof fn lemma_changes(entries: Seq<EntryView>, pattern: Seq<char>, marked: bool)
    ensures
        count_changes(entries, pattern, marked) == marks_that_differ(
            entries,
            matching_marked(entries, pattern, marked),
        ),
    decreases entries.len(),
{
    if entries.len() > 0 {
        lemma_changes(entries.drop_last(), pattern, marked);
        assert(matching_marked(entries, pattern, marked).drop_last() =~= matching_marked(
            entries.drop_last(),
            pattern,
            marked,
        ));
    }
}

/// Marking everything marks every line but the way up, clearing marks none,
/// and inverting turns every mark but that of the way up; nothing else of a
/// line changes.
pub proof fn law_marking_all_none_and_the_others(entries: Seq<EntryView>, i: int)
    requires
        0 <= i < entries.len(),
    ensures
        all_marked(entries).len() == entries.len(),
        none_marked(entries).len() == entries.len(),
        marks_inverted(entries).len() == entries.len(),
        all_marked(entries)[i] == (EntryView {
            marked: entries[i].kind != EntryKind::Parent,
            ..entries[i]
        }),
        none_marked(entries)[i] == (EntryView { marked: false, ..entries[i] }),
        entries[i].kind != EntryKind::Parent ==> marks_inverted(entries)[i] == (EntryView {
            marked: !entries[i].marked,
            ..entries[i]
        }),
        entries[i].kind == EntryKind::Parent ==> marks_inverted(entries)[i] == entries[i],
        count_marked(none_marked(entries)) == 0,
{
    lemma_none_counted(entries);
}

proof fn lemma_none_counted(entries: Seq<EntryView>)
    ensures
        count_marked(none_marked(entries)) == 0,
    decreases entries.len(),
{
    if entries.len() > 0 {
        lemma_none_counted(entries.drop_last());
        assert(none_marked(entries).drop_last() =~= none_marked(entries.drop_last()));
    }
}

/// The numbers and the weights of what is marked add up over two lists, and
/// one line counts where it is marked, with its size.
pub proof fn law_what_is_marked_adds_up(
    first: Seq<EntryView>,
    second: Seq<EntryView>,
    one: EntryView,
)
    ensures
        count_marked(first + second) == count_marked(first) + count_marked(second),
        size_marked(first + second) == size_marked(first) + size_marked(second),
        count_marked(seq![one]) == if one.marked {
            1nat
        } else {
            0
        },
        size_marked(seq![one]) == if one.marked {
            one.size as nat
        } else {
            0
        },
    decreases second.len(),
{
    let all = first + second;
    if second.len() == 0 {
        assert(all =~= first);
    } else {
        assert(all.drop_last() =~= first + second.drop_last());
        law_what_is_marked_adds_up(first, second.drop_last(), one);
    }
    let none = Seq::<EntryView>::empty();
    assert(seq![one].drop_last() =~= none);
    assert(count_marked(none) == 0 && size_marked(none) == 0);
}

/// The cursor moves by as many lines as were asked for, and no further than
/// the first and the last.
pub proof fn law_the_cursor_moves_and_stays_in_the_list(p: PanelView, delta: int)
    requires
        0 <= p.cursor < p.entries.len(),
    ensures
        0 <= moved(p, delta).cursor < p.entries.len(),
        0 <= p.cursor + delta < p.entries.len() ==> moved(p, delta).cursor == p.cursor + delta,
        p.cursor + delta < 0 ==> moved(p, delta).cursor == 0,
        p.cursor + delta >= p.entries.len() ==> moved(p, delta).cursor == p.entries.len() - 1,
        moved(p, delta) == (PanelView { cursor: moved(p, delta).cursor, ..p }),
{
}

/// A re-reading of a directory without a tree marks nothing that was not
/// marked by that name; and where nothing of the name under the cursor is
/// left, the cursor stands at the top.
pub proof fn law_a_reload_marks_nothing_new(p: PanelView, look: Look, at: int)
    requires
        p.inside is None,
        !p.tree,
        0 <= at < reloaded(p, look).entries.len(),
        reloaded(p, look).entries[at].marked,
        look.entries is Ok,
    ensures
        exists|i: int|
            0 <= i < p.entries.len() && (#[trigger] p.entries[i]).marked && p.entries[i].name
                == reloaded(p, look).entries[at].name,
{
    let found = look.entries->Ok_0@;
    let plain = listing::listing(p.style, found, p.cwd, p.show_hidden, p.sort_by, p.order);
    listing::lemma_listed_unmarked(
        p.style,
        found,
        p.cwd,
        p.show_hidden,
        p.sort_by,
        p.order,
        at,
    );
    assert(name_is_marked(p.entries, plain[at].name));
}

/// A re-reading shows what the directory holds now, or why it cannot be
/// read, and changes nothing of where the panel is or how it sorts.
pub proof fn law_a_reload_shows_what_is_there_now(p: PanelView, look: Look)
    requires
        p.inside is None,
        !p.tree,
    ensures
        ({
            let out = reloaded(p, look);
            &&& match look.entries {
                Ok(found) => {
                    let lines = listing::listing(
                        p.style,
                        found@,
                        p.cwd,
                        p.show_hidden,
                        p.sort_by,
                        p.order,
                    );
                    &&& out.error is None
                    &&& out.entries.len() == lines.len()
                    &&& forall|i: int|
                        0 <= i < lines.len() ==> (#[trigger] out.entries[i]) == (EntryView {
                            marked: out.entries[i].marked,
                            ..lines[i]
                        })
                },
                Err(why) => out.error == Some(why@) && out.entries.len() <= 1,
            }
            &&& out.watching == look.signature
            &&& out.cwd == p.cwd && out.sort_by == p.sort_by && out.order == p.order
            &&& out.show_hidden == p.show_hidden && out.tagged == p.tagged && out.inside is None
        }),
{
}

/// Entering a directory shows it, with nothing marked but what a tree has
/// tagged, and leaves any archive; entering a file does nothing.
pub proof fn law_entering_goes_where_the_line_leads(p: PanelView, look: Look)
    requires
        0 <= p.cursor < p.entries.len(),
        p.inside is None,
    ensures
        ({
            let entry = p.entries[p.cursor];
            let (out, went) = entered(p, look);
            &&& went <==> entry.kind != EntryKind::File
            &&& !went ==> out == p
            &&& went ==> out.cwd == entry.path && out.inside is None && directory_to_enter(p)
                == Some(entry.path)
            &&& went ==> out.sort_by == p.sort_by && out.order == p.order && out.show_hidden
                == p.show_hidden
        }),
{
}

/// Going up shows the directory above, and where it can be read puts the
/// cursor on the one just left.
pub proof fn law_going_up_lands_on_where_it_came_from(p: PanelView, look: Look, at: int)
    requires
        p.inside is None,
        pathname::parent(p.style, p.cwd) is Some,
        pathname::file_name(p.style, p.cwd) is Some,
        0 <= at < gone_up(p, look).entries.len(),
        gone_up(p, look).entries[at].name == pathname::file_name(p.style, p.cwd)->0,
    ensures
        ({
            let out = gone_up(p, look);
            &&& out.cwd == pathname::parent(p.style, p.cwd)->0
            &&& 0 <= out.cursor < out.entries.len()
            &&& out.entries[out.cursor].name == pathname::file_name(p.style, p.cwd)->0
        }),
{
    let gone = gone_to(p, pathname::parent(p.style, p.cwd)->0, look);
    lemma_line_named(gone.entries, pathname::file_name(p.style, p.cwd)->0, 0);
}

/// The line of a name is the first that has it.
pub proof fn law_a_name_is_found_where_it_first_stands(entries: Seq<EntryView>, name: Seq<char>)
    ensures
        ({
            let at = line_named(entries, name, 0);
            &&& 0 <= at <= entries.len()
            &&& at < entries.len() ==> entries[at].name == name
            &&& forall|i: int| 0 <= i < at ==> (#[trigger] entries[i]).name != name
        }),
{
    lemma_first_named(entries, name, 0);
}

proof fn lemma_first_named(entries: Seq<EntryView>, name: Seq<char>, from: int)
    requires
        0 <= from <= entries.len(),
    ensures
        ({
            let at = line_named(entries, name, from);
            &&& from <= at <= entries.len()
            &&& at < entries.len() ==> entries[at].name == name
            &&& forall|i: int| from <= i < at ==> (#[trigger] entries[i]).name != name
        }),
    decreases entries.len() - from,
{
    if from < entries.len() && entries[from].name != name {
        lemma_first_named(entries, name, from + 1);
    }
}

/// Going up inside an archive shows the level above, and where the one just
/// left is there puts the cursor on it; from the first level down that is the
/// top.
pub proof fn law_going_up_inside_an_archive(
    p: PanelView,
    look: Look,
    above: Seq<char>,
    name: Seq<char>,
    at: int,
)
    requires
        p.inside is Some,
        p.entries.len() > 0,
        p.entries[0].kind == EntryKind::Parent,
        name.len() > 0,
        !name.contains('/'),
        p.inside->0.at == above + seq!['/'] + name || (above.len() == 0 && p.inside->0.at == name),
    ensures
        ({
            let out = gone_up(p, look);
            &&& out.inside is Some
            &&& out.inside->0.at == above
            &&& out.inside->0.archive == p.inside->0.archive && out.inside->0.members
                == p.inside->0.members
            &&& 0 <= at < out.entries.len() && out.entries[at].name == name ==> 0 <= out.cursor
                < out.entries.len() && out.entries[out.cursor].name == name
        }),
{
    let inside = p.inside->0;
    assert forall|j: int| 0 <= j < name.len() implies name[j] != '/' by {
        assert(name.contains(name[j]));
    }
    let len = inside.at.len() as int;
    if inside.at == above + seq!['/'] + name {
        text::lemma_seek_back_is(inside.at, '/', len, above.len() as int);
        assert(inside.at.take(above.len() as int) =~= above);
        assert(inside.at.skip(above.len() as int + 1) =~= name);
    } else {
        text::lemma_seek_back_is(inside.at, '/', len, -1);
        assert(above =~= Seq::<char>::empty());
    }
    let start = PanelView { cursor: 0, ..p };
    let level = level_read(
        PanelView { inside: Some(InsideView { at: above, ..inside }), cursor: 0, ..start },
    );
    lemma_line_named(level.entries, name, 0);
}

/// Inside an archive the way up comes first, and then every line of the level:
/// by its name, its place in the archive, its size and its time.
pub proof fn law_a_level_is_listed_whole(
    style: Style,
    inside: InsideView,
    before: Seq<EntryView>,
    sort_by: SortBy,
    order: Order,
    i: int,
)
    requires
        0 <= i < archive::lines_at(inside.members, archive::level_prefix(inside.at)).len(),
    ensures
        entries_inside(style, inside, before, sort_by, order)[0].kind == EntryKind::Parent,
        entries_inside(style, inside, before, sort_by, order).len() == archive::lines_at(
            inside.members,
            archive::level_prefix(inside.at),
        ).len() + 1,
        exists|k: int|
            shows_level(
                #[trigger] entries_inside(style, inside, before, sort_by, order)[k],
                style,
                inside.archive,
                archive::lines_at(inside.members, archive::level_prefix(inside.at))[i],
            ) && 0 < k < entries_inside(style, inside, before, sort_by, order).len(),
{
    broadcast use vstd::seq_lib::group_to_multiset_ensures;

    let levels = archive::lines_at(inside.members, archive::level_prefix(inside.at));
    let plain = levels.map_values(
        |level: LevelView| entry_of_level(style, inside.archive, level, before),
    );
    let less = listing::listing_order(style, sort_by, order);
    let sorted = crate::order::sorted(plain, less);
    crate::order::law_sorting_keeps_everything(plain, less);
    let entry = plain[i];
    assert(plain.contains(entry));
    assert(plain.to_multiset().count(entry) > 0);
    assert(sorted.to_multiset().count(entry) > 0);
    assert(sorted.contains(entry));
    let m = choose|m: int| 0 <= m < sorted.len() && sorted[m] == entry;
    let all = entries_inside(style, inside, before, sort_by, order);
    assert(all[m + 1] == entry);
    assert(shows_level(all[m + 1], style, inside.archive, levels[i]));
}

/// Whether a line shows a level's line as it is.
pub open spec fn shows_level(
    entry: EntryView,
    style: Style,
    archive: Seq<char>,
    level: LevelView,
) -> bool {
    &&& entry.name == level.name
    &&& entry.path == pathname::joined(style, archive, level.path)
    &&& entry.size == level.size
    &&& entry.modified == level.modified
    &&& entry.kind == if level.is_dir {
        EntryKind::Dir
    } else {
        EntryKind::File
    }
}

/// A directory that is gone to shows with nothing marked and the cursor at the
/// top, whatever was marked where the panel was before, unless a tree is up.
pub proof fn law_another_directory_starts_unmarked(
    p: PanelView,
    path: Seq<char>,
    look: Look,
    i: int,
)
    requires
        !p.tree,
        0 <= i < gone_to(p, path, look).entries.len(),
    ensures
        !gone_to(p, path, look).entries[i].marked,
        gone_to(p, path, look).cursor == 0,
        gone_to(p, path, look).cwd == path,
        gone_to(p, path, look).inside is None,
{
    match look.entries {
        Ok(found) => {
            listing::lemma_listed_unmarked(
                p.style,
                found@,
                path,
                p.show_hidden,
                p.sort_by,
                p.order,
                i,
            );
        },
        Err(_) => {},
    }
}

/// From the top of an archive the way up leads to the directory that the
/// archive is in; from any other place in it to no directory.
pub proof fn law_the_way_out_of_an_archive(p: PanelView)
    requires
        p.inside is Some,
        0 <= p.cursor < p.entries.len(),
    ensures
        ({
            let out = p.entries[p.cursor].kind == EntryKind::Parent && p.inside->0.at.len() == 0;
            directory_to_enter(p) == if !out {
                None
            } else if pathname::parent(p.style, p.inside->0.archive) is Some {
                pathname::parent(p.style, p.inside->0.archive)
            } else {
                Some(seq!['/'])
            }
        }),
{
    reveal_strlit("/");
    assert("/"@ =~= seq!['/']);
}

} // verus!
