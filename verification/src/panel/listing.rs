//! What a directory looks like: from outside, cheaply, and as a sorted list.

use vstd::prelude::*;
use crate::entry;
use crate::entry::{Entry, EntryKind, EntryView};
use crate::moment::Moment;
use crate::order;
use crate::pathname;
use crate::pathname::Style;
use crate::perms::Mode;
use crate::text;

verus! {

broadcast use vstd::string::group_string_axioms;

/// How many entries a directory can have before the cheap check gives up on
/// looking at each of them.
pub const WATCH_DETAIL_LIMIT: usize = 2_000;

/// What a directory looks like from outside, cheaply.
///
/// The directory's own time of change does not move when a file already
/// listed grows, which is why the sizes and the newest entry are folded in as
/// well for directories small enough to look at entry by entry.
#[derive(Debug, Clone, Copy, PartialEq, Eq, Structural)]
pub struct Signature {
    /// The directory's own modification time.
    pub directory: Option<Moment>,
    pub count: usize,
    /// Only filled in below the limit.
    pub bytes: u64,
    /// Ditto: the most recent entry.
    pub newest: Option<Moment>,
}

impl Default for Signature {
    fn default() -> (r: Signature)
        ensures
            r == (Signature { directory: None, count: 0, bytes: 0, newest: None }),
    {
        Signature { directory: None, count: 0, bytes: 0, newest: None }
    }
}

/// What one entry of a directory tells from outside: its size, and when it
/// was changed, where that is known.
#[derive(Debug, Clone, Copy, PartialEq, Eq, Structural)]
pub struct Seen {
    pub size: u64,
    pub modified: Option<Moment>,
}

/// The sizes of some entries together, as far as 64 bits hold them.
pub open spec fn bytes_in(entries: Seq<Option<Seen>>) -> int
    decreases entries.len(),
{
    if entries.len() == 0 {
        0
    } else {
        let front = bytes_in(entries.drop_last());
        match entries.last() {
            Some(seen) => (front + seen.size) % 0x1_0000_0000_0000_0000,
            None => front,
        }
    }
}

/// The most recent of some entries.
pub open spec fn newest_in(entries: Seq<Option<Seen>>) -> Option<Moment>
    decreases entries.len(),
{
    if entries.len() == 0 {
        None
    } else {
        let front = newest_in(entries.drop_last());
        match entries.last() {
            Some(seen) => match seen.modified {
                Some(modified) => match front {
                    Some(newest) => if newest.nanos > modified.nanos {
                        Some(newest)
                    } else {
                        Some(modified)
                    },
                    None => Some(modified),
                },
                None => front,
            },
            None => front,
        }
    }
}

/// A directory's signature, from when it was changed and what is known of its
/// entries; an entry that cannot be looked at only counts.
///
/// Past the limit the detail is dropped rather than half-kept, so the value
/// cannot depend on the order the entries came back in. A directory that
/// cannot be read has a signature too - the default one - so one that
/// disappears reads as a change rather than as nothing.
pub fn signature(
    directory: Option<Moment>,
    entries: Option<&Vec<Option<Seen>>>,
    detail_limit: usize,
) -> (r: Signature)
    ensures
        match entries {
            Some(entries) => {
                &&& r.directory == directory
                &&& r.count == entries@.len()
                &&& entries@.len() <= detail_limit ==> r.bytes == bytes_in(entries@) && r.newest
                    == newest_in(entries@)
                &&& entries@.len() > detail_limit ==> r.bytes == 0 && r.newest is None
            },
            None => r == (Signature { directory: None, count: 0, bytes: 0, newest: None }),
        },
{
    let entries: &Vec<Option<Seen>> = match entries {
        Some(entries) => entries,
        None => {
            return Signature::default();
        },
    };
    let count: usize = entries.len();
    if count > detail_limit {
        return Signature { directory, count, bytes: 0, newest: None };
    }
    let mut bytes: u64 = 0;
    let mut newest: Option<Moment> = None;
    let mut i: usize = 0;
    assert(entries@.take(0) =~= Seq::<Option<Seen>>::empty());
    while i < entries.len()
        invariant
            i <= entries@.len(),
            bytes == bytes_in(entries@.take(i as int)),
            newest == newest_in(entries@.take(i as int)),
        decreases entries@.len() - i,
    {
        assert(entries@.take(i + 1).drop_last() =~= entries@.take(i as int));
        if let Some(seen) = entries[i] {
            bytes = bytes.wrapping_add(seen.size);
            if let Some(modified) = seen.modified {
                newest =
                Some(
                    match newest {
                        Some(newest) => if newest.is_after(modified) {
                            newest
                        } else {
                            modified
                        },
                        None => modified,
                    },
                );
            }
        }
        i += 1;
    }
    assert(entries@.take(i as int) =~= entries@);
    Signature { directory, count, bytes, newest }
}

// ---- columns ----------------------------------------------------------------------------------

#[derive(Debug, Clone, Copy, PartialEq, Eq, Structural)]
pub enum SortBy {
    Name,
    Ext,
    Size,
    Time,
}

/// Which way round a column is worth reading first.
pub open spec fn natural(sort_by: SortBy) -> Order {
    match sort_by {
        SortBy::Name | SortBy::Ext => Order::Ascending,
        SortBy::Size | SortBy::Time => Order::Descending,
    }
}

impl SortBy {
    pub fn label(self) -> (r: &'static str)
        ensures
            r@ == match self {
                SortBy::Name => "name"@,
                SortBy::Ext => "ext"@,
                SortBy::Size => "size"@,
                SortBy::Time => "time"@,
            },
    {
        match self {
            SortBy::Name => "name",
            SortBy::Ext => "ext",
            SortBy::Size => "size",
            SortBy::Time => "time",
        }
    }

    /// Which way round this column is worth reading first: names from A to Z,
    /// sizes and dates biggest and newest first.
    pub fn natural_order(self) -> (r: Order)
        ensures
            r == natural(self),
    {
        match self {
            SortBy::Name | SortBy::Ext => Order::Ascending,
            SortBy::Size | SortBy::Time => Order::Descending,
        }
    }
}

/// Which way a column is sorted.
#[derive(Debug, Clone, Copy, PartialEq, Eq, Structural)]
pub enum Order {
    Ascending,
    Descending,
}

impl Default for Order {
    fn default() -> (r: Order)
        ensures
            r == Order::Ascending,
    {
        Order::Ascending
    }
}

/// The other way.
pub open spec fn flipped(order: Order) -> Order {
    match order {
        Order::Ascending => Order::Descending,
        Order::Descending => Order::Ascending,
    }
}

impl Order {
    pub fn flip(self) -> (r: Order)
        ensures
            r == flipped(self),
    {
        match self {
            Order::Ascending => Order::Descending,
            Order::Descending => Order::Ascending,
        }
    }

    pub fn label(self) -> (r: &'static str)
        ensures
            r@ == match self {
                Order::Ascending => "asc"@,
                Order::Descending => "desc"@,
            },
    {
        match self {
            Order::Ascending => "asc",
            Order::Descending => "desc",
        }
    }
}

// ---- reading ----------------------------------------------------------------------------------

/// What was found in a directory. A link is described itself, but `is_dir`
/// says what it leads to, so that entering it works naturally.
#[derive(Debug)]
pub struct Found {
    pub name: String,
    pub path: String,
    /// Whether the file system says that it is hidden, where it says so.
    pub hidden: bool,
    pub is_symlink: bool,
    pub is_dir: bool,
    pub size: u64,
    pub modified: Option<Moment>,
    pub mode: Option<Mode>,
}

/// Whether the user normally does not want to see something.
pub open spec fn concealed(name: Seq<char>, hidden: bool) -> bool {
    hidden || (name.len() > 0 && name[0] == '.')
}

/// True for entries the user normally does not want to see: by a leading dot,
/// or by an attribute where there is one.
pub fn is_hidden(name: &str, hidden: bool) -> (r: bool)
    ensures
        r == concealed(name@, hidden),
{
    proof {
        reveal_strlit(".");
        assert(text::begins(name@, "."@) <==> name@.len() > 0 && name@[0] == '.') by {
            if name@.len() > 0 {
                assert(name@.take(1) =~= seq![name@[0]]);
                assert("."@ =~= seq!['.']);
                if name@.take(1) == "."@ {
                    assert(name@.take(1)[0] == '.');
                }
            }
        }
    }
    hidden || text::starts_with(name, ".")
}

/// The entry of something that was found.
pub open spec fn entry_of(found: Found) -> EntryView {
    EntryView {
        name: found.name@,
        path: found.path@,
        kind: if found.is_dir {
            EntryKind::Dir
        } else {
            EntryKind::File
        },
        size: if found.is_dir {
            0
        } else {
            found.size
        },
        modified: found.modified,
        is_symlink: found.is_symlink,
        mode: found.mode,
        marked: false,
    }
}

/// The entries of what was found and is to be shown.
pub open spec fn entries_of(found: Seq<Found>, show_hidden: bool) -> Seq<EntryView>
    decreases found.len(),
{
    if found.len() == 0 {
        Seq::empty()
    } else {
        let front = entries_of(found.drop_last(), show_hidden);
        if !show_hidden && concealed(found.last().name@, found.last().hidden) {
            front
        } else {
            front.push(entry_of(found.last()))
        }
    }
}

/// The line that leads up to a path.
pub open spec fn up_line(path: Seq<char>) -> EntryView {
    EntryView {
        name: ".."@,
        path,
        kind: EntryKind::Parent,
        size: 0,
        modified: None,
        is_symlink: false,
        mode: None,
        marked: false,
    }
}

/// The line that leads up from a directory, if one does.
pub open spec fn up_lines(style: Style, dir: Seq<char>) -> Seq<EntryView> {
    match pathname::parent(style, dir) {
        Some(above) => seq![up_line(above)],
        None => Seq::empty(),
    }
}

/// Whether one entry goes before another by a column alone, going up.
pub open spec fn column_before(style: Style, sort_by: SortBy, a: EntryView, b: EntryView) -> bool {
    match sort_by {
        SortBy::Name => text::before(text::lowercase(a.name), text::lowercase(b.name)),
        SortBy::Ext => {
            let x = entry::entry_ending(style, a.kind, a.name);
            let y = entry::entry_ending(style, b.kind, b.name);
            text::before(x, y) || (x == y && text::before(
                text::lowercase(a.name),
                text::lowercase(b.name),
            ))
        },
        SortBy::Size => a.size < b.size,
        SortBy::Time => match b.modified {
            Some(later) => match a.modified {
                Some(earlier) => earlier.nanos < later.nanos,
                None => true,
            },
            None => false,
        },
    }
}

/// Whether one entry goes before another: directories above files whichever
/// way the column is sorted, then by the column, then by name.
pub open spec fn goes_before(
    style: Style,
    sort_by: SortBy,
    order: Order,
    a: EntryView,
    b: EntryView,
) -> bool {
    if entry::walks_into(a.kind) != entry::walks_into(b.kind) {
        entry::walks_into(a.kind)
    } else {
        let up = column_before(style, sort_by, a, b);
        let down = column_before(style, sort_by, b, a);
        let first = match order {
            Order::Ascending => up,
            Order::Descending => down,
        };
        first || (!up && !down && text::before(a.name, b.name))
    }
}

/// The order of a listing.
pub open spec fn listing_order(style: Style, sort_by: SortBy, order: Order) -> spec_fn(
    EntryView,
    EntryView,
) -> bool {
    |a: EntryView, b: EntryView| goes_before(style, sort_by, order, a, b)
}

/// Entries in the order of a listing.
pub open spec fn in_listing_order(
    style: Style,
    entries: Seq<EntryView>,
    sort_by: SortBy,
    order: Order,
) -> Seq<EntryView> {
    order::sorted(entries, listing_order(style, sort_by, order))
}

/// A directory's listing: the way up, and then what is shown, in order.
pub open spec fn listing(
    style: Style,
    found: Seq<Found>,
    dir: Seq<char>,
    show_hidden: bool,
    sort_by: SortBy,
    order: Order,
) -> Seq<EntryView> {
    up_lines(style, dir) + in_listing_order(style, entries_of(found, show_hidden), sort_by, order)
}

fn is_column_before(style: Style, sort_by: SortBy, a: &Entry, b: &Entry) -> (r: bool)
    ensures
        r == column_before(style, sort_by, a@, b@),
{
    match sort_by {
        SortBy::Name => text::comes_before(
            text::to_lowercase(a.name.as_str()).as_str(),
            text::to_lowercase(b.name.as_str()).as_str(),
        ),
        SortBy::Ext => {
            let x: String = a.extension(style);
            let y: String = b.extension(style);
            text::comes_before(x.as_str(), y.as_str()) || (text::same(x.as_str(), y.as_str())
                && text::comes_before(
                text::to_lowercase(a.name.as_str()).as_str(),
                text::to_lowercase(b.name.as_str()).as_str(),
            ))
        },
        SortBy::Size => a.size < b.size,
        SortBy::Time => match b.modified {
            Some(later) => match a.modified {
                Some(earlier) => later.is_after(earlier),
                None => true,
            },
            None => false,
        },
    }
}

fn is_before(style: Style, sort_by: SortBy, order: Order, a: &Entry, b: &Entry) -> (r: bool)
    ensures
        r == goes_before(style, sort_by, order, a@, b@),
{
    if a.is_dir() != b.is_dir() {
        return a.is_dir();
    }
    let up: bool = is_column_before(style, sort_by, a, b);
    let down: bool = is_column_before(style, sort_by, b, a);
    let first: bool = match order {
        Order::Ascending => up,
        Order::Descending => down,
    };
    first || (!up && !down && text::comes_before(a.name.as_str(), b.name.as_str()))
}

/// Directories before files, then by the chosen criterion. `..` is not
/// included here; it is prepended after sorting.
pub fn sort_entries(style: Style, entries: &mut Vec<Entry>, sort_by: SortBy, order: Order)
    ensures
        entry::entry_views(final(entries)@) == in_listing_order(
            style,
            entry::entry_views(old(entries)@),
            sort_by,
            order,
        ),
{
    let before = |a: &Entry, b: &Entry| -> (r: bool)
        ensures
            r == goes_before(style, sort_by, order, a@, b@),
        { is_before(style, sort_by, order, a, b) };
    let ghost given = entries@;
    let ghost less = |a: Entry, b: Entry| goes_before(style, sort_by, order, a@, b@);
    proof {
        law_listings_have_an_order(style, sort_by, order);
        order::lemma_orders_through(|entry: Entry| entry@, less, listing_order(style, sort_by, order));
    }
    order::sort(entries, before, Ghost(less));
    proof {
        order::lemma_sorted_map(
            given,
            |entry: Entry| entry@,
            less,
            listing_order(style, sort_by, order),
        );
    }
}

/// Turn what was found in a directory into sorted entries, `..` leading the
/// list above the sorted content.
pub fn read_entries(
    style: Style,
    found: Vec<Found>,
    dir: &str,
    show_hidden: bool,
    sort_by: SortBy,
    order: Order,
) -> (r: Vec<Entry>)
    ensures
        entry::entry_views(r@) == listing(style, found@, dir@, show_hidden, sort_by, order),
{
    let ghost all = found@;
    let mut out: Vec<Entry> = Vec::new();
    assert(all.take(0) =~= Seq::<Found>::empty());
    assert(entry::entry_views(out@) =~= Seq::empty());
    for item in it: found
        invariant
            it.seq() == all,
            entry::entry_views(out@) == entries_of(all.take(it.index() as int), show_hidden),
    {
        proof {
            let i = it.index() as int;
            assert(all.take(i + 1).drop_last() =~= all.take(i));
            assert(all.take(i + 1).last() == all[i]);
        }
        if show_hidden || !is_hidden(item.name.as_str(), item.hidden) {
            let ghost was = entry::entry_views(out@);
            let entry: Entry = Entry {
                name: item.name,
                path: item.path,
                kind: if item.is_dir {
                    EntryKind::Dir
                } else {
                    EntryKind::File
                },
                size: if item.is_dir {
                    0
                } else {
                    item.size
                },
                modified: item.modified,
                is_symlink: item.is_symlink,
                mode: item.mode,
                marked: false,
            };
            out.push(entry);
            assert(entry::entry_views(out@) =~= was.push(entry@));
        }
    }
    assert(all.take(all.len() as int) =~= all);
    sort_entries(style, &mut out, sort_by, order);
    let ghost sorted = entry::entry_views(out@);
    match Entry::parent_entry(style, dir) {
        Some(parent) => {
            out.insert(0, parent);
            assert(parent@ =~= up_line(pathname::parent(style, dir@)->0));
            assert(entry::entry_views(out@) =~= up_lines(style, dir@) + sorted);
        },
        None => {
            assert(entry::entry_views(out@) =~= up_lines(style, dir@) + sorted);
        },
    }
    out
}

// ---- laws -------------------------------------------------------------------------------------

proof fn lemma_column_orders(
    style: Style,
    sort_by: SortBy,
    a: EntryView,
    b: EntryView,
    c: EntryView,
)
    ensures
        !column_before(style, sort_by, a, a),
        !(column_before(style, sort_by, a, b) && column_before(style, sort_by, b, a)),
        column_before(style, sort_by, a, b) && column_before(style, sort_by, b, c) ==> column_before(
            style,
            sort_by,
            a,
            c,
        ),
        !column_before(style, sort_by, a, b) && !column_before(style, sort_by, b, c) ==> !column_before(
            style,
            sort_by,
            a,
            c,
        ),
{
    let (x, y, z) = (text::lowercase(a.name), text::lowercase(b.name), text::lowercase(c.name));
    lemma_text_orders(x, y, z);
    let (x, y, z) = (
        entry::entry_ending(style, a.kind, a.name),
        entry::entry_ending(style, b.kind, b.name),
        entry::entry_ending(style, c.kind, c.name),
    );
    lemma_text_orders(x, y, z);
}

proof fn lemma_text_orders(a: Seq<char>, b: Seq<char>, c: Seq<char>)
    ensures
        !text::before(a, a),
        !(text::before(a, b) && text::before(b, a)),
        text::before(a, b) || text::before(b, a) || a == b,
        text::before(b, c) || text::before(c, b) || b == c,
        !(text::before(b, c) && text::before(c, b)),
        text::before(a, c) || text::before(c, a) || a == c,
        !(text::before(a, c) && text::before(c, a)),
        text::before(a, b) && text::before(b, c) ==> text::before(a, c),
        text::before(c, b) && text::before(b, a) ==> text::before(c, a),
{
    text::lemma_before_total(a, a);
    text::lemma_before_total(a, b);
    text::lemma_before_total(b, c);
    text::lemma_before_total(a, c);
    if text::before(a, b) && text::before(b, c) {
        text::lemma_before_transitive(a, b, c);
    }
    if text::before(c, b) && text::before(b, a) {
        text::lemma_before_transitive(c, b, a);
    }
}

/// The order of a listing is one, whatever the column and its direction.
pub proof fn law_listings_have_an_order(style: Style, sort_by: SortBy, order: Order)
    ensures
        order::orders(listing_order(style, sort_by, order)),
{
    let less = listing_order(style, sort_by, order);
    assert forall|a: EntryView| !#[trigger] less(a, a) by {
        lemma_column_orders(style, sort_by, a, a, a);
        lemma_text_orders(a.name, a.name, a.name);
    }
    assert forall|a: EntryView, b: EntryView, c: EntryView| #[trigger]
        less(a, b) && #[trigger] less(b, c) implies less(a, c) by {
        lemma_column_orders(style, sort_by, a, b, c);
        lemma_column_orders(style, sort_by, c, b, a);
        lemma_column_orders(style, sort_by, b, a, c);
        lemma_column_orders(style, sort_by, c, a, b);
        lemma_column_orders(style, sort_by, a, c, b);
        lemma_column_orders(style, sort_by, b, c, a);
        lemma_text_orders(a.name, b.name, c.name);
    }
    assert forall|a: EntryView, b: EntryView, c: EntryView| !#[trigger]
        less(a, b) && !#[trigger] less(b, c) implies !less(a, c) by {
        lemma_column_orders(style, sort_by, a, b, c);
        lemma_column_orders(style, sort_by, c, b, a);
        lemma_column_orders(style, sort_by, b, a, c);
        lemma_column_orders(style, sort_by, c, a, b);
        lemma_column_orders(style, sort_by, a, c, b);
        lemma_column_orders(style, sort_by, b, c, a);
        lemma_text_orders(a.name, b.name, c.name);
    }
}

/// However a listing is sorted, no directory stands below a file.
pub proof fn law_directories_stay_on_top(
    style: Style,
    entries: Seq<EntryView>,
    sort_by: SortBy,
    order: Order,
    i: int,
    j: int,
)
    requires
        0 <= i < j < in_listing_order(style, entries, sort_by, order).len(),
    ensures
        entry::walks_into(in_listing_order(style, entries, sort_by, order)[j].kind) ==> entry::walks_into(
            in_listing_order(style, entries, sort_by, order)[i].kind,
        ),
{
    law_listings_have_an_order(style, sort_by, order);
    order::law_sorting_puts_in_order(entries, listing_order(style, sort_by, order));
    let out = in_listing_order(style, entries, sort_by, order);
    assert(!goes_before(style, sort_by, order, out[j], out[i]));
}

/// What a listing sorted by time comes to: of two files, or two directories,
/// the one above is not later where times go up, and not earlier where they
/// go down. One whose time is not known counts as earlier than any.
pub proof fn law_the_time_column_goes_by_time(
    style: Style,
    entries: Seq<EntryView>,
    order: Order,
    i: int,
    j: int,
)
    requires
        0 <= i < j < in_listing_order(style, entries, SortBy::Time, order).len(),
        entry::walks_into(in_listing_order(style, entries, SortBy::Time, order)[i].kind)
            == entry::walks_into(in_listing_order(style, entries, SortBy::Time, order)[j].kind),
    ensures
        ({
            let out = in_listing_order(style, entries, SortBy::Time, order);
            match (out[i].modified, out[j].modified) {
                (Some(above), Some(below)) => match order {
                    Order::Ascending => above.nanos <= below.nanos,
                    Order::Descending => above.nanos >= below.nanos,
                },
                (Some(_), None) => order == Order::Descending,
                (None, Some(_)) => order == Order::Ascending,
                (None, None) => true,
            }
        }),
{
    lemma_in_order(style, entries, SortBy::Time, order, i, j);
}

/// What a listing sorted by size comes to: of two files, or two directories,
/// the one above is not larger where sizes go up, and not smaller where they
/// go down.
pub proof fn law_the_size_column_goes_by_size(
    style: Style,
    entries: Seq<EntryView>,
    order: Order,
    i: int,
    j: int,
)
    requires
        0 <= i < j < in_listing_order(style, entries, SortBy::Size, order).len(),
        entry::walks_into(in_listing_order(style, entries, SortBy::Size, order)[i].kind)
            == entry::walks_into(in_listing_order(style, entries, SortBy::Size, order)[j].kind),
    ensures
        ({
            let out = in_listing_order(style, entries, SortBy::Size, order);
            match order {
                Order::Ascending => out[i].size <= out[j].size,
                Order::Descending => out[i].size >= out[j].size,
            }
        }),
{
    lemma_in_order(style, entries, SortBy::Size, order, i, j);
}

/// What a listing sorted by name comes to: the names, in small letters, go up
/// or down.
pub proof fn law_the_name_column_goes_by_name(
    style: Style,
    entries: Seq<EntryView>,
    order: Order,
    i: int,
    j: int,
)
    requires
        0 <= i < j < in_listing_order(style, entries, SortBy::Name, order).len(),
        entry::walks_into(in_listing_order(style, entries, SortBy::Name, order)[i].kind)
            == entry::walks_into(in_listing_order(style, entries, SortBy::Name, order)[j].kind),
    ensures
        ({
            let out = in_listing_order(style, entries, SortBy::Name, order);
            let above = text::lowercase(out[i].name);
            let below = text::lowercase(out[j].name);
            above == below || match order {
                Order::Ascending => text::before(above, below),
                Order::Descending => text::before(below, above),
            }
        }),
{
    lemma_in_order(style, entries, SortBy::Name, order, i, j);
    let out = in_listing_order(style, entries, SortBy::Name, order);
    text::lemma_before_total(text::lowercase(out[i].name), text::lowercase(out[j].name));
}

/// What a listing sorted by extension comes to: the extensions go up or down,
/// and where they are the same, the names do, in small letters.
pub proof fn law_the_extension_column_goes_by_extension(
    style: Style,
    entries: Seq<EntryView>,
    order: Order,
    i: int,
    j: int,
)
    requires
        0 <= i < j < in_listing_order(style, entries, SortBy::Ext, order).len(),
        entry::walks_into(in_listing_order(style, entries, SortBy::Ext, order)[i].kind)
            == entry::walks_into(in_listing_order(style, entries, SortBy::Ext, order)[j].kind),
    ensures
        ({
            let out = in_listing_order(style, entries, SortBy::Ext, order);
            let (above, below) = (
                entry::entry_ending(style, out[i].kind, out[i].name),
                entry::entry_ending(style, out[j].kind, out[j].name),
            );
            let (first, second) = (text::lowercase(out[i].name), text::lowercase(out[j].name));
            match order {
                Order::Ascending => text::before(above, below) || (above == below && (first
                    == second || text::before(first, second))),
                Order::Descending => text::before(below, above) || (above == below && (first
                    == second || text::before(second, first))),
            }
        }),
{
    lemma_in_order(style, entries, SortBy::Ext, order, i, j);
    let out = in_listing_order(style, entries, SortBy::Ext, order);
    text::lemma_before_total(text::lowercase(out[i].name), text::lowercase(out[j].name));
    text::lemma_before_total(
        entry::entry_ending(style, out[i].kind, out[i].name),
        entry::entry_ending(style, out[j].kind, out[j].name),
    );
}

/// Two entries that a column does not tell apart stand by name, whichever way
/// round the column is.
pub proof fn law_ties_are_settled_by_name(
    style: Style,
    entries: Seq<EntryView>,
    sort_by: SortBy,
    order: Order,
    i: int,
    j: int,
)
    requires
        0 <= i < j < in_listing_order(style, entries, sort_by, order).len(),
        ({
            let (a, b) = (
                in_listing_order(style, entries, sort_by, order)[i],
                in_listing_order(style, entries, sort_by, order)[j],
            );
            &&& a.kind == b.kind
            &&& a.size == b.size
            &&& a.modified == b.modified
            &&& text::lowercase(a.name) == text::lowercase(b.name)
            &&& entry::entry_ending(style, a.kind, a.name) == entry::entry_ending(
                style,
                b.kind,
                b.name,
            )
        }),
    ensures
        !text::before(
            in_listing_order(style, entries, sort_by, order)[j].name,
            in_listing_order(style, entries, sort_by, order)[i].name,
        ),
{
    lemma_in_order(style, entries, sort_by, order, i, j);
    let out = in_listing_order(style, entries, sort_by, order);
    text::lemma_before_total(text::lowercase(out[i].name), text::lowercase(out[j].name));
    text::lemma_before_total(
        entry::entry_ending(style, out[i].kind, out[i].name),
        entry::entry_ending(style, out[j].kind, out[j].name),
    );
}

proof fn lemma_in_order(
    style: Style,
    entries: Seq<EntryView>,
    sort_by: SortBy,
    order: Order,
    i: int,
    j: int,
)
    requires
        0 <= i < j < in_listing_order(style, entries, sort_by, order).len(),
    ensures
        !goes_before(
            style,
            sort_by,
            order,
            in_listing_order(style, entries, sort_by, order)[j],
            in_listing_order(style, entries, sort_by, order)[i],
        ),
{
    law_listings_have_an_order(style, sort_by, order);
    order::law_sorting_puts_in_order(entries, listing_order(style, sort_by, order));
}

/// Whether a line shows something that a directory holds, as it is.
pub open spec fn stands_for(line: EntryView, found: Found) -> bool {
    &&& line.name == found.name@
    &&& line.path == found.path@
    &&& line.kind == if found.is_dir {
        EntryKind::Dir
    } else {
        EntryKind::File
    }
    &&& line.size == if found.is_dir {
        0
    } else {
        found.size
    }
    &&& line.modified == found.modified
    &&& line.is_symlink == found.is_symlink
    &&& line.mode == found.mode
    &&& !line.marked
}

/// What a directory holds is all shown, but for hidden names where they were
/// not asked for: by their own name, path, size and time.
pub proof fn law_a_listing_shows_what_is_there(
    style: Style,
    found: Seq<Found>,
    dir: Seq<char>,
    show_hidden: bool,
    sort_by: SortBy,
    order: Order,
    i: int,
)
    requires
        0 <= i < found.len(),
        show_hidden || !(found[i].hidden || (found[i].name@.len() > 0 && found[i].name@[0] == '.')),
    ensures
        exists|k: int|
            0 <= k < listing(style, found, dir, show_hidden, sort_by, order).len() && stands_for(
                #[trigger] listing(style, found, dir, show_hidden, sort_by, order)[k],
                found[i],
            ),
{
    broadcast use vstd::seq_lib::group_to_multiset_ensures;

    let entries = entries_of(found, show_hidden);
    lemma_entries_of(found, show_hidden);
    let less = listing_order(style, sort_by, order);
    order::law_sorting_keeps_everything(entries, less);
    let wanted = entry_of(found[i]);
    assert(entries.contains(wanted));
    let out = order::sorted(entries, less);
    assert(entries.to_multiset().count(wanted) > 0);
    assert(out.to_multiset().count(wanted) > 0);
    assert(out.contains(wanted));
    let j = choose|j: int| 0 <= j < out.len() && out[j] == wanted;
    let lines = listing(style, found, dir, show_hidden, sort_by, order);
    assert(lines[up_lines(style, dir).len() + j] == wanted);
}

proof fn lemma_entries_of(found: Seq<Found>, show_hidden: bool)
    ensures
        entries_of(found, show_hidden).len() <= found.len(),
        show_hidden ==> entries_of(found, show_hidden).len() == found.len(),
        forall|i: int|
            0 <= i < found.len() && (show_hidden || !concealed(
                (#[trigger] found[i]).name@,
                found[i].hidden,
            )) ==> entries_of(found, show_hidden).contains(entry_of(found[i])),
        forall|k: int|
            0 <= k < entries_of(found, show_hidden).len() ==> exists|i: int|
                0 <= i < found.len() && (show_hidden || !concealed(
                    (#[trigger] found[i]).name@,
                    found[i].hidden,
                )) && #[trigger] entries_of(found, show_hidden)[k] == entry_of(found[i]),
    decreases found.len(),
{
    let out = entries_of(found, show_hidden);
    if found.len() > 0 {
        let before = found.drop_last();
        let front = entries_of(before, show_hidden);
        lemma_entries_of(before, show_hidden);
        assert forall|i: int|
            0 <= i < found.len() && (show_hidden || !concealed(
                (#[trigger] found[i]).name@,
                found[i].hidden,
            )) implies out.contains(entry_of(found[i])) by {
            if i < before.len() {
                assert(before[i] == found[i]);
                let wanted = entry_of(before[i]);
                assert(front.contains(wanted));
                let k = choose|k: int| 0 <= k < front.len() && front[k] == wanted;
                assert(out[k] == wanted);
            } else {
                assert(out[out.len() - 1] == entry_of(found[i]));
            }
        }
        assert forall|k: int| 0 <= k < out.len() implies exists|i: int|
            0 <= i < found.len() && (show_hidden || !concealed(
                (#[trigger] found[i]).name@,
                found[i].hidden,
            )) && #[trigger] out[k] == entry_of(found[i]) by {
            if k < front.len() {
                assert(front[k] == out[k]);
                let i = choose|i: int|
                    0 <= i < before.len() && (show_hidden || !concealed(
                        (#[trigger] before[i]).name@,
                        before[i].hidden,
                    )) && front[k] == entry_of(before[i]);
                assert(found[i] == before[i]);
            } else {
                assert(found[found.len() - 1] == found.last());
                assert(out[k] == entry_of(found[found.len() - 1]));
            }
        }
    }
}

/// Nothing is shown that is not there: every line of a listing but the way up
/// is for something in the directory, and no hidden name is shown where they
/// were not asked for.
pub proof fn law_a_listing_shows_nothing_else(
    style: Style,
    found: Seq<Found>,
    dir: Seq<char>,
    show_hidden: bool,
    sort_by: SortBy,
    order: Order,
    k: int,
)
    requires
        0 <= k < listing(style, found, dir, show_hidden, sort_by, order).len(),
    ensures
        ({
            let line = listing(style, found, dir, show_hidden, sort_by, order)[k];
            if k == 0 && pathname::parent(style, dir) is Some {
                line.kind == EntryKind::Parent && line.path == pathname::parent(style, dir)->0
                    && line.name == seq!['.', '.']
            } else {
                &&& line.kind != EntryKind::Parent
                &&& exists|i: int|
                    0 <= i < found.len() && (#[trigger] found[i]).name@ == line.name
                        && found[i].path@ == line.path && (show_hidden || !(found[i].hidden || (
                    line.name.len() > 0 && line.name[0] == '.')))
            }
        }),
        listing(style, found, dir, show_hidden, sort_by, order).len() <= found.len() + 1,
        show_hidden ==> listing(style, found, dir, show_hidden, sort_by, order).len()
            == found.len() + (if pathname::parent(style, dir) is Some {
            1int
        } else {
            0int
        }),
{
    broadcast use vstd::seq_lib::group_to_multiset_ensures;

    reveal_strlit("..");
    assert(".."@ =~= seq!['.', '.']);
    let entries = entries_of(found, show_hidden);
    lemma_entries_of(found, show_hidden);
    let less = listing_order(style, sort_by, order);
    order::law_sorting_keeps_everything(entries, less);
    let out = order::sorted(entries, less);
    let lines = listing(style, found, dir, show_hidden, sort_by, order);
    let ups = up_lines(style, dir).len() as int;
    if k >= ups {
        let line = lines[k];
        assert(out[k - ups] == line);
        assert(out.contains(line));
        assert(out.to_multiset().count(line) > 0);
        assert(entries.contains(line));
        let m = choose|m: int| 0 <= m < entries.len() && entries[m] == line;
        let i = choose|i: int|
            0 <= i < found.len() && (show_hidden || !concealed(
                (#[trigger] found[i]).name@,
                found[i].hidden,
            )) && entries[m] == entry_of(found[i]);
        assert(found[i].name@ == line.name);
    }
}

/// The newest of some entries is one of them, and none is newer; none is
/// named where no time is known.
pub proof fn law_the_newest_is_the_newest(entries: Seq<Option<Seen>>)
    ensures
        match newest_in(entries) {
            Some(newest) => {
                &&& exists|i: int|
                    0 <= i < entries.len() && (#[trigger] entries[i]) is Some
                        && entries[i]->0.modified == Some(newest)
                &&& forall|i: int|
                    0 <= i < entries.len() && (#[trigger] entries[i]) is Some
                        && entries[i]->0.modified is Some ==> entries[i]->0.modified->0.nanos
                        <= newest.nanos
            },
            None => forall|i: int|
                0 <= i < entries.len() && (#[trigger] entries[i]) is Some
                    ==> entries[i]->0.modified is None,
        },
    decreases entries.len(),
{
    if entries.len() > 0 {
        let front = entries.drop_last();
        law_the_newest_is_the_newest(front);
        let last = entries.len() - 1;
        assert(entries[last] == entries.last());
        if newest_in(front) is Some && newest_in(entries) == newest_in(front) {
            let i = choose|i: int|
                0 <= i < front.len() && (#[trigger] front[i]) is Some && front[i]->0.modified
                    == newest_in(front);
            assert(entries[i] == front[i]);
        }
        if let Some(newest) = newest_in(entries) {
            assert forall|i: int|
                0 <= i < entries.len() && (#[trigger] entries[i]) is Some
                    && entries[i]->0.modified is Some implies entries[i]->0.modified->0.nanos
                <= newest.nanos by {
                if i < last {
                    assert(front[i] == entries[i]);
                }
            }
        } else {
            assert forall|i: int|
                0 <= i < entries.len() && (#[trigger] entries[i]) is Some implies
                entries[i]->0.modified is None by {
                if i < last {
                    assert(front[i] == entries[i]);
                }
            }
        }
    }
}

/// The sizes of two lots of entries together are the sum of the two, as far
/// as 64 bits hold it; one entry has its own size, and one that cannot be
/// looked at none.
pub proof fn law_sizes_add_up(first: Seq<Option<Seen>>, second: Seq<Option<Seen>>, one: Seen)
    ensures
        bytes_in(first + second) == (bytes_in(first) + bytes_in(second))
            % 0x1_0000_0000_0000_0000,
        bytes_in(seq![Some(one)]) == one.size,
        bytes_in(seq![None]) == 0,
        0 <= bytes_in(first) < 0x1_0000_0000_0000_0000,
    decreases second.len(),
{
    lemma_bytes_fit(first);
    let all = first + second;
    if second.len() == 0 {
        assert(all =~= first);
    } else {
        assert(all.drop_last() =~= first + second.drop_last());
        law_sizes_add_up(first, second.drop_last(), one);
    }
    let none = Seq::<Option<Seen>>::empty();
    assert(seq![Some(one)].drop_last() =~= none);
    assert(seq![None::<Seen>].drop_last() =~= none);
    assert(bytes_in(none) == 0);
}

proof fn lemma_bytes_fit(entries: Seq<Option<Seen>>)
    ensures
        0 <= bytes_in(entries) < 0x1_0000_0000_0000_0000,
    decreases entries.len(),
{
    if entries.len() > 0 {
        lemma_bytes_fit(entries.drop_last());
    }
}

/// Turning an order round twice gives it back, and once gives the other.
pub proof fn law_flipping_an_order_turns_it_round(order: Order)
    ensures
        flipped(order) != order,
        flipped(flipped(order)) == order,
{
}

/// No line of a listing is marked.
pub proof fn lemma_listed_unmarked(
    style: Style,
    found: Seq<Found>,
    dir: Seq<char>,
    show_hidden: bool,
    sort_by: SortBy,
    order: Order,
    k: int,
)
    requires
        0 <= k < listing(style, found, dir, show_hidden, sort_by, order).len(),
    ensures
        !listing(style, found, dir, show_hidden, sort_by, order)[k].marked,
{
    broadcast use vstd::seq_lib::group_to_multiset_ensures;

    let entries = entries_of(found, show_hidden);
    lemma_entries_of(found, show_hidden);
    let less = listing_order(style, sort_by, order);
    order::law_sorting_keeps_everything(entries, less);
    let out = order::sorted(entries, less);
    let ups = up_lines(style, dir).len() as int;
    if k >= ups {
        let line = listing(style, found, dir, show_hidden, sort_by, order)[k];
        assert(out[k - ups] == line);
        assert(out.contains(line));
        assert(out.to_multiset().count(line) > 0);
        assert(entries.contains(line));
        let m = choose|m: int| 0 <= m < entries.len() && entries[m] == line;
        let i = choose|i: int|
            0 <= i < found.len() && (show_hidden || !concealed(
                (#[trigger] found[i]).name@,
                found[i].hidden,
            )) && entries[m] == entry_of(found[i]);
    }
}

} // verus!
