//! Comparing two files line by line, and picking which two.
//!
//! The alignment finds the shortest edit script, by the furthest points that
//! so many edits reach on each diagonal: its cost is proportional to the size
//! of the difference rather than the size of the files.

use vstd::prelude::*;
use crate::encoding;
use crate::entry;
use crate::entry::{EntryKind, EntryView};
use crate::panel;
use crate::panel::{Panel, PanelView};
use crate::pathname;
use crate::pathname::Style;
use crate::text;
use crate::text::chars;

verus! {

broadcast use vstd::string::group_string_axioms;

/// The largest file this will read into memory to align.
pub const MAX_BYTES: u64 = 16_777_216;

/// The most edits the alignment will look for before giving up.
pub const MAX_EDITS: usize = 100_000;

// ---- rows -------------------------------------------------------------------------------------

/// One line of the two-column view.
#[derive(Debug, Clone, PartialEq, Eq)]
pub enum Row {
    /// The same on both sides.
    Same { left: usize, right: usize, text: String },
    /// On the left and not on the right.
    OnlyLeft { left: usize, text: String },
    /// On the right and not on the left.
    OnlyRight { right: usize, text: String },
}

/// One line of the two-column view, with its text as characters.
#[verifier::ext_equal]
pub enum RowView {
    Same { left: nat, right: nat, text: Seq<char> },
    OnlyLeft { left: nat, text: Seq<char> },
    OnlyRight { right: nat, text: Seq<char> },
}

impl View for Row {
    type V = RowView;

    open spec fn view(&self) -> RowView {
        match *self {
            Row::Same { left, right, text } => RowView::Same {
                left: left as nat,
                right: right as nat,
                text: text@,
            },
            Row::OnlyLeft { left, text } => RowView::OnlyLeft { left: left as nat, text: text@ },
            Row::OnlyRight { right, text } => RowView::OnlyRight {
                right: right as nat,
                text: text@,
            },
        }
    }
}

/// The rows with their texts as characters.
pub open spec fn row_views(rows: Seq<Row>) -> Seq<RowView> {
    rows.map_values(|row: Row| row@)
}

/// What the left column shows of a row: the line's number and its text.
pub open spec fn left_of(row: RowView) -> Option<(nat, Seq<char>)> {
    match row {
        RowView::Same { left, text, .. } => Some((left, text)),
        RowView::OnlyLeft { left, text } => Some((left, text)),
        RowView::OnlyRight { .. } => None,
    }
}

/// What the right column shows of a row: the line's number and its text.
pub open spec fn right_of(row: RowView) -> Option<(nat, Seq<char>)> {
    match row {
        RowView::Same { right, text, .. } => Some((right, text)),
        RowView::OnlyRight { right, text } => Some((right, text)),
        RowView::OnlyLeft { .. } => None,
    }
}

impl Row {
    pub fn is_same(&self) -> (r: bool)
        ensures
            r == (self@ is Same),
    {
        match self {
            Row::Same { .. } => true,
            _ => false,
        }
    }

    /// What the left column shows: the text and its line number.
    pub fn left(&self) -> (r: Option<(usize, &str)>)
        ensures
            match r {
                Some((number, text)) => left_of(self@) == Some((number as nat, text@)),
                None => left_of(self@) is None,
            },
    {
        match self {
            Row::Same { left, text, .. } => Some((*left, text.as_str())),
            Row::OnlyLeft { left, text } => Some((*left, text.as_str())),
            Row::OnlyRight { .. } => None,
        }
    }

    pub fn right(&self) -> (r: Option<(usize, &str)>)
        ensures
            match r {
                Some((number, text)) => right_of(self@) == Some((number as nat, text@)),
                None => right_of(self@) is None,
            },
    {
        match self {
            Row::Same { right, text, .. } => Some((*right, text.as_str())),
            Row::OnlyRight { right, text } => Some((*right, text.as_str())),
            Row::OnlyLeft { .. } => None,
        }
    }
}

/// Two files lined up.
#[derive(Debug, Clone, PartialEq, Eq)]
pub struct Diff {
    pub rows: Vec<Row>,
    /// How many rows are not the same on both sides.
    pub changes: usize,
    /// The alignment gave up and the two are shown side by side as they are.
    pub unaligned: bool,
}

impl Default for Diff {
    fn default() -> (r: Diff)
        ensures
            r.rows@.len() == 0,
            r.changes == 0,
            !r.unaligned,
    {
        Diff { rows: Vec::new(), changes: 0, unaligned: false }
    }
}

/// Whether the row at a place is there and not the same on both sides.
pub open spec fn changed_at(rows: Seq<RowView>, at: int) -> bool {
    0 <= at < rows.len() && !(rows[at] is Same)
}

/// The first changed row at or after `step` steps forward from `from`,
/// starting over at the end; none where all the way round has none.
pub open spec fn change_after(rows: Seq<RowView>, from: int, step: int) -> Option<int>
    decreases rows.len() + 1 - step,
{
    if step > rows.len() {
        None
    } else if changed_at(rows, (from + step) % (rows.len() as int)) {
        Some((from + step) % (rows.len() as int))
    } else {
        change_after(rows, from, step + 1)
    }
}

/// The same going backwards.
pub open spec fn change_before(rows: Seq<RowView>, from: int, step: int) -> Option<int>
    decreases rows.len() + 1 - step,
{
    if step > rows.len() {
        None
    } else if changed_at(rows, (from - step) % (rows.len() as int)) {
        Some((from - step) % (rows.len() as int))
    } else {
        change_before(rows, from, step + 1)
    }
}

impl Diff {
    pub fn is_identical(&self) -> (r: bool)
        ensures
            r == (self.changes == 0 && !self.unaligned),
    {
        self.changes == 0 && !self.unaligned
    }

    /// The next row after `from` that is not the same on both sides. Wraps.
    pub fn next_change(&self, from: usize) -> (r: Option<usize>)
        requires
            from + self.rows@.len() <= usize::MAX,
        ensures
            match r {
                Some(at) => change_after(row_views(self.rows@), from as int, 1) == Some(at as int),
                None => change_after(row_views(self.rows@), from as int, 1) is None,
            },
    {
        let ghost views = row_views(self.rows@);
        let n: usize = self.rows.len();
        let mut step: usize = 1;
        while step <= n
            invariant
                1 <= step,
                n == self.rows@.len(),
                from + n <= usize::MAX,
                views == row_views(self.rows@),
                step <= n + 1,
                change_after(views, from as int, 1) == change_after(
                    views,
                    from as int,
                    step as int,
                ),
            decreases n + 1 - step,
        {
            let at: usize = (from + step) % n;
            assert(views[at as int] == self.rows@[at as int]@);
            if !self.rows[at].is_same() {
                return Some(at);
            }
            if step == n {
                assert(change_after(views, from as int, step + 1) is None);
                return None;
            }
            step += 1;
        }
        None
    }

    /// The row before `from` that is not the same on both sides. Wraps.
    pub fn previous_change(&self, from: usize) -> (r: Option<usize>)
        requires
            from + self.rows@.len() <= usize::MAX,
        ensures
            match r {
                Some(at) => change_before(row_views(self.rows@), from as int, 1) == Some(at as int),
                None => change_before(row_views(self.rows@), from as int, 1) is None,
            },
    {
        let ghost views = row_views(self.rows@);
        let n: usize = self.rows.len();
        let mut step: usize = 1;
        while step <= n
            invariant
                1 <= step,
                n == self.rows@.len(),
                from + n <= usize::MAX,
                views == row_views(self.rows@),
                step <= n + 1,
                change_before(views, from as int, 1) == change_before(
                    views,
                    from as int,
                    step as int,
                ),
            decreases n + 1 - step,
        {
            let at: usize = (from + (n - step)) % n;
            proof {
                vstd::arithmetic::div_mod::lemma_mod_add_multiples_vanish(
                    from as int - step as int,
                    n as int,
                );
                assert(views[at as int] == self.rows@[at as int]@);
            }
            if !self.rows[at].is_same() {
                return Some(at);
            }
            if step == n {
                assert(change_before(views, from as int, step + 1) is None);
                return None;
            }
            step += 1;
        }
        None
    }
}

// ---- edit scripts -----------------------------------------------------------------------------

/// One step of an edit script.
#[derive(Debug, Clone, Copy, PartialEq, Eq, Structural)]
pub enum Edit {
    Keep,
    Delete,
    Insert,
}

/// How many lines of the left side a script takes up.
pub open spec fn lefts(edits: Seq<Edit>) -> nat
    decreases edits.len(),
{
    if edits.len() == 0 {
        0
    } else {
        lefts(edits.drop_last()) + (if edits.last() is Insert {
            0nat
        } else {
            1
        })
    }
}

/// How many lines of the right side a script takes up.
pub open spec fn rights(edits: Seq<Edit>) -> nat
    decreases edits.len(),
{
    if edits.len() == 0 {
        0
    } else {
        rights(edits.drop_last()) + (if edits.last() is Delete {
            0nat
        } else {
            1
        })
    }
}

/// How many lines a script deletes and inserts.
pub open spec fn cost(edits: Seq<Edit>) -> nat
    decreases edits.len(),
{
    if edits.len() == 0 {
        0
    } else {
        cost(edits.drop_last()) + (if edits.last() is Keep {
            0nat
        } else {
            1
        })
    }
}

/// Whether every line that a script keeps is the same on both sides.
pub open spec fn follows(a: Seq<Seq<char>>, b: Seq<Seq<char>>, edits: Seq<Edit>) -> bool
    decreases edits.len(),
{
    if edits.len() == 0 {
        true
    } else {
        let front = edits.drop_last();
        follows(a, b, front) && (edits.last() is Keep ==> (lefts(front) < a.len() && rights(front)
            < b.len() && a[lefts(front) as int] == b[rights(front) as int]))
    }
}

/// Whether a script turns the left side into the right one.
pub open spec fn turns(a: Seq<Seq<char>>, b: Seq<Seq<char>>, edits: Seq<Edit>) -> bool {
    follows(a, b, edits) && lefts(edits) == a.len() && rights(edits) == b.len()
}

/// How far along its diagonal a point goes over lines that are the same.
pub open spec fn slide(a: Seq<Seq<char>>, b: Seq<Seq<char>>, x: int, y: int) -> int
    decreases a.len() - x,
{
    if 0 <= x < a.len() && 0 <= y < b.len() && a[x] == b[y] {
        slide(a, b, x + 1, y + 1)
    } else {
        x
    }
}

/// The furthest line of the left side that `d` edits reach on diagonal `k`:
/// from the diagonal above by a deletion or from the one below by an
/// insertion, whichever is further, and then along what is the same.
pub open spec fn furthest(a: Seq<Seq<char>>, b: Seq<Seq<char>>, d: nat, k: int) -> int
    decreases d,
{
    if d == 0 {
        slide(a, b, 0, 0)
    } else {
        let x = if k == -(d as int) || (k != d && furthest(a, b, (d - 1) as nat, k - 1) < furthest(
            a,
            b,
            (d - 1) as nat,
            k + 1,
        )) {
            furthest(a, b, (d - 1) as nat, k + 1)
        } else {
            furthest(a, b, (d - 1) as nat, k - 1) + 1
        };
        slide(a, b, x, x - k)
    }
}

/// Whether the last edit on the way to the furthest point of a diagonal is an
/// insertion: where the diagonal below reached further.
pub open spec fn goes_down(a: Seq<Seq<char>>, b: Seq<Seq<char>>, d: nat, k: int) -> bool {
    k == -(d as int) || (k != d && furthest(a, b, (d - 1) as nat, k - 1) < furthest(
        a,
        b,
        (d - 1) as nat,
        k + 1,
    ))
}

/// The diagonal that the last edit comes from.
pub open spec fn came_from(a: Seq<Seq<char>>, b: Seq<Seq<char>>, d: nat, k: int) -> int {
    if goes_down(a, b, d, k) {
        k + 1
    } else {
        k - 1
    }
}

/// Where the last edit leads, before what is the same is followed.
pub open spec fn landing(a: Seq<Seq<char>>, b: Seq<Seq<char>>, d: nat, k: int) -> int {
    if d == 0 {
        0
    } else if goes_down(a, b, d, k) {
        furthest(a, b, (d - 1) as nat, k + 1)
    } else {
        furthest(a, b, (d - 1) as nat, k - 1) + 1
    }
}

/// So many lines kept.
pub open spec fn keeps(count: int) -> Seq<Edit> {
    Seq::new(
        if count < 0 {
            0
        } else {
            count as nat
        },
        |i: int| Edit::Keep,
    )
}

/// The edits to the furthest point that `d` of them reach on diagonal `k`.
pub open spec fn path(a: Seq<Seq<char>>, b: Seq<Seq<char>>, d: nat, k: int) -> Seq<Edit>
    decreases d,
{
    if d == 0 {
        keeps(furthest(a, b, 0, k))
    } else {
        let step = if goes_down(a, b, d, k) {
            Edit::Insert
        } else {
            Edit::Delete
        };
        path(a, b, (d - 1) as nat, came_from(a, b, d, k)).push(step) + keeps(
            furthest(a, b, d, k) - landing(a, b, d, k),
        )
    }
}

/// Whether `d` edits can stand on diagonal `k`.
pub open spec fn on_diagonal(d: nat, k: int) -> bool {
    -(d as int) <= k <= d && (d - k) % 2 == 0
}

/// Whether `d` edits reach the end of both sides.
pub open spec fn reached(a: Seq<Seq<char>>, b: Seq<Seq<char>>, d: nat) -> bool {
    on_diagonal(d, a.len() - b.len()) && furthest(a, b, d, a.len() - b.len()) >= a.len()
}

/// The least number of edits, from `d` on, that reaches the end.
pub open spec fn least(a: Seq<Seq<char>>, b: Seq<Seq<char>>, d: nat) -> nat
    decreases a.len() + b.len() - d,
{
    if d >= a.len() + b.len() || reached(a, b, d) {
        d
    } else {
        least(a, b, d + 1)
    }
}

/// How many edits it takes to turn the left side into the right one.
pub open spec fn distance(a: Seq<Seq<char>>, b: Seq<Seq<char>>) -> nat {
    least(a, b, 0)
}

/// The script that turns the left side into the right one: a shortest one,
/// and of these the one whose deletions come before its insertions.
pub open spec fn best_script(a: Seq<Seq<char>>, b: Seq<Seq<char>>) -> Seq<Edit> {
    path(a, b, distance(a, b), a.len() - b.len())
}

// ---- about the furthest points ----------------------------------------------------------------

proof fn lemma_slide(a: Seq<Seq<char>>, b: Seq<Seq<char>>, x: int, y: int)
    requires
        0 <= x,
        0 <= y,
    ensures
        x <= slide(a, b, x, y),
        slide(a, b, x, y) == x || (slide(a, b, x, y) <= a.len() && slide(a, b, x, y) - x + y
            <= b.len()),
        ({
            let to = slide(a, b, x, y);
            !(to < a.len() && to - x + y < b.len() && a[to] == b[to - x + y])
        }),
        forall|i: int| x <= i < slide(a, b, x, y) ==> #[trigger] a[i] == b[i - x + y],
    decreases a.len() - x,
{
    if x < a.len() && y < b.len() && a[x] == b[y] {
        lemma_slide(a, b, x + 1, y + 1);
        assert forall|i: int| x <= i < slide(a, b, x, y) implies #[trigger] a[i] == b[i - x + y] by {
            if i > x {
                assert(a[i] == b[i - (x + 1) + (y + 1)]);
            }
        }
    }
}

proof fn lemma_furthest_is(a: Seq<Seq<char>>, b: Seq<Seq<char>>, d: nat, k: int)
    requires
        on_diagonal(d, k),
    ensures
        furthest(a, b, d, k) == slide(a, b, landing(a, b, d, k), landing(a, b, d, k) - k),
{
}

/// A furthest point lies in the quarter plane, and not further out of the
/// table than its edits lead.
proof fn lemma_furthest_bounds(a: Seq<Seq<char>>, b: Seq<Seq<char>>, d: nat, k: int)
    requires
        on_diagonal(d, k),
    ensures
        0 <= landing(a, b, d, k) <= furthest(a, b, d, k) <= a.len() + d,
        0 <= landing(a, b, d, k) - k <= furthest(a, b, d, k) - k <= b.len() + d,
    decreases d,
{
    if d > 0 {
        if k > -(d as int) {
            lemma_furthest_bounds(a, b, (d - 1) as nat, k - 1);
        }
        if k < d {
            lemma_furthest_bounds(a, b, (d - 1) as nat, k + 1);
        }
    }
    lemma_furthest_is(a, b, d, k);
    lemma_slide(a, b, landing(a, b, d, k), landing(a, b, d, k) - k);
}

/// A furthest point is at least as far as either edit leads to it.
proof fn lemma_furthest_grows(a: Seq<Seq<char>>, b: Seq<Seq<char>>, d: nat, k: int)
    requires
        d > 0,
        on_diagonal(d, k),
    ensures
        k > -(d as int) ==> furthest(a, b, d, k) >= furthest(a, b, (d - 1) as nat, k - 1) + 1,
        k < d ==> furthest(a, b, d, k) >= furthest(a, b, (d - 1) as nat, k + 1),
{
    lemma_furthest_bounds(a, b, d, k);
}

/// Whether a furthest point is at or past the end of both sides.
pub open spec fn in_corner(a: Seq<Seq<char>>, b: Seq<Seq<char>>, d: nat, k: int) -> bool {
    furthest(a, b, d, k) >= a.len() && furthest(a, b, d, k) - k >= b.len()
}

/// What lies below the table was reached with one edit less from above.
proof fn lemma_below(a: Seq<Seq<char>>, b: Seq<Seq<char>>, d: nat, k: int)
    requires
        on_diagonal(d, k),
        furthest(a, b, d, k) - k > b.len(),
    ensures
        d > 0,
        k < d,
        furthest(a, b, (d - 1) as nat, k + 1) >= furthest(a, b, d, k),
    decreases d,
{
    lemma_furthest_bounds(a, b, d, k);
    lemma_furthest_is(a, b, d, k);
    lemma_slide(a, b, landing(a, b, d, k), landing(a, b, d, k) - k);
    if d == 0 {
        assert(k == 0);
    } else if goes_down(a, b, d, k) {
    } else {
        lemma_furthest_bounds(a, b, (d - 1) as nat, k - 1);
        lemma_below(a, b, (d - 1) as nat, k - 1);
        lemma_furthest_grows(a, b, (d - 1) as nat, k + 1);
    }
}

/// What lies right of the table was reached with one edit less from the left.
proof fn lemma_beside(a: Seq<Seq<char>>, b: Seq<Seq<char>>, d: nat, k: int)
    requires
        on_diagonal(d, k),
        furthest(a, b, d, k) > a.len(),
    ensures
        d > 0,
        k > -(d as int),
        furthest(a, b, (d - 1) as nat, k - 1) >= furthest(a, b, d, k) - 1,
    decreases d,
{
    lemma_furthest_bounds(a, b, d, k);
    lemma_furthest_is(a, b, d, k);
    lemma_slide(a, b, landing(a, b, d, k), landing(a, b, d, k) - k);
    if d == 0 {
        assert(k == 0);
    } else if goes_down(a, b, d, k) {
        lemma_beside(a, b, (d - 1) as nat, k + 1);
        lemma_furthest_grows(a, b, (d - 1) as nat, k - 1);
    }
}

/// The first point to come to the end of both sides is their very end.
proof fn lemma_first_corner(a: Seq<Seq<char>>, b: Seq<Seq<char>>, d: nat, k: int)
    requires
        on_diagonal(d, k),
        in_corner(a, b, d, k),
        forall|e: nat, j: int| e < d && on_diagonal(e, j) ==> !#[trigger] in_corner(a, b, e, j),
    ensures
        furthest(a, b, d, k) == a.len(),
        k == a.len() - b.len(),
{
    if furthest(a, b, d, k) > a.len() {
        lemma_beside(a, b, d, k);
        assert(in_corner(a, b, (d - 1) as nat, k - 1));
    }
    if furthest(a, b, d, k) - k > b.len() {
        lemma_below(a, b, d, k);
        assert(in_corner(a, b, (d - 1) as nat, k + 1));
    }
}

/// No script leads further along its diagonal than the furthest point of as
/// many edits.
proof fn lemma_no_further(a: Seq<Seq<char>>, b: Seq<Seq<char>>, edits: Seq<Edit>)
    requires
        follows(a, b, edits),
    ensures
        on_diagonal(cost(edits), lefts(edits) - rights(edits)),
        furthest(a, b, cost(edits), lefts(edits) - rights(edits)) >= lefts(edits),
    decreases edits.len(),
{
    if edits.len() == 0 {
        lemma_slide(a, b, 0, 0);
    } else {
        let front = edits.drop_last();
        lemma_no_further(a, b, front);
        let k = lefts(edits) - rights(edits);
        let c = cost(edits);
        match edits.last() {
            Edit::Keep => {
                lemma_furthest_bounds(a, b, c, k);
                lemma_furthest_is(a, b, c, k);
                lemma_slide(a, b, landing(a, b, c, k), landing(a, b, c, k) - k);
            },
            Edit::Delete => {
                lemma_furthest_grows(a, b, c, k);
            },
            Edit::Insert => {
                lemma_furthest_grows(a, b, c, k);
            },
        }
    }
}

/// The script that deletes one side and inserts the other.
spec fn replacing(n: nat, m: nat) -> Seq<Edit> {
    Seq::new(
        n + m,
        |i: int|
            if i < n {
                Edit::Delete
            } else {
                Edit::Insert
            },
    )
}

proof fn lemma_replacing(a: Seq<Seq<char>>, b: Seq<Seq<char>>, n: nat, m: nat)
    ensures
        follows(a, b, replacing(n, m)),
        lefts(replacing(n, m)) == n,
        rights(replacing(n, m)) == m,
        cost(replacing(n, m)) == n + m,
    decreases n + m,
{
    let all = replacing(n, m);
    if m > 0 {
        lemma_replacing(a, b, n, (m - 1) as nat);
        assert(all.drop_last() =~= replacing(n, (m - 1) as nat));
    } else if n > 0 {
        lemma_replacing(a, b, (n - 1) as nat, m);
        assert(all.drop_last() =~= replacing((n - 1) as nat, m));
    }
}

/// As many edits as there are lines always reach the end.
proof fn lemma_end_is_reached(a: Seq<Seq<char>>, b: Seq<Seq<char>>)
    ensures
        reached(a, b, a.len() + b.len()),
{
    lemma_replacing(a, b, a.len(), b.len());
    lemma_no_further(a, b, replacing(a.len(), b.len()));
}

proof fn lemma_least(a: Seq<Seq<char>>, b: Seq<Seq<char>>, from: nat)
    requires
        from <= a.len() + b.len(),
    ensures
        from <= least(a, b, from) <= a.len() + b.len(),
        reached(a, b, least(a, b, from)),
        forall|e: nat| from <= e < least(a, b, from) ==> !#[trigger] reached(a, b, e),
    decreases a.len() + b.len() - from,
{
    if from >= a.len() + b.len() {
        lemma_end_is_reached(a, b);
    } else if !reached(a, b, from) {
        lemma_least(a, b, from + 1);
    }
}

/// No number of edits below the distance comes to the end of both sides on
/// any diagonal.
proof fn lemma_no_corner(a: Seq<Seq<char>>, b: Seq<Seq<char>>, d: nat, k: int)
    requires
        on_diagonal(d, k),
        d < distance(a, b),
    ensures
        !in_corner(a, b, d, k),
    decreases d,
{
    lemma_least(a, b, 0);
    assert(!reached(a, b, d));
    if in_corner(a, b, d, k) {
        assert forall|e: nat, j: int| e < d && on_diagonal(e, j) implies !#[trigger] in_corner(
            a,
            b,
            e,
            j,
        ) by {
            lemma_no_corner(a, b, e, j);
        }
        lemma_first_corner(a, b, d, k);
    }
}

/// The last of a shortest script's points is the very end.
proof fn lemma_ends_at_the_end(a: Seq<Seq<char>>, b: Seq<Seq<char>>)
    ensures
        on_diagonal(distance(a, b), a.len() - b.len()),
        furthest(a, b, distance(a, b), a.len() - b.len()) == a.len(),
{
    lemma_least(a, b, 0);
    let d = distance(a, b);
    let k = a.len() - b.len();
    assert forall|e: nat, j: int| e < d && on_diagonal(e, j) implies !#[trigger] in_corner(
        a,
        b,
        e,
        j,
    ) by {
        lemma_no_corner(a, b, e, j);
    }
    lemma_first_corner(a, b, d, k);
}

proof fn lemma_keeps(a: Seq<Seq<char>>, b: Seq<Seq<char>>, base: Seq<Edit>, count: int)
    requires
        follows(a, b, base),
        0 <= count <= slide(a, b, lefts(base) as int, rights(base) as int) - lefts(base),
    ensures
        follows(a, b, base + keeps(count)),
        lefts(base + keeps(count)) == lefts(base) + count,
        rights(base + keeps(count)) == rights(base) + count,
        cost(base + keeps(count)) == cost(base),
    decreases count,
{
    let x = lefts(base) as int;
    let y = rights(base) as int;
    let all = base + keeps(count);
    if count > 0 {
        lemma_keeps(a, b, base, count - 1);
        assert(all.drop_last() =~= base + keeps(count - 1));
        lemma_slide(a, b, x, y);
        assert(a[x + count - 1] == b[(x + count - 1) - x + y]);
    } else {
        assert(all =~= base);
    }
}

/// The edits to a furthest point lead there and are as many as they should
/// be.
proof fn lemma_path(a: Seq<Seq<char>>, b: Seq<Seq<char>>, d: nat, k: int)
    requires
        on_diagonal(d, k),
    ensures
        follows(a, b, path(a, b, d, k)),
        lefts(path(a, b, d, k)) == furthest(a, b, d, k),
        rights(path(a, b, d, k)) == furthest(a, b, d, k) - k,
        cost(path(a, b, d, k)) == d,
    decreases d,
{
    lemma_furthest_bounds(a, b, d, k);
    lemma_furthest_is(a, b, d, k);
    if d == 0 {
        assert(k == 0);
        let none = Seq::<Edit>::empty();
        lemma_keeps(a, b, none, furthest(a, b, 0, 0));
        assert(none + keeps(furthest(a, b, 0, 0)) =~= keeps(furthest(a, b, 0, 0)));
    } else {
        let from = came_from(a, b, d, k);
        lemma_path(a, b, (d - 1) as nat, from);
        let before = path(a, b, (d - 1) as nat, from);
        let step = if goes_down(a, b, d, k) {
            Edit::Insert
        } else {
            Edit::Delete
        };
        let base = before.push(step);
        assert(base.drop_last() =~= before);
        lemma_keeps(a, b, base, furthest(a, b, d, k) - landing(a, b, d, k));
    }
}

/// The script that the alignment goes by turns the left side into the right
/// one, with as many edits as the distance says.
pub proof fn law_script_turns_one_into_the_other(a: Seq<Seq<char>>, b: Seq<Seq<char>>)
    ensures
        turns(a, b, best_script(a, b)),
        cost(best_script(a, b)) == distance(a, b),
{
    lemma_ends_at_the_end(a, b);
    lemma_path(a, b, distance(a, b), a.len() - b.len());
}

/// No script that turns the left side into the right one is shorter.
pub proof fn law_script_is_shortest(a: Seq<Seq<char>>, b: Seq<Seq<char>>, other: Seq<Edit>)
    requires
        turns(a, b, other),
    ensures
        cost(best_script(a, b)) <= cost(other),
{
    law_script_turns_one_into_the_other(a, b);
    lemma_no_further(a, b, other);
    lemma_least(a, b, 0);
    assert(reached(a, b, cost(other)));
}

// ---- finding the script -----------------------------------------------------------------------

/// Where a diagonal stands in a table whose middle is `offset`.
spec fn cell(offset: usize, k: int) -> int {
    offset + k
}

/// Whether a table holds the furthest points of `d` edits.
spec fn holds_depth(
    a: Seq<Seq<char>>,
    b: Seq<Seq<char>>,
    table: Seq<i128>,
    offset: usize,
    d: nat,
) -> bool {
    forall|k: int| #[trigger] on_diagonal(d, k) ==> table[cell(offset, k)] == furthest(a, b, d, k)
}

/// Whether the tables kept are those before each number of edits.
spec fn holds_trace(
    a: Seq<Seq<char>>,
    b: Seq<Seq<char>>,
    trace: Seq<Vec<i128>>,
    offset: usize,
    most: usize,
) -> bool {
    &&& offset == most + 1
    &&& trace.len() <= most + 1
    &&& forall|e: int| 0 <= e < trace.len() ==> (#[trigger] trace[e])@.len() == 2 * most + 3
    &&& forall|e: int|
        0 < e < trace.len() ==> holds_depth(a, b, (#[trigger] trace[e])@, offset, (e - 1) as nat)
    &&& trace.len() > 0 ==> trace[0]@[offset + 1] == 0
}

fn zeroes(len: u128) -> (r: Vec<i128>)
    ensures
        r@.len() == len,
        forall|i: int| 0 <= i < len ==> r@[i] == 0,
{
    let mut r: Vec<i128> = Vec::new();
    while (r.len() as u128) < len
        invariant
            r@.len() <= len,
            forall|i: int| 0 <= i < r@.len() ==> r@[i] == 0,
        decreases len - r@.len(),
    {
        r.push(0);
    }
    r
}

fn table_copy(table: &Vec<i128>) -> (r: Vec<i128>)
    ensures
        r@ == table@,
{
    let mut r: Vec<i128> = Vec::new();
    let mut i: usize = 0;
    while i < table.len()
        invariant
            i <= table@.len(),
            r@ =~= table@.take(i as int),
        decreases table@.len() - i,
    {
        r.push(table[i]);
        i += 1;
    }
    r
}

fn slide_from(left: &[String], right: &[String], x: i128, y: i128) -> (r: i128)
    requires
        0 <= x <= left@.len() + usize::MAX,
        0 <= y <= right@.len() + usize::MAX,
    ensures
        r == slide(text::views(left@), text::views(right@), x as int, y as int),
{
    let ghost a = text::views(left@);
    let ghost b = text::views(right@);
    let mut at: i128 = x;
    let mut to: i128 = y;
    while at < left.len() as i128 && to < right.len() as i128 && text::same(
        left[at as usize].as_str(),
        right[to as usize].as_str(),
    )
        invariant
            a == text::views(left@),
            b == text::views(right@),
            0 <= at <= left@.len() + usize::MAX,
            0 <= to <= right@.len() + usize::MAX,
            slide(a, b, x as int, y as int) == slide(a, b, at as int, to as int),
        decreases left@.len() - at,
    {
        at += 1;
        to += 1;
    }
    at
}

/// The shortest edit script, or `None` when it is longer than `max_edits`.
///
/// The greedy search with the trace kept for the walk back: the answer is the
/// first number of edits whose search touches the far corner.
pub fn script(left: &[String], right: &[String], max_edits: usize) -> (r: Option<Vec<Edit>>)
    ensures
        match r {
            Some(edits) => {
                &&& edits@ == best_script(text::views(left@), text::views(right@))
                &&& distance(text::views(left@), text::views(right@)) <= max_edits
            },
            None => distance(text::views(left@), text::views(right@)) > max_edits,
        },
{
    let ghost a = text::views(left@);
    let ghost b = text::views(right@);
    let n: usize = left.len();
    let m: usize = right.len();
    let max: usize = if n > max_edits || m > max_edits - n {
        max_edits
    } else {
        n + m
    };
    let mut v: Vec<i128> = zeroes(2 * max as u128 + 3);
    let width: usize = v.len();
    assert(width == 2 * max + 3);
    let offset: usize = max + 1;
    let mut trace: Vec<Vec<i128>> = Vec::new();
    let mut d: usize = 0;
    while d <= max
        invariant
            a == text::views(left@),
            b == text::views(right@),
            n == left@.len(),
            m == right@.len(),
            max <= max_edits,
            2 * max + 3 <= usize::MAX,
            offset == max + 1,
            d <= max + 1,
            v@.len() == 2 * max + 3,
            d == 0 ==> v@[offset + 1] == 0,
            d > 0 ==> holds_depth(a, b, v@, offset, (d - 1) as nat),
            trace@.len() == d,
            holds_trace(a, b, trace@, offset, max),
            forall|e: nat, k: int| e < d && on_diagonal(e, k) ==> !#[trigger] in_corner(a, b, e, k),
        decreases max + 1 - d,
    {
        let ghost below = v@;
        trace.push(table_copy(&v));
        assert(holds_trace(a, b, trace@, offset, max)) by {
            assert(trace@[d as int]@ == below);
        }
        let mut j: usize = 0;
        while j <= d
            invariant
                a == text::views(left@),
                b == text::views(right@),
                n == left@.len(),
                m == right@.len(),
                max <= max_edits,
                2 * max + 3 <= usize::MAX,
                offset == max + 1,
                d <= max,
                j <= d + 1,
                v@.len() == 2 * max + 3,
                trace@.len() == d + 1,
                holds_trace(a, b, trace@, offset, max),
                d == 0 && j == 0 ==> v@[offset + 1] == 0,
                d > 0 ==> holds_depth(a, b, v@, offset, (d - 1) as nat),
                forall|k: int|
                    #[trigger] on_diagonal(d as nat, k) && k < 2 * j - d ==> v@[cell(offset, k)]
                        == furthest(a, b, d as nat, k) && !in_corner(a, b, d as nat, k),
                forall|e: nat, k: int|
                    e < d && on_diagonal(e, k) ==> !#[trigger] in_corner(a, b, e, k),
            decreases d + 1 - j,
        {
            let at: usize = offset - d + 2 * j;
            let ghost k = 2 * j - d;
            proof {
                assert(on_diagonal(d as nat, k));
                lemma_furthest_bounds(a, b, d as nat, k);
                lemma_furthest_is(a, b, d as nat, k);
                assert(at == cell(offset, k));
                if d > 0 {
                    if k > -(d as int) {
                        assert(on_diagonal((d - 1) as nat, k - 1));
                        assert(v@[cell(offset, k - 1)] == furthest(a, b, (d - 1) as nat, k - 1));
                    }
                    if k < d {
                        assert(on_diagonal((d - 1) as nat, k + 1));
                        assert(v@[cell(offset, k + 1)] == furthest(a, b, (d - 1) as nat, k + 1));
                    }
                }
            }
            let down: bool = j == 0 || (j != d && v[at - 1] < v[at + 1]);
            let start: i128 = if down {
                v[at + 1]
            } else {
                v[at - 1] + 1
            };
            assert(start == landing(a, b, d as nat, k));
            let slope: i128 = 2 * j as i128 - d as i128;
            let x: i128 = slide_from(left, right, start, start - slope);
            let y: i128 = x - slope;
            assert(x == furthest(a, b, d as nat, k));
            let ghost was = v@;
            v.set(at, x);
            proof {
                if d > 0 {
                    assert forall|i: int| #[trigger] on_diagonal((d - 1) as nat, i) implies v@[cell(
                        offset,
                        i,
                    )] == furthest(a, b, (d - 1) as nat, i) by {
                        assert(i != k);
                        assert(v@[cell(offset, i)] == was[cell(offset, i)]);
                    }
                }
                assert forall|i: int|
                    #[trigger] on_diagonal(d as nat, i) && i < 2 * (j + 1) - d implies v@[cell(
                    offset,
                    i,
                )] == furthest(a, b, d as nat, i) by {
                    if i != k {
                        assert(i < 2 * j - d);
                    }
                }
            }
            if x >= n as i128 && y >= m as i128 {
                proof {
                    assert(in_corner(a, b, d as nat, k));
                    lemma_first_corner(a, b, d as nat, k);
                    assert(reached(a, b, d as nat));
                    assert forall|e: nat| e < d implies !#[trigger] reached(a, b, e) by {
                        if reached(a, b, e) {
                            assert(in_corner(a, b, e, a.len() - b.len()));
                        }
                    }
                    lemma_least(a, b, 0);
                    if distance(a, b) < d {
                        assert(!reached(a, b, distance(a, b)));
                    }
                    assert(distance(a, b) == d);
                }
                let edits: Vec<Edit> = walk_back(&trace, n, m, max, Ghost(a), Ghost(b));
                return Some(edits);
            }
            j += 1;
        }
        assert forall|e: nat, k: int| e < d + 1 && on_diagonal(e, k) implies !#[trigger] in_corner(
            a,
            b,
            e,
            k,
        ) by {
            if e == d {
                assert(on_diagonal(d as nat, k));
                assert(k < 2 * j - d);
            }
        }
        assert(holds_depth(a, b, v@, offset, d as nat));
        d += 1;
    }
    proof {
        lemma_least(a, b, 0);
        let found = distance(a, b);
        if found <= max {
            lemma_ends_at_the_end(a, b);
            assert(in_corner(a, b, found, a.len() - b.len()));
        }
    }
    None
}

/// Turn the trace into the script, read backwards from the far corner.
#[verifier::spinoff_prover]
#[verifier::rlimit(40)]
fn walk_back(
    trace: &Vec<Vec<i128>>,
    n: usize,
    m: usize,
    most: usize,
    Ghost(a): Ghost<Seq<Seq<char>>>,
    Ghost(b): Ghost<Seq<Seq<char>>>,
) -> (r: Vec<Edit>)
    requires
        2 * most + 3 <= usize::MAX,
        holds_trace(a, b, trace@, (most + 1) as usize, most),
        trace@.len() == distance(a, b) + 1,
        n == a.len(),
        m == b.len(),
    ensures
        r@ == best_script(a, b),
{
    let offset: usize = most + 1;
    let ghost whole = best_script(a, b);
    let mut back: Vec<Edit> = Vec::new();
    let mut x: i128 = n as i128;
    let mut y: i128 = m as i128;
    let mut left: usize = trace.len();
    proof {
        lemma_ends_at_the_end(a, b);
        assert(path(a, b, distance(a, b), a.len() - b.len()) + back@.reverse() =~= whole);
    }
    while left > 0
        invariant
            2 * most + 3 <= usize::MAX,
            offset == most + 1,
            holds_trace(a, b, trace@, offset, most),
            left <= trace@.len(),
            0 <= n <= usize::MAX,
            n == a.len(),
            m == b.len(),
            left > 0 ==> {
                &&& on_diagonal((left - 1) as nat, x - y)
                &&& x == furthest(a, b, (left - 1) as nat, x - y)
                &&& path(a, b, (left - 1) as nat, x - y) + back@.reverse() =~= whole
            },
            left == 0 ==> back@.reverse() =~= whole,
        decreases left,
    {
        left -= 1;
        let d: usize = left;
        let k: i128 = x - y;
        proof {
            lemma_furthest_bounds(a, b, d as nat, k as int);
            lemma_furthest_is(a, b, d as nat, k as int);
            assert(trace@[d as int]@.len() == 2 * most + 3);
            if d > 0 {
                let e = (d - 1) as nat;
                assert(holds_depth(a, b, trace@[d as int]@, offset, e));
                if k > -(d as int) {
                    assert(on_diagonal(e, k - 1));
                    lemma_furthest_bounds(a, b, e, k - 1);
                    assert(trace@[d as int]@[cell(offset, k - 1)] == furthest(a, b, e, k - 1));
                }
                if k < d {
                    assert(on_diagonal(e, k + 1));
                    lemma_furthest_bounds(a, b, e, k + 1);
                    assert(trace@[d as int]@[cell(offset, k + 1)] == furthest(a, b, e, k + 1));
                }
            }
        }
        let at: usize = (offset as i128 + k) as usize;
        let v: &Vec<i128> = &trace[d];
        let down: bool = k == -(d as i128) || (k != d as i128 && v[at - 1] < v[at + 1]);
        let previous_k: i128 = if down {
            k + 1
        } else {
            k - 1
        };
        let previous_x: i128 = v[(offset as i128 + previous_k) as usize];
        let previous_y: i128 = previous_x - previous_k;
        let ghost land = landing(a, b, d as nat, k as int);
        let ghost base = if d == 0 {
            Seq::<Edit>::empty()
        } else {
            path(a, b, (d - 1) as nat, previous_k as int).push(
                if down {
                    Edit::Insert
                } else {
                    Edit::Delete
                },
            )
        };
        proof {
            assert(d == 0 ==> previous_x == 0 && previous_y == -1);
            assert(d > 0 ==> down == goes_down(a, b, d as nat, k as int));
            assert(path(a, b, d as nat, k as int) =~= base + keeps(x - land));
            assert(down ==> previous_x == land && previous_y == land - k - 1);
            assert(!down ==> previous_x == land - 1 && previous_y == land - k);
        }
        while x > previous_x && y > previous_y
            invariant
                x - y == k,
                land <= x,
                0 <= land,
                down ==> previous_x == land && previous_y == land - k - 1,
                !down ==> previous_x == land - 1 && previous_y == land - k,
                base + keeps(x - land) + back@.reverse() =~= whole,
            decreases x - previous_x,
        {
            let ghost was = back@;
            back.push(Edit::Keep);
            proof {
                assert(was.push(Edit::Keep).reverse() =~= seq![Edit::Keep] + was.reverse());
                assert(keeps(x - land) =~= keeps(x - land - 1).push(Edit::Keep));
            }
            x -= 1;
            y -= 1;
        }
        assert(x == land);
        assert(base + back@.reverse() =~= whole) by {
            assert(keeps(0) =~= Seq::<Edit>::empty());
        }
        if d > 0 {
            let step: Edit = if down {
                Edit::Insert
            } else {
                Edit::Delete
            };
            let ghost was = back@;
            back.push(step);
            assert(was.push(step).reverse() =~= seq![step] + was.reverse());
            x = previous_x;
            y = previous_y;
        }
    }
    let mut out: Vec<Edit> = Vec::new();
    let mut i: usize = back.len();
    while i > 0
        invariant
            i <= back@.len(),
            out@ =~= back@.reverse().take(back@.len() - i),
        decreases i,
    {
        i -= 1;
        out.push(back[i]);
    }
    out
}

// ---- lining up --------------------------------------------------------------------------------

/// The row that one step of a script makes, after the steps before it.
pub open spec fn row_of(
    a: Seq<Seq<char>>,
    b: Seq<Seq<char>>,
    before: Seq<Edit>,
    step: Edit,
) -> RowView {
    match step {
        Edit::Keep => RowView::Same {
            left: lefts(before) + 1,
            right: rights(before) + 1,
            text: a[lefts(before) as int],
        },
        Edit::Delete => RowView::OnlyLeft {
            left: lefts(before) + 1,
            text: a[lefts(before) as int],
        },
        Edit::Insert => RowView::OnlyRight {
            right: rights(before) + 1,
            text: b[rights(before) as int],
        },
    }
}

/// The rows that a script makes.
pub open spec fn rows_of(a: Seq<Seq<char>>, b: Seq<Seq<char>>, edits: Seq<Edit>) -> Seq<RowView>
    decreases edits.len(),
{
    if edits.len() == 0 {
        Seq::empty()
    } else {
        rows_of(a, b, edits.drop_last()).push(row_of(a, b, edits.drop_last(), edits.last()))
    }
}

/// The first `count` lines of both sides as they are, the left one first.
pub open spec fn side_rows(a: Seq<Seq<char>>, b: Seq<Seq<char>>, count: nat) -> Seq<RowView>
    decreases count,
{
    if count == 0 {
        Seq::empty()
    } else {
        let at = count - 1;
        side_rows(a, b, at as nat) + (if at < a.len() {
            seq![RowView::OnlyLeft { left: count, text: a[at] }]
        } else {
            Seq::empty()
        }) + (if at < b.len() {
            seq![RowView::OnlyRight { right: count, text: b[at] }]
        } else {
            Seq::empty()
        })
    }
}

/// The rows of two files: by the shortest script, or as they are where that
/// is too long.
pub open spec fn aligned(a: Seq<Seq<char>>, b: Seq<Seq<char>>) -> Seq<RowView> {
    if distance(a, b) <= MAX_EDITS {
        rows_of(a, b, best_script(a, b))
    } else {
        side_rows(
            a,
            b,
            if a.len() < b.len() {
                b.len()
            } else {
                a.len()
            },
        )
    }
}

/// How many rows are not the same on both sides.
pub open spec fn changed_rows(rows: Seq<RowView>) -> nat
    decreases rows.len(),
{
    if rows.len() == 0 {
        0
    } else {
        changed_rows(rows.drop_last()) + (if rows.last() is Same {
            0nat
        } else {
            1
        })
    }
}

proof fn lemma_sides_grow(edits: Seq<Edit>, to: int)
    requires
        0 <= to <= edits.len(),
    ensures
        lefts(edits.take(to)) <= lefts(edits),
        rights(edits.take(to)) <= rights(edits),
    decreases edits.len() - to,
{
    if to < edits.len() {
        lemma_sides_grow(edits, to + 1);
        assert(edits.take(to + 1).drop_last() =~= edits.take(to));
    } else {
        assert(edits.take(to) =~= edits);
    }
}

fn count_changes(rows: &Vec<Row>) -> (r: usize)
    ensures
        r == changed_rows(row_views(rows@)),
{
    let ghost views = row_views(rows@);
    let mut count: usize = 0;
    let mut i: usize = 0;
    assert(views.take(0) =~= Seq::<RowView>::empty());
    while i < rows.len()
        invariant
            i <= rows@.len(),
            views == row_views(rows@),
            count <= i,
            count == changed_rows(views.take(i as int)),
        decreases rows@.len() - i,
    {
        proof {
            assert(views.take(i + 1).drop_last() =~= views.take(i as int));
            assert(views.take(i + 1).last() == rows@[i as int]@);
        }
        if !rows[i].is_same() {
            count += 1;
        }
        i += 1;
    }
    assert(views.take(i as int) =~= views);
    count
}

/// Line up two files.
pub fn align(left: &[String], right: &[String]) -> (r: Diff)
    ensures
        row_views(r.rows@) == aligned(text::views(left@), text::views(right@)),
        r.changes == changed_rows(aligned(text::views(left@), text::views(right@))),
        r.unaligned == (distance(text::views(left@), text::views(right@)) > MAX_EDITS),
{
    let ghost a = text::views(left@);
    let ghost b = text::views(right@);
    let edits: Vec<Edit> = match script(left, right, MAX_EDITS) {
        Some(edits) => edits,
        None => {
            return side_by_side(left, right);
        },
    };
    proof {
        law_script_turns_one_into_the_other(a, b);
    }
    let lines_left: usize = left.len();
    let lines_right: usize = right.len();
    let mut rows: Vec<Row> = Vec::new();
    let mut l: usize = 0;
    let mut r: usize = 0;
    let mut i: usize = 0;
    assert(edits@.take(0) =~= Seq::<Edit>::empty());
    assert(row_views(rows@) =~= Seq::empty());
    while i < edits.len()
        invariant
            a == text::views(left@),
            b == text::views(right@),
            turns(a, b, edits@),
            lines_left == left@.len(),
            lines_right == right@.len(),
            i <= edits@.len(),
            l == lefts(edits@.take(i as int)),
            r == rights(edits@.take(i as int)),
            row_views(rows@) == rows_of(a, b, edits@.take(i as int)),
        decreases edits@.len() - i,
    {
        let ghost front = edits@.take(i as int);
        proof {
            assert(edits@.take(i + 1).drop_last() =~= front);
            assert(edits@.take(i + 1).last() == edits@[i as int]);
            lemma_sides_grow(edits@, i + 1);
        }
        let ghost was = row_views(rows@);
        let row: Row = match edits[i] {
            Edit::Keep => {
                let row: Row = Row::Same { left: l + 1, right: r + 1, text: left[l].clone() };
                l += 1;
                r += 1;
                row
            },
            Edit::Delete => {
                let row: Row = Row::OnlyLeft { left: l + 1, text: left[l].clone() };
                l += 1;
                row
            },
            Edit::Insert => {
                let row: Row = Row::OnlyRight { right: r + 1, text: right[r].clone() };
                r += 1;
                row
            },
        };
        rows.push(row);
        assert(row@ == row_of(a, b, front, edits@[i as int]));
        assert(row_views(rows@) =~= was.push(row@));
        i += 1;
    }
    assert(edits@.take(i as int) =~= edits@);
    let changes: usize = count_changes(&rows);
    Diff { rows, changes, unaligned: false }
}

proof fn lemma_one_row_more(rows: Seq<RowView>, row: RowView)
    ensures
        changed_rows(rows.push(row)) == changed_rows(rows) + (if row is Same {
            0nat
        } else {
            1
        }),
        left_column(rows.push(row)) == match left_of(row) {
            Some(line) => left_column(rows).push(line),
            None => left_column(rows),
        },
        right_column(rows.push(row)) == match right_of(row) {
            Some(line) => right_column(rows).push(line),
            None => right_column(rows),
        },
{
    assert(rows.push(row).drop_last() =~= rows);
}

proof fn lemma_side_rows_differ(a: Seq<Seq<char>>, b: Seq<Seq<char>>, count: nat)
    ensures
        changed_rows(side_rows(a, b, count)) == side_rows(a, b, count).len(),
    decreases count,
{
    if count > 0 {
        let at = count - 1;
        let front = side_rows(a, b, at as nat);
        lemma_side_rows_differ(a, b, at as nat);
        let all = side_rows(a, b, count);
        if at < a.len() && at < b.len() {
            let one = front.push(RowView::OnlyLeft { left: count, text: a[at] });
            assert(all =~= one.push(RowView::OnlyRight { right: count, text: b[at] }));
            lemma_one_row_more(front, one.last());
            lemma_one_row_more(one, all.last());
        } else if at < a.len() {
            assert(all =~= front.push(RowView::OnlyLeft { left: count, text: a[at] }));
            lemma_one_row_more(front, all.last());
        } else if at < b.len() {
            assert(all =~= front.push(RowView::OnlyRight { right: count, text: b[at] }));
            lemma_one_row_more(front, all.last());
        } else {
            assert(all =~= front);
        }
    }
}

/// Two files with nothing in common, shown as they are.
pub fn side_by_side(left: &[String], right: &[String]) -> (r: Diff)
    ensures
        row_views(r.rows@) == side_rows(
            text::views(left@),
            text::views(right@),
            if left@.len() < right@.len() {
                right@.len()
            } else {
                left@.len()
            },
        ),
        r.changes == changed_rows(row_views(r.rows@)),
        r.unaligned,
{
    let ghost a = text::views(left@);
    let ghost b = text::views(right@);
    let longest: usize = if left.len() < right.len() {
        right.len()
    } else {
        left.len()
    };
    let mut rows: Vec<Row> = Vec::new();
    let mut at: usize = 0;
    assert(row_views(rows@) =~= Seq::empty());
    while at < longest
        invariant
            a == text::views(left@),
            b == text::views(right@),
            at <= longest,
            row_views(rows@) == side_rows(a, b, at as nat),
        decreases longest - at,
    {
        let ghost was = row_views(rows@);
        if at < left.len() {
            let row: Row = Row::OnlyLeft { left: at + 1, text: left[at].clone() };
            rows.push(row);
            assert(row_views(rows@) =~= was.push(row@));
        }
        let ghost half = row_views(rows@);
        if at < right.len() {
            let row: Row = Row::OnlyRight { right: at + 1, text: right[at].clone() };
            rows.push(row);
            assert(row_views(rows@) =~= half.push(row@));
        }
        at += 1;
        assert(row_views(rows@) =~= side_rows(a, b, at as nat));
    }
    proof {
        lemma_side_rows_differ(a, b, longest as nat);
    }
    let changes: usize = rows.len();
    Diff { rows, changes, unaligned: true }
}

// ---- reading ----------------------------------------------------------------------------------

/// Why two files could not be compared line by line.
#[derive(Debug, Clone, PartialEq, Eq)]
pub enum Refusal {
    /// Not text - a comparison of it is a yes or a no, not a diff. Holds
    /// where the two first differ, and `None` when they never do.
    Binary { at: Option<u64> },
    TooBig { bytes: u64 },
    Unreadable(String),
}

/// What a refusal says.
pub open spec fn refusal_text(refusal: Refusal) -> Seq<char> {
    match refusal {
        Refusal::Binary { at: None } => {
            "These are not text files, but their contents are identical."@
        },
        Refusal::Binary { at: Some(offset) } => {
            "These are not text files. They first differ at byte "@ + text::decimal(offset as nat)
                + " (0x"@ + text::hexadecimal(offset as nat) + ") - F3 on either shows it."@
        },
        Refusal::TooBig { bytes } => {
            "Too big to compare line by line ("@ + entry::size_text(bytes as nat)
                + ", and the limit is "@ + entry::size_text(MAX_BYTES as nat) + ")."@
        },
        Refusal::Unreadable(why) => why@,
    }
}

impl Refusal {
    pub fn message(&self) -> (r: String)
        ensures
            r@ == refusal_text(*self),
    {
        match self {
            Refusal::Binary { at: None } => {
                "These are not text files, but their contents are identical.".to_owned()
            },
            Refusal::Binary { at: Some(offset) } => {
                let mut r: String = "These are not text files. They first differ at byte ".to_owned();
                r.append(text::decimal_text(*offset).as_str());
                r.append(" (0x");
                r.append(text::hexadecimal_text(*offset).as_str());
                r.append(") - F3 on either shows it.");
                r
            },
            Refusal::TooBig { bytes } => {
                let mut r: String = "Too big to compare line by line (".to_owned();
                r.append(entry::human_size(*bytes).as_str());
                r.append(", and the limit is ");
                r.append(entry::human_size(MAX_BYTES).as_str());
                r.append(").");
                r
            },
            Refusal::Unreadable(why) => why.clone(),
        }
    }
}

/// The pieces of a text without their carriage returns.
pub open spec fn bare_lines(pieces: Seq<Seq<char>>) -> Seq<Seq<char>> {
    pieces.map_values(|piece: Seq<char>| text::strip_end(piece, '\r'))
}

/// The lines of a text: what stands between newlines, without carriage
/// returns behind it, and without the empty one behind the last newline.
pub open spec fn lines_of(text: Seq<char>) -> Seq<Seq<char>> {
    let all = bare_lines(text::split(text, '\n'));
    if all.len() > 0 && all.last().len() == 0 {
        all.drop_last()
    } else {
        all
    }
}

/// Split into lines, keeping neither the newline nor a phantom last line.
pub fn lines(text: &str) -> (r: Vec<String>)
    ensures
        text::views(r@) == lines_of(text@),
{
    let pieces: Vec<String> = text::split_text(text, '\n');
    let ghost all = bare_lines(text::split(text@, '\n'));
    let mut out: Vec<String> = Vec::new();
    let mut i: usize = 0;
    while i < pieces.len()
        invariant
            i <= pieces@.len(),
            all == bare_lines(text::views(pieces@)),
            out@.len() == i,
            forall|j: int| 0 <= j < i ==> (#[trigger] out@[j])@ == all[j],
        decreases pieces@.len() - i,
    {
        out.push(text::strip_end_char(pieces[i].as_str(), '\r'));
        i += 1;
    }
    assert(text::views(out@) =~= all);
    let last: usize = out.len() - 1;
    if out[last].as_str().is_empty() {
        let ghost was = out@;
        out.pop();
        assert(text::views(out@) =~= text::views(was).drop_last());
    }
    out
}

/// A file for comparison from its size, its bytes, and whether they look like
/// text; or why not. A refusal of what is not text is answered anew with both
/// files in hand.
pub fn read(size: u64, bytes: &[u8], looks_like_text: bool) -> (r: Result<Vec<String>, Refusal>)
    ensures
        match r {
            Ok(lines) => {
                &&& size <= MAX_BYTES
                &&& looks_like_text
                &&& text::views(lines@) == lines_of(encoding::utf8_text(bytes@))
            },
            Err(refusal) => if size > MAX_BYTES {
                refusal == (Refusal::TooBig { bytes: size })
            } else {
                !looks_like_text && refusal == (Refusal::Binary { at: Some(0) })
            },
        },
{
    if size > MAX_BYTES {
        return Err(Refusal::TooBig { bytes: size });
    }
    if !looks_like_text {
        return Err(Refusal::Binary { at: Some(0) });
    }
    let text: String = encoding::from_utf8_lossy(bytes);
    Ok(lines(text.as_str()))
}

/// Whether a file was refused for not being text.
pub open spec fn is_binary(file: Result<Vec<String>, Refusal>) -> bool {
    match file {
        Ok(_) => false,
        Err(refusal) => refusal is Binary,
    }
}

fn refused_as_binary(file: &Result<Vec<String>, Refusal>) -> (r: bool)
    ensures
        r == is_binary(*file),
{
    match file {
        Ok(_) => false,
        Err(refusal) => match refusal {
            Refusal::Binary { .. } => true,
            _ => false,
        },
    }
}

/// Compare two files as they were read; `differ` is where their bytes first
/// differ, and counts where either is not text.
pub fn compare_files(
    left: Result<Vec<String>, Refusal>,
    right: Result<Vec<String>, Refusal>,
    differ: Option<u64>,
) -> (r: Result<Diff, Refusal>)
    ensures
        is_binary(left) || is_binary(right) ==> match r {
            Ok(_) => false,
            Err(refusal) => refusal == (Refusal::Binary { at: differ }),
        },
        !is_binary(left) && !is_binary(right) ==> match r {
            Ok(diff) => {
                &&& left is Ok
                &&& right is Ok
                &&& row_views(diff.rows@) == aligned(
                    text::views(left->Ok_0@),
                    text::views(right->Ok_0@),
                )
                &&& diff.changes == changed_rows(row_views(diff.rows@))
                &&& diff.unaligned == (distance(
                    text::views(left->Ok_0@),
                    text::views(right->Ok_0@),
                ) > MAX_EDITS)
            },
            Err(refusal) => if left is Err {
                refusal == left->Err_0
            } else {
                right is Err && refusal == right->Err_0
            },
        },
{
    if refused_as_binary(&left) || refused_as_binary(&right) {
        return Err(Refusal::Binary { at: differ });
    }
    match left {
        Err(refusal) => Err(refusal),
        Ok(left) => match right {
            Err(refusal) => Err(refusal),
            Ok(right) => Ok(align(left.as_slice(), right.as_slice())),
        },
    }
}

// ---- the gutter -------------------------------------------------------------------------------

/// A line's number as the gutter shows it, or blank where there is no line.
pub fn gutter(number: Option<usize>, width: usize) -> (r: String)
    ensures
        r@ == match number {
            Some(n) => text::padded(text::decimal(n as nat), width as nat, ' '),
            None => Seq::new(width as nat, |i: int| ' '),
        },
{
    match number {
        Some(n) => text::pad_start(text::decimal_text(n as u64).as_str(), width, ' '),
        None => {
            let r: String = text::pad_start("", width, ' ');
            proof {
                reveal_strlit("");
                assert(r@ =~= Seq::new(width as nat, |i: int| ' '));
            }
            r
        },
    }
}

/// The greater number of a row.
pub open spec fn row_number(row: RowView) -> nat {
    match row {
        RowView::Same { left, right, .. } => if left < right {
            right
        } else {
            left
        },
        RowView::OnlyLeft { left, .. } => left,
        RowView::OnlyRight { right, .. } => right,
    }
}

/// The greatest number in some rows; 0 where there are none.
pub open spec fn greatest_number(rows: Seq<RowView>) -> nat
    decreases rows.len(),
{
    if rows.len() == 0 {
        0
    } else {
        let front = greatest_number(rows.drop_last());
        if front < row_number(rows.last()) {
            row_number(rows.last())
        } else {
            front
        }
    }
}

/// How wide the line-number gutter has to be for this diff.
pub fn gutter_width(diff: &Diff) -> (r: usize)
    ensures
        r as int == ({
            let widest = if diff.rows@.len() == 0 {
                1
            } else {
                greatest_number(row_views(diff.rows@))
            };
            let digits = text::decimal(widest).len();
            if digits < 2 {
                2
            } else {
                digits as int
            }
        }),
{
    let ghost views = row_views(diff.rows@);
    let mut widest: usize = 0;
    let mut i: usize = 0;
    assert(views.take(0) =~= Seq::<RowView>::empty());
    while i < diff.rows.len()
        invariant
            i <= diff.rows@.len(),
            views == row_views(diff.rows@),
            widest == greatest_number(views.take(i as int)),
        decreases diff.rows@.len() - i,
    {
        proof {
            assert(views.take(i + 1).drop_last() =~= views.take(i as int));
            assert(views.take(i + 1).last() == diff.rows@[i as int]@);
        }
        let number: usize = match &diff.rows[i] {
            Row::Same { left, right, .. } => if *left < *right {
                *right
            } else {
                *left
            },
            Row::OnlyLeft { left, .. } => *left,
            Row::OnlyRight { right, .. } => *right,
        };
        if widest < number {
            widest = number;
        }
        i += 1;
    }
    assert(views.take(i as int) =~= views);
    if diff.rows.len() == 0 {
        widest = 1;
    }
    let digits: Vec<char> = chars(text::decimal_text(widest as u64).as_str());
    if digits.len() < 2 {
        2
    } else {
        digits.len()
    }
}

// ---- laws of the alignment --------------------------------------------------------------------

/// What the left column shows, from top to bottom.
pub open spec fn left_column(rows: Seq<RowView>) -> Seq<(nat, Seq<char>)>
    decreases rows.len(),
{
    if rows.len() == 0 {
        Seq::empty()
    } else {
        match left_of(rows.last()) {
            Some(line) => left_column(rows.drop_last()).push(line),
            None => left_column(rows.drop_last()),
        }
    }
}

/// What the right column shows, from top to bottom.
pub open spec fn right_column(rows: Seq<RowView>) -> Seq<(nat, Seq<char>)>
    decreases rows.len(),
{
    if rows.len() == 0 {
        Seq::empty()
    } else {
        match right_of(rows.last()) {
            Some(line) => right_column(rows.drop_last()).push(line),
            None => right_column(rows.drop_last()),
        }
    }
}

/// Lines with their numbers, counted from one.
pub open spec fn numbered(lines: Seq<Seq<char>>) -> Seq<(nat, Seq<char>)> {
    lines.map(|at: int, line: Seq<char>| ((at + 1) as nat, line))
}

proof fn lemma_columns(a: Seq<Seq<char>>, b: Seq<Seq<char>>, edits: Seq<Edit>)
    requires
        follows(a, b, edits),
        lefts(edits) <= a.len(),
        rights(edits) <= b.len(),
    ensures
        left_column(rows_of(a, b, edits)) == numbered(a.take(lefts(edits) as int)),
        right_column(rows_of(a, b, edits)) == numbered(b.take(rights(edits) as int)),
        changed_rows(rows_of(a, b, edits)) == cost(edits),
    decreases edits.len(),
{
    let rows = rows_of(a, b, edits);
    if edits.len() > 0 {
        let front = edits.drop_last();
        lemma_columns(a, b, front);
        assert(rows.drop_last() =~= rows_of(a, b, front));
    }
    assert(left_column(rows) =~= numbered(a.take(lefts(edits) as int)));
    assert(right_column(rows) =~= numbered(b.take(rights(edits) as int)));
}

proof fn lemma_side_columns(a: Seq<Seq<char>>, b: Seq<Seq<char>>, count: nat)
    ensures
        left_column(side_rows(a, b, count)) == numbered(
            a.take(
                if count < a.len() {
                    count as int
                } else {
                    a.len() as int
                },
            ),
        ),
        right_column(side_rows(a, b, count)) == numbered(
            b.take(
                if count < b.len() {
                    count as int
                } else {
                    b.len() as int
                },
            ),
        ),
    decreases count,
{
    let all = side_rows(a, b, count);
    let ca = if count < a.len() {
        count as int
    } else {
        a.len() as int
    };
    let cb = if count < b.len() {
        count as int
    } else {
        b.len() as int
    };
    if count > 0 {
        let at = count - 1;
        let front = side_rows(a, b, at as nat);
        lemma_side_columns(a, b, at as nat);
        if at < a.len() && at < b.len() {
            let one = front.push(RowView::OnlyLeft { left: count, text: a[at] });
            assert(all =~= one.push(RowView::OnlyRight { right: count, text: b[at] }));
            lemma_one_row_more(front, one.last());
            lemma_one_row_more(one, all.last());
        } else if at < a.len() {
            assert(all =~= front.push(RowView::OnlyLeft { left: count, text: a[at] }));
            lemma_one_row_more(front, all.last());
        } else if at < b.len() {
            assert(all =~= front.push(RowView::OnlyRight { right: count, text: b[at] }));
            lemma_one_row_more(front, all.last());
        } else {
            assert(all =~= front);
        }
    }
    assert(left_column(all) =~= numbered(a.take(ca)));
    assert(right_column(all) =~= numbered(b.take(cb)));
}

/// Each column of an alignment shows its file, whole and in order, whichever
/// way the two were lined up.
pub proof fn law_columns_show_the_files(a: Seq<Seq<char>>, b: Seq<Seq<char>>)
    ensures
        left_column(aligned(a, b)) == numbered(a),
        right_column(aligned(a, b)) == numbered(b),
{
    assert(a.take(a.len() as int) =~= a);
    assert(b.take(b.len() as int) =~= b);
    law_script_turns_one_into_the_other(a, b);
    lemma_columns(a, b, best_script(a, b));
    lemma_side_columns(
        a,
        b,
        if a.len() < b.len() {
            b.len()
        } else {
            a.len()
        },
    );
}

/// The number of changes of an alignment that did not give up is the number
/// of lines deleted and inserted by a shortest script.
pub proof fn law_changes_are_the_distance(a: Seq<Seq<char>>, b: Seq<Seq<char>>)
    requires
        distance(a, b) <= MAX_EDITS,
    ensures
        changed_rows(aligned(a, b)) == distance(a, b),
{
    law_script_turns_one_into_the_other(a, b);
    lemma_columns(a, b, best_script(a, b));
}

/// Two files are told to be identical exactly where they are.
pub proof fn law_identical_means_the_same(a: Seq<Seq<char>>, b: Seq<Seq<char>>)
    ensures
        changed_rows(aligned(a, b)) == 0 && distance(a, b) <= MAX_EDITS <==> a == b,
{
    law_script_turns_one_into_the_other(a, b);
    if distance(a, b) == 0 {
        lemma_only_kept(a, b, best_script(a, b));
        assert(a =~= b);
    }
    if a == b {
        let all = keeps(a.len() as int);
        lemma_same_slides(a, a.len() as int);
        lemma_slide(a, a, 0, 0);
        let none = Seq::<Edit>::empty();
        lemma_keeps(a, a, none, a.len() as int);
        assert(none + all =~= all);
        law_script_is_shortest(a, b, all);
    }
    if distance(a, b) <= MAX_EDITS {
        law_changes_are_the_distance(a, b);
    }
}

proof fn lemma_only_kept(a: Seq<Seq<char>>, b: Seq<Seq<char>>, edits: Seq<Edit>)
    requires
        follows(a, b, edits),
        cost(edits) == 0,
    ensures
        lefts(edits) == rights(edits),
        forall|i: int|
            0 <= i < lefts(edits) ==> i < a.len() && i < b.len() && #[trigger] a[i] == b[i],
    decreases edits.len(),
{
    if edits.len() > 0 {
        lemma_only_kept(a, b, edits.drop_last());
    }
}

proof fn lemma_same_slides(a: Seq<Seq<char>>, left: int)
    requires
        0 <= left <= a.len(),
    ensures
        slide(a, a, a.len() - left, a.len() - left) == a.len(),
    decreases left,
{
    if left > 0 {
        lemma_same_slides(a, left - 1);
    }
}

// ---- which two --------------------------------------------------------------------------------

/// Two files to compare, and where they came from.
#[derive(Debug, Clone, PartialEq, Eq)]
pub struct Chosen {
    pub left: String,
    pub right: String,
    /// True when both came from one pane rather than one from each.
    pub from_one_pane: bool,
}

/// Two files to compare, as characters.
#[verifier::ext_equal]
pub struct ChosenView {
    pub left: Seq<char>,
    pub right: Seq<char>,
    pub from_one_pane: bool,
}

impl View for Chosen {
    type V = ChosenView;

    open spec fn view(&self) -> ChosenView {
        ChosenView {
            left: self.left@,
            right: self.right@,
            from_one_pane: self.from_one_pane,
        }
    }
}

/// What one pane offers a comparison: what is marked in it, and what its
/// cursor is on.
#[derive(Debug, Clone, PartialEq, Eq)]
pub struct Side {
    /// The marked entries that are files, in the order they are listed.
    pub marked: Vec<String>,
    /// The row under the cursor, when it is a file.
    pub cursor: Option<String>,
}

/// What one pane offers, as characters.
#[verifier::ext_equal]
pub struct SideView {
    pub marked: Seq<Seq<char>>,
    pub cursor: Option<Seq<char>>,
}

impl View for Side {
    type V = SideView;

    open spec fn view(&self) -> SideView {
        SideView { marked: text::views(self.marked@), cursor: text::optional(self.cursor) }
    }
}

impl Default for Side {
    fn default() -> (r: Side)
        ensures
            r@.marked.len() == 0,
            r@.cursor is None,
    {
        Side { marked: Vec::new(), cursor: None }
    }
}

/// The paths of the marked entries that are files, in their order.
pub open spec fn files_marked(entries: Seq<EntryView>) -> Seq<Seq<char>>
    decreases entries.len(),
{
    if entries.len() == 0 {
        Seq::empty()
    } else {
        let front = files_marked(entries.drop_last());
        if entries.last().marked && entries.last().kind == EntryKind::File {
            front.push(entries.last().path)
        } else {
            front
        }
    }
}

/// What a pane offers a comparison.
pub open spec fn side_of(p: PanelView) -> SideView {
    SideView {
        marked: files_marked(p.entries),
        cursor: match panel::under_cursor(p) {
            Some(entry) => if entry.kind == EntryKind::File {
                Some(entry.path)
            } else {
                None
            },
            None => None,
        },
    }
}

/// The marked entries that are files, in the order they are listed.
fn marked_files(panel: &Panel) -> (r: Vec<String>)
    ensures
        text::views(r@) == files_marked(panel@.entries),
{
    let ghost views = panel@.entries;
    let mut out: Vec<String> = Vec::new();
    let mut i: usize = 0;
    assert(views.take(0) =~= Seq::<EntryView>::empty());
    assert(text::views(out@) =~= Seq::empty());
    while i < panel.entries.len()
        invariant
            i <= panel.entries@.len(),
            views == panel@.entries,
            text::views(out@) == files_marked(views.take(i as int)),
        decreases panel.entries@.len() - i,
    {
        proof {
            assert(views.take(i + 1).drop_last() =~= views.take(i as int));
            assert(views.take(i + 1).last() == panel.entries@[i as int]@);
        }
        if panel.entries[i].marked && panel.entries[i].kind == EntryKind::File {
            let ghost was = text::views(out@);
            out.push(panel.entries[i].path.clone());
            assert(text::views(out@) =~= was.push(panel.entries@[i as int].path@));
        }
        i += 1;
    }
    assert(views.take(i as int) =~= views);
    out
}

impl Side {
    pub fn of(panel: &Panel) -> (r: Side)
        ensures
            r@ == side_of(panel@),
    {
        let cursor: Option<String> = match panel.selected() {
            Some(entry) => if entry.kind == EntryKind::File {
                Some(entry.path.clone())
            } else {
                None
            },
            None => None,
        };
        Side { marked: marked_files(panel), cursor }
    }
}

/// The one file a pane means: its single mark, or the row under the cursor.
/// More than one mark is not "the one".
pub open spec fn the_one(side: SideView) -> Option<Seq<char>> {
    if side.marked.len() == 1 {
        Some(side.marked[0])
    } else if side.marked.len() == 0 {
        side.cursor
    } else {
        None
    }
}

/// Which two files two panes mean, or why none: two marked in one pane, the
/// active one's first, or one file from each, in the order the panes are on
/// screen.
pub open spec fn choice(
    style: Style,
    left: SideView,
    right: SideView,
    active_is_left: bool,
) -> Result<ChosenView, Seq<char>> {
    let (mine, theirs) = if active_is_left {
        (left.marked, right.marked)
    } else {
        (right.marked, left.marked)
    };
    if mine.len() == 2 {
        Ok(ChosenView { left: mine[0], right: mine[1], from_one_pane: true })
    } else if mine.len() == 0 && theirs.len() == 2 {
        Ok(ChosenView { left: theirs[0], right: theirs[1], from_one_pane: true })
    } else if mine.len() > 2 || (mine.len() == 0 && theirs.len() > 2) {
        Err(
            "Mark exactly two files to compare - there are "@ + text::decimal(
                if mine.len() < theirs.len() {
                    theirs.len()
                } else {
                    mine.len()
                },
            ),
        )
    } else {
        match the_one(left) {
            None => Err("Put a file under each pane's cursor, or mark two in one pane"@),
            Some(a) => match the_one(right) {
                None => Err("Put a file under each pane's cursor, or mark two in one pane"@),
                Some(b) => if pathname::same(style, a, b) {
                    Err("Both are the same file"@)
                } else {
                    Ok(ChosenView { left: a, right: b, from_one_pane: false })
                },
            },
        }
    }
}

/// What a choice came to, as characters.
pub open spec fn chosen_view(chosen: Result<Chosen, String>) -> Result<ChosenView, Seq<char>> {
    match chosen {
        Ok(chosen) => Ok(chosen@),
        Err(why) => Err(why@),
    }
}

fn one_file(side: &Side) -> (r: Option<String>)
    ensures
        text::optional(r) == the_one(side@),
{
    if side.marked.len() == 1 {
        Some(side.marked[0].clone())
    } else if side.marked.len() == 0 {
        match &side.cursor {
            Some(cursor) => Some(cursor.clone()),
            None => None,
        }
    } else {
        None
    }
}

/// Which two files a "compare files" is about: two marked in one pane, or one
/// under each pane's cursor.
///
/// The panes are given in the order they are on screen, and a pair taken one
/// from each comes back in that order too. Which pane has the keyboard only
/// decides whose marks are looked at first.
pub fn choose_files(left_pane: &Panel, right_pane: &Panel, active_is_left: bool) -> (r: Result<
    Chosen,
    String,
>)
    ensures
        chosen_view(r) == choice(
            left_pane.style,
            side_of(left_pane@),
            side_of(right_pane@),
            active_is_left,
        ),
{
    choose_from(left_pane.style, &Side::of(left_pane), &Side::of(right_pane), active_is_left)
}

/// [`choose_files`], from what the two panes offer rather than from the panes.
pub fn choose_from(
    style: Style,
    left_side: &Side,
    right_side: &Side,
    active_is_left: bool,
) -> (r: Result<Chosen, String>)
    ensures
        chosen_view(r) == choice(style, left_side@, right_side@, active_is_left),
{
    let (active, other): (&Side, &Side) = if active_is_left {
        (left_side, right_side)
    } else {
        (right_side, left_side)
    };
    let mine: &Vec<String> = &active.marked;
    let theirs: &Vec<String> = &other.marked;
    if mine.len() == 2 {
        let chosen: Chosen = Chosen {
            left: mine[0].clone(),
            right: mine[1].clone(),
            from_one_pane: true,
        };
        return Ok(chosen);
    }
    if mine.len() == 0 && theirs.len() == 2 {
        let chosen: Chosen = Chosen {
            left: theirs[0].clone(),
            right: theirs[1].clone(),
            from_one_pane: true,
        };
        return Ok(chosen);
    }
    if mine.len() > 2 || (mine.len() == 0 && theirs.len() > 2) {
        // Marks that clearly mean "these" but are not a pair. Falling back to
        // the cursors here would compare two files nobody pointed at.
        let most: usize = if mine.len() < theirs.len() {
            theirs.len()
        } else {
            mine.len()
        };
        return Err(
            text::concat2(
                "Mark exactly two files to compare - there are ",
                text::decimal_text(most as u64).as_str(),
            ),
        );
    }
    let left: String = match one_file(left_side) {
        Some(left) => left,
        None => {
            return Err("Put a file under each pane's cursor, or mark two in one pane".to_owned());
        },
    };
    let right: String = match one_file(right_side) {
        Some(right) => right,
        None => {
            return Err("Put a file under each pane's cursor, or mark two in one pane".to_owned());
        },
    };
    if pathname::is_same(style, left.as_str(), right.as_str()) {
        return Err("Both are the same file".to_owned());
    }
    Ok(Chosen { left, right, from_one_pane: false })
}

/// Which pane has the keyboard does not swap the columns: a pair taken one
/// from each pane comes in the order the panes are on screen.
pub proof fn law_columns_follow_the_panes(
    style: Style,
    left: SideView,
    right: SideView,
    active_is_left: bool,
)
    requires
        choice(style, left, right, active_is_left) is Ok,
        !choice(style, left, right, active_is_left)->Ok_0.from_one_pane,
    ensures
        Some(choice(style, left, right, active_is_left)->Ok_0.left) == the_one(left),
        Some(choice(style, left, right, active_is_left)->Ok_0.right) == the_one(right),
{
}

/// Reading takes nothing off a line but the carriage returns at its end: what
/// stands between newlines is the line and then carriage returns alone. Only
/// a last piece with nothing else in it is no line.
pub proof fn law_lines_lose_only_their_endings(s: Seq<char>)
    ensures
        ({
            let pieces = text::split(s, '\n');
            let lines = lines_of(s);
            let last = pieces.last();
            &&& lines.len() == if forall|k: int| 0 <= k < last.len() ==> last[k] == '\r' {
                pieces.len() - 1
            } else {
                pieces.len() as int
            }
            &&& forall|i: int|
                #![trigger lines[i]]
                0 <= i < lines.len() ==> {
                    &&& lines[i].len() <= pieces[i].len()
                    &&& pieces[i].take(lines[i].len() as int) == lines[i]
                    &&& lines[i].len() > 0 ==> lines[i].last() != '\r'
                    &&& forall|k: int|
                        lines[i].len() <= k < pieces[i].len() ==> #[trigger] pieces[i][k] == '\r'
                }
        }),
{
    let pieces = text::split(s, '\n');
    let lines = lines_of(s);
    text::lemma_split_pieces(s, '\n');
    assert forall|i: int| #![trigger lines[i]] 0 <= i < lines.len() implies {
        &&& lines[i].len() <= pieces[i].len()
        &&& pieces[i].take(lines[i].len() as int) == lines[i]
        &&& lines[i].len() > 0 ==> lines[i].last() != '\r'
        &&& forall|k: int|
            lines[i].len() <= k < pieces[i].len() ==> #[trigger] pieces[i][k] == '\r'
    } by {
        text::lemma_strip_end(pieces[i], '\r');
        assert(lines[i] == text::strip_end(pieces[i], '\r'));
    }
    let last = pieces.last();
    text::lemma_strip_end(last, '\r');
    let bare = text::strip_end(last, '\r');
    assert(bare_lines(pieces).last() == bare);
    if bare.len() > 0 {
        assert(last.take(bare.len() as int)[bare.len() - 1] == bare.last());
        assert(last[bare.len() - 1] != '\r');
    }
}

/// Reading keeps the text: where there are no carriage returns, the lines
/// with newlines between them, and one behind the last where the text ends in
/// one, are the text again.
pub proof fn law_lines_keep_the_text(s: Seq<char>)
    requires
        !s.contains('\r'),
    ensures
        text::joined_by(lines_of(s), '\n') + (if s.len() > 0 && s.last() == '\n' {
            seq!['\n']
        } else {
            Seq::empty()
        }) == s,
{
    let pieces = text::split(s, '\n');
    text::lemma_split_pieces(s, '\n');
    text::lemma_split_glued(s, '\n');
    text::lemma_pieces_hold_no_more(s, '\n', '\r');
    assert forall|i: int| 0 <= i < pieces.len() implies bare_lines(pieces)[i]
        == #[trigger] pieces[i] by {
        if pieces[i].len() > 0 {
            assert(pieces[i].contains(pieces[i].last()));
        }
    }
    assert(bare_lines(pieces) =~= pieces);
    let front = pieces.drop_last();
    let last = pieces.last();
    let whole = text::glued(front, '\n') + seq!['\n'] + last;
    assert(whole == seq!['\n'] + s);
    text::lemma_glued_len(front, '\n');
    text::lemma_glued_len(pieces, '\n');
    if last.len() == 0 {
        if front.len() == 0 {
            assert(text::glued(front, '\n') =~= Seq::<char>::empty());
            assert(whole.len() == 1);
            assert(s =~= Seq::<char>::empty());
        } else {
            assert(whole[whole.len() - 1] == '\n');
            assert(s.last() == whole[whole.len() - 1]);
            assert(text::glued(front, '\n').skip(1) + seq!['\n'] =~= s) by {
                assert(whole.skip(1) =~= s);
                assert(whole.skip(1) =~= text::glued(front, '\n').skip(1) + seq!['\n']);
            }
        }
    } else {
        assert(whole[whole.len() - 1] == last[last.len() - 1]);
        assert(pieces[pieces.len() - 1][last.len() - 1] != '\n');
        assert(s.last() == whole[whole.len() - 1]);
        assert(text::glued(pieces, '\n').skip(1) =~= s);
        assert(s + Seq::<char>::empty() =~= s);
    }
}

/// A text without the newline at its end.
pub open spec fn without_last_newline(s: Seq<char>) -> Seq<char> {
    if s.len() > 0 && s.last() == '\n' {
        s.drop_last()
    } else {
        s
    }
}

/// Two texts without carriage returns that show no change between them are
/// the same text, but for a newline at the end.
pub proof fn law_no_change_means_the_same_text(a: Seq<char>, b: Seq<char>)
    requires
        !a.contains('\r'),
        !b.contains('\r'),
        changed_rows(aligned(lines_of(a), lines_of(b))) == 0,
        distance(lines_of(a), lines_of(b)) <= MAX_EDITS,
    ensures
        without_last_newline(a) == without_last_newline(b),
{
    law_identical_means_the_same(lines_of(a), lines_of(b));
    law_lines_keep_the_text(a);
    law_lines_keep_the_text(b);
    let all = text::joined_by(lines_of(a), '\n');
    assert(without_last_newline(a) =~= all);
    assert(without_last_newline(b) =~= all);
}

/// The next change is the nearest one behind a row, going round at the end,
/// and the previous one the nearest in front, going round at the start; there
/// is none only where no row is a change.
pub proof fn law_the_nearest_change_is_found(rows: Seq<RowView>, from: int)
    requires
        rows.len() > 0,
        0 <= from,
    ensures
        match change_after(rows, from, 1) {
            Some(at) => {
                &&& changed_at(rows, at)
                &&& exists|step: int|
                    1 <= step <= rows.len() && at == #[trigger] ((from + step) % (rows.len() as int))
                        && forall|less: int|
                        1 <= less < step ==> !changed_at(
                            rows,
                            #[trigger] ((from + less) % (rows.len() as int)),
                        )
            },
            None => forall|at: int| !changed_at(rows, at),
        },
        match change_before(rows, from, 1) {
            Some(at) => {
                &&& changed_at(rows, at)
                &&& exists|step: int|
                    1 <= step <= rows.len() && at == #[trigger] ((from - step) % (rows.len() as int))
                        && forall|less: int|
                        1 <= less < step ==> !changed_at(
                            rows,
                            #[trigger] ((from - less) % (rows.len() as int)),
                        )
            },
            None => forall|at: int| !changed_at(rows, at),
        },
{
    lemma_change_after(rows, from, 1);
    lemma_change_before(rows, from, 1);
    let len = rows.len() as int;
    if change_after(rows, from, 1) is None {
        assert forall|at: int| !changed_at(rows, at) by {
            if 0 <= at < len {
                let gap = (at - from) % len;
                let step = if gap == 0 {
                    len
                } else {
                    gap
                };
                assert((from + step) % len == at) by {
                    lemma_goes_round(at, from, len);
                }
            }
        }
    }
    if change_before(rows, from, 1) is None {
        assert forall|at: int| !changed_at(rows, at) by {
            if 0 <= at < len {
                let gap = (from - at) % len;
                let step = if gap == 0 {
                    len
                } else {
                    gap
                };
                assert((from - step) % len == at) by {
                    lemma_goes_back(at, from, len);
                }
            }
        }
    }
}

proof fn lemma_goes_round(at: int, from: int, len: int)
    requires
        0 <= at < len,
    ensures
        ({
            let gap = (at - from) % len;
            let step = if gap == 0 {
                len
            } else {
                gap
            };
            (from + step) % len == at
        }),
{
    let gap = (at - from) % len;
    let q = (at - from) / len;
    vstd::arithmetic::div_mod::lemma_fundamental_div_mod(at - from, len);
    assert(from + gap == (-q) * len + at) by (nonlinear_arith)
        requires
            at - from == len * q + gap,
    ;
    assert(from + len == (1 - q) * len + at - gap) by (nonlinear_arith)
        requires
            at - from == len * q + gap,
    ;
    if gap == 0 {
        vstd::arithmetic::div_mod::lemma_fundamental_div_mod_converse(from + len, len, 1 - q, at);
    } else {
        vstd::arithmetic::div_mod::lemma_fundamental_div_mod_converse(from + gap, len, -q, at);
    }
}

proof fn lemma_goes_back(at: int, from: int, len: int)
    requires
        0 <= at < len,
    ensures
        ({
            let gap = (from - at) % len;
            let step = if gap == 0 {
                len
            } else {
                gap
            };
            (from - step) % len == at
        }),
{
    let gap = (from - at) % len;
    let q = (from - at) / len;
    vstd::arithmetic::div_mod::lemma_fundamental_div_mod(from - at, len);
    assert(from - gap == q * len + at) by (nonlinear_arith)
        requires
            from - at == len * q + gap,
    ;
    assert(from - len == (q - 1) * len + at + gap) by (nonlinear_arith)
        requires
            from - at == len * q + gap,
    ;
    if gap == 0 {
        vstd::arithmetic::div_mod::lemma_fundamental_div_mod_converse(from - len, len, q - 1, at);
    } else {
        vstd::arithmetic::div_mod::lemma_fundamental_div_mod_converse(from - gap, len, q, at);
    }
}

proof fn lemma_change_after(rows: Seq<RowView>, from: int, step: int)
    requires
        rows.len() > 0,
        1 <= step <= rows.len() + 1,
    ensures
        match change_after(rows, from, step) {
            Some(at) => {
                &&& changed_at(rows, at)
                &&& exists|s: int|
                    step <= s <= rows.len() && at == #[trigger] ((from + s) % (rows.len() as int))
                        && forall|less: int|
                        step <= less < s ==> !changed_at(
                            rows,
                            #[trigger] ((from + less) % (rows.len() as int)),
                        )
            },
            None => forall|less: int|
                step <= less <= rows.len() ==> !changed_at(
                    rows,
                    #[trigger] ((from + less) % (rows.len() as int)),
                ),
        },
    decreases rows.len() + 1 - step,
{
    let len = rows.len() as int;
    if step <= rows.len() {
        let here = (from + step) % len;
        if changed_at(rows, here) {
            assert(here == ((from + step) % len));
        } else {
            lemma_change_after(rows, from, step + 1);
            if let Some(at) = change_after(rows, from, step + 1) {
                let s = choose|s: int|
                    step + 1 <= s <= rows.len() && at == #[trigger] ((from + s) % len)
                        && forall|less: int|
                        step + 1 <= less < s ==> !changed_at(
                            rows,
                            #[trigger] ((from + less) % len),
                        );
                assert(at == ((from + s) % len));
            }
        }
    }
}

proof fn lemma_change_before(rows: Seq<RowView>, from: int, step: int)
    requires
        rows.len() > 0,
        1 <= step <= rows.len() + 1,
    ensures
        match change_before(rows, from, step) {
            Some(at) => {
                &&& changed_at(rows, at)
                &&& exists|s: int|
                    step <= s <= rows.len() && at == #[trigger] ((from - s) % (rows.len() as int))
                        && forall|less: int|
                        step <= less < s ==> !changed_at(
                            rows,
                            #[trigger] ((from - less) % (rows.len() as int)),
                        )
            },
            None => forall|less: int|
                step <= less <= rows.len() ==> !changed_at(
                    rows,
                    #[trigger] ((from - less) % (rows.len() as int)),
                ),
        },
    decreases rows.len() + 1 - step,
{
    let len = rows.len() as int;
    if step <= rows.len() {
        let here = (from - step) % len;
        if changed_at(rows, here) {
            assert(here == ((from - step) % len));
        } else {
            lemma_change_before(rows, from, step + 1);
            if let Some(at) = change_before(rows, from, step + 1) {
                let s = choose|s: int|
                    step + 1 <= s <= rows.len() && at == #[trigger] ((from - s) % len)
                        && forall|less: int|
                        step + 1 <= less < s ==> !changed_at(
                            rows,
                            #[trigger] ((from - less) % len),
                        );
                assert(at == ((from - s) % len));
            }
        }
    }
}

/// The number of changes is the number of rows that stand on one side alone.
pub proof fn law_changes_are_the_rows_of_one_side(rows: Seq<RowView>)
    ensures
        changed_rows(rows) == rows.filter(
            |row: RowView| left_of(row) is None || right_of(row) is None,
        ).len(),
    decreases rows.len(),
{
    reveal(Seq::filter);
    if rows.len() > 0 {
        law_changes_are_the_rows_of_one_side(rows.drop_last());
    }
}

/// No line number of a comparison is greater than the greatest, and some row
/// has it.
pub proof fn law_the_greatest_number_is_shown(rows: Seq<RowView>)
    ensures
        forall|i: int|
            0 <= i < rows.len() ==> {
                &&& left_of(#[trigger] rows[i]) matches Some(line) ==> line.0 <= greatest_number(
                    rows,
                )
                &&& right_of(rows[i]) matches Some(line) ==> line.0 <= greatest_number(rows)
            },
        rows.len() > 0 && greatest_number(rows) > 0 ==> exists|i: int|
            0 <= i < rows.len() && row_number(#[trigger] rows[i]) == greatest_number(rows),
    decreases rows.len(),
{
    if rows.len() > 0 {
        let front = rows.drop_last();
        law_the_greatest_number_is_shown(front);
        let last = rows.len() - 1;
        assert(rows[last] == rows.last());
        assert forall|i: int| 0 <= i < rows.len() implies {
            &&& left_of(#[trigger] rows[i]) matches Some(line) ==> line.0 <= greatest_number(rows)
            &&& right_of(rows[i]) matches Some(line) ==> line.0 <= greatest_number(rows)
        } by {
            if i < last {
                assert(front[i] == rows[i]);
            }
        }
        if greatest_number(rows) > 0 {
            if greatest_number(front) < row_number(rows.last()) {
                assert(row_number(rows[last]) == greatest_number(rows));
            } else if front.len() > 0 {
                let i = choose|i: int|
                    0 <= i < front.len() && row_number(#[trigger] front[i]) == greatest_number(
                        front,
                    );
                assert(rows[i] == front[i]);
            }
        }
    }
}

/// The files that a pane offers are the marked ones, in the order they are
/// listed.
pub proof fn law_a_pane_offers_its_marked_files(entries: Seq<EntryView>)
    ensures
        files_marked(entries) == entries.filter(
            |entry: EntryView| entry.marked && entry.kind == EntryKind::File,
        ).map_values(|entry: EntryView| entry.path),
    decreases entries.len(),
{
    reveal(Seq::filter);
    let pred = |entry: EntryView| entry.marked && entry.kind == EntryKind::File;
    let to_path = |entry: EntryView| entry.path;
    if entries.len() > 0 {
        let before = entries.drop_last();
        law_a_pane_offers_its_marked_files(before);
        if pred(entries.last()) {
            assert(before.filter(pred).push(entries.last()).map_values(to_path) =~= before.filter(
                pred,
            ).map_values(to_path).push(entries.last().path));
        }
    } else {
        assert(files_marked(entries) =~= entries.filter(pred).map_values(to_path));
    }
}

/// Two files marked in the pane with the keyboard are the two compared,
/// whatever the other pane has; where it has none marked, two in the other
/// are.
pub proof fn law_two_marks_win(
    style: Style,
    left: SideView,
    right: SideView,
    active_is_left: bool,
)
    ensures
        ({
            let (mine, theirs) = if active_is_left {
                (left.marked, right.marked)
            } else {
                (right.marked, left.marked)
            };
            let chosen = choice(style, left, right, active_is_left);
            &&& mine.len() == 2 ==> chosen is Ok && chosen->Ok_0.left == mine[0]
                && chosen->Ok_0.right == mine[1] && chosen->Ok_0.from_one_pane
            &&& mine.len() == 0 && theirs.len() == 2 ==> chosen is Ok && chosen->Ok_0.left
                == theirs[0] && chosen->Ok_0.right == theirs[1] && chosen->Ok_0.from_one_pane
            &&& mine.len() > 2 || (mine.len() == 0 && theirs.len() > 2) ==> chosen is Err
            &&& mine.len() == 0 && theirs.len() == 0 ==> (chosen is Ok <==> left.cursor is Some
                && right.cursor is Some && !pathname::same(style, left.cursor->0, right.cursor->0))
        }),
{
}

/// What a pane offers is a file: under its cursor only where a file is there.
/// One mark stands for the pane, and without a mark the cursor does.
pub proof fn law_one_mark_stands_for_the_pane(p: PanelView)
    ensures
        ({
            let side = side_of(p);
            let at_file = 0 <= p.cursor < p.entries.len() && p.entries[p.cursor].kind
                == EntryKind::File;
            &&& side.cursor == if at_file {
                Some(p.entries[p.cursor].path)
            } else {
                None
            }
            &&& side.marked.len() == 1 ==> the_one(side) == Some(side.marked[0])
            &&& side.marked.len() == 0 ==> the_one(side) == side.cursor
            &&& side.marked.len() > 1 ==> the_one(side) is None
        }),
{
}

} // verus!
