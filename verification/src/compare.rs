//! Telling two directories apart, and making them agree.
//!
//! Compare folders lines up what each pane is showing, works out which side
//! of each name is newer, and marks them. Synchronize is the recursive
//! version, which walks both trees and shows every pair with the direction it
//! would go in. Nothing here deletes.

use vstd::prelude::*;
use crate::entry;
use crate::entry::{Entry, EntryKind, EntryView};
use crate::moment::Moment;
use crate::mount::Platform;
use crate::panel;
use crate::panel::{Panel, PanelView};
use crate::pathname;
use crate::pathname::Style;
use crate::text;
use crate::walking;

verus! {

broadcast use vstd::string::group_string_axioms;

/// How far apart two times can be and still count as the same moment, in
/// nanoseconds: some file systems store times to two seconds.
pub const TOLERANCE: i128 = 2_000_000_000;

/// How many pairs a scan collects before it calls it enough.
pub const MAX_PAIRS: usize = 20_000;

// ---- facts ------------------------------------------------------------------------------------

/// What is worth knowing about one side of a pair.
#[derive(Debug, Clone, Copy, PartialEq, Eq, Structural)]
pub struct Facts {
    pub size: u64,
    pub modified: Option<Moment>,
    pub is_dir: bool,
}

impl Facts {
    pub fn file(size: u64, modified: Option<Moment>) -> (r: Facts)
        ensures
            r == (Facts { size, modified, is_dir: false }),
    {
        Facts { size, modified, is_dir: false }
    }

    pub fn dir() -> (r: Facts)
        ensures
            r == (Facts { size: 0, modified: None, is_dir: true }),
    {
        Facts { size: 0, modified: None, is_dir: true }
    }
}

/// How the two sides of one name relate.
#[derive(Debug, Clone, Copy, PartialEq, Eq, Structural)]
pub enum State {
    /// Same size, and the same time to within [`TOLERANCE`].
    Same,
    LeftNewer,
    RightNewer,
    /// Different, but neither is newer - same time, different size. Guessing
    /// a direction is how the wrong one wins.
    Differ,
    OnlyLeft,
    OnlyRight,
}

impl State {
    /// The arrow the lists draw.
    pub fn mark(&self) -> (r: &'static str)
        ensures
            r@ == match *self {
                State::Same => "="@,
                State::LeftNewer | State::OnlyLeft => "->"@,
                State::RightNewer | State::OnlyRight => "<-"@,
                State::Differ => "!="@,
            },
    {
        match self {
            State::Same => "=",
            State::LeftNewer => "->",
            State::RightNewer => "<-",
            State::Differ => "!=",
            State::OnlyLeft => "->",
            State::OnlyRight => "<-",
        }
    }

    pub fn describe(&self) -> (r: &'static str)
        ensures
            r@ == match *self {
                State::Same => "the same"@,
                State::LeftNewer => "newer on the left"@,
                State::RightNewer => "newer on the right"@,
                State::Differ => "different, neither newer"@,
                State::OnlyLeft => "only on the left"@,
                State::OnlyRight => "only on the right"@,
            },
    {
        match self {
            State::Same => "the same",
            State::LeftNewer => "newer on the left",
            State::RightNewer => "newer on the right",
            State::Differ => "different, neither newer",
            State::OnlyLeft => "only on the left",
            State::OnlyRight => "only on the right",
        }
    }

    pub fn is_same(&self) -> (r: bool)
        ensures
            r == (*self == State::Same),
    {
        *self == State::Same
    }
}

/// Which way a pair would be copied, once someone has looked at it.
#[derive(Debug, Clone, Copy, PartialEq, Eq, Structural)]
pub enum Direction {
    ToRight,
    ToLeft,
    /// Leave both alone.
    Skip,
}

/// The direction that the one key sets after another.
pub open spec fn next_direction(direction: Direction) -> Direction {
    match direction {
        Direction::ToRight => Direction::ToLeft,
        Direction::ToLeft => Direction::Skip,
        Direction::Skip => Direction::ToRight,
    }
}

impl Direction {
    pub fn mark(&self) -> (r: &'static str)
        ensures
            r@ == match *self {
                Direction::ToRight => "->"@,
                Direction::ToLeft => "<-"@,
                Direction::Skip => " "@,
            },
    {
        match self {
            Direction::ToRight => "->",
            Direction::ToLeft => "<-",
            Direction::Skip => " ",
        }
    }

    /// Cycle, for the one key that sets a row's direction.
    pub fn next(&self) -> (r: Direction)
        ensures
            r == next_direction(*self),
    {
        match self {
            Direction::ToRight => Direction::ToLeft,
            Direction::ToLeft => Direction::Skip,
            Direction::Skip => Direction::ToRight,
        }
    }
}

/// What a control over the whole list sets its rows to.
#[derive(Debug, Clone, Copy, PartialEq, Eq, Structural)]
pub enum Bulk {
    /// Every row that can go this way, goes this way.
    All(Direction),
    /// Back to what the comparison itself chose.
    Suggested,
}

/// The whole-list controls, in the order they are offered.
pub fn bulk_controls() -> (r: Vec<Bulk>)
    ensures
        r@ == seq![
            Bulk::All(Direction::ToRight),
            Bulk::All(Direction::ToLeft),
            Bulk::All(Direction::Skip),
            Bulk::Suggested,
        ],
{
    let r: Vec<Bulk> = vec![
        Bulk::All(Direction::ToRight),
        Bulk::All(Direction::ToLeft),
        Bulk::All(Direction::Skip),
        Bulk::Suggested,
    ];
    assert(r@ =~= seq![
        Bulk::All(Direction::ToRight),
        Bulk::All(Direction::ToLeft),
        Bulk::All(Direction::Skip),
        Bulk::Suggested,
    ]);
    r
}

impl Bulk {
    pub fn label(&self) -> (r: &'static str)
        ensures
            r@ == match *self {
                Bulk::All(Direction::ToRight) => "All ->"@,
                Bulk::All(Direction::ToLeft) => "All <-"@,
                Bulk::All(Direction::Skip) => "None"@,
                Bulk::Suggested => "Reset"@,
            },
    {
        match self {
            Bulk::All(Direction::ToRight) => "All ->",
            Bulk::All(Direction::ToLeft) => "All <-",
            Bulk::All(Direction::Skip) => "None",
            Bulk::Suggested => "Reset",
        }
    }

    pub fn describe(&self) -> (r: &'static str)
        ensures
            r@ == match *self {
                Bulk::All(Direction::ToRight) => {
                    "Every row on screen that can go right, goes right"@
                },
                Bulk::All(Direction::ToLeft) => "Every row on screen that can go left, goes left"@,
                Bulk::All(Direction::Skip) => "Leave every row on screen alone"@,
                Bulk::Suggested => "Back to what the comparison chose"@,
            },
    {
        match self {
            Bulk::All(Direction::ToRight) => "Every row on screen that can go right, goes right",
            Bulk::All(Direction::ToLeft) => "Every row on screen that can go left, goes left",
            Bulk::All(Direction::Skip) => "Leave every row on screen alone",
            Bulk::Suggested => "Back to what the comparison chose",
        }
    }
}

/// What to do about a pair, before anyone has said otherwise.
pub open spec fn suggestion(state: State) -> Direction {
    match state {
        State::OnlyLeft | State::LeftNewer => Direction::ToRight,
        State::OnlyRight | State::RightNewer => Direction::ToLeft,
        State::Same | State::Differ => Direction::Skip,
    }
}

/// What to do about a pair, before anyone has said otherwise.
///
/// Newer wins, a file only one side has is copied to the other, and anything
/// this cannot answer is skipped.
pub fn suggested(state: State) -> (r: Direction)
    ensures
        r == suggestion(state),
{
    match state {
        State::OnlyLeft | State::LeftNewer => Direction::ToRight,
        State::OnlyRight | State::RightNewer => Direction::ToLeft,
        State::Same | State::Differ => Direction::Skip,
    }
}

// ---- how two sides relate ---------------------------------------------------------------------

/// Whether two times are the same moment, as far as file systems tell.
pub open spec fn one_moment(left: Option<Moment>, right: Option<Moment>) -> bool {
    match left {
        Some(l) => match right {
            Some(r) => -TOLERANCE <= l.nanos - r.nanos <= TOLERANCE,
            None => false,
        },
        None => right is None,
    }
}

/// Whether two times are the same moment, allowing for coarse filesystems.
/// Two files with no dates at all are as equal as this can tell.
pub fn same_moment(left: Option<Moment>, right: Option<Moment>) -> (r: bool)
    ensures
        r == one_moment(left, right),
{
    match left {
        Some(l) => match right {
            Some(r) => {
                if l.nanos >= r.nanos {
                    match l.nanos.checked_sub(r.nanos) {
                        Some(gap) => gap <= TOLERANCE,
                        None => false,
                    }
                } else {
                    match r.nanos.checked_sub(l.nanos) {
                        Some(gap) => gap <= TOLERANCE,
                        None => false,
                    }
                }
            },
            None => false,
        },
        None => right.is_none(),
    }
}

/// How the two sides of a name that both have relate.
pub open spec fn relation(left: Facts, right: Facts, same_bytes: Option<bool>) -> State {
    let alike = match same_bytes {
        Some(same) => same,
        None => left.size == right.size && one_moment(left.modified, right.modified),
    };
    if (left.is_dir && right.is_dir) || alike {
        State::Same
    } else if one_moment(left.modified, right.modified) {
        State::Differ
    } else {
        match left.modified {
            Some(l) => match right.modified {
                Some(r) => if l.nanos > r.nanos {
                    State::LeftNewer
                } else {
                    State::RightNewer
                },
                None => State::Differ,
            },
            None => State::Differ,
        }
    }
}

/// How one name's two sides relate.
pub open spec fn state_between(
    left: Option<Facts>,
    right: Option<Facts>,
    same_bytes: Option<bool>,
) -> State {
    match left {
        Some(l) => match right {
            Some(r) => relation(l, r, same_bytes),
            None => State::OnlyLeft,
        },
        None => match right {
            Some(_) => State::OnlyRight,
            None => State::Same,
        },
    }
}

/// How one name's two sides relate. `same_bytes` is the answer to a content
/// comparison where one was made; in quick mode it is `None` and size and
/// date decide. Two directories of the same name are the same entry.
pub fn state_of(left: Option<&Facts>, right: Option<&Facts>, same_bytes: Option<bool>) -> (r: State)
    ensures
        r == state_between(
            match left {
                Some(l) => Some(*l),
                None => None,
            },
            match right {
                Some(r) => Some(*r),
                None => None,
            },
            same_bytes,
        ),
{
    let left: &Facts = match left {
        Some(l) => l,
        None => {
            return if right.is_some() {
                State::OnlyRight
            } else {
                State::Same
            };
        },
    };
    let right: &Facts = match right {
        Some(r) => r,
        None => {
            return State::OnlyLeft;
        },
    };
    if left.is_dir && right.is_dir {
        return State::Same;
    }
    let close: bool = same_moment(left.modified, right.modified);
    let alike: bool = match same_bytes {
        Some(same) => same,
        None => left.size == right.size && close,
    };
    if alike {
        return State::Same;
    }
    // Different, one way or another - so which side is newer?
    if close {
        return State::Differ;
    }
    match left.modified {
        Some(l) => match right.modified {
            Some(r) => {
                if l.is_after(r) {
                    State::LeftNewer
                } else {
                    State::RightNewer
                }
            },
            None => State::Differ,
        },
        None => State::Differ,
    }
}

/// What two blocks of two files of one length say about their contents: the
/// same, different, or nothing yet.
pub open spec fn contents_told(left: Seq<u8>, right: Seq<u8>) -> Option<bool> {
    if left != right {
        Some(false)
    } else if left.len() == 0 {
        Some(true)
    } else {
        None
    }
}

/// What two blocks of two files say about their contents. A block is empty
/// only at the end of its file; where nothing is said yet the next blocks
/// decide.
pub fn same_content(left: &[u8], right: &[u8]) -> (r: Option<bool>)
    ensures
        r == contents_told(left@, right@),
{
    if left.len() != right.len() {
        return Some(false);
    }
    let mut i: usize = 0;
    while i < left.len()
        invariant
            i <= left@.len(),
            left@.len() == right@.len(),
            left@.take(i as int) =~= right@.take(i as int),
        decreases left@.len() - i,
    {
        if left[i] != right[i] {
            assert(left@[i as int] != right@[i as int]);
            return Some(false);
        }
        i += 1;
    }
    assert(left@.take(i as int) =~= left@);
    assert(right@.take(i as int) =~= right@);
    if left.len() == 0 {
        Some(true)
    } else {
        None
    }
}

// ---- pairs ------------------------------------------------------------------------------------

/// One name, and what each side has under it.
#[derive(Debug, Clone, PartialEq, Eq)]
pub struct Pair {
    /// Relative to the two roots, so the same string names both sides.
    pub name: String,
    pub left: Option<Facts>,
    pub right: Option<Facts>,
    pub state: State,
    /// What would happen to it. Starts at [`suggested`].
    pub direction: Direction,
}

/// One name and its two sides, as characters.
#[verifier::ext_equal]
pub struct PairView {
    pub name: Seq<char>,
    pub left: Option<Facts>,
    pub right: Option<Facts>,
    pub state: State,
    pub direction: Direction,
}

impl View for Pair {
    type V = PairView;

    open spec fn view(&self) -> PairView {
        PairView {
            name: self.name@,
            left: self.left,
            right: self.right,
            state: self.state,
            direction: self.direction,
        }
    }
}

/// Pairs as characters.
pub open spec fn pair_views(pairs: Seq<Pair>) -> Seq<PairView> {
    pairs.map_values(|pair: Pair| pair@)
}

/// A name paired up.
pub open spec fn paired(
    name: Seq<char>,
    left: Option<Facts>,
    right: Option<Facts>,
    same_bytes: Option<bool>,
) -> PairView {
    PairView {
        name,
        left,
        right,
        state: state_between(left, right, same_bytes),
        direction: suggestion(state_between(left, right, same_bytes)),
    }
}

/// Whether a direction is one a pair could actually take: a copy needs
/// something to copy.
pub open spec fn can_go(pair: PairView, direction: Direction) -> bool {
    match direction {
        Direction::ToRight => pair.left is Some,
        Direction::ToLeft => pair.right is Some,
        Direction::Skip => true,
    }
}

/// The next direction a pair could take.
pub open spec fn turned(pair: PairView) -> Direction {
    let first = next_direction(pair.direction);
    let second = next_direction(first);
    if can_go(pair, first) {
        first
    } else if can_go(pair, second) {
        second
    } else {
        next_direction(second)
    }
}

impl Pair {
    pub fn new(name: String, left: Option<Facts>, right: Option<Facts>) -> (r: Pair)
        ensures
            r@ == paired(name@, left, right, None),
    {
        Pair::compared(name, left, right, None)
    }

    /// As [`Pair::new`], with the answer to a content comparison where one was
    /// made - `Some(true)` for identical bytes.
    pub fn compared(
        name: String,
        left: Option<Facts>,
        right: Option<Facts>,
        same_bytes: Option<bool>,
    ) -> (r: Pair)
        ensures
            r@ == paired(name@, left, right, same_bytes),
    {
        let state: State = state_of(left.as_ref(), right.as_ref(), same_bytes);
        Pair { name, left, right, state, direction: suggested(state) }
    }

    /// Whether this pair is one a synchronize would touch.
    pub fn is_work(&self) -> (r: bool)
        ensures
            r == (self@.direction != Direction::Skip && can_go(self@, self@.direction)),
    {
        self.direction != Direction::Skip && self.allows(self.direction)
    }

    /// Whether a direction is one this pair could actually take.
    pub fn allows(&self, direction: Direction) -> (r: bool)
        ensures
            r == can_go(self@, direction),
    {
        match direction {
            Direction::ToRight => self.left.is_some(),
            Direction::ToLeft => self.right.is_some(),
            Direction::Skip => true,
        }
    }

    /// The next direction the one key can set, passing over the impossible
    /// ones. Leaving a pair alone is always possible.
    pub fn turn(&mut self)
        ensures
            final(self)@ == (PairView { direction: turned(old(self)@), ..old(self)@ }),
    {
        let first: Direction = self.direction.next();
        let second: Direction = first.next();
        self.direction = if self.allows(first) {
            first
        } else if self.allows(second) {
            second
        } else {
            second.next()
        };
    }
}

/// What a control sets a pair to.
pub open spec fn bulk_direction(pair: PairView, bulk: Bulk) -> Direction {
    match bulk {
        Bulk::All(direction) => direction,
        Bulk::Suggested => suggestion(pair.state),
    }
}

/// Whether a control changes a pair.
pub open spec fn bulk_turns(pair: PairView, bulk: Bulk) -> bool {
    pair.direction != bulk_direction(pair, bulk) && can_go(pair, bulk_direction(pair, bulk))
}

/// Pairs after a control was applied to the rows of some indices, and how
/// many of them it changed. Rows that cannot go that way stay as they are.
pub open spec fn turned_all(pairs: Seq<PairView>, which: Seq<usize>, bulk: Bulk) -> (
    Seq<PairView>,
    nat,
)
    decreases which.len(),
{
    if which.len() == 0 {
        (pairs, 0)
    } else {
        let (front, count) = turned_all(pairs, which.drop_last(), bulk);
        let at = which.last() as int;
        if at < front.len() && bulk_turns(front[at], bulk) {
            (
                front.update(
                    at,
                    PairView { direction: bulk_direction(front[at], bulk), ..front[at] },
                ),
                count + 1,
            )
        } else {
            (front, count)
        }
    }
}

/// Point a whole run of rows one way: `which` says which rows. Returns how
/// many actually moved.
pub fn turn_all(pairs: &mut Vec<Pair>, which: &[usize], bulk: Bulk) -> (r: usize)
    ensures
        (pair_views(final(pairs)@), r as nat) == turned_all(
            pair_views(old(pairs)@),
            which@,
            bulk,
        ),
{
    let ghost given = pair_views(pairs@);
    let mut turned: usize = 0;
    let mut i: usize = 0;
    assert(which@.take(0) =~= Seq::<usize>::empty());
    while i < which.len()
        invariant
            i <= which@.len(),
            given == pair_views(old(pairs)@),
            turned <= i,
            (pair_views(pairs@), turned as nat) == turned_all(given, which@.take(i as int), bulk),
        decreases which@.len() - i,
    {
        let ghost was = pair_views(pairs@);
        assert(which@.take(i + 1).drop_last() =~= which@.take(i as int));
        let at: usize = which[i];
        if at < pairs.len() {
            assert(was[at as int] == pairs@[at as int]@);
            let wanted: Direction = match bulk {
                Bulk::All(direction) => direction,
                Bulk::Suggested => suggested(pairs[at].state),
            };
            if pairs[at].direction != wanted && pairs[at].allows(wanted) {
                let pair: &mut Pair = &mut pairs[at];
                pair.direction = wanted;
                turned += 1;
                assert(pair_views(pairs@) =~= was.update(
                    at as int,
                    PairView { direction: wanted, ..was[at as int] },
                ));
            }
        }
        i += 1;
    }
    assert(which@.take(i as int) =~= which@);
    turned
}

// ---- lining up --------------------------------------------------------------------------------

/// Whether names are matched exactly, which is a question about the platform.
pub fn case_sensitive(platform: Platform) -> (r: bool)
    ensures
        r == (platform == Platform::Linux),
{
    platform == Platform::Linux
}

/// A name as it is matched: itself, or folded where the platform folds.
pub open spec fn name_key(name: Seq<char>, case_sensitive: bool) -> Seq<char> {
    if case_sensitive {
        name
    } else {
        text::lowercase(name)
    }
}

fn key(name: &str, case_sensitive: bool) -> (r: String)
    ensures
        r@ == name_key(name@, case_sensitive),
{
    if case_sensitive {
        name.to_owned()
    } else {
        text::to_lowercase(name)
    }
}

/// What both sides have under one key.
struct Slot {
    key: String,
    name: String,
    left: Option<Facts>,
    right: Option<Facts>,
}

/// What both sides have under one key, as characters.
#[verifier::ext_equal]
pub struct SlotView {
    pub key: Seq<char>,
    pub name: Seq<char>,
    pub left: Option<Facts>,
    pub right: Option<Facts>,
}

impl View for Slot {
    type V = SlotView;

    closed spec fn view(&self) -> SlotView {
        SlotView { key: self.key@, name: self.name@, left: self.left, right: self.right }
    }
}

spec fn slot_views(slots: Seq<Slot>) -> Seq<SlotView> {
    slots.map_values(|slot: Slot| slot@)
}

/// Slots with one put in its place by key, or in place of the one that has
/// it.
pub open spec fn slot_put(slots: Seq<SlotView>, slot: SlotView) -> Seq<SlotView>
    decreases slots.len(),
{
    if slots.len() == 0 || text::before(slots.last().key, slot.key) {
        slots.push(slot)
    } else if slots.last().key == slot.key {
        slots.drop_last().push(slot)
    } else {
        slot_put(slots.drop_last(), slot).push(slots.last())
    }
}

/// The slot of a key.
pub open spec fn slot_of(slots: Seq<SlotView>, key: Seq<char>) -> Option<SlotView>
    decreases slots.len(),
{
    if slots.len() == 0 {
        None
    } else if slots.last().key == key {
        Some(slots.last())
    } else {
        slot_of(slots.drop_last(), key)
    }
}

/// A listing with its names as characters.
pub open spec fn fact_views(list: Seq<(String, Facts)>) -> Seq<(Seq<char>, Facts)> {
    list.map_values(|item: (String, Facts)| (item.0@, item.1))
}

/// The slots of the left side alone.
pub open spec fn left_slots(left: Seq<(Seq<char>, Facts)>, case_sensitive: bool) -> Seq<SlotView>
    decreases left.len(),
{
    if left.len() == 0 {
        Seq::empty()
    } else {
        slot_put(
            left_slots(left.drop_last(), case_sensitive),
            SlotView {
                key: name_key(left.last().0, case_sensitive),
                name: left.last().0,
                left: Some(left.last().1),
                right: None,
            },
        )
    }
}

/// A slot that has the right side's facts as well: under the name that was
/// there first.
pub open spec fn right_added(
    slots: Seq<SlotView>,
    name: Seq<char>,
    facts: Facts,
    case_sensitive: bool,
) -> SlotView {
    let key = name_key(name, case_sensitive);
    match slot_of(slots, key) {
        Some(slot) => SlotView { right: Some(facts), ..slot },
        None => SlotView { key, name, left: None, right: Some(facts) },
    }
}

/// The slots of both sides.
pub open spec fn both_slots(
    left: Seq<(Seq<char>, Facts)>,
    right: Seq<(Seq<char>, Facts)>,
    case_sensitive: bool,
) -> Seq<SlotView>
    decreases right.len(),
{
    if right.len() == 0 {
        left_slots(left, case_sensitive)
    } else {
        let front = both_slots(left, right.drop_last(), case_sensitive);
        slot_put(front, right_added(front, right.last().0, right.last().1, case_sensitive))
    }
}

/// Two listings lined up by name.
pub open spec fn lined_up(
    left: Seq<(Seq<char>, Facts)>,
    right: Seq<(Seq<char>, Facts)>,
    case_sensitive: bool,
) -> Seq<PairView> {
    both_slots(left, right, case_sensitive).map_values(
        |slot: SlotView| paired(slot.name, slot.left, slot.right, None),
    )
}

proof fn lemma_slot_put(slots: Seq<SlotView>, slot: SlotView, at: int)
    requires
        0 <= at <= slots.len(),
        forall|i: int|
            at <= i < slots.len() ==> !text::before((#[trigger] slots[i]).key, slot.key)
                && slots[i].key != slot.key,
    ensures
        at > 0 && slots[at - 1].key == slot.key ==> slot_put(slots, slot) == slots.update(
            at - 1,
            slot,
        ) && slot_of(slots, slot.key) == Some(slots[at - 1]),
        at == 0 || (slots[at - 1].key != slot.key && text::before(slots[at - 1].key, slot.key))
            ==> slot_put(slots, slot) == slots.insert(at, slot),
        slot_of(slots, slot.key) == slot_of(slots.take(at), slot.key),
    decreases slots.len() - at,
{
    if at == slots.len() {
        assert(slots.take(at) =~= slots);
        assert(slots.insert(at, slot) =~= slots.push(slot));
        if at > 0 && slots[at - 1].key == slot.key {
            text::lemma_before_total(slot.key, slot.key);
            assert(slots.update(at - 1, slot) =~= slots.drop_last().push(slot));
        }
    } else {
        let front = slots.drop_last();
        let last = slots.last();
        assert(last == slots[slots.len() - 1]);
        assert forall|i: int| at <= i < front.len() implies !text::before(
            (#[trigger] front[i]).key,
            slot.key,
        ) && front[i].key != slot.key by {
            assert(front[i] == slots[i]);
        }
        lemma_slot_put(front, slot, at);
        assert(front.take(at) =~= slots.take(at));
        if at > 0 {
            assert(front[at - 1] == slots[at - 1]);
            assert(front.update(at - 1, slot).push(last) =~= slots.update(at - 1, slot));
        }
        assert(front.insert(at, slot).push(last) =~= slots.insert(at, slot));
    }
}

/// Whether slots stand in the order of their keys, and each key once.
pub open spec fn by_key(slots: Seq<SlotView>) -> bool {
    forall|i: int, j: int|
        0 <= i < j < slots.len() ==> text::before(
            (#[trigger] slots[i]).key,
            (#[trigger] slots[j]).key,
        )
}

/// The place behind the last slot whose key is not behind one.
fn slot_place(slots: &Vec<Slot>, key: &str) -> (r: usize)
    ensures
        r <= slots@.len(),
        forall|i: int|
            r <= i < slots@.len() ==> !text::before((#[trigger] slot_views(slots@)[i]).key, key@)
                && slot_views(slots@)[i].key != key@,
        r > 0 ==> slot_views(slots@)[r - 1].key == key@ || text::before(
            slot_views(slots@)[r - 1].key,
            key@,
        ),
{
    let ghost views = slot_views(slots@);
    let mut at: usize = slots.len();
    while at > 0 && !text::same(slots[at - 1].key.as_str(), key) && !text::comes_before(
        slots[at - 1].key.as_str(),
        key,
    )
        invariant
            at <= slots@.len(),
            views == slot_views(slots@),
            forall|i: int|
                at <= i < views.len() ==> !text::before((#[trigger] views[i]).key, key@)
                    && views[i].key != key@,
        decreases at,
    {
        assert(views[at - 1] == slots@[at - 1]@);
        at -= 1;
    }
    if at > 0 {
        assert(views[at - 1] == slots@[at - 1]@);
    }
    at
}

proof fn lemma_slot_absent(slots: Seq<SlotView>, key: Seq<char>, at: int)
    requires
        by_key(slots),
        0 <= at <= slots.len(),
        at > 0 ==> slots[at - 1].key != key && text::before(slots[at - 1].key, key),
    ensures
        slot_of(slots.take(at), key) is None,
    decreases at,
{
    if at > 0 {
        let head = slots.take(at);
        assert(head.last() == slots[at - 1]);
        assert(head.drop_last() =~= slots.take(at - 1));
        if at > 1 {
            assert(text::before(slots[at - 2].key, slots[at - 1].key));
            text::lemma_before_transitive(slots[at - 2].key, slots[at - 1].key, key);
            text::lemma_before_total(slots[at - 2].key, key);
            text::lemma_before_total(key, key);
        }
        lemma_slot_absent(slots, key, at - 1);
    }
}

proof fn lemma_put_keeps_order(slots: Seq<SlotView>, slot: SlotView)
    requires
        by_key(slots),
    ensures
        by_key(slot_put(slots, slot)),
        forall|i: int|
            0 <= i < slot_put(slots, slot).len() ==> (#[trigger] slot_put(slots, slot)[i]) == slot
                || exists|j: int| 0 <= j < slots.len() && slots[j] == slot_put(slots, slot)[i],
    decreases slots.len(),
{
    let out = slot_put(slots, slot);
    if slots.len() > 0 {
        let front = slots.drop_last();
        let last = slots.last();
        assert(last == slots[slots.len() - 1]);
        assert forall|i: int, j: int| 0 <= i < j < front.len() implies text::before(
            (#[trigger] front[i]).key,
            (#[trigger] front[j]).key,
        ) by {
            assert(text::before(slots[i].key, slots[j].key));
        }
        text::lemma_before_total(last.key, slot.key);
        if text::before(last.key, slot.key) {
            assert forall|i: int, j: int| 0 <= i < j < out.len() implies text::before(
                (#[trigger] out[i]).key,
                (#[trigger] out[j]).key,
            ) by {
                if j < slots.len() {
                    assert(text::before(slots[i].key, slots[j].key));
                } else if i < slots.len() - 1 {
                    assert(text::before(slots[i].key, slots[slots.len() - 1].key));
                    text::lemma_before_transitive(slots[i].key, last.key, slot.key);
                }
            }
            assert forall|i: int| 0 <= i < out.len() implies (#[trigger] out[i]) == slot || exists|
                j: int,
            | 0 <= j < slots.len() && slots[j] == out[i] by {
                if i < slots.len() {
                    assert(slots[i] == out[i]);
                }
            }
        } else if last.key == slot.key {
            assert forall|i: int, j: int| 0 <= i < j < out.len() implies text::before(
                (#[trigger] out[i]).key,
                (#[trigger] out[j]).key,
            ) by {
                assert(text::before(slots[i].key, slots[j].key));
            }
            assert forall|i: int| 0 <= i < out.len() implies (#[trigger] out[i]) == slot || exists|
                j: int,
            | 0 <= j < slots.len() && slots[j] == out[i] by {
                if i < slots.len() - 1 {
                    assert(slots[i] == out[i]);
                }
            }
        } else {
            lemma_put_keeps_order(front, slot);
            let head = slot_put(front, slot);
            assert forall|i: int| 0 <= i < head.len() implies text::before(
                (#[trigger] head[i]).key,
                last.key,
            ) by {
                if head[i] != slot {
                    let j = choose|j: int| 0 <= j < front.len() && front[j] == head[i];
                    assert(text::before(slots[j].key, slots[slots.len() - 1].key));
                }
            }
            assert forall|i: int, j: int| 0 <= i < j < out.len() implies text::before(
                (#[trigger] out[i]).key,
                (#[trigger] out[j]).key,
            ) by {
                assert(out[i] == head[i]);
                if j < head.len() {
                    assert(out[j] == head[j]);
                }
            }
            assert forall|i: int| 0 <= i < out.len() implies (#[trigger] out[i]) == slot || exists|
                j: int,
            | 0 <= j < slots.len() && slots[j] == out[i] by {
                if i < head.len() {
                    assert(out[i] == head[i]);
                    if head[i] != slot {
                        let j = choose|j: int| 0 <= j < front.len() && front[j] == head[i];
                        assert(slots[j] == out[i]);
                    }
                } else {
                    assert(slots[slots.len() - 1] == out[i]);
                }
            }
        }
    }
}

/// Line two listings up by name.
///
/// In name order rather than either side's order, because a list that reads
/// down both sides at once has to have one order.
pub fn pair_up(left: &[(String, Facts)], right: &[(String, Facts)], case_sensitive: bool) -> (r:
    Vec<Pair>)
    ensures
        pair_views(r@) == lined_up(fact_views(left@), fact_views(right@), case_sensitive),
{
    let ghost ls = fact_views(left@);
    let ghost rs = fact_views(right@);
    let mut slots: Vec<Slot> = Vec::new();
    let mut i: usize = 0;
    assert(ls.take(0) =~= Seq::<(Seq<char>, Facts)>::empty());
    assert(slot_views(slots@) =~= Seq::empty());
    while i < left.len()
        invariant
            i <= left@.len(),
            ls == fact_views(left@),
            slot_views(slots@) == left_slots(ls.take(i as int), case_sensitive),
            by_key(slot_views(slots@)),
        decreases left@.len() - i,
    {
        let ghost was = slot_views(slots@);
        proof {
            assert(ls.take(i + 1).drop_last() =~= ls.take(i as int));
            assert(ls.take(i + 1).last() == (left@[i as int].0@, left@[i as int].1));
        }
        let slot: Slot = Slot {
            key: key(left[i].0.as_str(), case_sensitive),
            name: left[i].0.clone(),
            left: Some(left[i].1),
            right: None,
        };
        let at: usize = slot_place(&slots, slot.key.as_str());
        let ghost put = slot@;
        proof {
            lemma_slot_put(was, put, at as int);
            lemma_put_keeps_order(was, put);
        }
        put_slot(&mut slots, at, slot);
        i += 1;
    }
    assert(ls.take(i as int) =~= ls);
    let mut j: usize = 0;
    assert(rs.take(0) =~= Seq::<(Seq<char>, Facts)>::empty());
    while j < right.len()
        invariant
            j <= right@.len(),
            rs == fact_views(right@),
            slot_views(slots@) == both_slots(ls, rs.take(j as int), case_sensitive),
            by_key(slot_views(slots@)),
        decreases right@.len() - j,
    {
        let ghost was = slot_views(slots@);
        proof {
            assert(rs.take(j + 1).drop_last() =~= rs.take(j as int));
            assert(rs.take(j + 1).last() == (right@[j as int].0@, right@[j as int].1));
        }
        let name: &str = right[j].0.as_str();
        let facts: Facts = right[j].1;
        let k: String = key(name, case_sensitive);
        let at: usize = slot_place(&slots, k.as_str());
        let ghost found = SlotView { key: k@, name: name@, left: None, right: None };
        proof {
            lemma_slot_put(was, found, at as int);
        }
        let there: bool = at > 0 && text::same(slots[at - 1].key.as_str(), k.as_str());
        let slot: Slot = if there {
            assert(was[at - 1] == slots@[at - 1]@);
            Slot {
                key: k,
                name: slots[at - 1].name.clone(),
                left: slots[at - 1].left,
                right: Some(facts),
            }
        } else {
            proof {
                if at > 0 {
                    assert(was[at - 1] == slots@[at - 1]@);
                }
                lemma_slot_absent(was, k@, at as int);
            }
            Slot { key: k, name: name.to_owned(), left: None, right: Some(facts) }
        };
        let ghost put = slot@;
        proof {
            assert(put =~= right_added(was, name@, facts, case_sensitive));
            lemma_slot_put(was, put, at as int);
            lemma_put_keeps_order(was, put);
        }
        put_slot(&mut slots, at, slot);
        j += 1;
    }
    assert(rs.take(j as int) =~= rs);
    let ghost all = slot_views(slots@);
    let ghost given = slots@;
    let ghost wanted = lined_up(ls, rs, case_sensitive);
    let mut out: Vec<Pair> = Vec::new();
    for slot in it: slots
        invariant
            it.seq() == given,
            all == slot_views(given),
            all == both_slots(ls, rs, case_sensitive),
            wanted == lined_up(ls, rs, case_sensitive),
            pair_views(out@) =~= wanted.take(it.index() as int),
    {
        let ghost was = pair_views(out@);
        assert(all[it.index() as int] == slot@);
        let pair: Pair = Pair::new(slot.name, slot.left, slot.right);
        out.push(pair);
        assert(pair@ == wanted[it.index() as int]);
        assert(pair_views(out@) =~= was.push(pair@));
    }
    assert(pair_views(out@) =~= wanted);
    out
}

/// Put a slot in its place, or in place of the one before it that has its
/// key.
fn put_slot(slots: &mut Vec<Slot>, at: usize, slot: Slot)
    requires
        at <= old(slots)@.len(),
        at > 0 ==> slot_views(old(slots)@)[at - 1].key == slot@.key || text::before(
            slot_views(old(slots)@)[at - 1].key,
            slot@.key,
        ),
        forall|i: int|
            at <= i < old(slots)@.len() ==> !text::before(
                (#[trigger] slot_views(old(slots)@)[i]).key,
                slot@.key,
            ) && slot_views(old(slots)@)[i].key != slot@.key,
    ensures
        slot_views(final(slots)@) == slot_put(slot_views(old(slots)@), slot@),
{
    let ghost was = slot_views(slots@);
    proof {
        lemma_slot_put(was, slot@, at as int);
    }
    if at > 0 {
        assert(was[at - 1] == slots@[at - 1]@);
    }
    if at > 0 && text::same(slots[at - 1].key.as_str(), slot.key.as_str()) {
        slots.set(at - 1, slot);
        assert(slot_views(slots@) =~= was.update(at - 1, slot@));
    } else {
        slots.insert(at, slot);
        assert(slot_views(slots@) =~= was.insert(at as int, slot@));
    }
}

// ---- marking ----------------------------------------------------------------------------------

/// What some entries tell a comparison: all but the way up.
pub open spec fn entry_facts(entries: Seq<EntryView>) -> Seq<(Seq<char>, Facts)>
    decreases entries.len(),
{
    if entries.len() == 0 {
        Seq::empty()
    } else {
        let front = entry_facts(entries.drop_last());
        let entry = entries.last();
        if entry.kind == EntryKind::Parent {
            front
        } else {
            front.push(
                (
                    entry.name,
                    Facts {
                        size: entry.size,
                        modified: entry.modified,
                        is_dir: entry.kind == EntryKind::Dir,
                    },
                ),
            )
        }
    }
}

/// What one panel is showing, as the comparison wants it.
pub fn facts_of(entries: &Vec<Entry>) -> (r: Vec<(String, Facts)>)
    ensures
        fact_views(r@) == entry_facts(entry::entry_views(entries@)),
{
    let ghost all = entry::entry_views(entries@);
    let mut out: Vec<(String, Facts)> = Vec::new();
    let mut i: usize = 0;
    assert(all.take(0) =~= Seq::<EntryView>::empty());
    assert(fact_views(out@) =~= Seq::empty());
    while i < entries.len()
        invariant
            i <= entries@.len(),
            all == entry::entry_views(entries@),
            fact_views(out@) == entry_facts(all.take(i as int)),
        decreases entries@.len() - i,
    {
        proof {
            assert(all.take(i + 1).drop_last() =~= all.take(i as int));
            assert(all.take(i + 1).last() == entries@[i as int]@);
        }
        if !entries[i].is_parent() {
            let ghost was = fact_views(out@);
            let facts: Facts = Facts {
                size: entries[i].size,
                modified: entries[i].modified,
                is_dir: entries[i].is_dir(),
            };
            out.push((entries[i].name.clone(), facts));
            assert(fact_views(out@) =~= was.push((entries@[i as int].name@, facts)));
        }
        i += 1;
    }
    assert(all.take(i as int) =~= all);
    out
}

/// Whether one side of a pair is a directory.
pub open spec fn side_is_dir(side: Option<Facts>) -> bool {
    side matches Some(facts) && facts.is_dir
}

/// Whether a pair has a directory on either side.
pub open spec fn pair_has_dir(pair: PairView) -> bool {
    side_is_dir(pair.left) || side_is_dir(pair.right)
}

/// Whether the left side marks a pair: what it has alone or newer, and what
/// differs with no direction. What is a directory on this side is left alone.
pub open spec fn left_marks(pair: PairView) -> bool {
    !side_is_dir(pair.left) && (pair.state == State::OnlyLeft || pair.state == State::LeftNewer
        || pair.state == State::Differ)
}

/// Whether the right side marks a pair. What is a directory on this side is
/// left alone.
pub open spec fn right_marks(pair: PairView) -> bool {
    !side_is_dir(pair.right) && (pair.state == State::OnlyRight || pair.state == State::RightNewer
        || pair.state == State::Differ)
}

/// The names of the pairs that one side marks.
pub open spec fn marked_names(pairs: Seq<PairView>, of_left: bool) -> Seq<Seq<char>>
    decreases pairs.len(),
{
    if pairs.len() == 0 {
        Seq::empty()
    } else {
        let front = marked_names(pairs.drop_last(), of_left);
        let marks = if of_left {
            left_marks(pairs.last())
        } else {
            right_marks(pairs.last())
        };
        if marks {
            front.push(pairs.last().name)
        } else {
            front
        }
    }
}

fn is_dir_here(side: &Option<Facts>) -> (r: bool)
    ensures
        r == side_is_dir(*side),
{
    match side {
        Some(facts) => facts.is_dir,
        None => false,
    }
}

/// The names each side should mark, comparing the two listings as they stand.
///
/// Each side marks what it has that the other does not, and what it has a
/// newer copy of. What is a directory on a side is left alone there.
pub fn to_mark(left: &[(String, Facts)], right: &[(String, Facts)], case_sensitive: bool) -> (r: (
    Vec<String>,
    Vec<String>,
))
    ensures
        text::views(r.0@) == marked_names(
            lined_up(fact_views(left@), fact_views(right@), case_sensitive),
            true,
        ),
        text::views(r.1@) == marked_names(
            lined_up(fact_views(left@), fact_views(right@), case_sensitive),
            false,
        ),
{
    let pairs: Vec<Pair> = pair_up(left, right, case_sensitive);
    let ghost all = pair_views(pairs@);
    let mut mark_left: Vec<String> = Vec::new();
    let mut mark_right: Vec<String> = Vec::new();
    let mut i: usize = 0;
    assert(all.take(0) =~= Seq::<PairView>::empty());
    assert(text::views(mark_left@) =~= Seq::empty());
    assert(text::views(mark_right@) =~= Seq::empty());
    while i < pairs.len()
        invariant
            i <= pairs@.len(),
            all == pair_views(pairs@),
            text::views(mark_left@) == marked_names(all.take(i as int), true),
            text::views(mark_right@) == marked_names(all.take(i as int), false),
        decreases pairs@.len() - i,
    {
        proof {
            assert(all.take(i + 1).drop_last() =~= all.take(i as int));
            assert(all.take(i + 1).last() == pairs@[i as int]@);
        }
        let (on_left, on_right): (bool, bool) = match pairs[i].state {
            State::OnlyLeft | State::LeftNewer => (true, false),
            State::OnlyRight | State::RightNewer => (false, true),
            State::Differ => (true, true),
            State::Same => (false, false),
        };
        if on_left && !is_dir_here(&pairs[i].left) {
            let ghost was = text::views(mark_left@);
            mark_left.push(pairs[i].name.clone());
            assert(text::views(mark_left@) =~= was.push(pairs@[i as int].name@));
        }
        if on_right && !is_dir_here(&pairs[i].right) {
            let ghost was = text::views(mark_right@);
            mark_right.push(pairs[i].name.clone());
            assert(text::views(mark_right@) =~= was.push(pairs@[i as int].name@));
        }
        i += 1;
    }
    assert(all.take(i as int) =~= all);
    (mark_left, mark_right)
}

/// Names as they are matched.
pub open spec fn name_keys(names: Seq<Seq<char>>, case_sensitive: bool) -> Seq<Seq<char>> {
    names.map_values(|name: Seq<char>| name_key(name, case_sensitive))
}

/// Entries with exactly those files marked whose name is matched by some.
pub open spec fn marked_as(
    entries: Seq<EntryView>,
    names: Seq<Seq<char>>,
    case_sensitive: bool,
) -> Seq<EntryView> {
    entries.map_values(
        |entry: EntryView|
            panel::marking(
                entry,
                entry.kind == EntryKind::File && name_keys(names, case_sensitive).contains(
                    name_key(entry.name, case_sensitive),
                ),
            ),
    )
}

/// A panel with exactly the files marked whose name is matched by some.
pub open spec fn marks_applied(
    p: PanelView,
    names: Seq<Seq<char>>,
    case_sensitive: bool,
) -> PanelView {
    let cleared = panel::remembered(PanelView { entries: panel::none_marked(p.entries), ..p });
    PanelView { entries: marked_as(p.entries, names, case_sensitive), ..cleared }
}

fn keys_of(names: &Vec<String>, case_sensitive: bool) -> (r: Vec<String>)
    ensures
        text::views(r@) == name_keys(text::views(names@), case_sensitive),
{
    let ghost wanted = name_keys(text::views(names@), case_sensitive);
    let mut keys: Vec<String> = Vec::new();
    let mut i: usize = 0;
    while i < names.len()
        invariant
            i <= names@.len(),
            wanted == name_keys(text::views(names@), case_sensitive),
            text::views(keys@) =~= wanted.take(i as int),
        decreases names@.len() - i,
    {
        let ghost was = text::views(keys@);
        keys.push(key(names[i].as_str(), case_sensitive));
        assert(wanted[i as int] == name_key(names@[i as int]@, case_sensitive));
        assert(text::views(keys@) =~= was.push(wanted[i as int]));
        i += 1;
    }
    assert(text::views(keys@) =~= wanted);
    keys
}

fn apply_marks(panel: &mut Panel, names: &Vec<String>, case_sensitive: bool)
    ensures
        final(panel)@ == marks_applied(old(panel)@, text::views(names@), case_sensitive),
{
    let ghost given = panel@.entries;
    let keys: Vec<String> = keys_of(names, case_sensitive);
    panel.clear_marks();
    let ghost cleared = panel@;
    let ghost wanted = marked_as(given, text::views(names@), case_sensitive);
    let mut entries: Vec<Entry> = Vec::new();
    let mut i: usize = 0;
    while i < panel.entries.len()
        invariant
            i <= panel.entries@.len(),
            panel@ == cleared,
            cleared.entries == panel::none_marked(given),
            text::views(keys@) == name_keys(text::views(names@), case_sensitive),
            wanted == marked_as(given, text::views(names@), case_sensitive),
            entry::entry_views(entries@) =~= wanted.take(i as int),
        decreases panel.entries@.len() - i,
    {
        let ghost was = entry::entry_views(entries@);
        proof {
            assert(cleared.entries.len() == given.len());
            assert(cleared.entries[i as int] == panel.entries@[i as int]@);
            assert(cleared.entries[i as int] == panel::marking(given[i as int], false));
        }
        let mut entry: Entry = panel.entries[i].clone();
        entry.marked = entry.kind == EntryKind::File && text::among(
            key(entry.name.as_str(), case_sensitive).as_str(),
            &keys,
        );
        entries.push(entry);
        assert(entry@ =~= wanted[i as int]);
        assert(entry::entry_views(entries@) =~= was.push(entry@));
        i += 1;
    }
    panel.entries = entries;
    assert(panel@ =~= marks_applied(old(panel)@, text::views(names@), case_sensitive));
}

/// Mark the differences between what two panels are showing. Returns how many
/// were marked on each side. Nothing is read from the disk.
pub fn mark_differences(left: &mut Panel, right: &mut Panel, case_sensitive: bool) -> (r: (
    usize,
    usize,
))
    ensures
        ({
            let pairs = lined_up(
                entry_facts(old(left)@.entries),
                entry_facts(old(right)@.entries),
                case_sensitive,
            );
            &&& final(left)@ == marks_applied(
                old(left)@,
                marked_names(pairs, true),
                case_sensitive,
            )
            &&& final(right)@ == marks_applied(
                old(right)@,
                marked_names(pairs, false),
                case_sensitive,
            )
            &&& r.0 == panel::count_marked(final(left)@.entries)
            &&& r.1 == panel::count_marked(final(right)@.entries)
        }),
{
    let on_left: Vec<(String, Facts)> = facts_of(&left.entries);
    let on_right: Vec<(String, Facts)> = facts_of(&right.entries);
    let (mark_left, mark_right): (Vec<String>, Vec<String>) = to_mark(
        on_left.as_slice(),
        on_right.as_slice(),
        case_sensitive,
    );
    apply_marks(left, &mark_left, case_sensitive);
    apply_marks(right, &mark_right, case_sensitive);
    (left.marked_count(), right.marked_count())
}

// ---- walking ----------------------------------------------------------------------------------

/// What a comparison should look at.
#[derive(Debug, Clone, Copy, PartialEq, Eq, Structural)]
pub struct Options {
    /// Descend into subdirectories. Off is "compare these two listings".
    pub recursive: bool,
    /// Read both files rather than trusting size and date.
    pub by_content: bool,
    pub include_hidden: bool,
    pub case_sensitive: bool,
}

impl Options {
    /// What a comparison looks at on a platform, unless told otherwise.
    pub fn on(platform: Platform) -> (r: Options)
        ensures
            r == (Options {
                recursive: true,
                by_content: false,
                include_hidden: false,
                case_sensitive: platform == Platform::Linux,
            }),
    {
        Options {
            recursive: true,
            by_content: false,
            include_hidden: false,
            case_sensitive: case_sensitive(platform),
        }
    }
}

/// Whether a listing leaves a name out.
pub open spec fn left_out(name: Seq<char>, include_hidden: bool) -> bool {
    !include_hidden && name.len() > 0 && name[0] == '.'
}

/// A listing without what it leaves out.
pub open spec fn shown_facts(list: Seq<(Seq<char>, Facts)>, include_hidden: bool) -> Seq<
    (Seq<char>, Facts),
>
    decreases list.len(),
{
    if list.len() == 0 {
        Seq::empty()
    } else {
        let front = shown_facts(list.drop_last(), include_hidden);
        if left_out(list.last().0, include_hidden) {
            front
        } else {
            front.push(list.last())
        }
    }
}

/// What one directory holds, as the comparison wants it.
pub fn listing(found: Vec<(String, Facts)>, include_hidden: bool) -> (r: Vec<(String, Facts)>)
    ensures
        fact_views(r@) == shown_facts(fact_views(found@), include_hidden),
{
    let ghost all = fact_views(found@);
    let ghost given = found@;
    let mut out: Vec<(String, Facts)> = Vec::new();
    assert(all.take(0) =~= Seq::<(Seq<char>, Facts)>::empty());
    assert(fact_views(out@) =~= Seq::empty());
    for item in it: found
        invariant
            it.seq() == given,
            all == fact_views(given),
            fact_views(out@) == shown_facts(all.take(it.index() as int), include_hidden),
    {
        proof {
            let i = it.index() as int;
            assert(all.take(i + 1).drop_last() =~= all.take(i));
            assert(all.take(i + 1).last() == (given[i].0@, given[i].1));
        }
        let (name, facts): (String, Facts) = item;
        let s: Vec<char> = text::chars(name.as_str());
        let hidden: bool = !include_hidden && s.len() > 0 && s[0] == '.';
        if !hidden {
            let ghost was = fact_views(out@);
            let ghost kept = name@;
            out.push((name, facts));
            assert(fact_views(out@) =~= was.push((kept, facts)));
        }
    }
    assert(all.take(all.len() as int) =~= all);
    out
}

/// A name below a prefix.
pub open spec fn relative_name(prefix: Seq<char>, name: Seq<char>) -> Seq<char> {
    if prefix.len() == 0 {
        name
    } else {
        prefix + "/"@ + name
    }
}

fn relative(prefix: &str, name: &str) -> (r: String)
    ensures
        r@ == relative_name(prefix@, name@),
{
    if prefix.is_empty() {
        name.to_owned()
    } else {
        text::concat3(prefix, "/", name)
    }
}

/// A pair that a walk found, and whether the contents of its two files have
/// to be compared before it can be reported.
#[derive(Debug, Clone)]
pub struct Found {
    pub pair: Pair,
    pub read_both: bool,
}

/// A pair that a walk found, as characters.
#[verifier::ext_equal]
pub struct FoundView {
    pub pair: PairView,
    pub read_both: bool,
}

impl View for Found {
    type V = FoundView;

    open spec fn view(&self) -> FoundView {
        FoundView { pair: self.pair@, read_both: self.read_both }
    }
}

/// Pairs that a walk found, as characters.
pub open spec fn found_views(list: Seq<Found>) -> Seq<FoundView> {
    list.map_values(|found: Found| found@)
}

/// A pair after the contents were compared; `same` is the answer, where they
/// could be read.
pub open spec fn settled(found: FoundView, same: Option<bool>) -> PairView {
    if found.read_both {
        paired(found.pair.name, found.pair.left, found.pair.right, same)
    } else {
        found.pair
    }
}

impl Found {
    /// The pair to report, given what comparing the contents came to.
    pub fn settle(self, same: Option<bool>) -> (r: Pair)
        ensures
            r@ == settled(self@, same),
    {
        if self.read_both {
            Pair::compared(self.pair.name, self.pair.left, self.pair.right, same)
        } else {
            self.pair
        }
    }
}

/// Whether both sides have a directory under a name: that is no difference,
/// but what is inside it might be.
pub open spec fn both_dirs(pair: PairView) -> bool {
    match pair.left {
        Some(l) => match pair.right {
            Some(r) => l.is_dir && r.is_dir,
            None => false,
        },
        None => false,
    }
}

/// What a level of the walk finds: every pair that is not a directory on both
/// sides. Contents are compared where that was asked for, of what both sides
/// have and is a directory on neither.
pub open spec fn found_at(prefix: Seq<char>, pairs: Seq<PairView>, options: Options) -> Seq<
    FoundView,
>
    decreases pairs.len(),
{
    if pairs.len() == 0 {
        Seq::empty()
    } else {
        let front = found_at(prefix, pairs.drop_last(), options);
        let pair = pairs.last();
        if both_dirs(pair) {
            front
        } else {
            front.push(
                FoundView {
                    pair: PairView { name: relative_name(prefix, pair.name), ..pair },
                    read_both: options.by_content && !pair_has_dir(pair) && pair.state
                        != State::OnlyLeft && pair.state != State::OnlyRight,
                },
            )
        }
    }
}

/// The directories that a level of the walk leads into.
pub open spec fn below_at(prefix: Seq<char>, pairs: Seq<PairView>, options: Options) -> Seq<
    Seq<char>,
>
    decreases pairs.len(),
{
    if pairs.len() == 0 {
        Seq::empty()
    } else {
        let front = below_at(prefix, pairs.drop_last(), options);
        if both_dirs(pairs.last()) && options.recursive {
            front.push(relative_name(prefix, pairs.last().name))
        } else {
            front
        }
    }
}

fn has_both_dirs(pair: &Pair) -> (r: bool)
    ensures
        r == both_dirs(pair@),
{
    match pair.left {
        Some(l) => match pair.right {
            Some(r) => l.is_dir && r.is_dir,
            None => false,
        },
        None => false,
    }
}

/// A comparison of two trees, level by level.
///
/// `next` says which directory of both roots to look at, and `walk_at` is
/// told what was there. What lies below a directory comes before what stands
/// beside it.
#[derive(Debug, Clone)]
pub struct Walk {
    options: Options,
    waiting: Vec<String>,
}

/// What a walk looks for, and the directories that wait, the next one first.
#[verifier::ext_equal]
pub struct WalkView {
    pub options: Options,
    pub waiting: Seq<Seq<char>>,
}

impl View for Walk {
    type V = WalkView;

    closed spec fn view(&self) -> WalkView {
        WalkView { options: self.options, waiting: text::views(self.waiting@) }
    }
}

impl Walk {
    pub fn new(options: Options) -> (r: Walk)
        ensures
            r@ == (WalkView { options, waiting: seq![Seq::empty()] }),
    {
        let top: String = String::new();
        assert(top@ =~= Seq::<char>::empty());
        let waiting: Vec<String> = vec![top];
        assert(text::views(waiting@) =~= seq![Seq::empty()]);
        Walk { options, waiting }
    }

    /// The directory to look at next, relative to both roots: the roots
    /// themselves first, under the empty name.
    pub fn next(&mut self) -> (r: Option<String>)
        ensures
            text::optional(r) == if old(self)@.waiting.len() == 0 {
                None
            } else {
                Some(old(self)@.waiting[0])
            },
            final(self)@ == (WalkView {
                waiting: if old(self)@.waiting.len() == 0 {
                    Seq::empty()
                } else {
                    old(self)@.waiting.skip(1)
                },
                ..old(self)@
            }),
    {
        let ghost was = text::views(self.waiting@);
        if self.waiting.len() == 0 {
            assert(text::views(self.waiting@) =~= Seq::empty());
            return None;
        }
        let first: String = self.waiting.remove(0);
        assert(text::views(self.waiting@) =~= was.skip(1));
        Some(first)
    }

    /// Take what both sides have at one level, and say what was found there;
    /// the directories it leads into are walked next.
    pub fn walk_at(
        &mut self,
        prefix: &str,
        left: Vec<(String, Facts)>,
        right: Vec<(String, Facts)>,
    ) -> (r: Vec<Found>)
        ensures
            ({
                let options = old(self)@.options;
                let pairs = lined_up(
                    shown_facts(fact_views(left@), options.include_hidden),
                    shown_facts(fact_views(right@), options.include_hidden),
                    options.case_sensitive,
                );
                &&& found_views(r@) == found_at(prefix@, pairs, options)
                &&& final(self)@ == (WalkView {
                    waiting: below_at(prefix@, pairs, options) + old(self)@.waiting,
                    ..old(self)@
                })
            }),
    {
        let options: Options = self.options;
        let left: Vec<(String, Facts)> = listing(left, options.include_hidden);
        let right: Vec<(String, Facts)> = listing(right, options.include_hidden);
        let pairs: Vec<Pair> = pair_up(left.as_slice(), right.as_slice(), options.case_sensitive);
        let ghost all = pair_views(pairs@);
        let ghost given = pairs@;
        let mut out: Vec<Found> = Vec::new();
        let mut descend: Vec<String> = Vec::new();
        proof {
            assert(all.take(0) =~= Seq::<PairView>::empty());
            assert(found_views(out@) =~= Seq::empty());
            assert(text::views(descend@) =~= Seq::empty());
        }
        for pair in it: pairs
            invariant
                it.seq() == given,
                all == pair_views(given),
                found_views(out@) == found_at(prefix@, all.take(it.index() as int), options),
                text::views(descend@) == below_at(
                    prefix@,
                    all.take(it.index() as int),
                    options,
                ),
        {
            proof {
                let i = it.index() as int;
                assert(all.take(i + 1).drop_last() =~= all.take(i));
                assert(all.take(i + 1).last() == given[i]@);
            }
            let name: String = relative(prefix, pair.name.as_str());
            if has_both_dirs(&pair) {
                if options.recursive {
                    let ghost was = text::views(descend@);
                    let ghost below = name@;
                    descend.push(name);
                    assert(text::views(descend@) =~= was.push(below));
                }
            } else {
                let read_both: bool = options.by_content && !is_dir_here(&pair.left) && !is_dir_here(
                    &pair.right,
                ) && pair.state
                    != State::OnlyLeft && pair.state != State::OnlyRight;
                let found: Found = Found {
                    pair: Pair {
                        name,
                        left: pair.left,
                        right: pair.right,
                        state: pair.state,
                        direction: pair.direction,
                    },
                    read_both,
                };
                let ghost was = found_views(out@);
                let ghost one = found@;
                out.push(found);
                assert(found_views(out@) =~= was.push(one));
            }
        }
        assert(all.take(all.len() as int) =~= all);
        let ghost later = text::views(self.waiting@);
        let ghost sooner = text::views(descend@);
        descend.append(&mut self.waiting);
        self.waiting = descend;
        assert(text::views(self.waiting@) =~= sooner + later);
        out
    }
}

/// What is said of a directory while it is looked at.
pub fn looking_at(prefix: &str) -> (r: String)
    ensures
        r@ == if prefix@.len() == 0 {
            "."@
        } else {
            prefix@
        },
{
    if prefix.is_empty() {
        ".".to_owned()
    } else {
        prefix.to_owned()
    }
}

// ---- what a synchronize comes to ------------------------------------------------------------------

/// One thing that a synchronize does.
#[derive(Debug, Clone, PartialEq, Eq)]
pub enum SyncTask {
    Copy { from: String, to: String },
}

/// Where a task copies from and to.
pub open spec fn task_view(task: SyncTask) -> (Seq<char>, Seq<char>) {
    match task {
        SyncTask::Copy { from, to } => (from@, to@),
    }
}

/// Where tasks copy from and to.
pub open spec fn task_views(tasks: Seq<SyncTask>) -> Seq<(Seq<char>, Seq<char>)> {
    tasks.map_values(|task: SyncTask| task_view(task))
}

/// The copies that some pairs come to.
pub open spec fn copies_of(
    style: Style,
    pairs: Seq<PairView>,
    left_root: Seq<char>,
    right_root: Seq<char>,
) -> Seq<(Seq<char>, Seq<char>)>
    decreases pairs.len(),
{
    if pairs.len() == 0 {
        Seq::empty()
    } else {
        let front = copies_of(style, pairs.drop_last(), left_root, right_root);
        let pair = pairs.last();
        let on_left = pathname::joined(style, left_root, pair.name);
        let on_right = pathname::joined(style, right_root, pair.name);
        if pair.direction == Direction::Skip || !can_go(pair, pair.direction) {
            front
        } else if pair.direction == Direction::ToRight {
            front.push((on_left, on_right))
        } else {
            front.push((on_right, on_left))
        }
    }
}

/// The copies a set of chosen directions comes to.
pub fn tasks(style: Style, pairs: &[Pair], left_root: &str, right_root: &str) -> (r: Vec<SyncTask>)
    ensures
        task_views(r@) == copies_of(style, pair_views(pairs@), left_root@, right_root@),
{
    let ghost all = pair_views(pairs@);
    let mut out: Vec<SyncTask> = Vec::new();
    let mut i: usize = 0;
    assert(all.take(0) =~= Seq::<PairView>::empty());
    assert(task_views(out@) =~= Seq::empty());
    while i < pairs.len()
        invariant
            i <= pairs@.len(),
            all == pair_views(pairs@),
            task_views(out@) == copies_of(style, all.take(i as int), left_root@, right_root@),
        decreases pairs@.len() - i,
    {
        proof {
            assert(all.take(i + 1).drop_last() =~= all.take(i as int));
            assert(all.take(i + 1).last() == pairs@[i as int]@);
        }
        if pairs[i].is_work() {
            let on_left: String = pathname::join(style, left_root, pairs[i].name.as_str());
            let on_right: String = pathname::join(style, right_root, pairs[i].name.as_str());
            let ghost was = task_views(out@);
            let task: SyncTask = match pairs[i].direction {
                Direction::ToRight => SyncTask::Copy { from: on_left, to: on_right },
                _ => SyncTask::Copy { from: on_right, to: on_left },
            };
            out.push(task);
            assert(task_views(out@) =~= was.push(task_view(task)));
        }
        i += 1;
    }
    assert(all.take(i as int) =~= all);
    out
}

/// How many pairs fall into each bucket, for the line under the list.
#[derive(Debug, Clone, Copy, PartialEq, Eq, Structural)]
pub struct Tally {
    pub same: usize,
    pub to_right: usize,
    pub to_left: usize,
    pub skipped_differences: usize,
}

impl Default for Tally {
    fn default() -> (r: Tally)
        ensures
            r == (Tally { same: 0, to_right: 0, to_left: 0, skipped_differences: 0 }),
    {
        Tally { same: 0, to_right: 0, to_left: 0, skipped_differences: 0 }
    }
}

/// The bucket a pair falls into.
pub enum Bucket {
    Same,
    ToRight,
    ToLeft,
    SkippedDifference,
}

/// The bucket a pair falls into.
pub open spec fn bucket_of(pair: PairView) -> Bucket {
    match pair.direction {
        Direction::ToRight => Bucket::ToRight,
        Direction::ToLeft => Bucket::ToLeft,
        Direction::Skip => if pair.state == State::Same {
            Bucket::Same
        } else {
            Bucket::SkippedDifference
        },
    }
}

/// How many of some pairs fall into a bucket.
pub open spec fn count_in(pairs: Seq<PairView>, bucket: Bucket) -> nat
    decreases pairs.len(),
{
    if pairs.len() == 0 {
        0
    } else {
        count_in(pairs.drop_last(), bucket) + (if bucket_of(pairs.last()) == bucket {
            1nat
        } else {
            0
        })
    }
}

pub fn tally(pairs: &[Pair]) -> (r: Tally)
    ensures
        r.same == count_in(pair_views(pairs@), Bucket::Same),
        r.to_right == count_in(pair_views(pairs@), Bucket::ToRight),
        r.to_left == count_in(pair_views(pairs@), Bucket::ToLeft),
        r.skipped_differences == count_in(pair_views(pairs@), Bucket::SkippedDifference),
{
    let ghost all = pair_views(pairs@);
    let mut same: usize = 0;
    let mut to_right: usize = 0;
    let mut to_left: usize = 0;
    let mut skipped: usize = 0;
    let mut i: usize = 0;
    assert(all.take(0) =~= Seq::<PairView>::empty());
    while i < pairs.len()
        invariant
            i <= pairs@.len(),
            all == pair_views(pairs@),
            same + to_right + to_left + skipped == i,
            same == count_in(all.take(i as int), Bucket::Same),
            to_right == count_in(all.take(i as int), Bucket::ToRight),
            to_left == count_in(all.take(i as int), Bucket::ToLeft),
            skipped == count_in(all.take(i as int), Bucket::SkippedDifference),
        decreases pairs@.len() - i,
    {
        proof {
            assert(all.take(i + 1).drop_last() =~= all.take(i as int));
            assert(all.take(i + 1).last() == pairs@[i as int]@);
        }
        match pairs[i].direction {
            Direction::ToRight => {
                to_right += 1;
            },
            Direction::ToLeft => {
                to_left += 1;
            },
            Direction::Skip => {
                if pairs[i].state.is_same() {
                    same += 1;
                } else {
                    skipped += 1;
                }
            },
        }
        i += 1;
    }
    assert(all.take(i as int) =~= all);
    Tally { same, to_right, to_left, skipped_differences: skipped }
}

/// What the list shows, for hiding the rows that are not the point.
#[derive(Debug, Clone, Copy, PartialEq, Eq, Structural)]
pub struct Show {
    pub same: bool,
    pub differences: bool,
    pub only_left: bool,
    pub only_right: bool,
}

impl Default for Show {
    fn default() -> (r: Show)
        ensures
            r == (Show { same: false, differences: false, only_left: false, only_right: false }),
    {
        Show { same: false, differences: false, only_left: false, only_right: false }
    }
}

impl Show {
    /// Everything but the files that already agree, which is what you opened
    /// the window to see.
    pub fn differences_only() -> (r: Show)
        ensures
            r == (Show { same: false, differences: true, only_left: true, only_right: true }),
    {
        Show { same: false, differences: true, only_left: true, only_right: true }
    }

    pub fn allows(&self, state: State) -> (r: bool)
        ensures
            r == match state {
                State::Same => self.same,
                State::OnlyLeft => self.only_left,
                State::OnlyRight => self.only_right,
                State::LeftNewer | State::RightNewer | State::Differ => self.differences,
            },
    {
        match state {
            State::Same => self.same,
            State::OnlyLeft => self.only_left,
            State::OnlyRight => self.only_right,
            _ => self.differences,
        }
    }
}

/// A comparison in progress, and what it has found.
#[derive(Debug, Clone)]
pub struct Compared {
    pub pairs: Vec<Pair>,
    pub current: String,
    pub finished: bool,
    pub cancelled: bool,
    /// It stopped at [`MAX_PAIRS`] rather than because it ran out of tree.
    pub truncated: bool,
}

impl Default for Compared {
    fn default() -> (r: Compared)
        ensures
            r.pairs@.len() == 0,
            r.current@.len() == 0,
            !r.finished,
            !r.cancelled,
            !r.truncated,
    {
        let current: String = String::new();
        assert(current@ =~= Seq::<char>::empty());
        Compared {
            pairs: Vec::new(),
            current,
            finished: false,
            cancelled: false,
            truncated: false,
        }
    }
}

impl Compared {
    /// Take in a pair that was worked out. False stops the walk: there are
    /// enough.
    pub fn pair(&mut self, pair: Pair) -> (r: bool)
        ensures
            r == (old(self).pairs@.len() < MAX_PAIRS),
            final(self).pairs@ == if r {
                old(self).pairs@.push(pair)
            } else {
                old(self).pairs@
            },
            final(self).truncated == (old(self).truncated || !r),
            final(self).current == old(self).current,
            final(self).finished == old(self).finished,
            final(self).cancelled == old(self).cancelled,
    {
        if self.pairs.len() >= MAX_PAIRS {
            self.truncated = true;
            return false;
        }
        self.pairs.push(pair);
        true
    }

    /// Where the walk has got to, for the "still going" line.
    pub fn looking_at(&mut self, name: &str)
        ensures
            final(self).current@ == name@,
            final(self).pairs == old(self).pairs,
            final(self).truncated == old(self).truncated,
            final(self).finished == old(self).finished,
            final(self).cancelled == old(self).cancelled,
    {
        self.current = name.to_owned();
    }

    /// The comparison is over.
    pub fn finish(&mut self, cancelled: bool)
        ensures
            final(self).finished,
            final(self).cancelled == cancelled,
            final(self).current@.len() == 0,
            final(self).pairs == old(self).pairs,
            final(self).truncated == old(self).truncated,
    {
        self.cancelled = cancelled;
        self.finished = true;
        let none: String = String::new();
        assert(none@ =~= Seq::<char>::empty());
        self.current = none;
    }
}

// ---- laws -------------------------------------------------------------------------------------

/// The pairs of one level of a comparison: `left` and `right` say what each
/// directory of the two trees holds.
pub open spec fn pairs_at(
    options: Options,
    left: spec_fn(Seq<char>) -> Seq<(Seq<char>, Facts)>,
    right: spec_fn(Seq<char>) -> Seq<(Seq<char>, Facts)>,
    prefix: Seq<char>,
) -> Seq<PairView> {
    lined_up(
        shown_facts(left(prefix), options.include_hidden),
        shown_facts(right(prefix), options.include_hidden),
        options.case_sensitive,
    )
}

/// The directories that each level of a comparison leads into.
pub open spec fn inside(
    options: Options,
    left: spec_fn(Seq<char>) -> Seq<(Seq<char>, Facts)>,
    right: spec_fn(Seq<char>) -> Seq<(Seq<char>, Facts)>,
) -> spec_fn(Seq<char>) -> Seq<Seq<char>> {
    |prefix: Seq<char>| below_at(prefix, pairs_at(options, left, right, prefix), options)
}

/// A comparison of trees that end comes to its end, having looked at every
/// level of both, what lies below a directory before what stands beside it.
pub proof fn law_every_level_is_compared(
    options: Options,
    left: spec_fn(Seq<char>) -> Seq<(Seq<char>, Facts)>,
    right: spec_fn(Seq<char>) -> Seq<(Seq<char>, Facts)>,
    depth: nat,
)
    requires
        walking::ends(inside(options, left, right), seq![Seq::empty()], depth),
    ensures
        ({
            let start = seq![Seq::<char>::empty()];
            let levels = walking::in_order(inside(options, left, right), start, depth);
            &&& walking::taken(inside(options, left, right), start, levels.len()) == levels
            &&& walking::left(inside(options, left, right), start, levels.len()).len() == 0
            &&& levels.contains(Seq::<char>::empty())
            &&& forall|prefix: Seq<char>, i: int|
                #![trigger inside(options, left, right)(prefix)[i]]
                levels.contains(prefix) && 0 <= i < inside(options, left, right)(prefix).len()
                    ==> levels.contains(inside(options, left, right)(prefix)[i])
        }),
{
    let start = seq![Seq::<char>::empty()];
    walking::law_a_walk_takes_the_whole_tree(inside(options, left, right), start, depth);
    walking::law_a_tree_holds_what_is_inside(inside(options, left, right), start, depth);
    assert(start[0] == Seq::<char>::empty());
}

/// Nothing of a level is passed over: what is a directory on both sides is
/// walked into, where that was asked for, and everything else is found.
pub proof fn law_nothing_is_passed_over(
    prefix: Seq<char>,
    pairs: Seq<PairView>,
    options: Options,
    i: int,
)
    requires
        0 <= i < pairs.len(),
    ensures
        both_dirs(pairs[i]) && options.recursive ==> below_at(prefix, pairs, options).contains(
            relative_name(prefix, pairs[i].name),
        ),
        !both_dirs(pairs[i]) ==> exists|k: int|
            0 <= k < found_at(prefix, pairs, options).len() && (#[trigger] found_at(
                prefix,
                pairs,
                options,
            )[k]).pair == (PairView { name: relative_name(prefix, pairs[i].name), ..pairs[i] }),
    decreases pairs.len(),
{
    let front = pairs.drop_last();
    let below = below_at(prefix, pairs, options);
    let found = found_at(prefix, pairs, options);
    if i < front.len() {
        law_nothing_is_passed_over(prefix, front, options, i);
        assert(front[i] == pairs[i]);
        if both_dirs(pairs[i]) {
            if options.recursive {
                let name = relative_name(prefix, pairs[i].name);
                let first = below_at(prefix, front, options);
                let k = choose|k: int| 0 <= k < first.len() && first[k] == name;
                assert(below[k] == name);
            }
        } else {
            let first = found_at(prefix, front, options);
            let k = choose|k: int|
                0 <= k < first.len() && (#[trigger] first[k]).pair == (PairView {
                    name: relative_name(prefix, pairs[i].name),
                    ..pairs[i]
                });
            assert(found[k] == first[k]);
        }
    } else if both_dirs(pairs[i]) {
        if options.recursive {
            assert(below[below.len() - 1] == relative_name(prefix, pairs[i].name));
        }
    } else {
        assert(found[found.len() - 1].pair == (PairView {
            name: relative_name(prefix, pairs[i].name),
            ..pairs[i]
        }));
    }
}

/// A state seen from the other side.
pub open spec fn mirrored(state: State) -> State {
    match state {
        State::Same => State::Same,
        State::Differ => State::Differ,
        State::LeftNewer => State::RightNewer,
        State::RightNewer => State::LeftNewer,
        State::OnlyLeft => State::OnlyRight,
        State::OnlyRight => State::OnlyLeft,
    }
}

/// It does not matter which side is called left.
pub proof fn law_sides_are_treated_alike(
    left: Option<Facts>,
    right: Option<Facts>,
    same_bytes: Option<bool>,
)
    ensures
        state_between(right, left, same_bytes) == mirrored(state_between(left, right, same_bytes)),
{
}

/// What is suggested never copies from a side that has nothing, and never
/// copies something older over something newer.
pub proof fn law_nothing_older_replaces_newer(
    left: Option<Facts>,
    right: Option<Facts>,
    same_bytes: Option<bool>,
)
    ensures
        ({
            let direction = suggestion(state_between(left, right, same_bytes));
            &&& direction == Direction::ToRight ==> left is Some && (right is None || (
            left->0.modified is Some && right->0.modified is Some && left->0.modified->0.nanos
                > right->0.modified->0.nanos))
            &&& direction == Direction::ToLeft ==> right is Some && (left is None || (
            left->0.modified is Some && right->0.modified is Some && right->0.modified->0.nanos
                > left->0.modified->0.nanos))
        }),
{
}

/// The one key always sets a direction that the pair can take, and comes to
/// every such direction.
pub proof fn law_turning_is_always_possible(pair: PairView, wanted: Direction)
    requires
        can_go(pair, wanted),
        can_go(pair, pair.direction),
    ensures
        can_go(pair, turned(pair)),
        ({
            let once = PairView { direction: turned(pair), ..pair };
            let twice = PairView { direction: turned(once), ..pair };
            wanted == pair.direction || wanted == once.direction || wanted == twice.direction
        }),
{
}

/// Two listings lined up come in the order of their keys, each once.
pub proof fn law_pairs_come_in_name_order(
    left: Seq<(Seq<char>, Facts)>,
    right: Seq<(Seq<char>, Facts)>,
    case_sensitive: bool,
)
    ensures
        by_key(both_slots(left, right, case_sensitive)),
    decreases right.len(),
{
    if right.len() > 0 {
        law_pairs_come_in_name_order(left, right.drop_last(), case_sensitive);
        let front = both_slots(left, right.drop_last(), case_sensitive);
        lemma_put_keeps_order(
            front,
            right_added(front, right.last().0, right.last().1, case_sensitive),
        );
    } else {
        lemma_left_in_order(left, case_sensitive);
    }
}

proof fn lemma_left_in_order(left: Seq<(Seq<char>, Facts)>, case_sensitive: bool)
    ensures
        by_key(left_slots(left, case_sensitive)),
    decreases left.len(),
{
    if left.len() > 0 {
        lemma_left_in_order(left.drop_last(), case_sensitive);
        lemma_put_keeps_order(
            left_slots(left.drop_last(), case_sensitive),
            SlotView {
                key: name_key(left.last().0, case_sensitive),
                name: left.last().0,
                left: Some(left.last().1),
                right: None,
            },
        );
    }
}

proof fn lemma_put_found(slots: Seq<SlotView>, slot: SlotView, key: Seq<char>)
    requires
        by_key(slots),
    ensures
        key == slot.key ==> slot_of(slot_put(slots, slot), key) == Some(slot),
        key != slot.key ==> slot_of(slot_put(slots, slot), key) == slot_of(slots, key),
    decreases slots.len(),
{
    let out = slot_put(slots, slot);
    if slots.len() == 0 {
        assert(out.drop_last() =~= slots);
    } else {
        let front = slots.drop_last();
        let last = slots.last();
        assert forall|i: int, j: int| 0 <= i < j < front.len() implies text::before(
            (#[trigger] front[i]).key,
            (#[trigger] front[j]).key,
        ) by {
            assert(text::before(slots[i].key, slots[j].key));
        }
        if text::before(last.key, slot.key) {
            assert(out.drop_last() =~= slots);
        } else if last.key == slot.key {
            assert(out.drop_last() =~= front);
        } else {
            lemma_put_found(front, slot, key);
            assert(out.drop_last() =~= slot_put(front, slot));
        }
    }
}

/// Every name that either side has is in the list, with what that side has
/// under it: where a side has several names of one key, its last.
pub proof fn law_every_name_is_lined_up(
    left: Seq<(Seq<char>, Facts)>,
    right: Seq<(Seq<char>, Facts)>,
    case_sensitive: bool,
    key: Seq<char>,
)
    ensures
        slot_of(both_slots(left, right, case_sensitive), key) is Some <==> last_under(
            left,
            key,
            case_sensitive,
        ) is Some || last_under(right, key, case_sensitive) is Some,
        slot_of(both_slots(left, right, case_sensitive), key) matches Some(slot) ==> slot.left
            == last_under(left, key, case_sensitive) && slot.right == last_under(
            right,
            key,
            case_sensitive,
        ) && slot.key == key,
    decreases right.len(),
{
    if right.len() > 0 {
        let front = both_slots(left, right.drop_last(), case_sensitive);
        let own = name_key(right.last().0, case_sensitive);
        law_pairs_come_in_name_order(left, right.drop_last(), case_sensitive);
        law_every_name_is_lined_up(left, right.drop_last(), case_sensitive, key);
        law_every_name_is_lined_up(left, right.drop_last(), case_sensitive, own);
        let slot = right_added(front, right.last().0, right.last().1, case_sensitive);
        lemma_put_found(front, slot, key);
    } else {
        lemma_left_found(left, case_sensitive, key);
    }
}

/// What a side has last under a key.
pub open spec fn last_under(
    list: Seq<(Seq<char>, Facts)>,
    key: Seq<char>,
    case_sensitive: bool,
) -> Option<Facts>
    decreases list.len(),
{
    if list.len() == 0 {
        None
    } else if name_key(list.last().0, case_sensitive) == key {
        Some(list.last().1)
    } else {
        last_under(list.drop_last(), key, case_sensitive)
    }
}

proof fn lemma_left_found(left: Seq<(Seq<char>, Facts)>, case_sensitive: bool, key: Seq<char>)
    ensures
        slot_of(left_slots(left, case_sensitive), key) is Some <==> last_under(
            left,
            key,
            case_sensitive,
        ) is Some,
        slot_of(left_slots(left, case_sensitive), key) matches Some(slot) ==> slot.left
            == last_under(left, key, case_sensitive) && slot.right is None && slot.key == key,
    decreases left.len(),
{
    if left.len() > 0 {
        let front = left_slots(left.drop_last(), case_sensitive);
        lemma_left_in_order(left.drop_last(), case_sensitive);
        lemma_left_found(left.drop_last(), case_sensitive, key);
        let slot = SlotView {
            key: name_key(left.last().0, case_sensitive),
            name: left.last().0,
            left: Some(left.last().1),
            right: None,
        };
        lemma_put_found(front, slot, key);
    }
}

/// No copy that a synchronize comes to starts from a side that has nothing:
/// there are as many copies as there are pairs that can go their way.
pub proof fn law_every_copy_has_a_source(
    style: Style,
    pairs: Seq<PairView>,
    left_root: Seq<char>,
    right_root: Seq<char>,
)
    ensures
        copies_of(style, pairs, left_root, right_root).len() == pairs_at_work(pairs),
    decreases pairs.len(),
{
    if pairs.len() > 0 {
        law_every_copy_has_a_source(style, pairs.drop_last(), left_root, right_root);
    }
}

/// How many pairs a synchronize would touch.
pub open spec fn pairs_at_work(pairs: Seq<PairView>) -> nat
    decreases pairs.len(),
{
    if pairs.len() == 0 {
        0
    } else {
        pairs_at_work(pairs.drop_last()) + (if pairs.last().direction != Direction::Skip && can_go(
            pairs.last(),
            pairs.last().direction,
        ) {
            1nat
        } else {
            0
        })
    }
}

/// Of two files whose times are known and more than two seconds apart the
/// later one is the newer one, whatever they weigh, unless their contents are
/// known to be the same.
pub proof fn law_the_later_file_is_the_newer(left: Facts, right: Facts, same_bytes: Option<bool>)
    requires
        !(left.is_dir && right.is_dir),
        same_bytes != Some(true),
        left.modified is Some,
        right.modified is Some,
        left.modified->0.nanos - right.modified->0.nanos > 2_000_000_000 || right.modified->0.nanos
            - left.modified->0.nanos > 2_000_000_000,
    ensures
        ({
            let state = state_between(Some(left), Some(right), same_bytes);
            &&& state == State::LeftNewer <==> left.modified->0.nanos > right.modified->0.nanos
            &&& state == State::RightNewer <==> left.modified->0.nanos < right.modified->0.nanos
            &&& suggestion(state) == if left.modified->0.nanos > right.modified->0.nanos {
                Direction::ToRight
            } else {
                Direction::ToLeft
            }
        }),
{
}

/// Two names that both sides have are the same where both are directories,
/// where their contents are known to be the same, or where nobody looked and
/// they weigh the same and are of one time, to within two seconds; and
/// nowhere else.
pub proof fn law_what_counts_as_the_same(left: Facts, right: Facts, same_bytes: Option<bool>)
    ensures
        ({
            let one_time = match (left.modified, right.modified) {
                (Some(l), Some(r)) => -2_000_000_000 <= l.nanos - r.nanos <= 2_000_000_000,
                (None, None) => true,
                _ => false,
            };
            state_between(Some(left), Some(right), same_bytes) == State::Same <==> {
                ||| left.is_dir && right.is_dir
                ||| same_bytes == Some(true)
                ||| same_bytes is None && left.size == right.size && one_time
            }
        }),
{
}

/// What differs is told to be newer on neither side exactly where the times
/// do not say: they are two seconds apart at the most, or one is not known.
pub proof fn law_no_winner_without_a_later_time(left: Facts, right: Facts, same_bytes: Option<bool>)
    requires
        state_between(Some(left), Some(right), same_bytes) != State::Same,
    ensures
        state_between(Some(left), Some(right), same_bytes) == State::Differ <==> match (
            left.modified,
            right.modified,
        ) {
            (Some(l), Some(r)) => -2_000_000_000 <= l.nanos - r.nanos <= 2_000_000_000,
            _ => true,
        },
{
}

/// A name that one side lacks is told to be on the other alone, and is copied
/// to where it is missing.
pub proof fn law_what_is_missing_is_copied(facts: Facts, same_bytes: Option<bool>)
    ensures
        state_between(Some(facts), None, same_bytes) == State::OnlyLeft,
        state_between(None, Some(facts), same_bytes) == State::OnlyRight,
        suggestion(state_between(Some(facts), None, same_bytes)) == Direction::ToRight,
        suggestion(state_between(None, Some(facts), same_bytes)) == Direction::ToLeft,
{
}

proof fn lemma_last_under(list: Seq<(Seq<char>, Facts)>, key: Seq<char>, case_sensitive: bool)
    ensures
        match last_under(list, key, case_sensitive) {
            Some(facts) => exists|i: int|
                {
                    &&& 0 <= i < list.len()
                    &&& name_key((#[trigger] list[i]).0, case_sensitive) == key
                    &&& list[i].1 == facts
                    &&& forall|j: int|
                        i < j < list.len() ==> name_key((#[trigger] list[j]).0, case_sensitive)
                            != key
                },
            None => forall|i: int|
                0 <= i < list.len() ==> name_key((#[trigger] list[i]).0, case_sensitive) != key,
        },
    decreases list.len(),
{
    if list.len() > 0 {
        let front = list.drop_last();
        let last = list.len() - 1;
        if name_key(list.last().0, case_sensitive) == key {
            assert(name_key(list[last].0, case_sensitive) == key);
        } else {
            lemma_last_under(front, key, case_sensitive);
            assert forall|i: int| 0 <= i < front.len() implies front[i] == #[trigger] list[i] by {}
            if last_under(front, key, case_sensitive) is Some {
                let i = choose|i: int|
                    {
                        &&& 0 <= i < front.len()
                        &&& name_key((#[trigger] front[i]).0, case_sensitive) == key
                        &&& front[i].1 == last_under(front, key, case_sensitive)->0
                        &&& forall|j: int|
                            i < j < front.len() ==> name_key(
                                (#[trigger] front[j]).0,
                                case_sensitive,
                            ) != key
                    };
                assert(name_key(list[i].0, case_sensitive) == key);
                assert forall|j: int| i < j < list.len() implies name_key(
                    (#[trigger] list[j]).0,
                    case_sensitive,
                ) != key by {
                    if j < front.len() {
                        assert(front[j] == list[j]);
                    }
                }
            } else {
                assert forall|i: int| 0 <= i < list.len() implies name_key(
                    (#[trigger] list[i]).0,
                    case_sensitive,
                ) != key by {
                    if i < front.len() {
                        assert(front[i] == list[i]);
                    }
                }
            }
        }
    }
}

spec fn keys_fit(slots: Seq<SlotView>, case_sensitive: bool) -> bool {
    forall|i: int|
        0 <= i < slots.len() ==> (#[trigger] slots[i]).key == name_key(
            slots[i].name,
            case_sensitive,
        )
}

proof fn lemma_put_holds(slots: Seq<SlotView>, slot: SlotView)
    ensures
        forall|i: int|
            0 <= i < slot_put(slots, slot).len() ==> (#[trigger] slot_put(slots, slot)[i]) == slot
                || slots.contains(slot_put(slots, slot)[i]),
    decreases slots.len(),
{
    let out = slot_put(slots, slot);
    if slots.len() > 0 {
        let front = slots.drop_last();
        assert forall|i: int| 0 <= i < front.len() implies slots.contains(#[trigger] front[i]) by {
            assert(slots[i] == front[i]);
        }
        lemma_put_holds(front, slot);
        assert(slots.contains(slots[slots.len() - 1]));
        assert forall|i: int| 0 <= i < out.len() implies (#[trigger] out[i]) == slot
            || slots.contains(out[i]) by {
            if text::before(slots.last().key, slot.key) {
                if i < slots.len() {
                    assert(slots.contains(slots[i]));
                }
            } else if slots.last().key == slot.key {
                if i < front.len() {
                    assert(slots.contains(front[i]));
                }
            } else if i < slot_put(front, slot).len() {
                assert(out[i] == slot_put(front, slot)[i]);
                if out[i] != slot {
                    let k = choose|k: int| 0 <= k < front.len() && front[k] == out[i];
                    assert(slots.contains(front[k]));
                }
            }
        }
    }
}

proof fn lemma_slot_is_there(slots: Seq<SlotView>, key: Seq<char>)
    ensures
        slot_of(slots, key) matches Some(slot) ==> slots.contains(slot) && slot.key == key,
        slot_of(slots, key) is None ==> forall|i: int|
            0 <= i < slots.len() ==> (#[trigger] slots[i]).key != key,
    decreases slots.len(),
{
    if slots.len() > 0 {
        let front = slots.drop_last();
        lemma_slot_is_there(front, key);
        assert(slots[slots.len() - 1] == slots.last());
        if slots.last().key != key {
            if slot_of(front, key) is Some {
                let k = choose|k: int|
                    0 <= k < front.len() && front[k] == slot_of(front, key)->0;
                assert(slots[k] == front[k]);
            } else {
                assert forall|i: int| 0 <= i < slots.len() implies (#[trigger] slots[i]).key
                    != key by {
                    if i < front.len() {
                        assert(front[i] == slots[i]);
                    }
                }
            }
        }
    }
}

proof fn lemma_keys_fit(
    left: Seq<(Seq<char>, Facts)>,
    right: Seq<(Seq<char>, Facts)>,
    case_sensitive: bool,
)
    ensures
        keys_fit(both_slots(left, right, case_sensitive), case_sensitive),
    decreases left.len() + right.len(),
{
    let out = both_slots(left, right, case_sensitive);
    if right.len() > 0 {
        let front = both_slots(left, right.drop_last(), case_sensitive);
        let slot = right_added(front, right.last().0, right.last().1, case_sensitive);
        lemma_keys_fit(left, right.drop_last(), case_sensitive);
        lemma_slot_is_there(front, name_key(right.last().0, case_sensitive));
        lemma_put_holds(front, slot);
        assert forall|i: int| 0 <= i < out.len() implies (#[trigger] out[i]).key == name_key(
            out[i].name,
            case_sensitive,
        ) by {
            if out[i] != slot {
                let k = choose|k: int| 0 <= k < front.len() && front[k] == out[i];
                assert(front[k].key == name_key(front[k].name, case_sensitive));
            } else {
                match slot_of(front, name_key(right.last().0, case_sensitive)) {
                    Some(was) => {
                        let k = choose|k: int| 0 <= k < front.len() && front[k] == was;
                        assert(front[k].key == name_key(front[k].name, case_sensitive));
                    },
                    None => {},
                }
            }
        }
    } else if left.len() > 0 {
        let none = Seq::<(Seq<char>, Facts)>::empty();
        assert(right =~= none);
        let front = left_slots(left.drop_last(), case_sensitive);
        lemma_keys_fit(left.drop_last(), none, case_sensitive);
        assert(both_slots(left.drop_last(), none, case_sensitive) == front);
        let slot = SlotView {
            key: name_key(left.last().0, case_sensitive),
            name: left.last().0,
            left: Some(left.last().1),
            right: None,
        };
        lemma_put_holds(front, slot);
        assert forall|i: int| 0 <= i < out.len() implies (#[trigger] out[i]).key == name_key(
            out[i].name,
            case_sensitive,
        ) by {
            if out[i] != slot {
                let k = choose|k: int| 0 <= k < front.len() && front[k] == out[i];
                assert(front[k].key == name_key(front[k].name, case_sensitive));
            }
        }
    }
}

proof fn lemma_slot_found(slots: Seq<SlotView>, i: int)
    requires
        by_key(slots),
        0 <= i < slots.len(),
    ensures
        slot_of(slots, slots[i].key) == Some(slots[i]),
{
    lemma_slot_is_there(slots, slots[i].key);
    let slot = slot_of(slots, slots[i].key)->0;
    let k = choose|k: int| 0 <= k < slots.len() && slots[k] == slot;
    if k < i {
        assert(text::before(slots[k].key, slots[i].key));
        text::lemma_before_total(slots[k].key, slots[k].key);
    } else if i < k {
        assert(text::before(slots[i].key, slots[k].key));
        text::lemma_before_total(slots[k].key, slots[k].key);
    }
}

/// What a listing has under a name, with its case or without: where several
/// of its names come to the same, the last of them.
pub open spec fn has_under(
    list: Seq<(Seq<char>, Facts)>,
    name: Seq<char>,
    case_sensitive: bool,
    facts: Facts,
) -> bool {
    exists|i: int|
        {
            &&& 0 <= i < list.len()
            &&& name_key((#[trigger] list[i]).0, case_sensitive) == name_key(name, case_sensitive)
            &&& list[i].1 == facts
            &&& forall|j: int|
                i < j < list.len() ==> name_key((#[trigger] list[j]).0, case_sensitive) != name_key(
                    name,
                    case_sensitive,
                )
        }
}

/// Two listings lined up have one row for each name, in the order of the
/// names; the row has on each side what that side's listing has under the
/// name, and nothing where it has nothing; and it says how the two relate and
/// what is suggested.
pub proof fn law_rows_say_what_each_side_has(
    left: Seq<(Seq<char>, Facts)>,
    right: Seq<(Seq<char>, Facts)>,
    case_sensitive: bool,
    k: int,
)
    requires
        0 <= k < lined_up(left, right, case_sensitive).len(),
    ensures
        ({
            let rows = lined_up(left, right, case_sensitive);
            let row = rows[k];
            &&& match row.left {
                Some(facts) => has_under(left, row.name, case_sensitive, facts),
                None => forall|i: int|
                    0 <= i < left.len() ==> name_key((#[trigger] left[i]).0, case_sensitive)
                        != name_key(row.name, case_sensitive),
            }
            &&& match row.right {
                Some(facts) => has_under(right, row.name, case_sensitive, facts),
                None => forall|i: int|
                    0 <= i < right.len() ==> name_key((#[trigger] right[i]).0, case_sensitive)
                        != name_key(row.name, case_sensitive),
            }
            &&& row.left is Some || row.right is Some
            &&& row.state == state_between(row.left, row.right, None)
            &&& row.direction == suggestion(row.state)
            &&& forall|j: int|
                0 <= j < k ==> text::before(
                    name_key((#[trigger] rows[j]).name, case_sensitive),
                    name_key(row.name, case_sensitive),
                )
        }),
{
    let slots = both_slots(left, right, case_sensitive);
    let rows = lined_up(left, right, case_sensitive);
    let key = slots[k].key;
    law_pairs_come_in_name_order(left, right, case_sensitive);
    lemma_keys_fit(left, right, case_sensitive);
    lemma_slot_found(slots, k);
    law_every_name_is_lined_up(left, right, case_sensitive, key);
    lemma_last_under(left, key, case_sensitive);
    lemma_last_under(right, key, case_sensitive);
    assert(rows[k].name == slots[k].name);
    assert forall|j: int| 0 <= j < k implies text::before(
        name_key((#[trigger] rows[j]).name, case_sensitive),
        name_key(rows[k].name, case_sensitive),
    ) by {
        assert(rows[j].name == slots[j].name);
        assert(text::before(slots[j].key, slots[k].key));
    }
}

/// No name of either listing is without a row.
pub proof fn law_every_name_has_a_row(
    left: Seq<(Seq<char>, Facts)>,
    right: Seq<(Seq<char>, Facts)>,
    case_sensitive: bool,
    name: Seq<char>,
)
    requires
        (exists|i: int| 0 <= i < left.len() && (#[trigger] left[i]).0 == name) || (exists|i: int|
            0 <= i < right.len() && (#[trigger] right[i]).0 == name),
    ensures
        exists|k: int|
            0 <= k < lined_up(left, right, case_sensitive).len() && name_key(
                (#[trigger] lined_up(left, right, case_sensitive)[k]).name,
                case_sensitive,
            ) == name_key(name, case_sensitive),
{
    let slots = both_slots(left, right, case_sensitive);
    let rows = lined_up(left, right, case_sensitive);
    let key = name_key(name, case_sensitive);
    law_every_name_is_lined_up(left, right, case_sensitive, key);
    lemma_last_under(left, key, case_sensitive);
    lemma_last_under(right, key, case_sensitive);
    lemma_keys_fit(left, right, case_sensitive);
    lemma_slot_is_there(slots, key);
    let slot = slot_of(slots, key)->0;
    let k = choose|k: int| 0 <= k < slots.len() && slots[k] == slot;
    assert(rows[k].name == slots[k].name);
    assert(slots[k].key == name_key(slots[k].name, case_sensitive));
}

/// Names that differ in case alone are one name where case is no matter, and
/// two where it is.
pub proof fn law_case_tells_names_apart_where_it_matters(a: Seq<char>, b: Seq<char>)
    ensures
        name_key(a, true) == name_key(b, true) <==> a == b,
        text::all_ascii(a) && text::all_ascii(b) ==> (name_key(a, false) == name_key(b, false)
            <==> text::ascii_lower(a) == text::ascii_lower(b)),
{
}

/// A control over the whole list sets the rows that were named and can go
/// that way, changes nothing else of them and no other row, and says how many
/// rows it changed.
pub proof fn law_a_control_sets_the_rows_it_is_for(
    pairs: Seq<PairView>,
    which: Seq<usize>,
    bulk: Bulk,
)
    ensures
        ({
            let (out, count) = turned_all(pairs, which, bulk);
            &&& out.len() == pairs.len()
            &&& forall|i: int|
                #![trigger out[i]]
                0 <= i < pairs.len() ==> {
                    let wanted = match bulk {
                        Bulk::All(direction) => direction,
                        Bulk::Suggested => suggestion(pairs[i].state),
                    };
                    let named = exists|k: int| 0 <= k < which.len() && #[trigger] which[k] == i;
                    out[i] == if named && can_go(pairs[i], wanted) {
                        PairView { direction: wanted, ..pairs[i] }
                    } else {
                        pairs[i]
                    }
                }
            &&& count == rows_changed(pairs, out)
        }),
    decreases which.len(),
{
    let (out, count) = turned_all(pairs, which, bulk);
    if which.len() == 0 {
        lemma_same_rows(pairs);
    } else {
        let before = which.drop_last();
        law_a_control_sets_the_rows_it_is_for(pairs, before, bulk);
        let (front, was) = turned_all(pairs, before, bulk);
        let at = which.last() as int;
        assert(which[which.len() - 1] == at);
        if at < front.len() && bulk_turns(front[at], bulk) {
            assert(front[at] == pairs[at]);
            lemma_one_row_more(pairs, front, at, out[at]);
        }
        assert forall|i: int| #![trigger out[i]] 0 <= i < pairs.len() implies {
            let wanted = match bulk {
                Bulk::All(direction) => direction,
                Bulk::Suggested => suggestion(pairs[i].state),
            };
            let named = exists|k: int| 0 <= k < which.len() && #[trigger] which[k] == i;
            out[i] == if named && can_go(pairs[i], wanted) {
                PairView { direction: wanted, ..pairs[i] }
            } else {
                pairs[i]
            }
        } by {
            let f = front[i];
            if exists|k: int| 0 <= k < before.len() && #[trigger] before[k] == i {
                let k = choose|k: int| 0 <= k < before.len() && #[trigger] before[k] == i;
                assert(which[k] == i);
            } else if i != at {
                assert forall|k: int| 0 <= k < which.len() implies #[trigger] which[k] != i by {
                    if k < before.len() {
                        assert(before[k] == which[k]);
                    }
                }
            }
        }
    }
}

/// How many rows differ between two lists of the same length.
pub open spec fn rows_changed(before: Seq<PairView>, after: Seq<PairView>) -> nat
    decreases before.len(),
{
    if before.len() == 0 {
        0
    } else {
        rows_changed(before.drop_last(), after.drop_last()) + (if before.last() != after.last() {
            1nat
        } else {
            0
        })
    }
}

proof fn lemma_same_rows(pairs: Seq<PairView>)
    ensures
        rows_changed(pairs, pairs) == 0,
    decreases pairs.len(),
{
    if pairs.len() > 0 {
        lemma_same_rows(pairs.drop_last());
    }
}

proof fn lemma_one_row_more(
    before: Seq<PairView>,
    after: Seq<PairView>,
    at: int,
    row: PairView,
)
    requires
        before.len() == after.len(),
        0 <= at < after.len(),
        after[at] == before[at],
        row != before[at],
    ensures
        rows_changed(before, after.update(at, row)) == rows_changed(before, after) + 1,
    decreases before.len(),
{
    let out = after.update(at, row);
    if at < before.len() - 1 {
        lemma_one_row_more(before.drop_last(), after.drop_last(), at, row);
        assert(out.drop_last() =~= after.drop_last().update(at, row));
    } else {
        assert(out.drop_last() =~= after.drop_last());
    }
}

/// What a synchronize copies: for every row that is to go somewhere and has
/// something to go from, that name from the one root to the other; and
/// nothing else, and in the order of the rows.
pub proof fn law_what_is_copied_where(
    style: Style,
    pairs: Seq<PairView>,
    left_root: Seq<char>,
    right_root: Seq<char>,
)
    ensures
        ({
            let copies = copies_of(style, pairs, left_root, right_root);
            forall|from: Seq<char>, to: Seq<char>| #[trigger]
                copies.contains((from, to)) <==> exists|i: int|
                    {
                        let on_left = pathname::joined(style, left_root, pairs[i].name);
                        let on_right = pathname::joined(style, right_root, pairs[i].name);
                        &&& 0 <= i < pairs.len()
                        &&& match (#[trigger] pairs[i]).direction {
                            Direction::ToRight => pairs[i].left is Some && from == on_left && to
                                == on_right,
                            Direction::ToLeft => pairs[i].right is Some && from == on_right && to
                                == on_left,
                            Direction::Skip => false,
                        }
                    }
        }),
    decreases pairs.len(),
{
    let copies = copies_of(style, pairs, left_root, right_root);
    if pairs.len() > 0 {
        let before = pairs.drop_last();
        let last = pairs.len() - 1;
        let front = copies_of(style, before, left_root, right_root);
        law_what_is_copied_where(style, before, left_root, right_root);
        assert forall|from: Seq<char>, to: Seq<char>| #[trigger]
            copies.contains((from, to)) <==> exists|i: int|
                {
                    let on_left = pathname::joined(style, left_root, pairs[i].name);
                    let on_right = pathname::joined(style, right_root, pairs[i].name);
                    &&& 0 <= i < pairs.len()
                    &&& match (#[trigger] pairs[i]).direction {
                        Direction::ToRight => pairs[i].left is Some && from == on_left && to
                            == on_right,
                        Direction::ToLeft => pairs[i].right is Some && from == on_right && to
                            == on_left,
                        Direction::Skip => false,
                    }
                } by {
            let fits = |p: PairView|
                {
                    let on_left = pathname::joined(style, left_root, p.name);
                    let on_right = pathname::joined(style, right_root, p.name);
                    match p.direction {
                        Direction::ToRight => p.left is Some && from == on_left && to == on_right,
                        Direction::ToLeft => p.right is Some && from == on_right && to == on_left,
                        Direction::Skip => false,
                    }
                };
            if copies.contains((from, to)) {
                let k = choose|k: int| 0 <= k < copies.len() && copies[k] == (from, to);
                if k < front.len() {
                    assert(front[k] == (from, to));
                    assert(front.contains((from, to)));
                    let i = choose|i: int|
                        0 <= i < before.len() && fits(#[trigger] before[i]);
                    assert(before[i] == pairs[i]);
                    assert(fits(pairs[i]));
                } else {
                    assert(fits(pairs[last]));
                }
            }
            if exists|i: int| 0 <= i < pairs.len() && fits(#[trigger] pairs[i]) {
                let i = choose|i: int| 0 <= i < pairs.len() && fits(#[trigger] pairs[i]);
                if i < last {
                    assert(before[i] == pairs[i]);
                    assert(fits(before[i]));
                    assert(front.contains((from, to)));
                    let k = choose|k: int| 0 <= k < front.len() && front[k] == (from, to);
                    assert(copies[k] == (from, to));
                } else {
                    assert(copies[copies.len() - 1] == (from, to));
                }
            }
        }
    }
}

/// The copies of two lists of rows are those of the one and then those of the
/// other.
pub proof fn law_copies_come_in_the_order_of_the_rows(
    style: Style,
    first: Seq<PairView>,
    second: Seq<PairView>,
    left_root: Seq<char>,
    right_root: Seq<char>,
)
    ensures
        copies_of(style, first + second, left_root, right_root) == copies_of(
            style,
            first,
            left_root,
            right_root,
        ) + copies_of(style, second, left_root, right_root),
    decreases second.len(),
{
    let all = first + second;
    let (a, b) = (
        copies_of(style, first, left_root, right_root),
        copies_of(style, second, left_root, right_root),
    );
    if second.len() == 0 {
        assert(all =~= first);
        assert(a + b =~= a);
    } else {
        assert(all.drop_last() =~= first + second.drop_last());
        law_copies_come_in_the_order_of_the_rows(
            style,
            first,
            second.drop_last(),
            left_root,
            right_root,
        );
        assert(copies_of(style, all, left_root, right_root) =~= a + b);
    }
}

/// Every row is counted once: by where it goes, and where it goes nowhere, by
/// whether its sides are the same. The counts of two lists add up.
pub proof fn law_every_row_is_counted_once(first: Seq<PairView>, second: Seq<PairView>, row: PairView)
    ensures
        count_in(first, Bucket::Same) + count_in(first, Bucket::ToRight) + count_in(
            first,
            Bucket::ToLeft,
        ) + count_in(first, Bucket::SkippedDifference) == first.len(),
        forall|bucket: Bucket| #[trigger]
            count_in(first + second, bucket) == count_in(first, bucket) + count_in(second, bucket),
        count_in(seq![row], Bucket::ToRight) == 1 <==> row.direction == Direction::ToRight,
        count_in(seq![row], Bucket::ToLeft) == 1 <==> row.direction == Direction::ToLeft,
        count_in(seq![row], Bucket::Same) == 1 <==> row.direction == Direction::Skip && row.state
            == State::Same,
        count_in(seq![row], Bucket::SkippedDifference) == 1 <==> row.direction == Direction::Skip
            && row.state != State::Same,
{
    lemma_counts_make_all(first);
    assert forall|bucket: Bucket| #[trigger]
        count_in(first + second, bucket) == count_in(first, bucket) + count_in(second, bucket) by {
        lemma_counts_add(first, second, bucket);
    }
    let one = seq![row];
    assert(one.drop_last() =~= Seq::<PairView>::empty());
    assert(count_in(one.drop_last(), Bucket::ToRight) == 0);
    assert(count_in(one.drop_last(), Bucket::ToLeft) == 0);
    assert(count_in(one.drop_last(), Bucket::Same) == 0);
    assert(count_in(one.drop_last(), Bucket::SkippedDifference) == 0);
}

proof fn lemma_counts_make_all(pairs: Seq<PairView>)
    ensures
        count_in(pairs, Bucket::Same) + count_in(pairs, Bucket::ToRight) + count_in(
            pairs,
            Bucket::ToLeft,
        ) + count_in(pairs, Bucket::SkippedDifference) == pairs.len(),
    decreases pairs.len(),
{
    if pairs.len() > 0 {
        lemma_counts_make_all(pairs.drop_last());
    }
}

proof fn lemma_counts_add(first: Seq<PairView>, second: Seq<PairView>, bucket: Bucket)
    ensures
        count_in(first + second, bucket) == count_in(first, bucket) + count_in(second, bucket),
    decreases second.len(),
{
    let all = first + second;
    if second.len() == 0 {
        assert(all =~= first);
    } else {
        assert(all.drop_last() =~= first + second.drop_last());
        lemma_counts_add(first, second.drop_last(), bucket);
    }
}

/// What is marked to show the differences: on each side the names of its
/// files that the other side lacks, has an older one of, or has something
/// else under that is neither older nor newer.
pub proof fn law_each_side_marks_what_the_other_lacks(pairs: Seq<PairView>, name: Seq<char>)
    ensures
        marked_names(pairs, true).contains(name) <==> exists|i: int|
            {
                &&& 0 <= i < pairs.len()
                &&& (#[trigger] pairs[i]).name == name
                &&& pairs[i].left is None || !pairs[i].left->0.is_dir
                &&& pairs[i].state == State::OnlyLeft || pairs[i].state == State::LeftNewer
                    || pairs[i].state == State::Differ
            },
        marked_names(pairs, false).contains(name) <==> exists|i: int|
            {
                &&& 0 <= i < pairs.len()
                &&& (#[trigger] pairs[i]).name == name
                &&& pairs[i].right is None || !pairs[i].right->0.is_dir
                &&& pairs[i].state == State::OnlyRight || pairs[i].state == State::RightNewer
                    || pairs[i].state == State::Differ
            },
{
    lemma_marked_names(pairs, name, true);
    lemma_marked_names(pairs, name, false);
    let on_left = |pair: PairView|
        {
            &&& pair.name == name
            &&& pair.left is None || !pair.left->0.is_dir
            &&& pair.state == State::OnlyLeft || pair.state == State::LeftNewer || pair.state
                == State::Differ
        };
    let on_right = |pair: PairView|
        {
            &&& pair.name == name
            &&& pair.right is None || !pair.right->0.is_dir
            &&& pair.state == State::OnlyRight || pair.state == State::RightNewer || pair.state
                == State::Differ
        };
    assert forall|i: int| 0 <= i < pairs.len() implies (on_left(#[trigger] pairs[i]) <==> (
    pairs[i].name == name && left_marks(pairs[i]))) && (on_right(pairs[i]) <==> (pairs[i].name
        == name && right_marks(pairs[i]))) by {}
}

proof fn lemma_marked_names(pairs: Seq<PairView>, name: Seq<char>, of_left: bool)
    ensures
        marked_names(pairs, of_left).contains(name) <==> exists|i: int|
            0 <= i < pairs.len() && (#[trigger] pairs[i]).name == name && (if of_left {
                left_marks(pairs[i])
            } else {
                right_marks(pairs[i])
            }),
    decreases pairs.len(),
{
    let out = marked_names(pairs, of_left);
    let fits = |pair: PairView|
        pair.name == name && (if of_left {
            left_marks(pair)
        } else {
            right_marks(pair)
        });
    if pairs.len() > 0 {
        let before = pairs.drop_last();
        let front = marked_names(before, of_left);
        lemma_marked_names(before, name, of_left);
        if out.contains(name) {
            let k = choose|k: int| 0 <= k < out.len() && out[k] == name;
            if k < front.len() {
                assert(front[k] == name);
                assert(front.contains(name));
                let i = choose|i: int| 0 <= i < before.len() && fits(#[trigger] before[i]);
                assert(before[i] == pairs[i]);
                assert(fits(pairs[i]));
            } else {
                assert(fits(pairs[pairs.len() - 1]));
            }
        }
        if exists|i: int| 0 <= i < pairs.len() && fits(#[trigger] pairs[i]) {
            let i = choose|i: int| 0 <= i < pairs.len() && fits(#[trigger] pairs[i]);
            if i < before.len() {
                assert(before[i] == pairs[i]);
                assert(fits(before[i]));
                assert(front.contains(name));
                let k = choose|k: int| 0 <= k < front.len() && front[k] == name;
                assert(out[k] == name);
            } else {
                assert(out[out.len() - 1] == name);
            }
        }
    }
}

/// A panel is compared by all that it lists but the way up, each by its name,
/// size and time.
pub proof fn law_a_panel_is_compared_by_its_lines(first: Seq<EntryView>, entry: EntryView)
    ensures
        entry_facts(first.push(entry)) == if entry.kind == EntryKind::Parent {
            entry_facts(first)
        } else {
            entry_facts(first).push(
                (
                    entry.name,
                    Facts {
                        size: entry.size,
                        modified: entry.modified,
                        is_dir: entry.kind == EntryKind::Dir,
                    },
                ),
            )
        },
{
    assert(first.push(entry).drop_last() =~= first);
}

/// Of a listing the names with a dot in front are left out where hidden ones
/// were not asked for, and nothing else is.
pub proof fn law_only_hidden_names_are_left_out(
    list: Seq<(Seq<char>, Facts)>,
    include_hidden: bool,
    item: (Seq<char>, Facts),
)
    ensures
        shown_facts(list, include_hidden).contains(item) <==> list.contains(item) && (include_hidden
            || item.0.len() == 0 || item.0[0] != '.'),
        include_hidden ==> shown_facts(list, include_hidden) == list,
    decreases list.len(),
{
    let out = shown_facts(list, include_hidden);
    if list.len() > 0 {
        let before = list.drop_last();
        let front = shown_facts(before, include_hidden);
        law_only_hidden_names_are_left_out(before, include_hidden, item);
        assert(list =~= before.push(list.last()));
        if out.contains(item) {
            let k = choose|k: int| 0 <= k < out.len() && out[k] == item;
            if k < front.len() {
                assert(front[k] == item);
                assert(front.contains(item));
                let j = choose|j: int| 0 <= j < before.len() && before[j] == item;
                assert(list[j] == item);
            } else {
                assert(list[list.len() - 1] == item);
            }
        }
        if list.contains(item) && (include_hidden || item.0.len() == 0 || item.0[0] != '.') {
            let j = choose|j: int| 0 <= j < list.len() && list[j] == item;
            if j < before.len() {
                assert(before[j] == item);
                assert(before.contains(item));
                let k = choose|k: int| 0 <= k < front.len() && front[k] == item;
                assert(out[k] == item);
            } else {
                assert(out[out.len() - 1] == item);
            }
        }
    } else {
        assert(out =~= list);
    }
}

/// Two files are read where a comparison by content was asked for and both
/// sides have the name, as a file; and nothing else is read. What was read
/// then decides.
pub proof fn law_only_pairs_of_files_are_read(
    prefix: Seq<char>,
    name: Seq<char>,
    left: Option<Facts>,
    right: Option<Facts>,
    options: Options,
    same: Option<bool>,
)
    requires
        left is Some || right is Some,
        !(left is Some && left->0.is_dir && right is Some && right->0.is_dir),
    ensures
        ({
            let found = found_at(prefix, seq![paired(name, left, right, None)], options);
            &&& found.len() == 1
            &&& found[0].pair.left == left && found[0].pair.right == right
            &&& found[0].pair.name == if prefix.len() == 0 {
                name
            } else {
                prefix + seq!['/'] + name
            }
            &&& found[0].read_both <==> options.by_content && left is Some && right is Some
                && !left->0.is_dir && !right->0.is_dir
            &&& found[0].read_both ==> settled(found[0], same).state == state_between(
                left,
                right,
                same,
            ) && settled(found[0], same).direction == suggestion(state_between(left, right, same))
            &&& !found[0].read_both ==> settled(found[0], same) == found[0].pair
            &&& settled(found[0], same).name == found[0].pair.name
            &&& settled(found[0], same).left == left && settled(found[0], same).right == right
        }),
{
    let pair = paired(name, left, right, None);
    let one = seq![pair];
    assert(one.drop_last() =~= Seq::<PairView>::empty());
    assert(one.last() == pair);
    reveal_strlit("/");
    assert("/"@ =~= seq!['/']);
    assert(found_at(prefix, one.drop_last(), options) =~= Seq::empty());
    assert(found_at(prefix, one, options).len() == 1);
}

/// Marking the differences marks the files that were named and nothing else:
/// no directory, no way up, and nothing that was marked before; nothing else
/// of a line changes.
pub proof fn law_only_the_named_files_are_marked(
    p: PanelView,
    names: Seq<Seq<char>>,
    case_sensitive: bool,
    i: int,
)
    requires
        0 <= i < p.entries.len(),
    ensures
        marks_applied(p, names, case_sensitive).entries.len() == p.entries.len(),
        marks_applied(p, names, case_sensitive).entries[i] == (EntryView {
            marked: p.entries[i].kind == EntryKind::File && exists|k: int|
                0 <= k < names.len() && name_key(#[trigger] names[k], case_sensitive) == name_key(
                    p.entries[i].name,
                    case_sensitive,
                ),
            ..p.entries[i]
        }),
        marks_applied(p, names, case_sensitive).cursor == p.cursor,
        marks_applied(p, names, case_sensitive).cwd == p.cwd,
{
    let keys = name_keys(names, case_sensitive);
    let key = name_key(p.entries[i].name, case_sensitive);
    if keys.contains(key) {
        let k = choose|k: int| 0 <= k < keys.len() && keys[k] == key;
        assert(name_key(names[k], case_sensitive) == key);
    }
    if exists|k: int|
        0 <= k < names.len() && name_key(#[trigger] names[k], case_sensitive) == key {
        let k = choose|k: int|
            0 <= k < names.len() && name_key(#[trigger] names[k], case_sensitive) == key;
        assert(keys[k] == key);
    }
}

/// Only what is a directory on both sides is walked into, and nothing where a
/// walk was not asked for.
pub proof fn law_only_pairs_of_directories_are_walked_into(
    prefix: Seq<char>,
    pairs: Seq<PairView>,
    options: Options,
    k: int,
)
    requires
        0 <= k < below_at(prefix, pairs, options).len(),
    ensures
        options.recursive,
        exists|i: int|
            {
                &&& 0 <= i < pairs.len()
                &&& (#[trigger] pairs[i]).left is Some && pairs[i].left->0.is_dir
                &&& pairs[i].right is Some && pairs[i].right->0.is_dir
                &&& below_at(prefix, pairs, options)[k] == relative_name(prefix, pairs[i].name)
            },
    decreases pairs.len(),
{
    if pairs.len() > 0 {
        let before = pairs.drop_last();
        let front = below_at(prefix, before, options);
        let out = below_at(prefix, pairs, options);
        if k < front.len() {
            law_only_pairs_of_directories_are_walked_into(prefix, before, options, k);
            let i = choose|i: int|
                {
                    &&& 0 <= i < before.len()
                    &&& (#[trigger] before[i]).left is Some && before[i].left->0.is_dir
                    &&& before[i].right is Some && before[i].right->0.is_dir
                    &&& front[k] == relative_name(prefix, before[i].name)
                };
            assert(pairs[i] == before[i]);
            assert(out[k] == front[k]);
        } else {
            assert(pairs[pairs.len() - 1].left is Some);
        }
    }
}

/// Everything that is found at a level is a row of it, by its place below the
/// roots, and no row that is a directory on both sides is.
pub proof fn law_what_is_found_is_a_row(
    prefix: Seq<char>,
    pairs: Seq<PairView>,
    options: Options,
    k: int,
)
    requires
        0 <= k < found_at(prefix, pairs, options).len(),
    ensures
        exists|i: int|
            {
                &&& 0 <= i < pairs.len()
                &&& !both_dirs(#[trigger] pairs[i])
                &&& found_at(prefix, pairs, options)[k].pair == (PairView {
                    name: relative_name(prefix, pairs[i].name),
                    ..pairs[i]
                })
            },
    decreases pairs.len(),
{
    if pairs.len() > 0 {
        let before = pairs.drop_last();
        let front = found_at(prefix, before, options);
        let out = found_at(prefix, pairs, options);
        if k < front.len() {
            law_what_is_found_is_a_row(prefix, before, options, k);
            let i = choose|i: int|
                {
                    &&& 0 <= i < before.len()
                    &&& !both_dirs(#[trigger] before[i])
                    &&& front[k].pair == (PairView {
                        name: relative_name(prefix, before[i].name),
                        ..before[i]
                    })
                };
            assert(pairs[i] == before[i]);
            assert(out[k] == front[k]);
        } else {
            assert(!both_dirs(pairs[pairs.len() - 1]));
        }
    }
}

} // verus!
