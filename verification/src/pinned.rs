//! Commands worth keeping at the top: pinned to the directory they belong to.
//!
//! A pin says "this line, this folder, always on top". A pinned line is kept
//! exactly as typed.

use vstd::prelude::*;
use crate::pathname;
use crate::pathname::Style;
use crate::paths;
use crate::text;

verus! {

broadcast use vstd::string::group_string_axioms;

/// One pinned line, and the directory it belongs to.
#[derive(Debug, Clone, PartialEq, Eq)]
pub struct Pin {
    pub cwd: String,
    pub line: String,
}

/// One pinned line, as characters.
#[verifier::ext_equal]
pub struct PinView {
    pub cwd: Seq<char>,
    pub line: Seq<char>,
}

impl View for Pin {
    type V = PinView;

    open spec fn view(&self) -> PinView {
        PinView { cwd: self.cwd@, line: self.line@ }
    }
}

/// Pins as characters.
pub open spec fn pin_views(pins: Seq<Pin>) -> Seq<PinView> {
    pins.map_values(|pin: Pin| pin@)
}

/// Every pin, in the order they were made. Order is kept rather than sorted:
/// the reader builds the shelf.
#[derive(Debug, Clone, PartialEq, Eq)]
pub struct Pinned {
    pub pins: Vec<Pin>,
}

impl Default for Pinned {
    fn default() -> (r: Pinned)
        ensures
            r.pins@.len() == 0,
    {
        Pinned { pins: Vec::new() }
    }
}

/// Whether a pin is of a line in a directory.
pub open spec fn is_pin(style: Style, pin: PinView, cwd: Seq<char>, line: Seq<char>) -> bool {
    pathname::same(style, pin.cwd, cwd) && pin.line == line
}

/// Whether a line is pinned to a directory.
pub open spec fn has_pin(
    style: Style,
    pins: Seq<PinView>,
    cwd: Seq<char>,
    line: Seq<char>,
) -> bool {
    exists|i: int| 0 <= i < pins.len() && is_pin(style, #[trigger] pins[i], cwd, line)
}

/// Pins without those of a line in a directory.
pub open spec fn without_pin(
    style: Style,
    pins: Seq<PinView>,
    cwd: Seq<char>,
    line: Seq<char>,
) -> Seq<PinView>
    decreases pins.len(),
{
    if pins.len() == 0 {
        Seq::empty()
    } else if is_pin(style, pins.last(), cwd, line) {
        without_pin(style, pins.drop_last(), cwd, line)
    } else {
        without_pin(style, pins.drop_last(), cwd, line).push(pins.last())
    }
}

/// Pins with a line taken out of a directory's, or added to them.
pub open spec fn toggled(
    style: Style,
    pins: Seq<PinView>,
    cwd: Seq<char>,
    line: Seq<char>,
) -> Seq<PinView> {
    if has_pin(style, pins, cwd, line) {
        without_pin(style, pins, cwd, line)
    } else {
        pins.push(PinView { cwd, line })
    }
}

/// The pins of one directory, in the order they were made.
pub open spec fn pins_at(style: Style, pins: Seq<PinView>, cwd: Seq<char>) -> Seq<PinView>
    decreases pins.len(),
{
    if pins.len() == 0 {
        Seq::empty()
    } else if pathname::same(style, pins.last().cwd, cwd) {
        pins_at(style, pins.drop_last(), cwd).push(pins.last())
    } else {
        pins_at(style, pins.drop_last(), cwd)
    }
}

fn matches_pin(style: Style, pin: &Pin, cwd: &str, line: &str) -> (r: bool)
    ensures
        r == is_pin(style, pin@, cwd@, line@),
{
    pathname::is_same(style, pin.cwd.as_str(), cwd) && text::same(pin.line.as_str(), line)
}

impl Pinned {
    /// Where the pins are kept.
    pub fn path(style: Style, config_dir: Option<&str>) -> (r: Option<String>)
        ensures
            text::optional(r) == paths::own(style, text::maybe(config_dir), "pinned.toml"@),
    {
        paths::own_file(style, config_dir, "pinned.toml")
    }

    /// Pin a line here, or take the pin back out - and say which happened.
    ///
    /// Said twice it should end where it started, not fail the second time.
    pub fn toggle(&mut self, style: Style, cwd: &str, line: &str) -> (r: bool)
        ensures
            pin_views(final(self).pins@) == toggled(
                style,
                pin_views(old(self).pins@),
                cwd@,
                text::trimmed(line@),
            ),
            r == !has_pin(style, pin_views(old(self).pins@), cwd@, text::trimmed(line@)),
    {
        let line: &str = text::trim(line);
        let ghost given = pin_views(self.pins@);
        if !self.is_pinned(style, cwd, line) {
            let pin: Pin = Pin { cwd: cwd.to_owned(), line: line.to_owned() };
            self.pins.push(pin);
            assert(pin_views(self.pins@) =~= given.push(pin@));
            return true;
        }
        let mut kept: Vec<Pin> = Vec::new();
        let mut i: usize = 0;
        assert(given.take(0) =~= Seq::<PinView>::empty());
        assert(pin_views(kept@) =~= Seq::empty());
        while i < self.pins.len()
            invariant
                i <= self.pins@.len(),
                given == pin_views(self.pins@),
                pin_views(kept@) == without_pin(style, given.take(i as int), cwd@, line@),
            decreases self.pins@.len() - i,
        {
            proof {
                assert(given.take(i + 1).drop_last() =~= given.take(i as int));
                assert(given.take(i + 1).last() == self.pins@[i as int]@);
            }
            if !matches_pin(style, &self.pins[i], cwd, line) {
                let ghost was = pin_views(kept@);
                let pin: Pin = Pin {
                    cwd: self.pins[i].cwd.clone(),
                    line: self.pins[i].line.clone(),
                };
                kept.push(pin);
                assert(pin_views(kept@) =~= was.push(self.pins@[i as int]@));
            }
            i += 1;
        }
        assert(given.take(i as int) =~= given);
        self.pins = kept;
        false
    }

    pub fn is_pinned(&self, style: Style, cwd: &str, line: &str) -> (r: bool)
        ensures
            r == has_pin(style, pin_views(self.pins@), cwd@, line@),
    {
        let ghost all = pin_views(self.pins@);
        let mut i: usize = 0;
        while i < self.pins.len()
            invariant
                i <= self.pins@.len(),
                all == pin_views(self.pins@),
                forall|j: int| 0 <= j < i ==> !is_pin(style, #[trigger] all[j], cwd@, line@),
            decreases self.pins@.len() - i,
        {
            assert(all[i as int] == self.pins@[i as int]@);
            if matches_pin(style, &self.pins[i], cwd, line) {
                return true;
            }
            i += 1;
        }
        false
    }

    /// The shelf for one directory, in the order it was built.
    pub fn here(&self, style: Style, cwd: &str) -> (r: Vec<&Pin>)
        ensures
            r@.map_values(|pin: &Pin| pin@) == pins_at(style, pin_views(self.pins@), cwd@),
    {
        let ghost all = pin_views(self.pins@);
        let mut out: Vec<&Pin> = Vec::new();
        let mut i: usize = 0;
        assert(all.take(0) =~= Seq::<PinView>::empty());
        assert(out@.map_values(|pin: &Pin| pin@) =~= Seq::empty());
        while i < self.pins.len()
            invariant
                i <= self.pins@.len(),
                all == pin_views(self.pins@),
                out@.map_values(|pin: &Pin| pin@) == pins_at(style, all.take(i as int), cwd@),
            decreases self.pins@.len() - i,
        {
            proof {
                assert(all.take(i + 1).drop_last() =~= all.take(i as int));
                assert(all.take(i + 1).last() == self.pins@[i as int]@);
            }
            if pathname::is_same(style, self.pins[i].cwd.as_str(), cwd) {
                let ghost was = out@.map_values(|pin: &Pin| pin@);
                out.push(&self.pins[i]);
                assert(out@.map_values(|pin: &Pin| pin@) =~= was.push(self.pins@[i as int]@));
            }
            i += 1;
        }
        assert(all.take(i as int) =~= all);
        out
    }
}

// ---- laws -------------------------------------------------------------------------------------

/// Pinning a line and taking the pin back out ends where it started.
pub proof fn law_pinning_twice_ends_where_it_started(
    style: Style,
    pins: Seq<PinView>,
    cwd: Seq<char>,
    line: Seq<char>,
)
    requires
        !has_pin(style, pins, cwd, line),
    ensures
        toggled(style, toggled(style, pins, cwd, line), cwd, line) == pins,
{
    let once = pins.push(PinView { cwd, line });
    assert(is_pin(style, once[pins.len() as int], cwd, line));
    assert(once.drop_last() =~= pins);
    lemma_nothing_to_take(style, pins, cwd, line);
}

proof fn lemma_nothing_to_take(style: Style, pins: Seq<PinView>, cwd: Seq<char>, line: Seq<char>)
    requires
        !has_pin(style, pins, cwd, line),
    ensures
        without_pin(style, pins, cwd, line) == pins,
    decreases pins.len(),
{
    if pins.len() > 0 {
        let front = pins.drop_last();
        assert(!is_pin(style, pins[pins.len() - 1], cwd, line));
        assert forall|i: int| 0 <= i < front.len() implies !is_pin(
            style,
            #[trigger] front[i],
            cwd,
            line,
        ) by {
            assert(!is_pin(style, pins[i], cwd, line));
        }
        lemma_nothing_to_take(style, front, cwd, line);
        assert(front.push(pins.last()) =~= pins);
    } else {
        assert(without_pin(style, pins, cwd, line) =~= pins);
    }
}

/// A line taken out is not pinned any more.
pub proof fn law_a_pin_taken_out_is_gone(
    style: Style,
    pins: Seq<PinView>,
    cwd: Seq<char>,
    line: Seq<char>,
)
    ensures
        !has_pin(style, without_pin(style, pins, cwd, line), cwd, line),
    decreases pins.len(),
{
    if pins.len() > 0 {
        law_a_pin_taken_out_is_gone(style, pins.drop_last(), cwd, line);
        let front = without_pin(style, pins.drop_last(), cwd, line);
        let out = without_pin(style, pins, cwd, line);
        assert forall|i: int| 0 <= i < out.len() implies !is_pin(
            style,
            #[trigger] out[i],
            cwd,
            line,
        ) by {
            if i < front.len() {
                assert(out[i] == front[i]);
            }
        }
    }
}

/// Pinning a line to one directory changes nothing on another's shelf.
pub proof fn law_other_shelves_stay_as_they_are(
    style: Style,
    pins: Seq<PinView>,
    cwd: Seq<char>,
    line: Seq<char>,
    other: Seq<char>,
)
    requires
        !pathname::same(style, cwd, other),
    ensures
        pins_at(style, toggled(style, pins, cwd, line), other) == pins_at(style, pins, other),
{
    if has_pin(style, pins, cwd, line) {
        lemma_other_shelf(style, pins, cwd, line, other);
    } else {
        assert(pins.push(PinView { cwd, line }).drop_last() =~= pins);
    }
}

proof fn lemma_other_shelf(
    style: Style,
    pins: Seq<PinView>,
    cwd: Seq<char>,
    line: Seq<char>,
    other: Seq<char>,
)
    requires
        !pathname::same(style, cwd, other),
    ensures
        pins_at(style, without_pin(style, pins, cwd, line), other) == pins_at(style, pins, other),
    decreases pins.len(),
{
    if pins.len() > 0 {
        let front = pins.drop_last();
        lemma_other_shelf(style, front, cwd, line, other);
        if !is_pin(style, pins.last(), cwd, line) {
            assert(without_pin(style, pins, cwd, line).drop_last() =~= without_pin(style, front, cwd, line));
        }
    }
}

/// The shelf of a directory is its pins, in the order they were made.
pub proof fn law_a_shelf_is_in_the_order_it_was_built(
    style: Style,
    pins: Seq<PinView>,
    cwd: Seq<char>,
)
    ensures
        pins_at(style, pins, cwd) == pins.filter(
            |pin: PinView| pathname::same(style, pin.cwd, cwd),
        ),
    decreases pins.len(),
{
    reveal(Seq::filter);
    if pins.len() > 0 {
        law_a_shelf_is_in_the_order_it_was_built(style, pins.drop_last(), cwd);
    }
}

/// A new pin comes behind all the others, and one taken out leaves the others
/// in their order.
pub proof fn law_a_new_pin_comes_last(
    style: Style,
    pins: Seq<PinView>,
    cwd: Seq<char>,
    line: Seq<char>,
)
    ensures
        (forall|i: int|
            0 <= i < pins.len() ==> !(pathname::same(style, (#[trigger] pins[i]).cwd, cwd)
                && pins[i].line == line)) ==> toggled(style, pins, cwd, line) == pins.push(
            PinView { cwd, line },
        ),
        (exists|i: int|
            0 <= i < pins.len() && pathname::same(style, (#[trigger] pins[i]).cwd, cwd)
                && pins[i].line == line) ==> toggled(style, pins, cwd, line) == pins.filter(
            |pin: PinView| !(pathname::same(style, pin.cwd, cwd) && pin.line == line),
        ),
{
    lemma_without_filter(style, pins, cwd, line);
    if exists|i: int|
        0 <= i < pins.len() && pathname::same(style, (#[trigger] pins[i]).cwd, cwd) && pins[i].line
            == line {
        let i = choose|i: int|
            0 <= i < pins.len() && pathname::same(style, (#[trigger] pins[i]).cwd, cwd)
                && pins[i].line == line;
        assert(is_pin(style, pins[i], cwd, line));
        assert(has_pin(style, pins, cwd, line));
    } else if has_pin(style, pins, cwd, line) {
        let i = choose|i: int| 0 <= i < pins.len() && is_pin(style, #[trigger] pins[i], cwd, line);
        assert(pathname::same(style, pins[i].cwd, cwd));
    }
}

proof fn lemma_without_filter(
    style: Style,
    pins: Seq<PinView>,
    cwd: Seq<char>,
    line: Seq<char>,
)
    ensures
        without_pin(style, pins, cwd, line) == pins.filter(
            |pin: PinView| !(pathname::same(style, pin.cwd, cwd) && pin.line == line),
        ),
    decreases pins.len(),
{
    reveal(Seq::filter);
    if pins.len() > 0 {
        lemma_without_filter(style, pins.drop_last(), cwd, line);
    }
}

} // verus!
