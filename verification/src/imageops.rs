//! The geometry of the picture operations: turning, flipping, cropping and
//! resizing.
//!
//! Only the arithmetic is here. The source is never touched: a session holds
//! the operations, not the result, so undoing is dropping an operation rather
//! than trying to reverse one.

use vstd::prelude::*;
use crate::text;

verus! {

broadcast use vstd::string::group_string_axioms;

// ---- turning ----------------------------------------------------------------------------------

/// A quarter-turn clockwise.
#[derive(Debug, Clone, Copy, PartialEq, Eq, Structural)]
pub enum Turn {
    Upright,
    Right,
    Half,
    Left,
}

impl Default for Turn {
    fn default() -> (r: Turn)
        ensures
            r == Turn::Upright,
    {
        Turn::Upright
    }
}

/// How many quarter-turns clockwise.
pub open spec fn quarters_of(turn: Turn) -> int {
    match turn {
        Turn::Upright => 0,
        Turn::Right => 1,
        Turn::Half => 2,
        Turn::Left => 3,
    }
}

/// The turn of so many quarters.
pub open spec fn turn_of(quarters: int) -> Turn {
    if quarters % 4 == 0 {
        Turn::Upright
    } else if quarters % 4 == 1 {
        Turn::Right
    } else if quarters % 4 == 2 {
        Turn::Half
    } else {
        Turn::Left
    }
}

/// Whether a turn puts the picture's width where its height was.
pub open spec fn swaps(turn: Turn) -> bool {
    turn == Turn::Right || turn == Turn::Left
}

impl Turn {
    /// How many quarter-turns clockwise, which is what makes them compose.
    pub fn quarters(self) -> (r: u8)
        ensures
            r == quarters_of(self),
    {
        match self {
            Turn::Upright => 0,
            Turn::Right => 1,
            Turn::Half => 2,
            Turn::Left => 3,
        }
    }

    pub fn from_quarters(quarters: u8) -> (r: Turn)
        ensures
            r == turn_of(quarters as int),
    {
        match quarters % 4 {
            0 => Turn::Upright,
            1 => Turn::Right,
            2 => Turn::Half,
            _ => Turn::Left,
        }
    }

    pub fn right(self) -> (r: Turn)
        ensures
            r == turn_of(quarters_of(self) + 1),
    {
        Turn::from_quarters(self.quarters() + 1)
    }

    pub fn left(self) -> (r: Turn)
        ensures
            r == turn_of(quarters_of(self) + 3),
    {
        Turn::from_quarters(self.quarters() + 3)
    }

    /// Whether this turn puts the picture's width where its height was.
    pub fn swaps_axes(self) -> (r: bool)
        ensures
            r == swaps(self),
    {
        match self {
            Turn::Right | Turn::Left => true,
            _ => false,
        }
    }

    pub fn label(self) -> (r: &'static str)
        ensures
            r@ == turn_label(self),
    {
        match self {
            Turn::Upright => "0°",
            Turn::Right => "90°",
            Turn::Half => "180°",
            Turn::Left => "270°",
        }
    }
}

/// What a turn is called.
pub open spec fn turn_label(turn: Turn) -> Seq<char> {
    match turn {
        Turn::Upright => "0°"@,
        Turn::Right => "90°"@,
        Turn::Half => "180°"@,
        Turn::Left => "270°"@,
    }
}

/// Turning and flipping together, applied in one fixed order: flip first,
/// then turn.
#[derive(Debug, Clone, Copy, PartialEq, Eq, Structural)]
pub struct Transform {
    pub turn: Turn,
    /// Mirror the source left to right, before the turn.
    pub flip_h: bool,
    /// Mirror the source top to bottom, before the turn.
    pub flip_v: bool,
}

impl Default for Transform {
    fn default() -> (r: Transform)
        ensures
            r == (Transform { turn: Turn::Upright, flip_h: false, flip_v: false }),
    {
        Transform { turn: Turn::Upright, flip_h: false, flip_v: false }
    }
}

/// Whether a transform changes nothing.
pub open spec fn changes_nothing(t: Transform) -> bool {
    t == (Transform { turn: Turn::Upright, flip_h: false, flip_v: false })
}

/// A transform with what is on screen mirrored left to right.
pub open spec fn flipped_across(t: Transform) -> Transform {
    if swaps(t.turn) {
        Transform { flip_v: !t.flip_v, ..t }
    } else {
        Transform { flip_h: !t.flip_h, ..t }
    }
}

/// A transform with what is on screen mirrored top to bottom.
pub open spec fn flipped_down(t: Transform) -> Transform {
    if swaps(t.turn) {
        Transform { flip_h: !t.flip_h, ..t }
    } else {
        Transform { flip_v: !t.flip_v, ..t }
    }
}

/// How big a picture of a size comes out.
pub open spec fn turned_size(t: Transform, size: (u32, u32)) -> (u32, u32) {
    if swaps(t.turn) {
        (size.1, size.0)
    } else {
        size
    }
}

impl Transform {
    pub fn is_identity(&self) -> (r: bool)
        ensures
            r == changes_nothing(*self),
    {
        self.turn == Turn::Upright && !self.flip_h && !self.flip_v
    }

    pub fn turn_right(&mut self)
        ensures
            *final(self) == (Transform {
                turn: turn_of(quarters_of(old(self).turn) + 1),
                ..*old(self)
            }),
    {
        self.turn = self.turn.right();
    }

    pub fn turn_left(&mut self)
        ensures
            *final(self) == (Transform {
                turn: turn_of(quarters_of(old(self).turn) + 3),
                ..*old(self)
            }),
    {
        self.turn = self.turn.left();
    }

    /// Mirror what is on screen left to right: with a quarter-turn in effect
    /// that is the source's vertical.
    pub fn flip_horizontal(&mut self)
        ensures
            *final(self) == flipped_across(*old(self)),
    {
        if self.turn.swaps_axes() {
            self.flip_v = !self.flip_v;
        } else {
            self.flip_h = !self.flip_h;
        }
    }

    /// Mirror what is on screen top to bottom. As above, the other way round.
    pub fn flip_vertical(&mut self)
        ensures
            *final(self) == flipped_down(*old(self)),
    {
        if self.turn.swaps_axes() {
            self.flip_h = !self.flip_h;
        } else {
            self.flip_v = !self.flip_v;
        }
    }

    /// Whether the result reads as mirrored left to right on screen.
    pub fn mirrored_on_screen(&self) -> (r: bool)
        ensures
            r == if swaps(self.turn) {
                self.flip_v
            } else {
                self.flip_h
            },
    {
        if self.turn.swaps_axes() {
            self.flip_v
        } else {
            self.flip_h
        }
    }

    /// Whether the result reads as flipped top to bottom on screen.
    pub fn flipped_on_screen(&self) -> (r: bool)
        ensures
            r == if swaps(self.turn) {
                self.flip_h
            } else {
                self.flip_v
            },
    {
        if self.turn.swaps_axes() {
            self.flip_h
        } else {
            self.flip_v
        }
    }

    /// How big the picture comes out.
    pub fn size_of(&self, size: (u32, u32)) -> (r: (u32, u32))
        ensures
            r == turned_size(*self, size),
    {
        if self.turn.swaps_axes() {
            (size.1, size.0)
        } else {
            size
        }
    }
}

// ---- cropping ---------------------------------------------------------------------------------

/// A rectangle of the picture, in the picture's own pixels.
#[derive(Debug, Clone, Copy, PartialEq, Eq, Structural)]
pub struct Crop {
    pub x: u32,
    pub y: u32,
    pub width: u32,
    pub height: u32,
}

/// The lesser of two.
pub open spec fn lesser(a: int, b: int) -> int {
    if a < b {
        a
    } else {
        b
    }
}

/// One number less another, or nothing where that is less than nothing.
pub open spec fn less_or_nothing(a: int, b: int) -> int {
    if a < b {
        0
    } else {
        a - b
    }
}

/// A rectangle trimmed to what is actually inside a picture.
pub open spec fn trimmed(crop: Crop, size: (u32, u32)) -> Option<Crop> {
    let x = lesser(crop.x as int, size.0 as int);
    let y = lesser(crop.y as int, size.1 as int);
    let width = lesser(crop.width as int, size.0 - x);
    let height = lesser(crop.height as int, size.1 - y);
    if width == 0 || height == 0 {
        None
    } else {
        Some(Crop { x: x as u32, y: y as u32, width: width as u32, height: height as u32 })
    }
}

fn min_of(a: u32, b: u32) -> (r: u32)
    ensures
        r == lesser(a as int, b as int),
{
    if a < b {
        a
    } else {
        b
    }
}

fn minus(a: u32, b: u32) -> (r: u32)
    ensures
        r == less_or_nothing(a as int, b as int),
{
    if a < b {
        0
    } else {
        a - b
    }
}

impl Crop {
    pub fn whole(size: (u32, u32)) -> (r: Crop)
        ensures
            r == (Crop { x: 0, y: 0, width: size.0, height: size.1 }),
    {
        Crop { x: 0, y: 0, width: size.0, height: size.1 }
    }

    /// The rectangle between two points, whichever came first, trimmed to the
    /// picture.
    pub fn between(a: (u32, u32), b: (u32, u32), size: (u32, u32)) -> (r: Option<Crop>)
        ensures
            r == trimmed(
                Crop {
                    x: lesser(a.0 as int, b.0 as int) as u32,
                    y: lesser(a.1 as int, b.1 as int) as u32,
                    width: (a.0 + b.0 - 2 * lesser(a.0 as int, b.0 as int)) as u32,
                    height: (a.1 + b.1 - 2 * lesser(a.1 as int, b.1 as int)) as u32,
                },
                size,
            ),
    {
        let x: u32 = min_of(a.0, b.0);
        let y: u32 = min_of(a.1, b.1);
        let width: u32 = if a.0 < b.0 {
            b.0 - a.0
        } else {
            a.0 - b.0
        };
        let height: u32 = if a.1 < b.1 {
            b.1 - a.1
        } else {
            a.1 - b.1
        };
        Crop { x, y, width, height }.clamped(size)
    }

    /// Trim to what is actually inside the picture; `None` where nothing is
    /// left.
    pub fn clamped(self, size: (u32, u32)) -> (r: Option<Crop>)
        ensures
            r == trimmed(self, size),
    {
        let x: u32 = min_of(self.x, size.0);
        let y: u32 = min_of(self.y, size.1);
        let width: u32 = min_of(self.width, size.0 - x);
        let height: u32 = min_of(self.height, size.1 - y);
        if width == 0 || height == 0 {
            return None;
        }
        Some(Crop { x, y, width, height })
    }

    pub fn is_whole(&self, size: (u32, u32)) -> (r: bool)
        ensures
            r == (*self == (Crop { x: 0, y: 0, width: size.0, height: size.1 })),
    {
        self.x == 0 && self.y == 0 && self.width == size.0 && self.height == size.1
    }
}

/// A corner and a size.
pub struct Area {
    pub x: int,
    pub y: int,
    pub width: int,
    pub height: int,
}

/// Where a rectangle of a turned picture sits on the un-turned one.
pub open spec fn unturned(dragged: Crop, base: Crop, turn: Turn) -> Area {
    match turn {
        Turn::Upright => Area {
            x: dragged.x as int,
            y: dragged.y as int,
            width: dragged.width as int,
            height: dragged.height as int,
        },
        Turn::Right => Area {
            x: dragged.y as int,
            y: less_or_nothing(base.height as int, dragged.x + dragged.width),
            width: dragged.height as int,
            height: dragged.width as int,
        },
        Turn::Half => Area {
            x: less_or_nothing(base.width as int, dragged.x + dragged.width),
            y: less_or_nothing(base.height as int, dragged.y + dragged.height),
            width: dragged.width as int,
            height: dragged.height as int,
        },
        Turn::Left => Area {
            x: less_or_nothing(base.width as int, dragged.y + dragged.height),
            y: dragged.x as int,
            width: dragged.height as int,
            height: dragged.width as int,
        },
    }
}

/// Where a rectangle of a mirrored picture sits on the one that is not.
pub open spec fn unflipped(area: Area, base: Crop, flip_h: bool, flip_v: bool) -> Area {
    Area {
        x: if flip_h {
            less_or_nothing(base.width as int, area.x + area.width)
        } else {
            area.x
        },
        y: if flip_v {
            less_or_nothing(base.height as int, area.y + area.height)
        } else {
            area.y
        },
        ..area
    }
}

/// Where a rectangle of what is on screen sits on the picture as it was
/// cropped.
pub open spec fn unfolded(dragged: Crop, base: Crop, t: Transform) -> Area {
    unflipped(unturned(dragged, base, t.turn), base, t.flip_h, t.flip_v)
}

/// Whether every sum on the way fits into 32 bits.
pub open spec fn sums_fit(dragged: Crop, base: Crop, t: Transform) -> bool {
    let area = unturned(dragged, base, t.turn);
    let out = unfolded(dragged, base, t);
    &&& (t.turn == Turn::Right || t.turn == Turn::Half) ==> dragged.x + dragged.width <= u32::MAX
    &&& (t.turn == Turn::Left || t.turn == Turn::Half) ==> dragged.y + dragged.height <= u32::MAX
    &&& t.flip_h ==> area.x + area.width <= u32::MAX
    &&& t.flip_v ==> area.y + area.height <= u32::MAX
    &&& base.x + out.x <= u32::MAX
    &&& base.y + out.y <= u32::MAX
}

/// A crop of what is on screen as a crop of the source's own pixels.
pub open spec fn folded(dragged: Crop, base: Crop, t: Transform, source: (u32, u32)) -> Option<
    Crop,
> {
    let area = unfolded(dragged, base, t);
    trimmed(
        Crop {
            x: (base.x + area.x) as u32,
            y: (base.y + area.y) as u32,
            width: area.width as u32,
            height: area.height as u32,
        },
        source,
    )
}

/// Turn a crop of what is on screen into a crop of the source's own pixels.
///
/// The rectangle was dragged over a picture that may already be cropped,
/// mirrored and turned. So the turn has to be undone, the mirrors undone, and
/// the earlier crop's corner added back on. `base` is the crop already in
/// effect, `transform` what is applied after it, and `source` the size of the
/// untouched picture.
pub fn fold_crop(dragged: Crop, base: Crop, transform: Transform, source: (u32, u32)) -> (r: Option<
    Crop,
>)
    requires
        sums_fit(dragged, base, transform),
    ensures
        r == folded(dragged, base, transform, source),
{
    let (x, y, w, h): (u32, u32, u32, u32) = match transform.turn {
        Turn::Upright => (dragged.x, dragged.y, dragged.width, dragged.height),
        Turn::Right => (
            dragged.y,
            minus(base.height, dragged.x + dragged.width),
            dragged.height,
            dragged.width,
        ),
        Turn::Half => (
            minus(base.width, dragged.x + dragged.width),
            minus(base.height, dragged.y + dragged.height),
            dragged.width,
            dragged.height,
        ),
        Turn::Left => (
            minus(base.width, dragged.y + dragged.height),
            dragged.x,
            dragged.height,
            dragged.width,
        ),
    };
    let x: u32 = if transform.flip_h {
        minus(base.width, x + w)
    } else {
        x
    };
    let y: u32 = if transform.flip_v {
        minus(base.height, y + h)
    } else {
        y
    };
    Crop { x: base.x + x, y: base.y + y, width: w, height: h }.clamped(source)
}

// ---- resizing ---------------------------------------------------------------------------------

/// A size that is never zero.
pub open spec fn one_or_more(value: int) -> int {
    if value < 1 {
        1
    } else {
        value
    }
}

/// A size that is never zero: a picture zero pixels wide is not a picture.
pub fn at_least_one(value: u32) -> (r: u32)
    ensures
        r == one_or_more(value as int),
{
    if value < 1 {
        1
    } else {
        value
    }
}

/// `of` for each `per`, `side` times, to the nearest whole number, a half
/// upwards; no more than a size can be.
pub open spec fn in_proportion(side: int, of: int, per: int) -> int {
    lesser((2 * side * of + per) / (2 * per), u32::MAX as int)
}

/// The size when the shape is being kept.
pub open spec fn shape_kept(size: (u32, u32), want: (u32, u32), changed_width: bool) -> (int, int) {
    let (width, height) = (one_or_more(want.0 as int), one_or_more(want.1 as int));
    if size.0 == 0 || size.1 == 0 {
        (width, height)
    } else if changed_width {
        (width, one_or_more(in_proportion(width, size.1 as int, size.0 as int)))
    } else {
        (one_or_more(in_proportion(height, size.0 as int, size.1 as int)), height)
    }
}

fn proportion(side: u32, of: u32, per: u32) -> (r: u32)
    requires
        per > 0,
    ensures
        r == in_proportion(side as int, of as int, per as int),
{
    assert(0 <= side * of <= 0xFFFF_FFFF * 0xFFFF_FFFF) by (nonlinear_arith)
        requires
            0 <= side <= 0xFFFF_FFFF,
            0 <= of <= 0xFFFF_FFFF,
    ;
    assert(2 * side * of == 2 * (side * of)) by (nonlinear_arith);
    let twice: u128 = 2 * (side as u128 * of as u128) + per as u128;
    let nearest: u128 = twice / (2 * per as u128);
    if nearest > u32::MAX as u128 {
        u32::MAX
    } else {
        nearest as u32
    }
}

/// The other side of a resize when the shape is being kept.
///
/// `changed_width` says which side was typed into; the other one follows from
/// it. Rounding is to the nearest pixel and never to nothing.
pub fn keep_aspect(size: (u32, u32), want: (u32, u32), changed_width: bool) -> (r: (u32, u32))
    ensures
        (r.0 as int, r.1 as int) == shape_kept(size, want, changed_width),
{
    if size.0 == 0 || size.1 == 0 {
        return (at_least_one(want.0), at_least_one(want.1));
    }
    if changed_width {
        let width: u32 = at_least_one(want.0);
        (width, at_least_one(proportion(width, size.1, size.0)))
    } else {
        let height: u32 = at_least_one(want.1);
        (at_least_one(proportion(height, size.0, size.1)), height)
    }
}

// ---- edits ------------------------------------------------------------------------------------

/// Everything asked of one picture, in the order it is applied: crop first, in
/// the source's own pixels, then the turn and flips, then the resize.
#[derive(Debug, Clone, Copy, PartialEq, Eq)]
pub struct Edit {
    pub crop: Option<Crop>,
    pub transform: Transform,
    /// The size to come out at, after cropping and turning.
    pub resize: Option<(u32, u32)>,
}

impl Default for Edit {
    fn default() -> (r: Edit)
        ensures
            r.crop is None,
            changes_nothing(r.transform),
            r.resize is None,
    {
        Edit {
            crop: None,
            transform: Transform { turn: Turn::Upright, flip_h: false, flip_v: false },
            resize: None,
        }
    }
}

/// Whether an edit changes nothing.
pub open spec fn edit_is_nothing(edit: Edit) -> bool {
    edit.crop is None && changes_nothing(edit.transform) && edit.resize is None
}

/// What a picture comes to with everything but the resize.
pub open spec fn before_resize(edit: Edit, source: (u32, u32)) -> (u32, u32) {
    turned_size(
        edit.transform,
        match edit.crop {
            Some(crop) => (crop.width, crop.height),
            None => source,
        },
    )
}

/// What a picture comes to.
pub open spec fn edited_size(edit: Edit, source: (u32, u32)) -> (int, int) {
    match edit.resize {
        Some(size) => (one_or_more(size.0 as int), one_or_more(size.1 as int)),
        None => {
            let size = before_resize(edit, source);
            (size.0 as int, size.1 as int)
        },
    }
}

/// A width and a height as they are written.
pub open spec fn size_words(width: int, height: int) -> Seq<char> {
    text::decimal(width as nat) + "x"@ + text::decimal(height as nat)
}

/// A part added to others, behind a comma where there are any.
pub open spec fn and_part(parts: Seq<char>, part: Seq<char>) -> Seq<char> {
    if parts.len() == 0 {
        part
    } else {
        parts + ", "@ + part
    }
}

/// What has been done, in words.
pub open spec fn edit_words(edit: Edit, source: (u32, u32)) -> Seq<char> {
    let none: Seq<char> = Seq::empty();
    let t = edit.transform;
    let cropped = match edit.crop {
        Some(crop) => and_part(
            none,
            "cropped to "@ + size_words(crop.width as int, crop.height as int),
        ),
        None => none,
    };
    let turned = if t.turn != Turn::Upright {
        and_part(cropped, "turned "@ + turn_label(t.turn))
    } else {
        cropped
    };
    let mirrored = if (swaps(t.turn) && t.flip_v) || (!swaps(t.turn) && t.flip_h) {
        and_part(turned, "mirrored"@)
    } else {
        turned
    };
    let flipped = if (swaps(t.turn) && t.flip_h) || (!swaps(t.turn) && t.flip_v) {
        and_part(mirrored, "flipped"@)
    } else {
        mirrored
    };
    if edit.resize is Some {
        let size = edited_size(edit, source);
        and_part(flipped, "resized to "@ + size_words(size.0, size.1))
    } else {
        flipped
    }
}

fn add_part(parts: String, part: &str) -> (r: String)
    ensures
        r@ == and_part(parts@, part@),
{
    if parts.as_str().is_empty() {
        return part.to_owned();
    }
    text::concat3(parts.as_str(), ", ", part)
}

fn size_text(what: &str, width: u32, height: u32) -> (r: String)
    ensures
        r@ == what@ + size_words(width as int, height as int),
{
    let mut r: String = what.to_owned();
    r.append(text::decimal_text(width as u64).as_str());
    r.append("x");
    r.append(text::decimal_text(height as u64).as_str());
    assert(r@ =~= what@ + size_words(width as int, height as int));
    r
}

impl Edit {
    pub fn is_identity(&self) -> (r: bool)
        ensures
            r == edit_is_nothing(*self),
    {
        self.crop.is_none() && self.transform.is_identity() && self.resize.is_none()
    }

    /// How big the result comes out, given the source size.
    pub fn size_of(&self, source: (u32, u32)) -> (r: (u32, u32))
        ensures
            (r.0 as int, r.1 as int) == edited_size(*self, source),
    {
        if let Some(resize) = self.resize {
            return (at_least_one(resize.0), at_least_one(resize.1));
        }
        self.size_before_resize(source)
    }

    /// The size a resize box should start from: what the picture would be
    /// with everything else applied but no resize.
    pub fn size_before_resize(&self, source: (u32, u32)) -> (r: (u32, u32))
        ensures
            r == before_resize(*self, source),
    {
        let cropped: (u32, u32) = match self.crop {
            Some(crop) => (crop.width, crop.height),
            None => source,
        };
        self.transform.size_of(cropped)
    }

    /// What the toolbar says has been done, for the line under the picture.
    pub fn describe(&self, source: (u32, u32)) -> (r: String)
        ensures
            r@ == edit_words(*self, source),
    {
        let mut parts: String = String::new();
        assert(parts@ =~= Seq::<char>::empty());
        if let Some(crop) = self.crop {
            parts =
            add_part(parts, size_text("cropped to ", crop.width, crop.height).as_str());
        }
        if self.transform.turn != Turn::Upright {
            parts =
            add_part(parts, text::concat2("turned ", self.transform.turn.label()).as_str());
        }
        // Named as they look, not as they are stored.
        if self.transform.mirrored_on_screen() {
            parts = add_part(parts, "mirrored");
        }
        if self.transform.flipped_on_screen() {
            parts = add_part(parts, "flipped");
        }
        if self.resize.is_some() {
            let size: (u32, u32) = self.size_of(source);
            parts = add_part(parts, size_text("resized to ", size.0, size.1).as_str());
        }
        parts
    }
}

// ---- writing back -----------------------------------------------------------------------------

/// Whether pictures of an ending are re-encoded from pixels at a loss.
pub open spec fn loses_quality(extension: Seq<char>) -> bool {
    let small = text::ascii_lower(extension);
    small == "jpg"@ || small == "jpeg"@ || small == "jpe"@ || small == "jfif"@ || small == "webp"@
}

/// Whether writing this picture back to `extension` loses something.
pub fn is_lossy(extension: &str) -> (r: bool)
    ensures
        r == loses_quality(extension@),
{
    let small: String = text::to_ascii_lower(extension);
    let small: &str = small.as_str();
    text::same(small, "jpg") || text::same(small, "jpeg") || text::same(small, "jpe")
        || text::same(small, "jfif") || text::same(small, "webp")
}

/// What a file carries that an editor working in pixels cannot put back.
#[derive(Debug, Clone, Copy, PartialEq, Eq, Structural)]
pub struct Carries {
    /// More than one frame. Deliberately not a count.
    pub animated: bool,
    /// Whether it has a metadata block: EXIF, and its neighbours.
    pub metadata: bool,
}

impl Default for Carries {
    fn default() -> (r: Carries)
        ensures
            !r.animated,
            !r.metadata,
    {
        Carries { animated: false, metadata: false }
    }
}

/// The widest an ICO may be, in either direction.
pub const ICO_MAX: u32 = 256;

/// Why a picture cannot be written to an ending at all.
pub open spec fn refusal(extension: Seq<char>, size: (u32, u32)) -> Option<Seq<char>> {
    if text::ascii_lower(extension) == "ico"@ && (size.0 > ICO_MAX || size.1 > ICO_MAX) {
        Some(
            "an ICO cannot be bigger than 256x256, and this is "@ + size_words(
                size.0 as int,
                size.1 as int,
            ) + " - resize it, or save it as a .png"@,
        )
    } else {
        None
    }
}

/// Why this picture cannot be written to `extension` at all.
pub fn refuses(extension: &str, size: (u32, u32)) -> (r: Option<String>)
    ensures
        text::optional(r) == refusal(extension@, size),
{
    let small: String = text::to_ascii_lower(extension);
    if text::same(small.as_str(), "ico") && (size.0 > ICO_MAX || size.1 > ICO_MAX) {
        let mut r: String = size_text(
            "an ICO cannot be bigger than 256x256, and this is ",
            size.0,
            size.1,
        );
        r.append(" - resize it, or save it as a .png");
        return Some(r);
    }
    None
}

/// What writing a picture back would quietly leave behind.
pub open spec fn left_behind(extension: Seq<char>, carries: Carries) -> Seq<Seq<char>> {
    let frames = if carries.animated {
        seq![
            "this is an animation, and only its first frame is kept - the rest do not survive being saved"@,
        ]
    } else {
        Seq::empty()
    };
    let metadata = if carries.metadata {
        seq![
            "the metadata (EXIF and the rest) is not carried over - dates, camera settings, orientation and any location go"@,
        ]
    } else {
        Seq::empty()
    };
    let quality = if loses_quality(extension) {
        seq![
            "."@ + text::ascii_lower(extension)
                + " is re-encoded from pixels, which costs a generation of quality even where nothing was touched"@,
        ]
    } else {
        Seq::empty()
    };
    frames + metadata + quality
}

/// What writing this picture back would quietly leave behind. Not errors: the
/// file is written and the pixels are right.
pub fn losses(extension: &str, carries: Carries) -> (r: Vec<String>)
    ensures
        text::views(r@) == left_behind(extension@, carries),
{
    let mut losses: Vec<String> = Vec::new();
    if carries.animated {
        losses.push(
            "this is an animation, and only its first frame is kept - the rest do not survive being saved".to_owned(),
        );
    }
    if carries.metadata {
        losses.push(
            "the metadata (EXIF and the rest) is not carried over - dates, camera settings, orientation and any location go".to_owned(),
        );
    }
    if is_lossy(extension) {
        losses.push(
            text::concat3(
                ".",
                text::to_ascii_lower(extension).as_str(),
                " is re-encoded from pixels, which costs a generation of quality even where nothing was touched",
            ),
        );
    }
    assert(text::views(losses@) =~= left_behind(extension@, carries));
    losses
}

// ---- laws -------------------------------------------------------------------------------------

/// Four turns the same way are none, and a turn back undoes a turn.
pub proof fn law_turns_compose(turn: Turn)
    ensures
        ({
            let once = turn_of(quarters_of(turn) + 1);
            let twice = turn_of(quarters_of(once) + 1);
            let thrice = turn_of(quarters_of(twice) + 1);
            &&& turn_of(quarters_of(thrice) + 1) == turn
            &&& turn_of(quarters_of(once) + 3) == turn
            &&& thrice == turn_of(quarters_of(turn) + 3)
        }),
{
}

/// The place of the source that shows at a place on screen, for a picture of
/// some width and height.
pub open spec fn shown_from(t: Transform, width: int, height: int, x: int, y: int) -> (int, int) {
    let (a, b) = match t.turn {
        Turn::Upright => (x, y),
        Turn::Right => (y, height - 1 - x),
        Turn::Half => (width - 1 - x, height - 1 - y),
        Turn::Left => (width - 1 - y, x),
    };
    (
        if t.flip_h {
            width - 1 - a
        } else {
            a
        },
        if t.flip_v {
            height - 1 - b
        } else {
            b
        },
    )
}

/// Mirroring mirrors what is on screen, whatever turn is in effect.
pub proof fn law_flipping_flips_what_is_on_screen(
    t: Transform,
    width: int,
    height: int,
    x: int,
    y: int,
)
    ensures
        ({
            let (across, down) = if swaps(t.turn) {
                (height, width)
            } else {
                (width, height)
            };
            &&& shown_from(flipped_across(t), width, height, x, y) == shown_from(
                t,
                width,
                height,
                across - 1 - x,
                y,
            )
            &&& shown_from(flipped_down(t), width, height, x, y) == shown_from(
                t,
                width,
                height,
                x,
                down - 1 - y,
            )
        }),
{
}

/// Mirroring twice changes nothing.
pub proof fn law_flipping_twice_changes_nothing(t: Transform)
    ensures
        flipped_across(flipped_across(t)) == t,
        flipped_down(flipped_down(t)) == t,
{
}

/// Whether a place lies in a rectangle.
pub open spec fn lies_in(crop: Crop, x: int, y: int) -> bool {
    crop.x <= x < crop.x + crop.width && crop.y <= y < crop.y + crop.height
}

/// Whether a rectangle lies in a picture of a size and is not empty.
pub open spec fn fits_in(crop: Crop, size: (u32, u32)) -> bool {
    0 < crop.width && 0 < crop.height && crop.x + crop.width <= size.0 && crop.y + crop.height
        <= size.1
}

/// A crop dragged on screen holds exactly the places of the source that show
/// inside it.
pub proof fn law_a_dragged_crop_holds_what_shows_in_it(
    dragged: Crop,
    base: Crop,
    t: Transform,
    source: (u32, u32),
    x: int,
    y: int,
)
    requires
        fits_in(base, source),
        fits_in(dragged, turned_size(t, (base.width, base.height))),
        0 <= x < turned_size(t, (base.width, base.height)).0,
        0 <= y < turned_size(t, (base.width, base.height)).1,
    ensures
        sums_fit(dragged, base, t),
        folded(dragged, base, t, source) is Some,
        ({
            let (sx, sy) = shown_from(t, base.width as int, base.height as int, x, y);
            lies_in(dragged, x, y) <==> lies_in(
                folded(dragged, base, t, source)->0,
                base.x + sx,
                base.y + sy,
            )
        }),
{
}

/// A crop of the whole view is the crop that was already there.
pub proof fn law_the_whole_view_is_the_crop_in_effect(base: Crop, t: Transform, source: (u32, u32))
    requires
        fits_in(base, source),
    ensures
        ({
            let size = turned_size(t, (base.width, base.height));
            let whole = Crop { x: 0, y: 0, width: size.0, height: size.1 };
            sums_fit(whole, base, t) && folded(whole, base, t, source) == Some(base)
        }),
{
}

/// A trimmed crop lies in the picture, and holds something.
pub proof fn law_a_trimmed_crop_lies_inside(crop: Crop, size: (u32, u32))
    ensures
        trimmed(crop, size) is Some ==> fits_in(trimmed(crop, size)->0, size),
        fits_in(crop, size) ==> trimmed(crop, size) == Some(crop),
{
}

/// A picture never comes out with nothing of a side.
pub proof fn law_no_side_comes_to_nothing(
    size: (u32, u32),
    want: (u32, u32),
    changed_width: bool,
)
    ensures
        shape_kept(size, want, changed_width).0 >= 1,
        shape_kept(size, want, changed_width).1 >= 1,
{
}

/// Trimming keeps what of a crop lies in the picture: a place is in the
/// trimmed crop exactly where it is in the crop and in the picture, and
/// nothing is left only where there is no such place.
pub proof fn law_trimming_keeps_what_lies_in_the_picture(
    crop: Crop,
    size: (u32, u32),
    x: int,
    y: int,
)
    ensures
        match trimmed(crop, size) {
            Some(kept) => lies_in(kept, x, y) <==> lies_in(crop, x, y) && 0 <= x < size.0 && 0 <= y
                < size.1,
            None => !(lies_in(crop, x, y) && 0 <= x < size.0 && 0 <= y < size.1),
        },
{
}

/// The side that follows is in proportion, to the nearest pixel, as far as 32
/// bits hold it; the side that was asked for is as it was asked for.
pub proof fn law_the_shape_is_kept_to_the_nearest_pixel(
    size: (u32, u32),
    want: (u32, u32),
    changed_width: bool,
)
    requires
        size.0 > 0,
        size.1 > 0,
        want.0 > 0,
        want.1 > 0,
    ensures
        ({
            let (width, height) = shape_kept(size, want, changed_width);
            &&& changed_width ==> width == want.0
            &&& changed_width && 1 < height < u32::MAX ==> {
                &&& 2 * height * size.0 <= 2 * width * size.1 + size.0
                &&& 2 * width * size.1 < 2 * height * size.0 + size.0
            }
            &&& !changed_width ==> height == want.1
            &&& !changed_width && 1 < width < u32::MAX ==> {
                &&& 2 * width * size.1 <= 2 * height * size.0 + size.1
                &&& 2 * height * size.0 < 2 * width * size.1 + size.1
            }
        }),
{
    lemma_in_proportion(want.0 as int, size.1 as int, size.0 as int);
    lemma_in_proportion(want.1 as int, size.0 as int, size.1 as int);
}

proof fn lemma_in_proportion(side: int, of: int, per: int)
    requires
        side > 0,
        of > 0,
        per > 0,
    ensures
        in_proportion(side, of, per) < u32::MAX ==> {
            let out = in_proportion(side, of, per);
            2 * out * per <= 2 * side * of + per && 2 * side * of < 2 * out * per + per
        },
{
    let sum = 2 * side * of + per;
    let q = sum / (2 * per);
    vstd::arithmetic::div_mod::lemma_fundamental_div_mod(sum, 2 * per);
    let r = sum % (2 * per);
    assert(2 * q * per <= sum && sum < 2 * q * per + 2 * per) by (nonlinear_arith)
        requires
            sum == (2 * per) * q + r,
            0 <= r < 2 * per,
    ;
}

/// What an edit comes out at: the size asked for where one was, and else that
/// of the crop, or of the picture, with its sides swapped by a quarter turn.
pub proof fn law_an_edit_comes_out_at_its_size(edit: Edit, source: (u32, u32))
    ensures
        ({
            let size = match edit.crop {
                Some(crop) => (crop.width, crop.height),
                None => source,
            };
            let quarter = edit.transform.turn == Turn::Right || edit.transform.turn == Turn::Left;
            let turned = if quarter {
                (size.1, size.0)
            } else {
                size
            };
            &&& before_resize(edit, source) == turned
            &&& edit.resize is None ==> edited_size(edit, source) == (
                turned.0 as int,
                turned.1 as int,
            )
            &&& edit.resize matches Some((width, height)) ==> width > 0 && height > 0
                ==> edited_size(edit, source) == (width as int, height as int)
        }),
{
}

/// Turning shows what a turn shows: the place at the top left of a picture
/// turned right is the one at its bottom left, and so on round; every place
/// on screen shows a place of the picture.
pub proof fn law_every_place_shows_one_of_the_picture(
    t: Transform,
    width: int,
    height: int,
    x: int,
    y: int,
)
    requires
        width > 0,
        height > 0,
        0 <= x < if swaps(t.turn) {
            height
        } else {
            width
        },
        0 <= y < if swaps(t.turn) {
            width
        } else {
            height
        },
    ensures
        ({
            let (a, b) = shown_from(t, width, height, x, y);
            0 <= a < width && 0 <= b < height
        }),
        ({
            let plain = Transform { turn: Turn::Right, flip_h: false, flip_v: false };
            shown_from(plain, width, height, 0, 0) == (0int, height - 1)
        }),
{
}

/// An ICO is refused exactly where a side is longer than 256, whatever the
/// case of its ending, and nothing else is.
pub proof fn law_only_a_large_icon_is_refused(extension: Seq<char>, size: (u32, u32))
    ensures
        refusal(extension, size) is Some <==> text::ascii_lower(extension) == "ico"@ && (size.0
            > 256 || size.1 > 256),
{
}

/// Each thing that does not survive being saved is told once, where the
/// picture has it: more frames, metadata, and quality.
pub proof fn law_each_loss_is_told(extension: Seq<char>, carries: Carries)
    ensures
        left_behind(extension, carries).len() == (if carries.animated {
            1int
        } else {
            0int
        }) + (if carries.metadata {
            1int
        } else {
            0int
        }) + (if loses_quality(extension) {
            1int
        } else {
            0int
        }),
{
}

} // verus!
