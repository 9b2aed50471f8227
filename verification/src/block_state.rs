use vstd::prelude::*;
use crate::user_rx::Key;

verus! {

/// The colour stored in a cell of the board.
pub type StateColor = u8;

/// An empty cell of the board.
pub const STATE_EMPTY: u8 = 0;

/// Colour of the falling piece of player `i` is `STATE_COLOR_MIN + i`.
pub const STATE_COLOR_MIN: u8 = 10;

/// Colour of a piled piece of player `i` is `STATE_PILED_COLOR_MIN + i`.
pub const STATE_PILED_COLOR_MIN: u8 = 20;

/// A cell coordinate: `x` is the column, `y` the row (row 0 is the top).
#[derive(Debug, Copy, Clone, PartialEq, Eq, Structural)]
pub struct Pos {
    pub x: i32,
    pub y: i32,
}

/// True when `p + q` fits in `i32` on both coordinates.
pub open spec fn sum_fits(p: Pos, q: Pos) -> bool {
    &&& i32::MIN <= p.x + q.x <= i32::MAX
    &&& i32::MIN <= p.y + q.y <= i32::MAX
}

/// The coordinate-wise sum of two positions.
pub open spec fn shifted(p: Pos, q: Pos) -> Pos {
    Pos { x: (p.x + q.x) as i32, y: (p.y + q.y) as i32 }
}

/// Where a key moves a position: one column left or right, one row down,
/// and nowhere for a rotation.
pub open spec fn moved(p: Pos, key: Key) -> Pos {
    match key {
        Key::LEFT => Pos { x: (p.x - 1) as i32, y: p.y },
        Key::RIGHT => Pos { x: (p.x + 1) as i32, y: p.y },
        Key::DOWN => Pos { x: p.x, y: (p.y + 1) as i32 },
        Key::ROTATION => p,
    }
}

/// True when the move of `key` stays inside `i32`.
pub open spec fn move_fits(p: Pos, key: Key) -> bool {
    match key {
        Key::LEFT => p.x > i32::MIN,
        Key::RIGHT => p.x < i32::MAX,
        Key::DOWN => p.y < i32::MAX,
        Key::ROTATION => true,
    }
}

impl Pos {
    pub fn new(x: i32, y: i32) -> (p: Pos)
        ensures
            p == (Pos { x, y }),
    {
        Pos { x: x, y: y }
    }

    /// The position one step away in the direction of `key`.
    pub fn next(&self, key: Key) -> (p: Pos)
        requires
            move_fits(*self, key),
        ensures
            p == moved(*self, key),
    {
        match key {
            Key::LEFT => Pos { x: self.x - 1, y: self.y },
            Key::RIGHT => Pos { x: self.x + 1, y: self.y },
            Key::DOWN => Pos { x: self.x, y: self.y + 1 },
            Key::ROTATION => *self,
        }
    }
}

impl core::ops::Add for Pos {
    type Output = Pos;

    fn add(self, other: Pos) -> (r: Pos) {
        Pos::new(self.x + other.x, self.y + other.y)
    }
}

impl vstd::std_specs::ops::AddSpecImpl for Pos {
    open spec fn obeys_add_spec() -> bool {
        true
    }

    open spec fn add_req(self, rhs: Pos) -> bool {
        sum_fits(self, rhs)
    }

    open spec fn add_spec(self, rhs: Pos) -> Pos {
        shifted(self, rhs)
    }
}

/// Moving left then right, or right then left, gives the position back.
pub proof fn lemma_left_right_cancel(p: Pos)
    requires
        i32::MIN < p.x < i32::MAX,
    ensures
        moved(moved(p, Key::LEFT), Key::RIGHT) == p,
        moved(moved(p, Key::RIGHT), Key::LEFT) == p,
        moved(p, Key::ROTATION) == p,
{
}

} // verus!
