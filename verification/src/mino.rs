use vstd::prelude::*;
use crate::block_state::{shifted, sum_fits, Pos, StateColor};

verus! {

/// The seven piece shapes.
#[derive(Debug, Copy, Clone, PartialEq, Eq, Structural)]
pub enum Shape {
    I,
    L,
    J,
    Z,
    S,
    O,
    T,
}

/// The shape at place `n` of the list `I, L, J, Z, S, O, T`, counted modulo 7.
pub open spec fn shape_of_index(n: int) -> Shape {
    let k = n % 7;
    if k == 0 {
        Shape::I
    } else if k == 1 {
        Shape::L
    } else if k == 2 {
        Shape::J
    } else if k == 3 {
        Shape::Z
    } else if k == 4 {
        Shape::S
    } else if k == 5 {
        Shape::O
    } else {
        Shape::T
    }
}

/// Calls `rand::random::<usize>()`; nothing is claimed of the number it
/// returns, which rests on chance.
#[verifier::external_body]
fn random_usize() -> usize {
    rand::random::<usize>()
}

impl Shape {
    /// The shape that the number `n` picks, modulo the number of shapes.
    pub fn from_index(n: usize) -> (s: Shape)
        ensures
            s == shape_of_index(n as int),
    {
        let variants = [Shape::I, Shape::L, Shape::J, Shape::Z, Shape::S, Shape::O, Shape::T];
        let i = n % 7;
        variants[i]
    }

    /// A shape picked at random.
    pub fn choose_random() -> (s: Shape) {
        Shape::from_index(random_usize())
    }
}

/// A cell of a pattern.
pub open spec fn cell(x: int, y: int) -> Pos {
    Pos { x: x as i32, y: y as i32 }
}

/// The four rotations of each shape, each as four cells relative to the
/// piece's position.
pub open spec fn shape_patterns(shape: Shape) -> Seq<Seq<Pos>> {
    match shape {
        Shape::I => seq![
            seq![cell(0, 1), cell(1, 1), cell(2, 1), cell(3, 1)],
            seq![cell(1, 0), cell(1, 1), cell(1, 2), cell(1, 3)],
            seq![cell(0, 0), cell(1, 0), cell(2, 0), cell(3, 0)],
            seq![cell(1, 0), cell(1, 1), cell(1, 2), cell(1, 3)],
        ],
        Shape::L => seq![
            seq![cell(0, 0), cell(1, 0), cell(1, 1), cell(1, 2)],
            seq![cell(0, 1), cell(1, 1), cell(2, 1), cell(2, 0)],
            seq![cell(1, 0), cell(1, 1), cell(1, 2), cell(2, 2)],
            seq![cell(0, 1), cell(0, 2), cell(1, 1), cell(2, 1)],
        ],
        Shape::J => seq![
            seq![cell(1, 0), cell(1, 1), cell(1, 2), cell(0, 2)],
            seq![cell(0, 0), cell(0, 1), cell(1, 1), cell(2, 1)],
            seq![cell(2, 0), cell(1, 0), cell(1, 1), cell(1, 2)],
            seq![cell(0, 1), cell(1, 1), cell(2, 1), cell(2, 2)],
        ],
        Shape::Z => seq![
            seq![cell(0, 0), cell(1, 0), cell(1, 1), cell(2, 1)],
            seq![cell(2, 0), cell(2, 1), cell(1, 1), cell(1, 2)],
            seq![cell(0, 0), cell(1, 0), cell(1, 1), cell(2, 1)],
            seq![cell(2, 0), cell(2, 1), cell(1, 1), cell(1, 2)],
        ],
        Shape::S => seq![
            seq![cell(0, 1), cell(1, 1), cell(1, 0), cell(2, 0)],
            seq![cell(1, 0), cell(1, 1), cell(2, 1), cell(2, 2)],
            seq![cell(0, 1), cell(1, 1), cell(1, 0), cell(2, 0)],
            seq![cell(1, 0), cell(1, 1), cell(2, 1), cell(2, 2)],
        ],
        Shape::O => seq![
            seq![cell(0, 0), cell(0, 1), cell(1, 0), cell(1, 1)],
            seq![cell(0, 0), cell(0, 1), cell(1, 0), cell(1, 1)],
            seq![cell(0, 0), cell(0, 1), cell(1, 0), cell(1, 1)],
            seq![cell(0, 0), cell(0, 1), cell(1, 0), cell(1, 1)],
        ],
        Shape::T => seq![
            seq![cell(1, 1), cell(1, 0), cell(0, 1), cell(2, 1)],
            seq![cell(1, 1), cell(1, 0), cell(1, 2), cell(2, 1)],
            seq![cell(1, 1), cell(0, 1), cell(1, 2), cell(2, 1)],
            seq![cell(1, 1), cell(0, 1), cell(1, 2), cell(1, 0)],
        ],
    }
}

/// The rotation that follows rotation `r`.
pub open spec fn next_rotation(r: int) -> int {
    (r + 1) % 4
}

/// The cells that `pattern` covers when placed at `pos`.
pub open spec fn cells_at(pos: Pos, pattern: Seq<Pos>) -> Seq<Pos> {
    Seq::new(pattern.len(), |i: int| shifted(pattern[i], pos))
}

/// True when placing `pattern` at `pos` stays inside `i32`.
pub open spec fn cells_fit(pos: Pos, pattern: Seq<Pos>) -> bool {
    forall|i: int| 0 <= i < pattern.len() ==> #[trigger] sum_fits(pattern[i], pos)
}

/// True when some cell of `cells` is `p`.
pub open spec fn covers(cells: Seq<Pos>, p: Pos) -> bool {
    exists|i: int| 0 <= i < cells.len() && cells[i] == p
}

/// A falling piece: its shape, the cells of its four rotations, the current
/// rotation, its colours while falling and once piled, and its position.
#[derive(Debug, Copy, Clone)]
pub struct Mino {
    pub shape: Shape,
    pub patterns: [[Pos; 4]; 4],
    pub rotation: usize,
    pub color: StateColor,
    pub piled_color: StateColor,
    pub pos: Pos,
}

impl Mino {
    /// The cells of rotation `r`, relative to the position.
    pub open spec fn pattern(&self, r: int) -> Seq<Pos> {
        self.patterns@[r]@
    }

    /// The cells that the piece covers now.
    pub open spec fn cells(&self) -> Seq<Pos> {
        cells_at(self.pos, self.pattern(self.rotation as int))
    }

    /// The cells that the piece would cover after one rotation.
    pub open spec fn rotated_cells(&self) -> Seq<Pos> {
        cells_at(self.pos, self.pattern(next_rotation(self.rotation as int)))
    }

    /// The cells that the piece would cover at `pos`.
    pub open spec fn cells_at_pos(&self, pos: Pos) -> Seq<Pos> {
        cells_at(pos, self.pattern(self.rotation as int))
    }

    /// The rotations of the piece are those of its shape.
    pub open spec fn has_shape_patterns(&self) -> bool {
        forall|r: int| 0 <= r < 4 ==> #[trigger] self.pattern(r) == shape_patterns(self.shape)[r]
    }

    /// A fresh piece of `shape`: first rotation, at the origin.
    pub open spec fn fresh(&self, shape: Shape, color: StateColor, piled_color: StateColor) -> bool {
        &&& self.shape == shape
        &&& self.has_shape_patterns()
        &&& self.rotation == 0
        &&& self.color == color
        &&& self.piled_color == piled_color
        &&& self.pos == Pos { x: 0, y: 0 }
    }

    pub fn new(shape: Shape, color: StateColor, piled_color: StateColor) -> (m: Mino)
        ensures
            m.fresh(shape, color, piled_color),
            m == fresh_mino(shape, color, piled_color),
    {
        let patterns = match shape {
            Shape::I => [
                [Pos { x: 0, y: 1 }, Pos { x: 1, y: 1 }, Pos { x: 2, y: 1 }, Pos { x: 3, y: 1 }],
                [Pos { x: 1, y: 0 }, Pos { x: 1, y: 1 }, Pos { x: 1, y: 2 }, Pos { x: 1, y: 3 }],
                [Pos { x: 0, y: 0 }, Pos { x: 1, y: 0 }, Pos { x: 2, y: 0 }, Pos { x: 3, y: 0 }],
                [Pos { x: 1, y: 0 }, Pos { x: 1, y: 1 }, Pos { x: 1, y: 2 }, Pos { x: 1, y: 3 }],
            ],
            Shape::L => [
                [Pos { x: 0, y: 0 }, Pos { x: 1, y: 0 }, Pos { x: 1, y: 1 }, Pos { x: 1, y: 2 }],
                [Pos { x: 0, y: 1 }, Pos { x: 1, y: 1 }, Pos { x: 2, y: 1 }, Pos { x: 2, y: 0 }],
                [Pos { x: 1, y: 0 }, Pos { x: 1, y: 1 }, Pos { x: 1, y: 2 }, Pos { x: 2, y: 2 }],
                [Pos { x: 0, y: 1 }, Pos { x: 0, y: 2 }, Pos { x: 1, y: 1 }, Pos { x: 2, y: 1 }],
            ],
            Shape::J => [
                [Pos { x: 1, y: 0 }, Pos { x: 1, y: 1 }, Pos { x: 1, y: 2 }, Pos { x: 0, y: 2 }],
                [Pos { x: 0, y: 0 }, Pos { x: 0, y: 1 }, Pos { x: 1, y: 1 }, Pos { x: 2, y: 1 }],
                [Pos { x: 2, y: 0 }, Pos { x: 1, y: 0 }, Pos { x: 1, y: 1 }, Pos { x: 1, y: 2 }],
                [Pos { x: 0, y: 1 }, Pos { x: 1, y: 1 }, Pos { x: 2, y: 1 }, Pos { x: 2, y: 2 }],
            ],
            Shape::Z => [
                [Pos { x: 0, y: 0 }, Pos { x: 1, y: 0 }, Pos { x: 1, y: 1 }, Pos { x: 2, y: 1 }],
                [Pos { x: 2, y: 0 }, Pos { x: 2, y: 1 }, Pos { x: 1, y: 1 }, Pos { x: 1, y: 2 }],
                [Pos { x: 0, y: 0 }, Pos { x: 1, y: 0 }, Pos { x: 1, y: 1 }, Pos { x: 2, y: 1 }],
                [Pos { x: 2, y: 0 }, Pos { x: 2, y: 1 }, Pos { x: 1, y: 1 }, Pos { x: 1, y: 2 }],
            ],
            Shape::S => [
                [Pos { x: 0, y: 1 }, Pos { x: 1, y: 1 }, Pos { x: 1, y: 0 }, Pos { x: 2, y: 0 }],
                [Pos { x: 1, y: 0 }, Pos { x: 1, y: 1 }, Pos { x: 2, y: 1 }, Pos { x: 2, y: 2 }],
                [Pos { x: 0, y: 1 }, Pos { x: 1, y: 1 }, Pos { x: 1, y: 0 }, Pos { x: 2, y: 0 }],
                [Pos { x: 1, y: 0 }, Pos { x: 1, y: 1 }, Pos { x: 2, y: 1 }, Pos { x: 2, y: 2 }],
            ],
            Shape::O => [
                [Pos { x: 0, y: 0 }, Pos { x: 0, y: 1 }, Pos { x: 1, y: 0 }, Pos { x: 1, y: 1 }],
                [Pos { x: 0, y: 0 }, Pos { x: 0, y: 1 }, Pos { x: 1, y: 0 }, Pos { x: 1, y: 1 }],
                [Pos { x: 0, y: 0 }, Pos { x: 0, y: 1 }, Pos { x: 1, y: 0 }, Pos { x: 1, y: 1 }],
                [Pos { x: 0, y: 0 }, Pos { x: 0, y: 1 }, Pos { x: 1, y: 0 }, Pos { x: 1, y: 1 }],
            ],
            Shape::T => [
                [Pos { x: 1, y: 1 }, Pos { x: 1, y: 0 }, Pos { x: 0, y: 1 }, Pos { x: 2, y: 1 }],
                [Pos { x: 1, y: 1 }, Pos { x: 1, y: 0 }, Pos { x: 1, y: 2 }, Pos { x: 2, y: 1 }],
                [Pos { x: 1, y: 1 }, Pos { x: 0, y: 1 }, Pos { x: 1, y: 2 }, Pos { x: 2, y: 1 }],
                [Pos { x: 1, y: 1 }, Pos { x: 0, y: 1 }, Pos { x: 1, y: 2 }, Pos { x: 1, y: 0 }],
            ],
        };
        let m = Mino {
            shape: shape,
            rotation: 0,
            color: color,
            piled_color: piled_color,
            pos: Pos::new(0, 0),
            patterns: patterns,
        };
        assert(m.has_shape_patterns()) by {
            assert forall|r: int| 0 <= r < 4 implies #[trigger] m.pattern(r) == shape_patterns(shape)[r] by {
                assert(m.pattern(r) =~= shape_patterns(shape)[r]);
            }
        }
        proof {
            lemma_fresh_is_fresh_mino(m, shape, color, piled_color);
        }
        m
    }
}


impl Mino {
    /// The rotation that follows `state`, modulo four.
    fn next(state: usize) -> (r: usize)
        requires
            state < usize::MAX,
        ensures
            r == next_rotation(state as int),
    {
        (state + 1) % 4
    }

    /// The cells of the current rotation, relative to the position.
    pub fn current_pattern(&self) -> (p: [Pos; 4])
        requires
            self.rotation < 4,
        ensures
            p@ == self.pattern(self.rotation as int),
    {
        self.patterns[self.rotation]
    }

    /// The cells of the rotation that follows the current one.
    pub fn next_pattern(&self) -> (p: [Pos; 4])
        requires
            self.rotation < usize::MAX,
        ensures
            p@ == self.pattern(next_rotation(self.rotation as int)),
    {
        self.patterns[Mino::next(self.rotation)]
    }

    /// A fresh piece of a shape picked at random.
    pub fn choose_random(color: StateColor, piled_color: StateColor) -> (m: Mino)
        ensures
            m.fresh(m.shape, color, piled_color),
    {
        Mino::new(Shape::choose_random(), color, piled_color)
    }

    /// Turns the piece to its next rotation.
    pub fn rotate(&mut self)
        requires
            old(self).rotation < usize::MAX,
        ensures
            *final(self) == (Mino { rotation: next_rotation(old(self).rotation as int) as usize, ..*old(self) }),
    {
        self.rotation = Mino::next(self.rotation);
    }

    pub fn set_pos(&mut self, pos: Pos)
        ensures
            *final(self) == (Mino { pos: pos, ..*old(self) }),
    {
        self.pos = pos;
    }

    pub fn get_pos(&self) -> (p: Pos)
        ensures
            p == self.pos,
    {
        self.pos
    }

    /// The cells that `pattern` covers when placed at `pos`, in the order of
    /// the pattern.
    fn occupied(pos: Pos, pattern: [Pos; 4]) -> (v: Vec<Pos>)
        requires
            cells_fit(pos, pattern@),
        ensures
            v@ == cells_at(pos, pattern@),
    {
        let mut v: Vec<Pos> = Vec::new();
        let mut i: usize = 0;
        while i < 4
            invariant
                0 <= i <= 4,
                cells_fit(pos, pattern@),
                v@ == cells_at(pos, pattern@).take(i as int),
            decreases 4 - i,
        {
            assert(sum_fits(pattern@[i as int], pos));
            v.push(pattern[i] + pos);
            assert(cells_at(pos, pattern@).take(i as int + 1) =~= cells_at(pos, pattern@).take(i as int).push(shifted(pattern@[i as int], pos)));
            i = i + 1;
        }
        assert(cells_at(pos, pattern@).take(4) =~= cells_at(pos, pattern@));
        v
    }

    /// The cells that the piece covers now.
    pub fn current_occupied(&self) -> (v: Vec<Pos>)
        requires
            self.rotation < 4,
            cells_fit(self.pos, self.pattern(self.rotation as int)),
        ensures
            v@ == self.cells(),
    {
        Mino::occupied(self.get_pos(), self.current_pattern())
    }

    /// The cells that the piece would cover after one rotation.
    pub fn next_rotate_occupied(&self) -> (v: Vec<Pos>)
        requires
            self.rotation < usize::MAX,
            cells_fit(self.pos, self.pattern(next_rotation(self.rotation as int))),
        ensures
            v@ == self.rotated_cells(),
    {
        Mino::occupied(self.get_pos(), self.next_pattern())
    }

    /// The cells that the piece would cover at `pos`.
    pub fn next_pos_occupied(&self, pos: Pos) -> (v: Vec<Pos>)
        requires
            self.rotation < 4,
            cells_fit(pos, self.pattern(self.rotation as int)),
        ensures
            v@ == self.cells_at_pos(pos),
    {
        Mino::occupied(pos, self.current_pattern())
    }

    /// True when some cell of `position` is the position of one of `others`.
    pub fn collision_with_minos(position: Vec<Pos>, others: Vec<Mino>) -> (b: bool)
        ensures
            b == exists|j: int| 0 <= j < others.len() && covers(position@, #[trigger] others@[j].pos),
    {
        let mut j: usize = 0;
        while j < others.len()
            invariant
                0 <= j <= others.len(),
                forall|k: int| 0 <= k < j ==> !covers(position@, #[trigger] others@[k].pos),
            decreases others.len() - j,
        {
            let p = others[j].get_pos();
            if contains_pos(&position, p) {
                return true;
            }
            j = j + 1;
        }
        false
    }

    /// True when some cell of `position` is one of the cells `others`.
    pub fn collision(position: &Vec<Pos>, others: &Vec<Pos>) -> (b: bool)
        ensures
            b == exists|j: int| 0 <= j < others.len() && covers(position@, #[trigger] others@[j]),
    {
        let mut j: usize = 0;
        while j < others.len()
            invariant
                0 <= j <= others.len(),
                forall|k: int| 0 <= k < j ==> !covers(position@, #[trigger] others@[k]),
            decreases others.len() - j,
        {
            if contains_pos(position, others[j]) {
                return true;
            }
            j = j + 1;
        }
        false
    }
}

/// True when `p` is one of `cells`.
fn contains_pos(cells: &Vec<Pos>, p: Pos) -> (b: bool)
    ensures
        b == covers(cells@, p),
{
    let mut i: usize = 0;
    while i < cells.len()
        invariant
            0 <= i <= cells.len(),
            forall|k: int| 0 <= k < i ==> cells@[k] != p,
        decreases cells.len() - i,
    {
        if cells[i] == p {
            return true;
        }
        i = i + 1;
    }
    false
}

/// Four rotations bring a piece back to where it started.
pub proof fn lemma_four_rotations(r: int)
    requires
        0 <= r < 4,
    ensures
        next_rotation(next_rotation(next_rotation(next_rotation(r)))) == r,
{
}

/// After three rotations of a piece in rotation `r`, the rotation that
/// follows is `r` again: the next pattern is the one the piece started with.
pub proof fn lemma_next_after_three_rotations(m: Mino)
    requires
        m.rotation < 4,
    ensures
        m.pattern(next_rotation(next_rotation(next_rotation(next_rotation(m.rotation as int)))))
            == m.pattern(m.rotation as int),
{
    lemma_four_rotations(m.rotation as int);
}

/// The fresh piece of `shape` with the given colours.
pub open spec fn fresh_mino(shape: Shape, color: StateColor, piled_color: StateColor) -> Mino {
    choose|m: Mino| m.fresh(shape, color, piled_color)
}

/// Two fresh pieces of the same shape and colours are the same piece.
pub proof fn lemma_fresh_unique(m1: Mino, m2: Mino, shape: Shape, color: StateColor, piled_color: StateColor)
    requires
        m1.fresh(shape, color, piled_color),
        m2.fresh(shape, color, piled_color),
    ensures
        m1 == m2,
{
    broadcast use vstd::array::group_array_axioms;
    assert forall|r: int| 0 <= r < 4 implies m1.patterns@[r] == m2.patterns@[r] by {
        assert(m1.pattern(r) == m2.pattern(r));
        assert(m1.patterns@[r]@ =~= m2.patterns@[r]@);
        assert(m1.patterns@[r] =~= m2.patterns@[r]);
    }
    assert(m1.patterns =~= m2.patterns);
}

/// A fresh piece is the fresh piece of its shape and colours.
pub proof fn lemma_fresh_is_fresh_mino(m: Mino, shape: Shape, color: StateColor, piled_color: StateColor)
    requires
        m.fresh(shape, color, piled_color),
    ensures
        m == fresh_mino(shape, color, piled_color),
{
    assert(exists|x: Mino| x.fresh(shape, color, piled_color));
    lemma_fresh_unique(m, fresh_mino(shape, color, piled_color), shape, color, piled_color);
}

/// Every cell of every rotation lies within `0..=3` on both axes.
pub open spec fn small_patterns(m: Mino) -> bool {
    forall|r: int, i: int|
        0 <= r < 4 && 0 <= i < 4 ==> 0 <= #[trigger] m.pattern(r)[i].x <= 3 && 0 <= m.pattern(r)[i].y <= 3
}

/// The rotations of every shape are small.
pub proof fn lemma_shape_patterns_small(m: Mino)
    requires
        m.has_shape_patterns(),
    ensures
        small_patterns(m),
{
    assert forall|r: int, i: int| 0 <= r < 4 && 0 <= i < 4 implies 0 <= #[trigger] m.pattern(r)[i].x <= 3 && 0
        <= m.pattern(r)[i].y <= 3 by {
        assert(m.pattern(r) == shape_patterns(m.shape)[r]);
    }
}

/// The cell `p` turned a quarter turn, `(x, y)` to `(-y, x)`, then moved by
/// `t`.
pub open spec fn turned(p: Pos, t: Pos) -> Pos {
    Pos { x: (t.x - p.y) as i32, y: (t.y + p.x) as i32 }
}

/// The cells `q` are the cells `p` turned a quarter turn and moved by `t`:
/// every turned cell of `p` is one of `q`, and every cell of `q` is a turned
/// cell of `p`.
pub open spec fn quarter_turn_of(p: Seq<Pos>, q: Seq<Pos>, t: Pos) -> bool {
    &&& p.len() == q.len()
    &&& forall|a: int| 0 <= a < p.len() ==> covers(q, #[trigger] turned(p[a], t))
    &&& forall|b: int| #![trigger q[b]] 0 <= b < q.len() ==> exists|a: int| 0 <= a < p.len() && #[trigger] turned(p[a], t) == q[b]
}

proof fn lemma_quarter_turn_witness(p: Seq<Pos>, q: Seq<Pos>, t: Pos, perm: Seq<int>)
    requires
        p.len() == 4,
        q.len() == 4,
        perm.len() == 4,
        0 <= perm[0] < 4,
        0 <= perm[1] < 4,
        0 <= perm[2] < 4,
        0 <= perm[3] < 4,
        perm[0] != perm[1] && perm[0] != perm[2] && perm[0] != perm[3],
        perm[1] != perm[2] && perm[1] != perm[3] && perm[2] != perm[3],
        turned(p[0], t) == q[perm[0]],
        turned(p[1], t) == q[perm[1]],
        turned(p[2], t) == q[perm[2]],
        turned(p[3], t) == q[perm[3]],
    ensures
        quarter_turn_of(p, q, t),
{
    assert forall|a: int| 0 <= a < p.len() implies covers(q, #[trigger] turned(p[a], t)) by {
        if a == 0 {
            assert(q[perm[0]] == turned(p[0], t));
        } else if a == 1 {
            assert(q[perm[1]] == turned(p[1], t));
        } else if a == 2 {
            assert(q[perm[2]] == turned(p[2], t));
        } else {
            assert(q[perm[3]] == turned(p[3], t));
        }
    }
    assert forall|b: int| #![trigger q[b]] 0 <= b < q.len() implies exists|a: int| 0 <= a < p.len() && #[trigger] turned(p[a], t) == q[b] by {
        if perm[0] == b {
            assert(turned(p[0], t) == q[b]);
        } else if perm[1] == b {
            assert(turned(p[1], t) == q[b]);
        } else if perm[2] == b {
            assert(turned(p[2], t) == q[b]);
        } else {
            assert(perm[3] == b);
            assert(turned(p[3], t) == q[b]);
        }
    }
}


proof fn lemma_rotations_turn_i(r: int)
    requires
        0 <= r < 4,
    ensures
        exists|t: Pos| quarter_turn_of(shape_patterns(Shape::I)[r], shape_patterns(Shape::I)[next_rotation(r)], t),
{
    let p = shape_patterns(Shape::I)[r];
    let q = shape_patterns(Shape::I)[next_rotation(r)];
    if r == 0 {
        lemma_quarter_turn_witness(p, q, Pos { x: 2, y: 0 }, seq![0int, 1, 2, 3]);
    } else if r == 1 {
        lemma_quarter_turn_witness(p, q, Pos { x: 3, y: -1i32 }, seq![3int, 2, 1, 0]);
    } else if r == 2 {
        lemma_quarter_turn_witness(p, q, Pos { x: 1, y: 0 }, seq![0int, 1, 2, 3]);
    } else {
        lemma_quarter_turn_witness(p, q, Pos { x: 3, y: 0 }, seq![3int, 2, 1, 0]);
    }
}

proof fn lemma_rotations_turn_l(r: int)
    requires
        0 <= r < 4,
    ensures
        exists|t: Pos| quarter_turn_of(shape_patterns(Shape::L)[r], shape_patterns(Shape::L)[next_rotation(r)], t),
{
    let p = shape_patterns(Shape::L)[r];
    let q = shape_patterns(Shape::L)[next_rotation(r)];
    if r == 0 {
        lemma_quarter_turn_witness(p, q, Pos { x: 2, y: 0 }, seq![3int, 2, 1, 0]);
    } else if r == 1 {
        lemma_quarter_turn_witness(p, q, Pos { x: 2, y: 0 }, seq![0int, 1, 2, 3]);
    } else if r == 2 {
        lemma_quarter_turn_witness(p, q, Pos { x: 2, y: 0 }, seq![3int, 2, 0, 1]);
    } else {
        lemma_quarter_turn_witness(p, q, Pos { x: 2, y: 0 }, seq![1int, 0, 2, 3]);
    }
}

proof fn lemma_rotations_turn_j(r: int)
    requires
        0 <= r < 4,
    ensures
        exists|t: Pos| quarter_turn_of(shape_patterns(Shape::J)[r], shape_patterns(Shape::J)[next_rotation(r)], t),
{
    let p = shape_patterns(Shape::J)[r];
    let q = shape_patterns(Shape::J)[next_rotation(r)];
    if r == 0 {
        lemma_quarter_turn_witness(p, q, Pos { x: 2, y: 0 }, seq![3int, 2, 1, 0]);
    } else if r == 1 {
        lemma_quarter_turn_witness(p, q, Pos { x: 2, y: 0 }, seq![0int, 1, 2, 3]);
    } else if r == 2 {
        lemma_quarter_turn_witness(p, q, Pos { x: 2, y: 0 }, seq![3int, 2, 1, 0]);
    } else {
        lemma_quarter_turn_witness(p, q, Pos { x: 2, y: 0 }, seq![0int, 1, 2, 3]);
    }
}

proof fn lemma_rotations_turn_z(r: int)
    requires
        0 <= r < 4,
    ensures
        exists|t: Pos| quarter_turn_of(shape_patterns(Shape::Z)[r], shape_patterns(Shape::Z)[next_rotation(r)], t),
{
    let p = shape_patterns(Shape::Z)[r];
    let q = shape_patterns(Shape::Z)[next_rotation(r)];
    if r == 0 {
        lemma_quarter_turn_witness(p, q, Pos { x: 2, y: 0 }, seq![0int, 1, 2, 3]);
    } else if r == 1 {
        lemma_quarter_turn_witness(p, q, Pos { x: 2, y: -1i32 }, seq![3int, 2, 1, 0]);
    } else if r == 2 {
        lemma_quarter_turn_witness(p, q, Pos { x: 2, y: 0 }, seq![0int, 1, 2, 3]);
    } else {
        lemma_quarter_turn_witness(p, q, Pos { x: 2, y: -1i32 }, seq![3int, 2, 1, 0]);
    }
}

proof fn lemma_rotations_turn_s(r: int)
    requires
        0 <= r < 4,
    ensures
        exists|t: Pos| quarter_turn_of(shape_patterns(Shape::S)[r], shape_patterns(Shape::S)[next_rotation(r)], t),
{
    let p = shape_patterns(Shape::S)[r];
    let q = shape_patterns(Shape::S)[next_rotation(r)];
    if r == 0 {
        lemma_quarter_turn_witness(p, q, Pos { x: 2, y: 0 }, seq![0int, 1, 2, 3]);
    } else if r == 1 {
        lemma_quarter_turn_witness(p, q, Pos { x: 2, y: -1i32 }, seq![3int, 2, 1, 0]);
    } else if r == 2 {
        lemma_quarter_turn_witness(p, q, Pos { x: 2, y: 0 }, seq![0int, 1, 2, 3]);
    } else {
        lemma_quarter_turn_witness(p, q, Pos { x: 2, y: -1i32 }, seq![3int, 2, 1, 0]);
    }
}

proof fn lemma_rotations_turn_o(r: int)
    requires
        0 <= r < 4,
    ensures
        exists|t: Pos| quarter_turn_of(shape_patterns(Shape::O)[r], shape_patterns(Shape::O)[next_rotation(r)], t),
{
    let p = shape_patterns(Shape::O)[r];
    let q = shape_patterns(Shape::O)[next_rotation(r)];
    if r == 0 {
        lemma_quarter_turn_witness(p, q, Pos { x: 1, y: 0 }, seq![2int, 0, 3, 1]);
    } else if r == 1 {
        lemma_quarter_turn_witness(p, q, Pos { x: 1, y: 0 }, seq![2int, 0, 3, 1]);
    } else if r == 2 {
        lemma_quarter_turn_witness(p, q, Pos { x: 1, y: 0 }, seq![2int, 0, 3, 1]);
    } else {
        lemma_quarter_turn_witness(p, q, Pos { x: 1, y: 0 }, seq![2int, 0, 3, 1]);
    }
}

proof fn lemma_rotations_turn_t(r: int)
    requires
        0 <= r < 4,
    ensures
        exists|t: Pos| quarter_turn_of(shape_patterns(Shape::T)[r], shape_patterns(Shape::T)[next_rotation(r)], t),
{
    let p = shape_patterns(Shape::T)[r];
    let q = shape_patterns(Shape::T)[next_rotation(r)];
    if r == 0 {
        lemma_quarter_turn_witness(p, q, Pos { x: 2, y: 0 }, seq![0int, 3, 1, 2]);
    } else if r == 1 {
        lemma_quarter_turn_witness(p, q, Pos { x: 2, y: 0 }, seq![0int, 3, 1, 2]);
    } else if r == 2 {
        lemma_quarter_turn_witness(p, q, Pos { x: 2, y: 0 }, seq![0int, 3, 1, 2]);
    } else {
        lemma_quarter_turn_witness(p, q, Pos { x: 2, y: 0 }, seq![0int, 1, 2, 3]);
    }
}

/// Every rotation of a shape is the rotation before it turned a quarter
/// turn, up to a translation: the four rotations are one piece turning.
pub proof fn lemma_rotation_is_quarter_turn(shape: Shape, r: int)
    requires
        0 <= r < 4,
    ensures
        exists|t: Pos| quarter_turn_of(shape_patterns(shape)[r], shape_patterns(shape)[next_rotation(r)], t),
{
    match shape {
        Shape::I => lemma_rotations_turn_i(r),
        Shape::L => lemma_rotations_turn_l(r),
        Shape::J => lemma_rotations_turn_j(r),
        Shape::Z => lemma_rotations_turn_z(r),
        Shape::S => lemma_rotations_turn_s(r),
        Shape::O => lemma_rotations_turn_o(r),
        Shape::T => lemma_rotations_turn_t(r),
    }
}

/// A piece's next rotation is its current cells turned a quarter turn, up
/// to a translation.
pub proof fn lemma_piece_turns_a_quarter(m: Mino)
    requires
        m.has_shape_patterns(),
        m.rotation < 4,
    ensures
        exists|t: Pos| quarter_turn_of(m.pattern(m.rotation as int), m.pattern(next_rotation(m.rotation as int)), t),
{
    let r = m.rotation as int;
    assert(m.pattern(r) == shape_patterns(m.shape)[r]);
    assert(m.pattern(next_rotation(r)) == shape_patterns(m.shape)[next_rotation(r)]);
    lemma_rotation_is_quarter_turn(m.shape, r);
}

} // verus!
