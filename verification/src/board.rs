use vstd::prelude::*;
use crate::block_state::{Pos, STATE_EMPTY};
use crate::mino::{cells_fit, covers, Mino};
use crate::server_command::{flatten, rows_view, ServerCommand};

verus! {

/// Number of columns of the board.
pub const COLS: usize = 16;

/// Number of rows of the board.
pub const ROWS: usize = 20;

/// True when `g` has `COLS` columns of `ROWS` cells.
pub open spec fn grid_wf(g: Seq<Seq<u8>>) -> bool {
    &&& g.len() == COLS
    &&& forall|x: int| 0 <= x < COLS ==> (#[trigger] g[x]).len() == ROWS
}

/// The board with every cell empty.
pub open spec fn empty_grid() -> Seq<Seq<u8>> {
    Seq::new(COLS as nat, |x: int| Seq::new(ROWS as nat, |y: int| STATE_EMPTY))
}

/// True when `p` is a cell of the board.
pub open spec fn in_board(p: Pos) -> bool {
    0 <= p.x < COLS && 0 <= p.y < ROWS
}

/// True when every one of `cells` is a cell of the board.
pub open spec fn all_in_board(cells: Seq<Pos>) -> bool {
    forall|i: int| 0 <= i < cells.len() ==> #[trigger] in_board(cells[i])
}

/// True when some cell lies left or right of the board.
pub open spec fn hits_wall(cells: Seq<Pos>) -> bool {
    exists|i: int| 0 <= i < cells.len() && ((#[trigger] cells[i]).x < 0 || COLS <= cells[i].x)
}

/// True when some cell lies outside the board or on a cell that is not
/// empty.
pub open spec fn hits_piled(g: Seq<Seq<u8>>, cells: Seq<Pos>) -> bool {
    exists|i: int|
        0 <= i < cells.len() && (!in_board(#[trigger] cells[i]) || g[cells[i].x as int][cells[i].y as int]
            != STATE_EMPTY)
}

/// `g` with each of `cells` set to `color`.
pub open spec fn painted(g: Seq<Seq<u8>>, cells: Seq<Pos>, color: u8) -> Seq<Seq<u8>> {
    Seq::new(
        g.len(),
        |x: int|
            Seq::new(
                g[x].len(),
                |y: int| if covers(cells, Pos { x: x as i32, y: y as i32 }) { color } else { g[x][y] },
            ),
    )
}

/// `g` with the pieces `minos` drawn on it in their colours, one after the
/// other: where two overlap, the later one shows.
pub open spec fn overlay(g: Seq<Seq<u8>>, minos: Seq<Mino>) -> Seq<Seq<u8>>
    decreases minos.len(),
{
    if minos.len() == 0 {
        g
    } else {
        painted(overlay(g, minos.drop_last()), minos.last().cells(), minos.last().color)
    }
}

/// True when a piece is in its rotations' range and covers only cells of
/// the board.
pub open spec fn mino_on_board(m: Mino) -> bool {
    &&& m.rotation < 4
    &&& cells_fit(m.pos, m.pattern(m.rotation as int))
    &&& all_in_board(m.cells())
}

/// True when row `y` has no empty cell.
pub open spec fn row_full(g: Seq<Seq<u8>>, y: int) -> bool {
    forall|x: int| 0 <= x < COLS ==> #[trigger] g[x][y] != STATE_EMPTY
}

/// `g` after the rows `1..=y` took the rows above them; row 0 stays as it
/// was.
pub open spec fn shifted_down(g: Seq<Seq<u8>>, y: int) -> Seq<Seq<u8>> {
    Seq::new(
        g.len(),
        |x: int| Seq::new(g[x].len(), |r: int| if 1 <= r <= y { g[x][r - 1] } else { g[x][r] }),
    )
}

/// The board and the number of cleared rows after rows `0..n` were looked
/// at, from the top down: a full row is removed by shifting the rows above
/// it down by one.
pub open spec fn cleared_upto(g: Seq<Seq<u8>>, n: nat) -> (Seq<Seq<u8>>, nat)
    decreases n,
{
    if n == 0 {
        (g, 0)
    } else {
        let (prev, count) = cleared_upto(g, (n - 1) as nat);
        if row_full(prev, n - 1) {
            (shifted_down(prev, n - 1), count + 1)
        } else {
            (prev, count)
        }
    }
}

/// The board after clearing its full rows.
pub open spec fn cleared_grid(g: Seq<Seq<u8>>) -> Seq<Seq<u8>> {
    cleared_upto(g, ROWS as nat).0
}

/// The number of rows that clearing removes.
pub open spec fn cleared_count(g: Seq<Seq<u8>>) -> nat {
    cleared_upto(g, ROWS as nat).1
}

/// The playing field: `states[x][y]` is the cell of column `x` and row `y`.
#[derive(Debug)]
pub struct Board {
    pub states: Vec<Vec<u8>>,
}

impl View for Board {
    type V = Seq<Seq<u8>>;

    open spec fn view(&self) -> Seq<Seq<u8>> {
        rows_view(self.states@)
    }
}

/// A fresh board, every cell empty.
fn empty_states() -> (s: Vec<Vec<u8>>)
    ensures
        rows_view(s@) == empty_grid(),
{
    let mut s: Vec<Vec<u8>> = Vec::new();
    let mut x: usize = 0;
    while x < COLS
        invariant
            0 <= x <= COLS,
            rows_view(s@) == empty_grid().take(x as int),
        decreases COLS - x,
    {
        let mut col: Vec<u8> = Vec::new();
        let mut y: usize = 0;
        while y < ROWS
            invariant
                0 <= y <= ROWS,
                col@ == Seq::new(y as nat, |r: int| STATE_EMPTY),
            decreases ROWS - y,
        {
            col.push(STATE_EMPTY);
            assert(col@ =~= Seq::new((y + 1) as nat, |r: int| STATE_EMPTY));
            y = y + 1;
        }
        assert(col@ =~= empty_grid()[x as int]);
        let ghost before = s@;
        s.push(col);
        assert(rows_view(s@) =~= rows_view(before).push(col@));
        assert(rows_view(s@) =~= empty_grid().take(x as int + 1));
        x = x + 1;
    }
    assert(rows_view(s@) =~= empty_grid());
    s
}

impl Board {
    /// True when the board has `COLS` columns of `ROWS` cells.
    pub open spec fn wf(&self) -> bool {
        grid_wf(self@)
    }

    /// An empty board.
    pub fn new() -> (b: Board)
        ensures
            b.wf(),
            b@ == empty_grid(),
    {
        Board { states: empty_states() }
    }

    /// Empties every cell.
    pub fn empty(&mut self)
        ensures
            final(self).wf(),
            final(self)@ == empty_grid(),
    {
        self.states = empty_states();
    }
}


/// The cells of `g` while rows `lo + 1..=y` have taken the rows above them
/// and, in row `lo`, the columns below `xx` have too.
pub open spec fn shift_progress(g: Seq<Seq<u8>>, y: int, lo: int, xx: int) -> Seq<Seq<u8>> {
    Seq::new(
        g.len(),
        |x: int|
            Seq::new(
                g[x].len(),
                |r: int| if (lo < r <= y) || (r == lo && x < xx) { g[x][r - 1] } else { g[x][r] },
            ),
    )
}

/// Cell `(x, y)` of `grid`.
fn get_cell(grid: &Vec<Vec<u8>>, x: usize, y: usize) -> (v: u8)
    requires
        grid_wf(rows_view(grid@)),
        x < COLS,
        y < ROWS,
    ensures
        v == rows_view(grid@)[x as int][y as int],
{
    assert(rows_view(grid@)[x as int] == grid@[x as int]@);
    grid[x][y]
}

/// Sets cell `(x, y)` of `grid` to `v`.
fn set_cell(grid: &mut Vec<Vec<u8>>, x: usize, y: usize, v: u8)
    requires
        grid_wf(rows_view(old(grid)@)),
        x < COLS,
        y < ROWS,
    ensures
        rows_view(final(grid)@) == rows_view(old(grid)@).update(
            x as int,
            rows_view(old(grid)@)[x as int].update(y as int, v),
        ),
{
    let ghost g = rows_view(grid@);
    assert(g[x as int] == grid@[x as int]@);
    grid[x].set(y, v);
    assert(rows_view(grid@) =~= g.update(x as int, g[x as int].update(y as int, v)));
}

proof fn lemma_paint_step(g: Seq<Seq<u8>>, cells: Seq<Pos>, i: int, color: u8)
    requires
        grid_wf(g),
        0 <= i < cells.len(),
        in_board(cells[i]),
    ensures
        ({
            let cur = painted(g, cells.take(i), color);
            let x = cells[i].x as int;
            let y = cells[i].y as int;
            painted(g, cells.take(i + 1), color) == cur.update(x, cur[x].update(y, color))
        }),
{
    let cur = painted(g, cells.take(i), color);
    let x0 = cells[i].x as int;
    let y0 = cells[i].y as int;
    let next = painted(g, cells.take(i + 1), color);
    let upd = cur.update(x0, cur[x0].update(y0, color));
    assert forall|x: int| 0 <= x < g.len() implies #[trigger] next[x] =~= upd[x] by {
        assert forall|y: int| 0 <= y < g[x].len() implies next[x][y] == upd[x][y] by {
            let p = Pos { x: x as i32, y: y as i32 };
            let c0 = cells.take(i);
            let c1 = cells.take(i + 1);
            if covers(c0, p) {
                let k = choose|k: int| 0 <= k < c0.len() && c0[k] == p;
                assert(c1[k] == p);
            }
            if covers(c1, p) && !covers(c0, p) {
                let k = choose|k: int| 0 <= k < c1.len() && c1[k] == p;
                if k < i {
                    assert(c0[k] == p);
                }
            }
            if x == x0 && y == y0 {
                assert(c1[i] == p);
            }
        }
    }
    assert(next =~= upd);
}

/// Sets each of `cells` of `grid` to `color`.
fn paint_cells(grid: &mut Vec<Vec<u8>>, cells: &Vec<Pos>, color: u8)
    requires
        grid_wf(rows_view(old(grid)@)),
        all_in_board(cells@),
    ensures
        grid_wf(rows_view(final(grid)@)),
        rows_view(final(grid)@) == painted(rows_view(old(grid)@), cells@, color),
{
    let ghost g = rows_view(grid@);
    let mut i: usize = 0;
    assert(painted(g, cells@.take(0), color) =~= g) by {
        assert forall|x: int| 0 <= x < g.len() implies #[trigger] painted(g, cells@.take(0), color)[x] =~= g[x] by {}
    }
    while i < cells.len()
        invariant
            0 <= i <= cells.len(),
            grid_wf(g),
            all_in_board(cells@),
            rows_view(grid@) == painted(g, cells@.take(i as int), color),
            grid_wf(rows_view(grid@)),
        decreases cells.len() - i,
    {
        let p = cells[i];
        assert(in_board(cells@[i as int]));
        proof {
            lemma_paint_step(g, cells@, i as int, color);
        }
        set_cell(grid, p.x as usize, p.y as usize, color);
        i = i + 1;
    }
    assert(cells@.take(cells.len() as int) =~= cells@);
}

/// A copy of the cells of `grid`.
fn copy_grid(grid: &Vec<Vec<u8>>) -> (c: Vec<Vec<u8>>)
    ensures
        rows_view(c@) == rows_view(grid@),
{
    let mut c: Vec<Vec<u8>> = Vec::new();
    let mut x: usize = 0;
    while x < grid.len()
        invariant
            0 <= x <= grid.len(),
            rows_view(c@) == rows_view(grid@).take(x as int),
        decreases grid.len() - x,
    {
        let col = &grid[x];
        let mut copy: Vec<u8> = Vec::new();
        let mut y: usize = 0;
        while y < col.len()
            invariant
                0 <= y <= col.len(),
                copy@ == col@.take(y as int),
            decreases col.len() - y,
        {
            copy.push(col[y]);
            assert(col@.take(y as int + 1) =~= col@.take(y as int).push(col@[y as int]));
            y = y + 1;
        }
        assert(col@.take(y as int) =~= col@);
        let ghost before = c@;
        c.push(copy);
        assert(rows_view(c@) =~= rows_view(before).push(copy@));
        assert(rows_view(c@) =~= rows_view(grid@).take(x as int + 1));
        x = x + 1;
    }
    assert(rows_view(grid@).take(x as int) =~= rows_view(grid@));
    c
}

impl Board {
    /// The cells of the board with `minos` drawn on it in their colours,
    /// as a board command; its score and counts are zero.
    pub fn to_server_cmd(&self, minos: &Vec<Mino>) -> (cmd: ServerCommand)
        requires
            self.wf(),
            forall|i: int| 0 <= i < minos.len() ==> mino_on_board(#[trigger] minos@[i]),
        ensures
            cmd@ == (crate::server_command::CommandView::Board {
                state: overlay(self@, minos@),
                score: 0,
                player: 0,
                spectator: 0,
            }),
    {
        let mut vector = copy_grid(&self.states);
        let mut i: usize = 0;
        while i < minos.len()
            invariant
                0 <= i <= minos.len(),
                self.wf(),
                forall|k: int| 0 <= k < minos.len() ==> mino_on_board(#[trigger] minos@[k]),
                grid_wf(rows_view(vector@)),
                rows_view(vector@) == overlay(self@, minos@.take(i as int)),
            decreases minos.len() - i,
        {
            let mino = &minos[i];
            assert(mino_on_board(minos@[i as int]));
            let positions = mino.current_occupied();
            paint_cells(&mut vector, &positions, mino.color);
            assert(minos@.take(i as int + 1).drop_last() =~= minos@.take(i as int));
            i = i + 1;
        }
        assert(minos@.take(minos.len() as int) =~= minos@);
        ServerCommand::Board { state: vector, score: 0, player: 0, spectator: 0 }
    }

    /// Where player `num` of `max_player` players gets a new piece: the top
    /// row, at the start of the player's share of the columns.
    pub fn initial_mino_pos(num: i32, max_player: usize) -> (p: Pos)
        requires
            max_player > 0,
            i32::MIN <= num * (COLS / max_player) <= i32::MAX,
        ensures
            p == (Pos { x: (num * (COLS / max_player)) as i32, y: 0 }),
    {
        Pos::new(num * (COLS / max_player) as i32, 0)
    }

    /// True when some of `positions` lies left or right of the board.
    pub fn collision_with_wall(&self, positions: &Vec<Pos>) -> (b: bool)
        ensures
            b == hits_wall(positions@),
    {
        let mut i: usize = 0;
        while i < positions.len()
            invariant
                0 <= i <= positions.len(),
                forall|k: int| 0 <= k < i ==> !((#[trigger] positions@[k]).x < 0 || COLS <= positions@[k].x),
            decreases positions.len() - i,
        {
            let pos = positions[i];
            if pos.x < 0 || COLS as i32 <= pos.x {
                return true;
            }
            i = i + 1;
        }
        false
    }

    /// True when some of `positions` lies outside the board or on a cell
    /// that is not empty.
    pub fn collision_with_piled(&self, positions: &Vec<Pos>) -> (b: bool)
        requires
            self.wf(),
        ensures
            b == hits_piled(self@, positions@),
    {
        let mut i: usize = 0;
        while i < positions.len()
            invariant
                0 <= i <= positions.len(),
                self.wf(),
                forall|k: int|
                    0 <= k < i ==> !(!in_board(#[trigger] positions@[k]) || self@[positions@[k].x as int][positions@[k].y as int]
                        != STATE_EMPTY),
            decreases positions.len() - i,
        {
            let pos = positions[i];
            if pos.x < 0 || COLS as i32 <= pos.x || pos.y < 0 || ROWS as i32 <= pos.y
                || get_cell(&self.states, pos.x as usize, pos.y as usize) != STATE_EMPTY {
                return true;
            }
            i = i + 1;
        }
        false
    }

    /// Sets the cells of `mino` to its piled colour.
    pub fn pile(&mut self, mino: &Mino)
        requires
            old(self).wf(),
            mino_on_board(*mino),
        ensures
            final(self).wf(),
            final(self)@ == painted(old(self)@, mino.cells(), mino.piled_color),
    {
        let positions = mino.current_occupied();
        paint_cells(&mut self.states, &positions, mino.piled_color);
    }

    /// True when row `y` has no empty cell.
    fn row_is_full(&self, y: usize) -> (b: bool)
        requires
            self.wf(),
            y < ROWS,
        ensures
            b == row_full(self@, y as int),
    {
        let mut x: usize = 0;
        while x < COLS
            invariant
                0 <= x <= COLS,
                self.wf(),
                y < ROWS,
                forall|k: int| 0 <= k < x ==> #[trigger] self@[k][y as int] != STATE_EMPTY,
            decreases COLS - x,
        {
            if get_cell(&self.states, x, y) == STATE_EMPTY {
                return false;
            }
            x = x + 1;
        }
        true
    }

    /// Moves rows `0..y` down by one row; row 0 keeps its cells.
    fn shift_down(&mut self, y: usize)
        requires
            old(self).wf(),
            y < ROWS,
        ensures
            final(self).wf(),
            final(self)@ == shifted_down(old(self)@, y as int),
    {
        let ghost g = self@;
        let mut yacc: usize = 0;
        assert(self@ =~= shift_progress(g, y as int, y as int, 0)) by {
            assert forall|x: int| 0 <= x < g.len() implies #[trigger] self@[x] =~= shift_progress(g, y as int, y as int, 0)[x] by {}
        }
        while yacc < y
            invariant
                0 <= yacc <= y,
                y < ROWS,
                grid_wf(g),
                self.wf(),
                self@ == shift_progress(g, y as int, y - yacc, 0),
            decreases y - yacc,
        {
            let yy = y - yacc;
            let mut xx: usize = 0;
            while xx < COLS
                invariant
                    0 <= xx <= COLS,
                    1 <= yy <= y < ROWS,
                    grid_wf(g),
                    self.wf(),
                    self@ == shift_progress(g, y as int, yy as int, xx as int),
                decreases COLS - xx,
            {
                let ghost before = self@;
                if yy == 0 {
                    set_cell(&mut self.states, xx, yy, STATE_EMPTY);
                } else {
                    let v = get_cell(&self.states, xx, yy - 1);
                    set_cell(&mut self.states, xx, yy, v);
                }
                assert(self@ =~= shift_progress(g, y as int, yy as int, xx as int + 1)) by {
                    assert forall|x: int| 0 <= x < g.len() implies #[trigger] self@[x] =~= shift_progress(g, y as int, yy as int, xx as int + 1)[x] by {}
                }
                xx = xx + 1;
            }
            assert(self@ =~= shift_progress(g, y as int, yy - 1, 0)) by {
                assert forall|x: int| 0 <= x < g.len() implies #[trigger] self@[x] =~= shift_progress(g, y as int, yy - 1, 0)[x] by {}
            }
            yacc = yacc + 1;
        }
        assert(self@ =~= shifted_down(g, y as int)) by {
            assert forall|x: int| 0 <= x < g.len() implies #[trigger] self@[x] =~= shifted_down(g, y as int)[x] by {}
        }
    }

    /// Removes the full rows from the top down, moving the rows above each
    /// one down by a row, and says how many it removed.
    pub fn clear_lines(&mut self) -> (cleared: u8)
        requires
            old(self).wf(),
        ensures
            final(self).wf(),
            final(self)@ == cleared_grid(old(self)@),
            cleared == cleared_count(old(self)@),
    {
        let ghost g = self@;
        let mut cleared: u8 = 0;
        let mut y: usize = 0;
        while y < ROWS
            invariant
                0 <= y <= ROWS,
                self.wf(),
                cleared <= y,
                (self@, cleared as nat) == cleared_upto(g, y as nat),
            decreases ROWS - y,
        {
            let fill = self.row_is_full(y);
            if fill {
                cleared = cleared + 1;
                self.shift_down(y);
            }
            y = y + 1;
        }
        cleared
    }
}

impl Board {
    /// The number of rows that `clear_lines` would remove now.
    pub fn lines_to_clear(&self) -> (c: u8)
        requires
            self.wf(),
        ensures
            c == cleared_count(self@),
    {
        let mut copy = Board { states: copy_grid(&self.states) };
        copy.clear_lines()
    }
}

/// Painting cells keeps the size of the board.
pub proof fn lemma_painted_wf(g: Seq<Seq<u8>>, cells: Seq<Pos>, color: u8)
    requires
        grid_wf(g),
    ensures
        grid_wf(painted(g, cells, color)),
{
    assert forall|x: int| 0 <= x < COLS implies (#[trigger] painted(g, cells, color)[x]).len() == ROWS by {}
}

/// Drawing pieces keeps the size of the board.
pub proof fn lemma_overlay_wf(g: Seq<Seq<u8>>, minos: Seq<Mino>)
    requires
        grid_wf(g),
    ensures
        grid_wf(overlay(g, minos)),
    decreases minos.len(),
{
    if minos.len() > 0 {
        lemma_overlay_wf(g, minos.drop_last());
        lemma_painted_wf(overlay(g, minos.drop_last()), minos.last().cells(), minos.last().color);
    }
}

/// A board of the right size has `COLS * ROWS` cells one after the other.
pub proof fn lemma_flatten_grid_len(g: Seq<Seq<u8>>)
    requires
        grid_wf(g),
    ensures
        flatten(g).len() == COLS * ROWS,
{
    lemma_flatten_columns_len(g, COLS as int);
    assert(g.take(COLS as int) =~= g);
}

proof fn lemma_flatten_columns_len(g: Seq<Seq<u8>>, k: int)
    requires
        grid_wf(g),
        0 <= k <= COLS,
    ensures
        flatten(g.take(k)).len() == k * ROWS,
    decreases k,
{
    if k > 0 {
        lemma_flatten_columns_len(g, k - 1);
        assert(g.take(k).drop_last() =~= g.take(k - 1));
        assert(g.take(k).last() == g[k - 1]);
    }
}

/// Clearing a board without a full row changes nothing and clears no row.
pub proof fn lemma_clear_without_full_rows(g: Seq<Seq<u8>>)
    requires
        forall|y: int| 0 <= y < ROWS ==> !#[trigger] row_full(g, y),
    ensures
        cleared_grid(g) == g,
        cleared_count(g) == 0,
{
    lemma_cleared_upto_identity(g, ROWS as nat);
}

proof fn lemma_cleared_upto_identity(g: Seq<Seq<u8>>, n: nat)
    requires
        n <= ROWS,
        forall|y: int| 0 <= y < ROWS ==> !#[trigger] row_full(g, y),
    ensures
        cleared_upto(g, n) == (g, 0nat),
    decreases n,
{
    if n > 0 {
        lemma_cleared_upto_identity(g, (n - 1) as nat);
        assert(!row_full(g, n - 1));
    }
}

/// Clearing removes at most as many rows as it looks at.
pub proof fn lemma_cleared_count_bounded(g: Seq<Seq<u8>>, n: nat)
    ensures
        cleared_upto(g, n).1 <= n,
    decreases n,
{
    if n > 0 {
        lemma_cleared_count_bounded(g, (n - 1) as nat);
    }
}

/// After a piece is piled in a colour other than empty, its cells meet
/// the piled cells.
pub proof fn lemma_pile_then_collides(g: Seq<Seq<u8>>, m: Mino)
    requires
        grid_wf(g),
        mino_on_board(m),
        m.piled_color != STATE_EMPTY,
        m.cells().len() > 0,
    ensures
        hits_piled(painted(g, m.cells(), m.piled_color), m.cells()),
{
    let cells = m.cells();
    let p = cells[0];
    assert(in_board(p));
    let h = painted(g, cells, m.piled_color);
    assert(covers(cells, Pos { x: p.x as i32, y: p.y as i32 }));
    assert(h[p.x as int][p.y as int] == m.piled_color);
}

/// Some column of row `y` is empty.
pub open spec fn has_empty_cell(g: Seq<Seq<u8>>, y: int) -> bool {
    exists|x: int| 0 <= x < COLS && #[trigger] g[x][y] == STATE_EMPTY
}

/// A board in which every row has an empty cell in some column is left as
/// it is by clearing, and no row is counted.
pub proof fn lemma_clear_keeps_rows_with_a_hole(g: Seq<Seq<u8>>)
    requires
        grid_wf(g),
        forall|y: int| 0 <= y < ROWS ==> #[trigger] has_empty_cell(g, y),
    ensures
        cleared_grid(g) == g,
        cleared_count(g) == 0,
{
    assert forall|y: int| 0 <= y < ROWS implies !#[trigger] row_full(g, y) by {
        assert(has_empty_cell(g, y));
        let x = choose|x: int| 0 <= x < COLS && #[trigger] g[x][y] == STATE_EMPTY;
        assert(g[x][y] == STATE_EMPTY);
    }
    lemma_clear_without_full_rows(g);
}

/// While clearing looks at rows `0..n`, the rows from `n` down keep their
/// cells, and the board keeps its size.
proof fn lemma_cleared_upto_keeps_rows_below(g: Seq<Seq<u8>>, n: nat)
    requires
        grid_wf(g),
        n <= ROWS,
    ensures
        grid_wf(cleared_upto(g, n).0),
        forall|x: int, r: int| 0 <= x < COLS && n <= r < ROWS ==> #[trigger] cleared_upto(g, n).0[x][r] == g[x][r],
    decreases n,
{
    if n > 0 {
        lemma_cleared_upto_keeps_rows_below(g, (n - 1) as nat);
        let prev = cleared_upto(g, (n - 1) as nat).0;
        if row_full(prev, n - 1) {
            let next = shifted_down(prev, n - 1);
            assert forall|x: int| 0 <= x < COLS implies (#[trigger] next[x]).len() == ROWS by {}
            assert forall|x: int, r: int| 0 <= x < COLS && n <= r < ROWS implies #[trigger] next[x][r] == g[x][r] by {
                assert(prev[x][r] == g[x][r]);
            }
        }
    }
}

/// Looking at more rows never counts fewer cleared rows.
proof fn lemma_cleared_count_grows(g: Seq<Seq<u8>>, m: nat, n: nat)
    requires
        m <= n,
    ensures
        cleared_upto(g, m).1 <= cleared_upto(g, n).1,
    decreases n - m,
{
    if m < n {
        lemma_cleared_count_grows(g, m, (n - 1) as nat);
    }
}

/// A row whose every cell is not empty is cleared: clearing counts at least
/// one row.
pub proof fn lemma_full_row_is_cleared(g: Seq<Seq<u8>>, y: int)
    requires
        grid_wf(g),
        0 <= y < ROWS,
        forall|x: int| 0 <= x < COLS ==> #[trigger] g[x][y] != STATE_EMPTY,
    ensures
        cleared_count(g) >= 1,
{
    lemma_cleared_upto_keeps_rows_below(g, y as nat);
    let prev = cleared_upto(g, y as nat).0;
    assert forall|x: int| 0 <= x < COLS implies #[trigger] prev[x][y] != STATE_EMPTY by {
        assert(prev[x][y] == g[x][y]);
    }
    assert(row_full(prev, y));
    assert(cleared_upto(g, (y + 1) as nat).1 >= 1);
    lemma_cleared_count_grows(g, (y + 1) as nat, ROWS as nat);
}
} // verus!
