use vstd::prelude::*;
use std::collections::HashMap;
use crate::block_state::{moved, sum_fits, Pos, STATE_EMPTY, STATE_COLOR_MIN, STATE_PILED_COLOR_MIN};
use crate::board::{
    all_in_board, cleared_count, cleared_grid, empty_grid, grid_wf, hits_piled, hits_wall, in_board,
    lemma_flatten_grid_len, lemma_full_row_is_cleared, lemma_overlay_wf, lemma_painted_wf,
    mino_on_board, overlay, painted, Board, COLS, ROWS,
};
use crate::mino::{
    cells_fit, covers, fresh_mino, lemma_fresh_is_fresh_mino, lemma_shape_patterns_small,
    next_rotation, small_patterns, Mino, Shape,
};
use crate::server_command::{encodable, CommandView, ServerCommand};
use crate::user::User;
use crate::user_rx::{Key, RxView, UserRx};

verus! {

/// At most this many players play at once.
pub const MAX_PLAYER: usize = 4;

/// The number of frames between two steps of the fall at the start.
pub const FALL_VELOCITY_INIT: u32 = 40;

/// The fall speeds up every this many frames.
pub const UP_INT: u32 = 200;

/// A player: the id of its user, its falling piece if it has one, and the
/// key it pressed last, if not yet handled.
#[derive(Debug, Clone, Copy)]
pub struct Player {
    pub id: i32,
    pub mino: Option<Mino>,
    pub key: Option<Key>,
}

impl Player {
    pub fn new(id: i32) -> (p: Player)
        ensures
            p == (Player { id, mino: None, key: None }),
    {
        Player { id: id, mino: None, key: None }
    }
}

/// The mathematical value of a game.
pub struct GameView {
    pub board: Seq<Seq<u8>>,
    pub players: Seq<Player>,
    pub tick: u32,
    pub fall_velocity: u32,
    pub score: u8,
}

/// A falling piece that the game can hold: in its rotations' range, on the
/// board, with cells of its rotations in `0..=3`.
pub open spec fn piece_ok(m: Mino) -> bool {
    mino_on_board(m) && small_patterns(m)
}

/// At most `MAX_PLAYER` players, each piece one that the game can hold.
pub open spec fn players_ok(ps: Seq<Player>) -> bool {
    &&& ps.len() <= MAX_PLAYER
    &&& forall|i: int|
        0 <= i < ps.len() ==> match (#[trigger] ps[i]).mino {
            Some(m) => piece_ok(m),
            None => true,
        }
}

/// The first index of a player of id `id`.
pub open spec fn first_index(ps: Seq<Player>, id: i32) -> int {
    choose|i: int| first_with_id(ps, id, i)
}

/// The players without the first player of id `id`, if there is one.
pub open spec fn removed_player(ps: Seq<Player>, id: i32) -> Seq<Player> {
    if no_player_with_id(ps, id) {
        ps
    } else {
        ps.remove(first_index(ps, id))
    }
}

/// The players after the user `id` pressed `key`: while there are players,
/// the first player of that id gets the key.
pub open spec fn key_pressed(ps: Seq<Player>, id: i32, key: Key) -> Seq<Player> {
    if ps.len() == 0 || no_player_with_id(ps, id) {
        ps
    } else {
        let i = first_index(ps, id);
        ps.update(i, Player { key: Some(key), ..ps[i] })
    }
}

/// The invariant of a game: a board of the right size, players that the
/// game can hold, and a fall speed between 5 and its initial value.
pub open spec fn game_wf(v: GameView) -> bool {
    &&& grid_wf(v.board)
    &&& players_ok(v.players)
    &&& 5 <= v.fall_velocity <= FALL_VELOCITY_INIT
}

/// The pieces of the players that have one, in the order of the players.
pub open spec fn minos_of(ps: Seq<Player>) -> Seq<Mino>
    decreases ps.len(),
{
    if ps.len() == 0 {
        seq![]
    } else {
        let rest = minos_of(ps.drop_last());
        match ps.last().mino {
            Some(m) => rest.push(m),
            None => rest,
        }
    }
}

/// The number of spectators that a board command reports.
pub open spec fn spectators(players: int, sessions: int) -> int {
    if sessions < players {
        players - sessions
    } else {
        0
    }
}

/// The board command of a game: the board with every piece drawn on it,
/// the score, the number of players and the number of spectators.
pub open spec fn board_command(v: GameView, sessions: int) -> CommandView {
    CommandView::Board {
        state: overlay(v.board, minos_of(v.players)),
        score: v.score,
        player: v.players.len() as u8,
        spectator: spectators(v.players.len() as int, sessions) as u8,
    }
}

/// The board command of a game is encodable, in `6 + COLS * ROWS` bytes.
pub proof fn lemma_board_command_encodable(v: GameView, sessions: int)
    requires
        grid_wf(v.board),
    ensures
        encodable(board_command(v, sessions)),
        crate::server_command::blob_of(board_command(v, sessions)).len() == 6 + COLS * ROWS,
{
    lemma_overlay_wf(v.board, minos_of(v.players));
    lemma_flatten_grid_len(overlay(v.board, minos_of(v.players)));
}

/// True when `i` is the first index of a player of id `id`.
pub open spec fn first_with_id(ps: Seq<Player>, id: i32, i: int) -> bool {
    &&& 0 <= i < ps.len()
    &&& ps[i].id == id
    &&& forall|j: int| 0 <= j < i ==> (#[trigger] ps[j]).id != id
}

/// True when no player has id `id`.
pub open spec fn no_player_with_id(ps: Seq<Player>, id: i32) -> bool {
    forall|j: int| 0 <= j < ps.len() ==> (#[trigger] ps[j]).id != id
}

/// The game: its board, its players, the frame counter, the number of
/// frames between two steps of the fall, and the score.
pub struct Game {
    pub board: Board,
    players: Vec<Player>,
    tick: u32,
    fall_velocity: u32,
    score: u8,
}

impl View for Game {
    type V = GameView;

    closed spec fn view(&self) -> GameView {
        GameView {
            board: self.board@,
            players: self.players@,
            tick: self.tick,
            fall_velocity: self.fall_velocity,
            score: self.score,
        }
    }
}

/// A game at its start: an empty board, no players, no frame yet, the
/// initial fall speed and no score.
pub open spec fn initial_game(v: GameView) -> bool {
    &&& v.board == empty_grid()
    &&& v.players == Seq::<Player>::empty()
    &&& v.tick == 0
    &&& v.fall_velocity == FALL_VELOCITY_INIT
    &&& v.score == 0
}

/// The first index of an id is unique.
proof fn lemma_first_with_id_unique(ps: Seq<Player>, id: i32, i: int)
    requires
        first_with_id(ps, id, i),
    ensures
        first_index(ps, id) == i,
        !no_player_with_id(ps, id),
{
    let j = first_index(ps, id);
    assert(first_with_id(ps, id, j));
    if j < i {
        assert(ps[j].id != id);
    }
    if i < j {
        assert(ps[i].id != id);
    }
    assert(ps[i].id == id);
}

/// Adding a player of a new id and then removing that id gives the
/// players back.
pub proof fn lemma_add_then_remove(ps: Seq<Player>, id: i32)
    requires
        no_player_with_id(ps, id),
    ensures
        removed_player(ps.push(Player { id, mino: None, key: None }), id) == ps,
{
    let qs = ps.push(Player { id, mino: None, key: None });
    assert(first_with_id(qs, id, ps.len() as int));
    lemma_first_with_id_unique(qs, id, ps.len() as int);
    assert(qs.remove(ps.len() as int) =~= ps);
}

/// When some player has id `id`, `first_index` is the first such.
pub proof fn lemma_first_index(ps: Seq<Player>, id: i32)
    requires
        !no_player_with_id(ps, id),
    ensures
        first_with_id(ps, id, first_index(ps, id)),
{
    let j = choose|j: int| 0 <= j < ps.len() && (#[trigger] ps[j]).id == id;
    lemma_first_exists(ps, id, j);
}

proof fn lemma_first_exists(ps: Seq<Player>, id: i32, j: int)
    requires
        0 <= j < ps.len(),
        ps[j].id == id,
    ensures
        exists|i: int| first_with_id(ps, id, i),
    decreases j,
{
    if forall|k: int| 0 <= k < j ==> (#[trigger] ps[k]).id != id {
        assert(first_with_id(ps, id, j));
    } else {
        let k = choose|k: int| 0 <= k < j && (#[trigger] ps[k]).id == id;
        lemma_first_exists(ps, id, k);
    }
}

/// Finds the first player of id `id`.
fn find_player(players: &Vec<Player>, id: i32) -> (r: Option<usize>)
    ensures
        match r {
            Some(i) => first_with_id(players@, id, i as int),
            None => no_player_with_id(players@, id),
        },
{
    let mut i: usize = 0;
    while i < players.len()
        invariant
            0 <= i <= players.len(),
            forall|j: int| 0 <= j < i ==> (#[trigger] players@[j]).id != id,
        decreases players.len() - i,
    {
        if players[i].id == id {
            return Some(i);
        }
        i = i + 1;
    }
    None
}

/// Gives `key` to the first player of id `id`, while there are players.
fn press_key(players: &mut Vec<Player>, id: i32, key: Key)
    ensures
        final(players)@ == key_pressed(old(players)@, id, key),
        players_ok(old(players)@) ==> players_ok(final(players)@),
{
    if players.len() > 0 {
        match find_player(players, id) {
            Some(i) => {
                proof {
                    lemma_first_with_id_unique(players@, id, i as int);
                }
                let mut p = players[i];
                p.key = Some(key);
                players.set(i, p);
            },
            None => {},
        }
    }
}

/// Removes the first player of id `id`, if there is one.
fn remove_first(players: &mut Vec<Player>, id: i32)
    ensures
        final(players)@ == removed_player(old(players)@, id),
        players_ok(old(players)@) ==> players_ok(final(players)@),
{
    match find_player(players, id) {
        Some(i) => {
            proof {
                lemma_first_with_id_unique(players@, id, i as int);
            }
            let ghost before = players@;
            players.remove(i);
            assert forall|k: int| 0 <= k < players@.len() implies #[trigger] players@[k] == before[if k < i { k } else { k + 1 }] by {}
        },
        None => {},
    }
}

impl Game {
    pub open spec fn wf(&self) -> bool {
        game_wf(self@)
    }

    pub fn new() -> (g: Game)
        ensures
            g.wf(),
            initial_game(g@),
    {
        Game {
            board: Board::new(),
            players: Vec::new(),
            tick: 0,
            fall_velocity: FALL_VELOCITY_INIT,
            score: 0,
        }
    }

    fn tick(&mut self)
        requires
            old(self)@.tick < u32::MAX,
        ensures
            final(self)@ == (GameView { tick: (old(self)@.tick + 1) as u32, ..old(self)@ }),
    {
        self.tick = self.tick + 1;
    }

    /// Starts a new game: the board, the players, the frame counter, the
    /// fall speed and the score go back to their initial values.
    pub fn new_game(&mut self)
        ensures
            final(self).wf(),
            initial_game(final(self)@),
    {
        self.tick = 0;
        self.score = 0;
        self.fall_velocity = FALL_VELOCITY_INIT;
        self.board.empty();
        self.players.clear();
    }

    /// The board with every piece drawn on it, the score, the number of
    /// players and the number of spectators, as a board command.
    pub fn get_board_state(&self, session_num: usize) -> (cmd: ServerCommand)
        requires
            self.wf(),
        ensures
            cmd@ == board_command(self@, session_num as int),
            encodable(cmd@),
    {
        let mut minos: Vec<Mino> = Vec::new();
        let mut players: usize = 0;
        while players < self.players.len()
            invariant
                0 <= players <= self.players.len(),
                self.wf(),
                minos@ == minos_of(self.players@.take(players as int)),
                forall|k: int| 0 <= k < minos.len() ==> piece_ok(#[trigger] minos@[k]),
            decreases self.players.len() - players,
        {
            let player = &self.players[players];
            assert(self.players@.take(players as int + 1).drop_last() =~= self.players@.take(players as int));
            match player.mino {
                Some(m) => {
                    assert(piece_ok(m));
                    minos.push(m);
                },
                None => {},
            }
            players = players + 1;
        }
        assert(self.players@.take(players as int) =~= self.players@);
        let cmd = self.board.to_server_cmd(&minos);
        let state = match cmd {
            ServerCommand::Board { state, .. } => state,
            _ => Vec::new(),
        };
        proof {
            lemma_board_command_encodable(self@, session_num as int);
        }
        let spector = if session_num < players {
            players - session_num
        } else {
            0
        };
        ServerCommand::Board {
            state: state,
            score: self.score,
            player: players as u8,
            spectator: spector as u8,
        }
    }

    /// Records the key pressed by the user `user_id`, while the game has
    /// players: the first player of that id gets it.
    pub fn on_key_press(&mut self, user_id: i32, key: Key)
        requires
            old(self).wf(),
        ensures
            final(self).wf(),
            final(self)@ == (GameView { players: key_pressed(old(self)@.players, user_id, key), ..old(self)@ }),
    {
        press_key(&mut self.players, user_id, key);
    }

    /// Adds a player of id `id` when fewer than `MAX_PLAYER` play, and says
    /// whether it did.
    pub fn attempt_to_add_player(&mut self, id: i32) -> (added: bool)
        requires
            old(self).wf(),
        ensures
            final(self).wf(),
            added == (old(self)@.players.len() < MAX_PLAYER),
            added ==> final(self)@ == (GameView {
                players: old(self)@.players.push(Player { id, mino: None, key: None }),
                ..old(self)@
            }),
            !added ==> final(self)@ == old(self)@,
    {
        if self.players.len() < MAX_PLAYER {
            self.players.push(Player::new(id));
            return true;
        } else {
            return false
        }
    }

    /// Removes the first player of id `id`, if there is one.
    pub fn remove_player(&mut self, id: i32)
        requires
            old(self).wf(),
        ensures
            final(self).wf(),
            final(self)@ == (GameView { players: removed_player(old(self)@.players, id), ..old(self)@ }),
    {
        remove_first(&mut self.players, id);
    }

    /// True when the game has players.
    fn on_playing(&self) -> (b: bool)
        ensures
            b == (self@.players.len() > 0),
    {
        self.players.len() > 0
    }
}


/// One step of the fall for player `p` on board `g`: a piece that cannot go
/// one row down is piled and the player loses it and its key; otherwise it
/// goes down. Says whether the player had a piece.
pub open spec fn fall_player(g: Seq<Seq<u8>>, p: Player) -> (Seq<Seq<u8>>, Player, bool) {
    match p.mino {
        None => (g, p, false),
        Some(m) => {
            let np = moved(m.pos, Key::DOWN);
            if hits_piled(g, m.cells_at_pos(np)) {
                (painted(g, m.cells(), m.piled_color), Player { mino: None, key: None, ..p }, true)
            } else {
                (g, Player { mino: Some(Mino { pos: np, ..m }), ..p }, true)
            }
        },
    }
}

/// The board, the players and whether anything moved, after the fall step
/// of the first `n` players, one after the other.
pub open spec fn fall_upto(g: Seq<Seq<u8>>, ps: Seq<Player>, n: nat) -> (Seq<Seq<u8>>, Seq<Player>, bool)
    decreases n,
{
    if n == 0 {
        (g, ps, false)
    } else {
        let (g1, ps1, u1) = fall_upto(g, ps, (n - 1) as nat);
        let (g2, p2, u2) = fall_player(g1, ps[n - 1]);
        (g2, ps1.update(n - 1, p2), u1 || u2)
    }
}

/// A piece that the game holds lies within three cells of the board.
pub proof fn lemma_piece_pos_bounds(m: Mino)
    requires
        piece_ok(m),
    ensures
        -3 <= m.pos.x < COLS,
        -3 <= m.pos.y < ROWS,
{
    broadcast use vstd::array::group_array_axioms;
    let pat = m.pattern(m.rotation as int);
    assert(pat.len() == 4);
    assert(sum_fits(pat[0], m.pos));
    assert(in_board(m.cells()[0]));
    assert(0 <= pat[0].x <= 3 && 0 <= pat[0].y <= 3);
}

/// A piece with the rotations of a small piece is small.
pub proof fn lemma_same_patterns_small(m1: Mino, m2: Mino)
    requires
        small_patterns(m1),
        m1.patterns == m2.patterns,
    ensures
        small_patterns(m2),
{
    assert forall|r: int, i: int| 0 <= r < 4 && 0 <= i < 4 implies 0 <= #[trigger] m2.pattern(r)[i].x <= 3 && 0
        <= m2.pattern(r)[i].y <= 3 by {
        assert(m2.pattern(r) == m1.pattern(r));
    }
}

/// Placing a small rotation near the board stays inside `i32`.
pub proof fn lemma_small_fits(m: Mino, p: Pos, r: int)
    requires
        small_patterns(m),
        0 <= r < 4,
        -100 <= p.x <= 100,
        -100 <= p.y <= 100,
    ensures
        cells_fit(p, m.pattern(r)),
{
    broadcast use vstd::array::group_array_axioms;
    assert forall|i: int| 0 <= i < m.pattern(r).len() implies #[trigger] sum_fits(m.pattern(r)[i], p) by {
        assert(0 <= m.pattern(r)[i].x <= 3);
    }
}

impl Game {
    /// On a frame where the frame counter is a multiple of the fall speed,
    /// moves every piece one row down or piles it; says whether any player
    /// had a piece.
    fn fall(&mut self) -> (updated: bool)
        requires
            old(self).wf(),
        ensures
            final(self).wf(),
            final(self)@.players.len() == old(self)@.players.len(),
            forall|j: int| 0 <= j < old(self)@.players.len() ==> (#[trigger] final(self)@.players[j]).id == old(self)@.players[j].id,
            old(self)@.tick % old(self)@.fall_velocity != 0 ==> final(self)@ == old(self)@ && !updated,
            old(self)@.tick % old(self)@.fall_velocity == 0 ==> ({
                let (g, ps, u) = fall_upto(old(self)@.board, old(self)@.players, old(self)@.players.len());
                final(self)@ == (GameView { board: g, players: ps, ..old(self)@ }) && updated == u
            }),
    {
        if self.tick % self.fall_velocity != 0 {
            return false;
        }
        let ghost g0 = self.board@;
        let ghost ps0 = self.players@;
        let mut updated = false;
        let mut i: usize = 0;
        while i < self.players.len()
            invariant
                0 <= i <= self.players.len(),
                self.wf(),
                self.players@.len() == ps0.len(),
                self@.tick == old(self)@.tick,
                self@.fall_velocity == old(self)@.fall_velocity,
                self@.score == old(self)@.score,
                ps0 == old(self)@.players,
                g0 == old(self)@.board,
                forall|j: int| i <= j < ps0.len() ==> self.players@[j] == ps0[j],
                forall|j: int| 0 <= j < ps0.len() ==> (#[trigger] self.players@[j]).id == ps0[j].id,
                (self.board@, self.players@, updated) == fall_upto(g0, ps0, i as nat),
            decreases self.players.len() - i,
        {
            let ghost before_board = self.board@;
            let ghost before_players = self.players@;
            let mut player = self.players[i];
            let mut mino_piled = false;
            match player.mino {
                Some(m0) => {
                    let mut m = m0;
                    assert(piece_ok(m));
                    proof {
                        lemma_piece_pos_bounds(m);
                    }
                    let next_pos = m.get_pos().next(Key::DOWN);
                    proof {
                        lemma_small_fits(m, next_pos, m.rotation as int);
                    }
                    let next = m.next_pos_occupied(next_pos);
                    if self.board.collision_with_piled(&next) {
                        self.board.pile(&m);
                        mino_piled = true;
                    } else {
                        m.set_pos(next_pos);
                        player.mino = Some(m);
                        assert(all_in_board(m.cells()));
                        proof {
                            lemma_same_patterns_small(m0, m);
                        }
                        assert(piece_ok(m));
                    }
                    updated = true;
                },
                None => {},
            }
            if mino_piled {
                player.mino = None;
                player.key = None;
            }
            self.players.set(i, player);
            assert(self.players@ =~= before_players.update(i as int, player));
            i = i + 1;
        }
        updated
    }
}

/// The cells of the player's piece, none when it has no piece.
pub open spec fn piece_cells(p: Player) -> Seq<Pos> {
    match p.mino {
        Some(m) => m.cells(),
        None => seq![],
    }
}

/// The cells of each player's piece by player id; of two players with the
/// same id the later one counts.
pub open spec fn others_map(ps: Seq<Player>) -> Map<i32, Seq<Pos>>
    decreases ps.len(),
{
    if ps.len() == 0 {
        Map::empty()
    } else {
        others_map(ps.drop_last()).insert(ps.last().id, piece_cells(ps.last()))
    }
}

/// True when some of `others` is one of the cells `next`.
pub open spec fn collides_with(next: Seq<Pos>, others: Seq<Pos>) -> bool {
    exists|j: int| 0 <= j < others.len() && covers(next, #[trigger] others[j])
}

/// True when the cells `next` meet the piece of a player whose id is not
/// `id`.
pub open spec fn blocked_by_others(others: Map<i32, Seq<Pos>>, id: i32, next: Seq<Pos>) -> bool {
    exists|k: i32| #[trigger] others.dom().contains(k) && k != id && collides_with(next, others[k])
}

/// The cells that a piece would cover after the key.
pub open spec fn key_target(m: Mino, key: Key) -> Seq<Pos> {
    if key == Key::ROTATION {
        m.rotated_cells()
    } else {
        m.cells_at_pos(moved(m.pos, key))
    }
}

/// The piece after the key.
pub open spec fn key_moved(m: Mino, key: Key) -> Mino {
    if key == Key::ROTATION {
        Mino { rotation: next_rotation(m.rotation as int) as usize, ..m }
    } else {
        Mino { pos: moved(m.pos, key), ..m }
    }
}

/// The key step for player `p`: a piece whose player pressed down and that
/// cannot go down is piled and lost; a piece that can move or rotate as the
/// key says, without meeting another player's piece, the walls or the
/// piled cells, does; the key is then forgotten. Says whether the board or
/// a piece changed.
pub open spec fn key_player(g: Seq<Seq<u8>>, others: Map<i32, Seq<Pos>>, p: Player) -> (
    Seq<Seq<u8>>,
    Player,
    bool,
) {
    match (p.mino, p.key) {
        (Some(m), Some(key)) => {
            let next = key_target(m, key);
            if key == Key::DOWN && hits_piled(g, next) {
                (painted(g, m.cells(), m.piled_color), Player { mino: None, key: None, ..p }, true)
            } else if blocked_by_others(others, p.id, next) || hits_wall(next) || hits_piled(g, next) {
                (g, Player { key: None, ..p }, false)
            } else {
                (g, Player { mino: Some(key_moved(m, key)), key: None, ..p }, true)
            }
        },
        _ => (g, Player { key: None, ..p }, false),
    }
}

/// The board, the players and whether anything changed, after the key
/// step of the first `n` players, one after the other, each checked
/// against the pieces `others` had before the step.
pub open spec fn key_upto(g: Seq<Seq<u8>>, others: Map<i32, Seq<Pos>>, ps: Seq<Player>, n: nat) -> (
    Seq<Seq<u8>>,
    Seq<Player>,
    bool,
)
    decreases n,
{
    if n == 0 {
        (g, ps, false)
    } else {
        let (g1, ps1, u1) = key_upto(g, others, ps, (n - 1) as nat);
        let (g2, p2, u2) = key_player(g1, others, ps[n - 1]);
        (g2, ps1.update(n - 1, p2), u1 || u2)
    }
}

/// The hash map `h` holds the cells of `m`.
pub open spec fn map_holds(h: Map<i32, Vec<Pos>>, m: Map<i32, Seq<Pos>>) -> bool {
    &&& h.dom() == m.dom()
    &&& forall|k: i32| #[trigger] h.contains_key(k) ==> h[k]@ == m[k]
}

/// True when `next` meets the cells of a key of `others` other than `id`.
fn collides_with_others(others: &HashMap<i32, Vec<Pos>>, id: i32, next: &Vec<Pos>, Ghost(m): Ghost<Map<i32, Seq<Pos>>>) -> (b: bool)
    requires
        map_holds(others@, m),
    ensures
        b == blocked_by_others(m, id, next@),
{
    broadcast use vstd::std_specs::hash::group_hash_axioms;
    let ghost all = vstd::std_specs::iter::IteratorSpec::remaining(&vstd::std_specs::hash::spec_hash_map_iter(others));
    for entry in it: others.iter()
        invariant
            map_holds(others@, m),
            it.seq() == all,
            forall|j: int|
                0 <= j < it.index() ==> !(*(#[trigger] all[j]).0 != id && collides_with(next@, all[j].1@)),
    {
        let (k, op) = entry;
        if *k != id && Mino::collision(next, op) {
            assert(m.dom().contains(*k));
            return true;
        }
    }
    assert forall|k: i32| #[trigger] m.dom().contains(k) && k != id implies !collides_with(next@, m[k]) by {
        assert(others@.contains_key(k));
        assert(all.contains((&k, &others@[k])));
        let j = choose|j: int| 0 <= j < all.len() && all[j] == (&k, &others@[k]);
        assert(!(*all[j].0 != id && collides_with(next@, all[j].1@)));
    }
    false
}

impl Game {
    /// Applies the key of every player that has one and a piece, then
    /// forgets every key; says whether the board or a piece changed.
    fn key_move(&mut self) -> (updated: bool)
        requires
            old(self).wf(),
        ensures
            final(self).wf(),
            final(self)@.players.len() == old(self)@.players.len(),
            forall|j: int| 0 <= j < old(self)@.players.len() ==> (#[trigger] final(self)@.players[j]).id == old(self)@.players[j].id,
            ({
                let (g, ps, u) = key_upto(
                    old(self)@.board,
                    others_map(old(self)@.players),
                    old(self)@.players,
                    old(self)@.players.len(),
                );
                final(self)@ == (GameView { board: g, players: ps, ..old(self)@ }) && updated == u
            }),
    {
        let ghost g0 = self.board@;
        let ghost ps0 = self.players@;
        let ghost om = others_map(ps0);
        let mut updated = false;

        broadcast use vstd::std_specs::hash::group_hash_axioms;
        let mut others: HashMap<i32, Vec<Pos>> = HashMap::new();
        let mut i: usize = 0;
        assert(ps0.take(0) =~= Seq::<Player>::empty());
        while i < self.players.len()
            invariant
                0 <= i <= self.players.len(),
                self.wf(),
                self@ == old(self)@,
                ps0 == self.players@,
                map_holds(others@, others_map(ps0.take(i as int))),
            decreases self.players.len() - i,
        {
            let p = &self.players[i];
            let pos = match p.mino {
                Some(m) => {
                    assert(piece_ok(m));
                    m.current_occupied()
                },
                None => Vec::new(),
            };
            assert(pos@ == piece_cells(ps0[i as int]));
            assert(ps0.take(i as int + 1).drop_last() =~= ps0.take(i as int));
            let ghost before = others@;
            let ghost cells = pos@;
            others.insert(p.id, pos);
            assert(map_holds(others@, others_map(ps0.take(i as int + 1)))) by {
                assert(others@ == before.insert(p.id, pos));
                assert(others@.dom() =~= others_map(ps0.take(i as int + 1)).dom());
            }
            i = i + 1;
        }
        assert(ps0.take(i as int) =~= ps0);

        let mut i: usize = 0;
        while i < self.players.len()
            invariant
                0 <= i <= self.players.len(),
                self.wf(),
                self.players@.len() == ps0.len(),
                self@.tick == old(self)@.tick,
                self@.fall_velocity == old(self)@.fall_velocity,
                self@.score == old(self)@.score,
                ps0 == old(self)@.players,
                g0 == old(self)@.board,
                om == others_map(ps0),
                map_holds(others@, om),
                forall|j: int| i <= j < ps0.len() ==> self.players@[j] == ps0[j],
                forall|j: int| 0 <= j < ps0.len() ==> (#[trigger] self.players@[j]).id == ps0[j].id,
                (self.board@, self.players@, updated) == key_upto(g0, om, ps0, i as nat),
            decreases self.players.len() - i,
        {
            let ghost before_players = self.players@;
            let mut player = self.players[i];
            let mut mino_piled = false;
            match player.mino {
                Some(m0) => match player.key {
                    Some(key) => {
                        let mut m = m0;
                        assert(piece_ok(m));
                        proof {
                            lemma_piece_pos_bounds(m);
                            lemma_small_fits(m, m.pos, next_rotation(m.rotation as int));
                        }
                        let next = if key == Key::ROTATION {
                            m.next_rotate_occupied()
                        } else {
                            let np = m.get_pos().next(key);
                            proof {
                                lemma_small_fits(m, np, m.rotation as int);
                            }
                            m.next_pos_occupied(np)
                        };
                        assert(next@ == key_target(m0, key));
                        if key == Key::DOWN && self.board.collision_with_piled(&next) {
                            self.board.pile(&m);
                            mino_piled = true;
                            updated = true;
                        } else {
                            let collision = collides_with_others(&others, player.id, &next, Ghost(om));
                            if collision || self.board.collision_with_wall(&next) || self.board.collision_with_piled(&next) {
                            } else {
                                if key == Key::ROTATION {
                                    m.rotate();
                                } else {
                                    let next_pos = m.get_pos().next(key);
                                    m.set_pos(next_pos);
                                }
                                assert(m == key_moved(m0, key));
                                assert(m.cells() == next@);
                                proof {
                                    lemma_same_patterns_small(m0, m);
                                    lemma_small_fits(m, m.pos, m.rotation as int);
                                }
                                assert(piece_ok(m));
                                player.mino = Some(m);
                                updated = true;
                            }
                        }
                    },
                    None => {},
                },
                None => {},
            }
            if mino_piled {
                player.mino = None;
            }
            player.key = None;
            self.players.set(i, player);
            assert(self.players@ =~= before_players.update(i as int, player));
            i = i + 1;
        }
        updated
    }
}

/// Where the piece of player `id` appears: row 0, at the start of the
/// player's share of the columns.
pub open spec fn spawn_pos(id: i32) -> Pos {
    Pos { x: (id * (COLS / MAX_PLAYER) as i32) as i32, y: 0 }
}

/// The piece of `shape` that player `id` gets: in the player's colours, at
/// the player's place.
pub open spec fn spawned(shape: Shape, id: i32) -> Mino {
    Mino {
        pos: spawn_pos(id),
        ..fresh_mino(
            shape,
            (STATE_COLOR_MIN + (id as u8)) as u8,
            (STATE_PILED_COLOR_MIN + (id as u8)) as u8,
        )
    }
}

/// The board, the players, whether a piece appeared and whether the game
/// is over, after the first `n` players were looked at: each player without
/// a piece gets the piece of the shape that `shapes` gives it; when that
/// piece meets a piled cell, it is piled and the game is over, and the
/// players after it are not looked at.
pub open spec fn appear_upto(g: Seq<Seq<u8>>, ps: Seq<Player>, shapes: Seq<Shape>, n: nat) -> (
    Seq<Seq<u8>>,
    Seq<Player>,
    bool,
    bool,
)
    decreases n,
{
    if n == 0 {
        (g, ps, false, false)
    } else {
        let (g1, ps1, a1, o1) = appear_upto(g, ps, shapes, (n - 1) as nat);
        if o1 {
            (g1, ps1, a1, o1)
        } else {
            match ps[n - 1].mino {
                Some(_) => (g1, ps1, a1, false),
                None => {
                    let m = spawned(shapes[n - 1], ps[n - 1].id);
                    if hits_piled(g1, m.cells()) {
                        (painted(g1, m.cells(), m.piled_color), ps1, true, true)
                    } else {
                        (g1, ps1.update(n - 1, Player { mino: Some(m), ..ps[n - 1] }), true, false)
                    }
                },
            }
        }
    }
}

/// True when every player's id is `0..MAX_PLAYER`, so that its new pieces
/// appear on the board.
pub open spec fn ids_in_range(ps: Seq<Player>) -> bool {
    forall|i: int| 0 <= i < ps.len() ==> 0 <= (#[trigger] ps[i]).id < MAX_PLAYER
}

/// Only the first `n` shapes count.
proof fn lemma_appear_prefix(g: Seq<Seq<u8>>, ps: Seq<Player>, s1: Seq<Shape>, s2: Seq<Shape>, n: nat)
    requires
        n <= s1.len(),
        n <= s2.len(),
        s1.take(n as int) == s2.take(n as int),
    ensures
        appear_upto(g, ps, s1, n) == appear_upto(g, ps, s2, n),
    decreases n,
{
    if n > 0 {
        assert(s1.take((n - 1) as int) =~= s1.take(n as int).take((n - 1) as int));
        assert(s2.take((n - 1) as int) =~= s2.take(n as int).take((n - 1) as int));
        assert(s1[n - 1] == s1.take(n as int)[n - 1]);
        assert(s2[n - 1] == s2.take(n as int)[n - 1]);
        lemma_appear_prefix(g, ps, s1, s2, (n - 1) as nat);
    }
}

/// Once the game is over, the players after are not looked at.
proof fn lemma_appear_over_stays(g: Seq<Seq<u8>>, ps: Seq<Player>, shapes: Seq<Shape>, k: nat, n: nat)
    requires
        k <= n,
        appear_upto(g, ps, shapes, k).3,
    ensures
        appear_upto(g, ps, shapes, n) == appear_upto(g, ps, shapes, k),
    decreases n - k,
{
    if n > k {
        lemma_appear_over_stays(g, ps, shapes, k, (n - 1) as nat);
    }
}

/// A piece that appears for a player of id in range lies on the board.
proof fn lemma_spawned_on_board(m: Mino, id: i32)
    requires
        0 <= id < MAX_PLAYER,
        small_patterns(m),
        m.rotation == 0,
        m.pos == spawn_pos(id),
    ensures
        piece_ok(m),
{
    broadcast use vstd::array::group_array_axioms;
    assert(COLS / MAX_PLAYER == 4);
    assert(m.pos.x == id * 4);
    lemma_small_fits(m, m.pos, 0);
    assert forall|i: int| 0 <= i < m.cells().len() implies #[trigger] in_board(m.cells()[i]) by {
        assert(0 <= m.pattern(0)[i].x <= 3);
    }
}

impl Game {
    /// Gives a new piece of a random shape to each player without one; when
    /// a new piece meets a piled cell, piles it and reports the game over.
    /// Says whether a piece appeared and whether the game is over.
    fn appear(&mut self) -> (r: (bool, bool))
        requires
            old(self).wf(),
            ids_in_range(old(self)@.players),
        ensures
            final(self).wf(),
            ids_in_range(final(self)@.players),
            exists|shapes: Seq<Shape>| {
                let (g, ps, a, o) = #[trigger] appear_upto(
                    old(self)@.board,
                    old(self)@.players,
                    shapes,
                    old(self)@.players.len(),
                );
                &&& final(self)@ == (GameView { board: g, players: ps, ..old(self)@ })
                &&& r == (a, o)
            },
    {
        let ghost g0 = self.board@;
        let ghost ps0 = self.players@;
        let ghost n = ps0.len();
        let ghost mut shapes: Seq<Shape> = seq![];
        let mut appeared = false;
        let mut i: usize = 0;
        while i < self.players.len()
            invariant
                0 <= i <= self.players.len(),
                self.wf(),
                self.players@.len() == ps0.len(),
                n == ps0.len(),
                self@.tick == old(self)@.tick,
                self@.fall_velocity == old(self)@.fall_velocity,
                self@.score == old(self)@.score,
                ps0 == old(self)@.players,
                g0 == old(self)@.board,
                ids_in_range(ps0),
                forall|j: int| 0 <= j < ps0.len() ==> (#[trigger] self.players@[j]).id == ps0[j].id,
                forall|j: int| i <= j < ps0.len() ==> self.players@[j] == ps0[j],
                shapes.len() == i,
                (self.board@, self.players@, appeared, false) == appear_upto(g0, ps0, shapes, i as nat),
            decreases self.players.len() - i,
        {
            let ghost before_players = self.players@;
            let mut player = self.players[i];
            match player.mino {
                Some(_) => {
                    proof {
                        assert(shapes.take(i as int) =~= shapes.push(Shape::I).take(i as int));
                        lemma_appear_prefix(g0, ps0, shapes, shapes.push(Shape::I), i as nat);
                        shapes = shapes.push(Shape::I);
                    }
                },
                None => {
                    assert(0 <= ps0[i as int].id < MAX_PLAYER);
                    let mut new_mino = Mino::choose_random(
                        STATE_COLOR_MIN + player.id as u8,
                        STATE_PILED_COLOR_MIN + player.id as u8,
                    );
                    proof {
                        lemma_fresh_is_fresh_mino(new_mino, new_mino.shape, new_mino.color, new_mino.piled_color);
                        assert(shapes.take(i as int) =~= shapes.push(new_mino.shape).take(i as int));
                        lemma_appear_prefix(g0, ps0, shapes, shapes.push(new_mino.shape), i as nat);
                        shapes = shapes.push(new_mino.shape);
                    }
                    assert(COLS / MAX_PLAYER == 4);
                    assert(0 <= player.id * 4 <= 12) by (nonlinear_arith)
                        requires
                            0 <= player.id < 4,
                    ;
                    assert(player.id * (COLS / MAX_PLAYER) == player.id * 4);
                    let ghost chosen = new_mino;
                    proof {
                        lemma_shape_patterns_small(chosen);
                    }
                    let init_pos = Board::initial_mino_pos(player.id, MAX_PLAYER);
                    new_mino.set_pos(init_pos);
                    proof {
                        lemma_same_patterns_small(chosen, new_mino);
                    }
                    assert(new_mino == spawned(shapes[i as int], ps0[i as int].id));
                    proof {
                        lemma_spawned_on_board(new_mino, player.id);
                    }
                    if self.board.collision_with_piled(&new_mino.current_occupied()) {
                        self.board.pile(&new_mino);
                        proof {
                            let full = shapes + Seq::new((n - i - 1) as nat, |k: int| Shape::I);
                            assert(full.take(i as int + 1) =~= shapes.take(i as int + 1));
                            lemma_appear_prefix(g0, ps0, shapes, full, i as nat + 1);
                            lemma_appear_over_stays(g0, ps0, full, i as nat + 1, n);
                            let (g, ps, a, o) = appear_upto(g0, ps0, full, n);
                            assert(self@ == (GameView { board: g, players: ps, ..old(self)@ }));
                        }
                        return (true, true);
                    }
                    appeared = true;
                    player.mino = Some(new_mino);
                    self.players.set(i, player);
                    assert(self.players@ =~= before_players.update(i as int, player));
                },
            }
            i = i + 1;
        }
        (appeared, false)
    }

    /// Clears the full rows and adds their number to the score; says whether
    /// any row was cleared.
    fn clear_lines(&mut self) -> (cleared: bool)
        requires
            old(self).wf(),
            old(self)@.score + cleared_count(old(self)@.board) <= u8::MAX,
        ensures
            final(self).wf(),
            final(self)@ == (GameView {
                board: cleared_grid(old(self)@.board),
                score: (old(self)@.score + cleared_count(old(self)@.board)) as u8,
                ..old(self)@
            }),
            cleared == (cleared_count(old(self)@.board) > 0),
    {
        let cleared = self.board.clear_lines();
        if cleared > 0 {
            self.score = self.score + cleared;
            return true;
        }
        return false;
    }
}

/// The game after one frame, with `shapes` giving the shapes of the new
/// pieces, and what the frame reports: whether anything changed on the
/// board or in the pieces, and whether the game is over. The frame counter
/// goes up; without players nothing else happens. Otherwise the fall speeds
/// up every `UP_INT` frames down to one step every 5 frames; then the full
/// rows are cleared and scored, the pieces fall, the keys are applied and
/// new pieces appear.
pub open spec fn frame(v: GameView, shapes: Seq<Shape>) -> (GameView, (bool, bool)) {
    let t = (v.tick + 1) as u32;
    if v.players.len() == 0 {
        (GameView { tick: t, ..v }, (false, false))
    } else {
        let fv = if t % UP_INT == 0 && v.fall_velocity > 5 {
            (v.fall_velocity - 1) as u32
        } else {
            v.fall_velocity
        };
        let g1 = cleared_grid(v.board);
        let c = cleared_count(v.board);
        let score = (v.score + c) as u8;
        let (g2, ps2, fallen) = if t % fv == 0 {
            fall_upto(g1, v.players, v.players.len())
        } else {
            (g1, v.players, false)
        };
        let (g3, ps3, moved) = key_upto(g2, others_map(ps2), ps2, ps2.len());
        let (g4, ps4, appeared, over) = appear_upto(g3, ps3, shapes, ps3.len());
        (
            GameView { board: g4, players: ps4, tick: t, fall_velocity: fv, score },
            (c > 0 || fallen || moved || appeared, over),
        )
    }
}

impl Game {
    /// Runs one frame of the game (see `frame`); returns whether the board
    /// or a piece changed, and whether the game is over.
    pub fn on_frame(&mut self) -> (r: (bool, bool))
        requires
            old(self).wf(),
            frame_ready(old(self)@),
        ensures
            final(self).wf(),
            ids_in_range(final(self)@.players),
            exists|shapes: Seq<Shape>| #[trigger] frame(old(self)@, shapes) == (final(self)@, r),
    {
        self.tick();
        if !self.on_playing() {
            assert(frame(old(self)@, seq![]) == (self@, (false, false)));
            return (false, false);
        }
        if (self.tick % UP_INT) == 0 {
            if self.fall_velocity > 5 {
                self.fall_velocity -= 1;
            }
        }
        let ghost v1 = self@;
        let cleared = self.clear_lines();
        let ghost v2 = self@;
        let fallen = self.fall();
        let ghost v3 = self@;
        let moved = self.key_move();
        let ghost v4 = self@;
        let (appeared, game_over) = self.appear();
        proof {
            let shapes = choose|shapes: Seq<Shape>| {
                let (g, ps, a, o) = #[trigger] appear_upto(v4.board, v4.players, shapes, v4.players.len());
                &&& self@ == (GameView { board: g, players: ps, ..v4 })
                &&& (appeared, game_over) == (a, o)
            };
            assert(frame(old(self)@, shapes) == (self@, (cleared || fallen || moved || appeared, game_over)));
        }
        (cleared || fallen || moved || appeared, game_over)
    }
}

/// True when a frame can run on a game without overflowing its counters
/// and with every new piece on the board.
pub open spec fn frame_ready(v: GameView) -> bool {
    &&& v.tick < u32::MAX
    &&& v.players.len() > 0 ==> v.score + cleared_count(v.board) <= u8::MAX
    &&& ids_in_range(v.players)
}

impl Game {
    /// Whether a frame can run now (see `frame_ready`).
    pub fn can_run_frame(&self) -> (b: bool)
        requires
            self.wf(),
        ensures
            b == frame_ready(self@),
    {
        if self.tick == u32::MAX {
            return false;
        }
        if !players_fit_frame(&self.board, self.score, &self.players) {
            return false;
        }
        true
    }
}

/// Whether a frame can run with these players on a game of this board and
/// score: a score that the rows to clear cannot overflow when there are
/// players, and every id in range.
fn players_fit_frame(board: &Board, score: u8, players: &Vec<Player>) -> (b: bool)
    requires
        board.wf(),
    ensures
        b == ((players@.len() > 0 ==> score + cleared_count(board@) <= u8::MAX) && ids_in_range(players@)),
{
    if players.len() > 0 {
        let c = board.lines_to_clear();
        if score as u16 + c as u16 > u8::MAX as u16 {
            return false;
        }
    }
    let mut i: usize = 0;
    while i < players.len()
        invariant
            0 <= i <= players.len(),
            forall|k: int| 0 <= k < i ==> 0 <= (#[trigger] players@[k]).id < MAX_PLAYER,
        decreases players.len() - i,
    {
        let id = players[i].id;
        if id < 0 || id >= MAX_PLAYER as i32 {
            return false;
        }
        i = i + 1;
    }
    true
}
/// The events of a tick as values.
pub open spec fn events_view(es: Seq<(User, UserRx)>) -> Seq<(User, RxView)> {
    Seq::new(es.len(), |i: int| (es[i].0, es[i].1@))
}

/// The game after one message: a closed connection removes the user's
/// player, a key press is recorded, a parsing error changes nothing.
pub open spec fn apply_event(v: GameView, e: (User, RxView)) -> GameView {
    match e.1 {
        RxView::Closed => GameView { players: removed_player(v.players, e.0.id), ..v },
        RxView::KeyPress(k) => GameView { players: key_pressed(v.players, e.0.id, k), ..v },
        RxView::ParsingError(_) => v,
    }
}

/// The game after the messages, one after the other.
pub open spec fn apply_events(v: GameView, es: Seq<(User, RxView)>) -> GameView
    decreases es.len(),
{
    if es.len() == 0 {
        v
    } else {
        apply_event(apply_events(v, es.drop_last()), es.last())
    }
}

impl Game {
    /// Whether a frame can run after the messages `events` (see
    /// `frame_ready`), which is what a server tick needs.
    pub fn tick_ready(&self, events: &Vec<(User, UserRx)>) -> (b: bool)
        requires
            self.wf(),
        ensures
            b == frame_ready(apply_events(self@, events_view(events@))),
    {
        let ghost evs = events_view(events@);
        let mut players: Vec<Player> = Vec::new();
        let mut k: usize = 0;
        while k < self.players.len()
            invariant
                0 <= k <= self.players.len(),
                players@ == self.players@.take(k as int),
            decreases self.players.len() - k,
        {
            players.push(self.players[k]);
            assert(self.players@.take(k as int + 1) =~= self.players@.take(k as int).push(self.players@[k as int]));
            k = k + 1;
        }
        assert(self.players@.take(k as int) =~= self.players@);
        assert(evs.take(0) =~= Seq::<(User, RxView)>::empty());
        let mut i: usize = 0;
        while i < events.len()
            invariant
                0 <= i <= events.len(),
                evs == events_view(events@),
                apply_events(self@, evs.take(i as int)) == (GameView { players: players@, ..self@ }),
            decreases events.len() - i,
        {
            assert(evs.take(i as int + 1).drop_last() =~= evs.take(i as int));
            assert(evs.take(i as int + 1).last() == evs[i as int]);
            let id = events[i].0.id;
            match &events[i].1 {
                UserRx::Closed => remove_first(&mut players, id),
                UserRx::KeyPress { key } => press_key(&mut players, id, *key),
                UserRx::ParsingError(_) => {},
            }
            i = i + 1;
        }
        assert(evs.take(events.len() as int) =~= evs);
        if self.tick == u32::MAX {
            return false;
        }
        players_fit_frame(&self.board, self.score, &players)
    }
}


/// A frame with players on a board with a row whose every cell is not empty
/// reports a change.
pub proof fn lemma_frame_reports_cleared_row(v: GameView, shapes: Seq<Shape>, y: int)
    requires
        grid_wf(v.board),
        v.players.len() > 0,
        0 <= y < ROWS,
        forall|x: int| 0 <= x < COLS ==> #[trigger] v.board[x][y] != STATE_EMPTY,
    ensures
        frame(v, shapes).1.0,
{
    lemma_full_row_is_cleared(v.board, y);
}

/// Some cell of `cells` has, one row down, the floor or a cell that is not
/// empty.
pub open spec fn blocked_below(g: Seq<Seq<u8>>, cells: Seq<Pos>) -> bool {
    exists|i: int|
        0 <= i < cells.len() && ((#[trigger] cells[i]).y + 1 >= ROWS || g[cells[i].x as int][cells[i].y + 1]
            != STATE_EMPTY)
}

/// The cells of a piece one row down are its cells, each one row lower.
proof fn lemma_cells_one_row_down(m: Mino, i: int)
    requires
        piece_ok(m),
        0 <= i < 4,
    ensures
        m.cells_at_pos(moved(m.pos, Key::DOWN)).len() == 4,
        m.cells().len() == 4,
        m.cells_at_pos(moved(m.pos, Key::DOWN))[i] == (Pos { x: m.cells()[i].x, y: (m.cells()[i].y + 1) as i32 }),
{
    broadcast use vstd::array::group_array_axioms;
    lemma_piece_pos_bounds(m);
    assert(0 <= m.pattern(m.rotation as int)[i].x <= 3);
    assert(0 <= m.pattern(m.rotation as int)[i].y <= 3);
}

/// The fall step keeps the size of the board, and after the first `n`
/// players it has changed only those players.
proof fn lemma_fall_upto_shape(g: Seq<Seq<u8>>, ps: Seq<Player>, n: nat)
    requires
        grid_wf(g),
        n <= ps.len(),
    ensures
        grid_wf(fall_upto(g, ps, n).0),
        fall_upto(g, ps, n).1.len() == ps.len(),
        forall|k: int| n <= k < ps.len() ==> #[trigger] fall_upto(g, ps, n).1[k] == ps[k],
    decreases n,
{
    if n > 0 {
        lemma_fall_upto_shape(g, ps, (n - 1) as nat);
        let g1 = fall_upto(g, ps, (n - 1) as nat).0;
        match ps[n - 1].mino {
            Some(m) => lemma_painted_wf(g1, m.cells(), m.piled_color),
            None => {},
        }
    }
}

/// Later steps of the fall leave the players before them as they were.
proof fn lemma_fall_upto_keeps(g: Seq<Seq<u8>>, ps: Seq<Player>, i: int, n: nat)
    requires
        0 <= i < n <= ps.len(),
    ensures
        fall_upto(g, ps, n).1[i] == fall_upto(g, ps, (i + 1) as nat).1[i],
    decreases n,
{
    lemma_fall_upto_len(g, ps, n);
    if n > i + 1 {
        lemma_fall_upto_keeps(g, ps, i, (n - 1) as nat);
        lemma_fall_upto_len(g, ps, (n - 1) as nat);
    }
}

proof fn lemma_fall_upto_len(g: Seq<Seq<u8>>, ps: Seq<Player>, n: nat)
    requires
        n <= ps.len(),
    ensures
        fall_upto(g, ps, n).1.len() == ps.len(),
    decreases n,
{
    if n > 0 {
        lemma_fall_upto_len(g, ps, (n - 1) as nat);
    }
}

/// On a fall frame, a piece whose cells one row down reach the floor or a
/// cell that is not empty is painted onto the board in its piled colour,
/// and its player holds no piece afterwards; any other piece goes one row
/// down. `g` and `ps` are the board and players as the fall step starts;
/// the board that player `i` meets is the one after the players before it.
pub proof fn lemma_fall_piles_or_drops(g: Seq<Seq<u8>>, ps: Seq<Player>, i: int)
    requires
        grid_wf(g),
        players_ok(ps),
        0 <= i < ps.len(),
        ps[i].mino is Some,
    ensures
        ({
            let m = ps[i].mino->0;
            let before = fall_upto(g, ps, i as nat).0;
            let after = fall_upto(g, ps, (i + 1) as nat).0;
            let last = fall_upto(g, ps, ps.len()).1[i];
            if blocked_below(before, m.cells()) {
                &&& last.mino is None
                &&& forall|k: int| 0 <= k < m.cells().len() ==> after[m.cells()[k].x as int][m.cells()[k].y as int]
                    == m.piled_color
            } else {
                last.mino == Some(Mino { pos: Pos { x: m.pos.x, y: (m.pos.y + 1) as i32 }, ..m })
            }
        }),
{
    let m = ps[i].mino->0;
    assert(piece_ok(m));
    lemma_fall_upto_shape(g, ps, i as nat);
    lemma_fall_upto_keeps(g, ps, i, ps.len());
    let before = fall_upto(g, ps, i as nat).0;
    let down = m.cells_at_pos(moved(m.pos, Key::DOWN));
    let cells = m.cells();
    assert forall|k: int| 0 <= k < 4 implies #[trigger] down[k] == (Pos { x: cells[k].x, y: (cells[k].y + 1) as i32 }) by {
        lemma_cells_one_row_down(m, k);
    }
    lemma_cells_one_row_down(m, 0);
    assert(all_in_board(cells));
    if blocked_below(before, cells) {
        let k = choose|k: int|
            0 <= k < cells.len() && ((#[trigger] cells[k]).y + 1 >= ROWS || before[cells[k].x as int][cells[k].y + 1]
                != STATE_EMPTY);
        assert(in_board(cells[k]));
        assert(down[k] == (Pos { x: cells[k].x, y: (cells[k].y + 1) as i32 }));
        assert(hits_piled(before, down));
        let after = painted(before, cells, m.piled_color);
        assert forall|k: int| 0 <= k < cells.len() implies after[cells[k].x as int][cells[k].y as int] == m.piled_color by {
            assert(in_board(cells[k]));
            assert(covers(cells, Pos { x: cells[k].x as int as i32, y: cells[k].y as int as i32 }));
        }
    } else {
        assert forall|k: int| 0 <= k < down.len() implies !(!in_board(#[trigger] down[k]) || before[down[k].x as int][down[k].y as int]
            != STATE_EMPTY) by {
            assert(in_board(cells[k]));
            assert(down[k] == (Pos { x: cells[k].x, y: (cells[k].y + 1) as i32 }));
            assert(!((cells[k]).y + 1 >= ROWS || before[cells[k].x as int][cells[k].y + 1] != STATE_EMPTY));
        }
        assert(!hits_piled(before, down));
    }
}

proof fn lemma_key_upto_len(g: Seq<Seq<u8>>, om: Map<i32, Seq<Pos>>, ps: Seq<Player>, n: nat)
    requires
        n <= ps.len(),
    ensures
        key_upto(g, om, ps, n).1.len() == ps.len(),
    decreases n,
{
    if n > 0 {
        lemma_key_upto_len(g, om, ps, (n - 1) as nat);
    }
}

/// Later key steps leave the players before them as they were.
proof fn lemma_key_upto_keeps(g: Seq<Seq<u8>>, om: Map<i32, Seq<Pos>>, ps: Seq<Player>, i: int, n: nat)
    requires
        0 <= i < n <= ps.len(),
    ensures
        key_upto(g, om, ps, n).1[i] == key_player(key_upto(g, om, ps, i as nat).0, om, ps[i]).1,
    decreases n,
{
    lemma_key_upto_len(g, om, ps, n);
    lemma_key_upto_len(g, om, ps, (n - 1) as nat);
    if n > i + 1 {
        lemma_key_upto_keeps(g, om, ps, i, (n - 1) as nat);
    }
}

/// The cells of the last player of an id are what the map of other pieces
/// holds for that id.
proof fn lemma_others_map_last(ps: Seq<Player>, j: int)
    requires
        0 <= j < ps.len(),
        forall|k: int| j < k < ps.len() ==> (#[trigger] ps[k]).id != ps[j].id,
    ensures
        others_map(ps).dom().contains(ps[j].id),
        others_map(ps)[ps[j].id] == piece_cells(ps[j]),
    decreases ps.len(),
{
    if j < ps.len() - 1 {
        let q = ps.drop_last();
        assert forall|k: int| j < k < q.len() implies (#[trigger] q[k]).id != q[j].id by {
            assert(q[k] == ps[k]);
        }
        lemma_others_map_last(q, j);
        assert(ps.last().id != ps[j].id);
    }
}

/// A piece moved or rotated by a key covers the cells that its key step
/// aimed at.
proof fn lemma_key_moved_cells(m: Mino, key: Key)
    requires
        m.rotation < 4,
    ensures
        key_moved(m, key).cells() == key_target(m, key),
{
}

/// After the key step, a piece that moved or rotated covers no cell that
/// the piece of another player covered before the step. `j` is the last
/// player of its id, whose piece is the one the step checks against.
pub proof fn lemma_moved_piece_avoids_others(g: Seq<Seq<u8>>, ps: Seq<Player>, i: int, j: int)
    requires
        players_ok(ps),
        0 <= i < ps.len(),
        0 <= j < ps.len(),
        ps[j].id != ps[i].id,
        forall|k: int| j < k < ps.len() ==> (#[trigger] ps[k]).id != ps[j].id,
        key_upto(g, others_map(ps), ps, ps.len()).1[i].mino is Some,
        key_upto(g, others_map(ps), ps, ps.len()).1[i].mino != ps[i].mino,
    ensures
        ({
            let moved_piece = key_upto(g, others_map(ps), ps, ps.len()).1[i].mino->0;
            forall|a: int, b: int|
                0 <= a < moved_piece.cells().len() && 0 <= b < piece_cells(ps[j]).len()
                    ==> moved_piece.cells()[a] != piece_cells(ps[j])[b]
        }),
{
    let om = others_map(ps);
    lemma_key_upto_keeps(g, om, ps, i, ps.len());
    lemma_others_map_last(ps, j);
    let gi = key_upto(g, om, ps, i as nat).0;
    let p = ps[i];
    let r = key_player(gi, om, p).1;
    assert(r == key_upto(g, om, ps, ps.len()).1[i]);
    let m = p.mino->0;
    assert(piece_ok(m));
    let key = p.key->0;
    let next = key_target(m, key);
    assert(p.key is Some);
    assert(!(key == Key::DOWN && hits_piled(gi, next)));
    assert(!(blocked_by_others(om, p.id, next) || hits_wall(next) || hits_piled(gi, next)));
    assert(r.mino == Some(key_moved(m, key)));
    lemma_key_moved_cells(m, key);
    let others = piece_cells(ps[j]);
    assert(!collides_with(next, others));
    assert forall|a: int, b: int| 0 <= a < next.len() && 0 <= b < others.len() implies next[a] != others[b] by {
        if next[a] == others[b] {
            assert(covers(next, others[b]));
        }
    }
}

/// The fall step reports a change as soon as one of the players it looked
/// at holds a piece.
proof fn lemma_fall_reports_a_piece(g: Seq<Seq<u8>>, ps: Seq<Player>, n: nat, i: int)
    requires
        0 <= i < n <= ps.len(),
        ps[i].mino is Some,
    ensures
        fall_upto(g, ps, n).2,
    decreases n,
{
    if i < n - 1 {
        lemma_fall_reports_a_piece(g, ps, (n - 1) as nat, i);
    }
}

/// A frame whose fall step runs while some player holds a piece reports a
/// change.
pub proof fn lemma_frame_reports_fall(v: GameView, shapes: Seq<Shape>, i: int)
    requires
        0 <= i < v.players.len(),
        v.players[i].mino is Some,
        ({
            let t = (v.tick + 1) as u32;
            let fv = if t % UP_INT == 0 && v.fall_velocity > 5 {
                (v.fall_velocity - 1) as u32
            } else {
                v.fall_velocity
            };
            t % fv == 0
        }),
    ensures
        frame(v, shapes).1.0,
{
    lemma_fall_reports_a_piece(cleared_grid(v.board), v.players, v.players.len(), i);
}
} // verus!
