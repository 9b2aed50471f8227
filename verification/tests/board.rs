use server::block_state::{Pos, STATE_EMPTY};
use server::board::{Board, COLS, ROWS};
use server::mino::{Mino, Shape};

#[test]
fn test_board_new() {
    let b = Board::new();
    assert!(match b.states[0][0] {
        STATE_EMPTY => true,
        _ => false,
    });
}

#[test]
fn new_board_has_the_right_size_and_is_empty() {
    let b = Board::new();
    assert_eq!(b.states.len(), COLS);
    for col in &b.states {
        assert_eq!(col.len(), ROWS);
        assert!(col.iter().all(|c| *c == STATE_EMPTY));
    }
}

#[test]
fn empty_clears_every_cell() {
    let mut b = Board::new();
    b.states[3][7] = 21;
    b.states[15][19] = 22;
    b.empty();
    assert!(b.states.iter().all(|col| col.iter().all(|c| *c == STATE_EMPTY)));
}

#[test]
fn initial_positions_split_the_columns() {
    assert_eq!(Board::initial_mino_pos(0, 4), Pos::new(0, 0));
    assert_eq!(Board::initial_mino_pos(3, 4), Pos::new(12, 0));
    assert_eq!(Board::initial_mino_pos(1, 2), Pos::new(8, 0));
    assert_eq!(Board::initial_mino_pos(-2, 16), Pos::new(-2, 0));
}

#[test]
fn wall_collisions() {
    let b = Board::new();
    assert!(!b.collision_with_wall(&vec![Pos::new(0, 5), Pos::new(15, -3), Pos::new(7, 40)]));
    assert!(b.collision_with_wall(&vec![Pos::new(3, 0), Pos::new(-1, 0)]));
    assert!(b.collision_with_wall(&vec![Pos::new(16, 0)]));
    assert!(!b.collision_with_wall(&vec![]));
}

#[test]
fn piled_collisions() {
    let mut b = Board::new();
    assert!(!b.collision_with_piled(&vec![Pos::new(0, 0), Pos::new(15, 19)]));
    assert!(b.collision_with_piled(&vec![Pos::new(0, 20)]));
    assert!(b.collision_with_piled(&vec![Pos::new(0, -1)]));
    assert!(b.collision_with_piled(&vec![Pos::new(16, 3)]));
    b.states[4][10] = 23;
    assert!(b.collision_with_piled(&vec![Pos::new(1, 1), Pos::new(4, 10)]));
    assert!(!b.collision_with_piled(&vec![Pos::new(4, 9)]));
}

#[test]
fn pile_paints_the_piece_and_then_collides() {
    let mut b = Board::new();
    let mut m = Mino::new(Shape::O, 11, 21);
    m.set_pos(Pos::new(5, 18));
    b.pile(&m);
    for (x, y) in [(5, 18), (5, 19), (6, 18), (6, 19)] {
        assert_eq!(b.states[x][y], 21);
    }
    assert_eq!(b.states[4][18], STATE_EMPTY);
    assert_eq!(b.states[7][19], STATE_EMPTY);
    assert!(b.collision_with_piled(&m.current_occupied()));
}

fn fill_row(b: &mut Board, y: usize, color: u8) {
    for x in 0..COLS {
        b.states[x][y] = color;
    }
}

#[test]
fn clear_lines_on_a_board_without_full_rows_changes_nothing() {
    let mut b = Board::new();
    b.states[0][19] = 20;
    b.states[5][3] = 21;
    let before = b.states.clone();
    assert_eq!(b.lines_to_clear(), 0);
    assert_eq!(b.clear_lines(), 0);
    assert_eq!(b.states, before);
}

#[test]
fn clear_lines_removes_a_full_row_and_shifts_the_rows_above() {
    let mut b = Board::new();
    fill_row(&mut b, 19, 20);
    b.states[2][18] = 22;
    b.states[9][5] = 23;
    assert_eq!(b.lines_to_clear(), 1);
    assert_eq!(b.clear_lines(), 1);
    assert_eq!(b.states[2][19], 22);
    assert_eq!(b.states[9][6], 23);
    assert_eq!(b.states[9][5], STATE_EMPTY);
    assert_eq!(b.states[0][19], STATE_EMPTY);
    assert_eq!(b.states[2][18], STATE_EMPTY);
}

#[test]
fn clear_lines_counts_two_full_rows() {
    let mut b = Board::new();
    fill_row(&mut b, 18, 20);
    fill_row(&mut b, 19, 21);
    b.states[1][17] = 22;
    assert_eq!(b.clear_lines(), 2);
    assert_eq!(b.states[1][19], 22);
    for x in 0..COLS {
        if x != 1 {
            assert_eq!(b.states[x][19], STATE_EMPTY);
        }
        assert_eq!(b.states[x][18], STATE_EMPTY);
    }
}

#[test]
fn clear_lines_keeps_the_top_row_when_shifting() {
    let mut b = Board::new();
    b.states[4][0] = 24;
    fill_row(&mut b, 2, 20);
    assert_eq!(b.clear_lines(), 1);
    assert_eq!(b.states[4][0], 24);
    assert_eq!(b.states[4][1], 24);
    assert_eq!(b.states[4][2], STATE_EMPTY);
}

#[test]
fn a_full_top_row_is_counted_and_stays() {
    let mut b = Board::new();
    fill_row(&mut b, 0, 20);
    assert_eq!(b.clear_lines(), 1);
    assert!((0..COLS).all(|x| b.states[x][0] == 20));
    assert_eq!(b.clear_lines(), 1);
}

#[test]
fn to_server_cmd_draws_the_pieces_later_over_earlier() {
    let mut b = Board::new();
    b.states[0][19] = 20;
    let mut a = Mino::new(Shape::O, 10, 20);
    a.set_pos(Pos::new(3, 3));
    let mut c = Mino::new(Shape::I, 11, 21);
    c.set_pos(Pos::new(2, 3));
    let cmd = b.to_server_cmd(&vec![a, c]);
    match cmd {
        server::server_command::ServerCommand::Board { state, score, player, spectator } => {
            assert_eq!((score, player, spectator), (0, 0, 0));
            assert_eq!(state[0][19], 20);
            assert_eq!(state[3][3], 10);
            assert_eq!(state[3][4], 11);
            assert_eq!(state[2][4], 11);
            assert_eq!(state[5][4], 11);
            assert_eq!(state[4][3], 10);
            assert_eq!(state[6][4], STATE_EMPTY);
        }
        _ => panic!("expected a board"),
    }
}
