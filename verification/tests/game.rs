use server::block_state::STATE_EMPTY;
use server::board::{COLS, ROWS};
use server::game::{Game, Player};
use server::server_command::ServerCommand;
use server::session::{first_free_user_id, MAX_USER};
use server::user::User;
use server::user_rx::{Key, UserRx};

fn board_of(cmd: &ServerCommand) -> (Vec<Vec<u8>>, u8, u8, u8) {
    match cmd {
        ServerCommand::Board { state, score, player, spectator } => (state.clone(), *score, *player, *spectator),
        _ => panic!("expected a board"),
    }
}

fn cells_of_color(state: &Vec<Vec<u8>>, color: u8) -> Vec<(usize, usize)> {
    let mut v = Vec::new();
    for x in 0..state.len() {
        for y in 0..state[x].len() {
            if state[x][y] == color {
                v.push((x, y));
            }
        }
    }
    v
}

#[test]
fn player_new_has_no_piece() {
    let p = Player::new(3);
    assert_eq!(p.id, 3);
    assert!(p.mino.is_none());
    assert!(p.key.is_none());
}

#[test]
fn new_game_state() {
    let g = Game::new();
    let (state, score, player, spectator) = board_of(&g.get_board_state(0));
    assert_eq!(state.len(), COLS);
    assert!(state.iter().all(|c| c.len() == ROWS && c.iter().all(|x| *x == STATE_EMPTY)));
    assert_eq!((score, player, spectator), (0, 0, 0));
    assert_eq!(ServerCommand::to_blob(&g.get_board_state(0)).len(), 6 + COLS * ROWS);
}

#[test]
fn at_most_four_players() {
    let mut g = Game::new();
    for id in 0..4 {
        assert!(g.attempt_to_add_player(id));
    }
    assert!(!g.attempt_to_add_player(4));
    let (_, _, player, spectator) = board_of(&g.get_board_state(6));
    assert_eq!((player, spectator), (4, 0));
    let (_, _, _, spectator) = board_of(&g.get_board_state(1));
    assert_eq!(spectator, 3);
    g.remove_player(2);
    let (_, _, player, _) = board_of(&g.get_board_state(0));
    assert_eq!(player, 3);
    g.remove_player(9);
    let (_, _, player, _) = board_of(&g.get_board_state(0));
    assert_eq!(player, 3);
    assert!(g.attempt_to_add_player(7));
}

#[test]
fn frame_without_players_does_nothing() {
    let mut g = Game::new();
    assert!(g.can_run_frame());
    assert_eq!(g.on_frame(), (false, false));
    assert_eq!(g.on_frame(), (false, false));
}

#[test]
fn a_piece_appears_then_moves_right() {
    let mut g = Game::new();
    g.attempt_to_add_player(0);
    assert_eq!(g.on_frame(), (true, false));
    let (state, _, _, _) = board_of(&g.get_board_state(1));
    let first = cells_of_color(&state, 10);
    assert_eq!(first.len(), 4);
    assert!(first.iter().all(|(x, y)| *x <= 3 && *y <= 3));

    g.on_key_press(0, Key::RIGHT);
    assert_eq!(g.on_frame(), (true, false));
    let (state, _, _, _) = board_of(&g.get_board_state(1));
    let moved: Vec<(usize, usize)> = first.iter().map(|(x, y)| (x + 1, *y)).collect();
    assert_eq!(cells_of_color(&state, 10), moved);

    g.on_key_press(0, Key::LEFT);
    assert_eq!(g.on_frame(), (true, false));
    g.on_key_press(0, Key::LEFT);
    assert_eq!(g.on_frame(), (false, false));
    let (state, _, _, _) = board_of(&g.get_board_state(1));
    assert_eq!(cells_of_color(&state, 10), first);
}

#[test]
fn key_of_another_user_is_ignored() {
    let mut g = Game::new();
    g.attempt_to_add_player(1);
    g.on_frame();
    let (before, _, _, _) = board_of(&g.get_board_state(1));
    g.on_key_press(2, Key::RIGHT);
    assert_eq!(g.on_frame(), (false, false));
    let (after, _, _, _) = board_of(&g.get_board_state(1));
    assert_eq!(before, after);
    assert_eq!(cells_of_color(&after, 11).len(), 4);
}

#[test]
fn pieces_fall_every_forty_frames() {
    let mut g = Game::new();
    g.attempt_to_add_player(0);
    g.on_frame();
    let (state, _, _, _) = board_of(&g.get_board_state(1));
    let first = cells_of_color(&state, 10);
    for _ in 2..40 {
        assert_eq!(g.on_frame(), (false, false));
    }
    assert_eq!(g.on_frame(), (true, false));
    let (state, _, _, _) = board_of(&g.get_board_state(1));
    let fallen: Vec<(usize, usize)> = first.iter().map(|(x, y)| (*x, y + 1)).collect();
    let mut got = cells_of_color(&state, 10);
    got.sort();
    let mut want = fallen;
    want.sort();
    assert_eq!(got, want);
}

#[test]
fn a_piece_that_cannot_appear_ends_the_game() {
    let mut g = Game::new();
    for x in 0..4 {
        for y in 0..4 {
            g.board.states[x][y] = 21;
        }
    }
    g.attempt_to_add_player(0);
    assert!(g.can_run_frame());
    assert_eq!(g.on_frame(), (true, true));
    let (state, _, _, _) = board_of(&g.get_board_state(1));
    assert_eq!(cells_of_color(&state, 20).len(), 4);
    assert_eq!(cells_of_color(&state, 10).len(), 0);
}

#[test]
fn frames_need_ids_in_range() {
    let mut g = Game::new();
    g.attempt_to_add_player(4);
    assert!(!g.can_run_frame());
    g.remove_player(4);
    g.attempt_to_add_player(3);
    assert!(g.can_run_frame());
}

#[test]
fn new_game_resets_everything() {
    let mut g = Game::new();
    g.attempt_to_add_player(0);
    g.on_frame();
    g.board.states[1][1] = 20;
    g.new_game();
    let (state, score, player, _) = board_of(&g.get_board_state(0));
    assert!(state.iter().all(|c| c.iter().all(|x| *x == STATE_EMPTY)));
    assert_eq!((score, player), (0, 0));
}

#[test]
fn tick_closes_sessions_and_broadcasts_changes() {
    let mut g = Game::new();
    g.attempt_to_add_player(0);
    g.attempt_to_add_player(1);
    let events = vec![(User::new(0), UserRx::Closed), (User::new(1), UserRx::ParsingError("x".to_string()))];
    let out = g.run_tick(&events, 2);
    assert_eq!(out.closed, vec![User::new(0)]);
    assert_eq!(out.broadcasts.len(), 1);
    let (state, _, player, _) = board_of(&out.broadcasts[0]);
    assert_eq!(player, 1);
    assert_eq!(cells_of_color(&state, 11).len(), 4);
    let out = g.run_tick(&vec![], 1);
    assert!(out.closed.is_empty());
    assert!(out.broadcasts.is_empty());
}

#[test]
fn tick_on_game_over_starts_a_new_game() {
    let mut g = Game::new();
    for x in 0..4 {
        for y in 0..4 {
            g.board.states[x][y] = 22;
        }
    }
    g.attempt_to_add_player(0);
    let out = g.run_tick(&vec![], 3);
    assert_eq!(out.broadcasts.len(), 2);
    let (state, _, player, spectator) = board_of(&out.broadcasts[0]);
    assert_eq!((player, spectator), (1, 0));
    assert_eq!(cells_of_color(&state, 20).len(), 4);
    assert!(matches!(out.broadcasts[1], ServerCommand::GameOver));
    let (state, _, player, _) = board_of(&g.get_board_state(0));
    assert_eq!(player, 0);
    assert!(state.iter().all(|c| c.iter().all(|x| *x == STATE_EMPTY)));
}

#[test]
fn cleared_rows_score() {
    let mut g = Game::new();
    for x in 0..COLS {
        g.board.states[x][19] = 20;
    }
    g.attempt_to_add_player(0);
    assert_eq!(g.on_frame(), (true, false));
    let (state, score, _, _) = board_of(&g.get_board_state(1));
    assert_eq!(score, 1);
    assert!((0..COLS).all(|x| state[x][19] == STATE_EMPTY));
}

#[test]
fn free_user_ids() {
    assert_eq!(first_free_user_id(&vec![]), Some(0));
    assert_eq!(first_free_user_id(&vec![0, 1, 3]), Some(2));
    assert_eq!(first_free_user_id(&vec![2, 0, 1]), Some(3));
    let all: Vec<i32> = (0..MAX_USER).rev().collect();
    assert_eq!(first_free_user_id(&all), None);
}

#[test]
fn adding_then_removing_a_player_gives_the_game_back() {
    let mut g = Game::new();
    g.attempt_to_add_player(0);
    g.on_frame();
    let before = board_of(&g.get_board_state(2));
    assert!(g.attempt_to_add_player(5));
    assert_eq!(board_of(&g.get_board_state(2)).2, 2);
    g.remove_player(5);
    assert_eq!(board_of(&g.get_board_state(2)), before);
}

#[test]
fn frame_without_players_does_not_clear_rows() {
    let mut g = Game::new();
    for x in 0..COLS {
        g.board.states[x][19] = 20;
    }
    assert!(g.can_run_frame());
    assert_eq!(g.on_frame(), (false, false));
    assert!((0..COLS).all(|x| g.board.states[x][19] == 20));
}

#[test]
fn a_closing_player_out_of_range_does_not_block_the_tick() {
    let mut g = Game::new();
    g.attempt_to_add_player(0);
    g.attempt_to_add_player(6);
    assert!(!g.can_run_frame());
    let events = vec![(User::new(6), UserRx::Closed)];
    assert!(g.tick_ready(&events));
    assert!(!g.tick_ready(&vec![(User::new(0), UserRx::Closed)]));
    let out = g.run_tick(&events, 1);
    assert_eq!(out.closed, vec![User::new(6)]);
    let (_, _, player, _) = board_of(&out.broadcasts[0]);
    assert_eq!(player, 1);
}
