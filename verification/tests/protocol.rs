use server::server_command::ServerCommand;
use server::user::{User, UserSession};
use server::user_rx::{Key, UserRx};
use std::sync::mpsc;

#[test]
fn blob_of_join() {
    let cmd = ServerCommand::Join { is_player: true, player_id: 3 };
    assert_eq!(ServerCommand::to_blob(&cmd), vec![0, 1, 3]);
    let cmd = ServerCommand::Join { is_player: false, player_id: 7 };
    assert_eq!(ServerCommand::to_blob(&cmd), vec![0, 0, 7]);
}

#[test]
fn blob_of_fin_and_game_over() {
    assert_eq!(ServerCommand::to_blob(&ServerCommand::Fin), vec![1]);
    assert_eq!(ServerCommand::to_blob(&ServerCommand::GameOver), vec![3]);
}

#[test]
fn blob_of_board() {
    let cmd = ServerCommand::Board {
        state: vec![vec![1, 2, 3], vec![4, 5, 6]],
        score: 9,
        player: 2,
        spectator: 1,
    };
    assert_eq!(ServerCommand::to_blob(&cmd), vec![2, 9, 2, 1, 2, 3, 1, 2, 3, 4, 5, 6]);
}

#[test]
fn blob_of_board_truncates_its_sizes_to_a_byte() {
    let cmd = ServerCommand::Board { state: vec![vec![7u8; 300]], score: 0, player: 0, spectator: 0 };
    let blob = ServerCommand::to_blob(&cmd);
    assert_eq!(blob.len(), 306);
    assert_eq!(&blob[..6], &[2, 0, 0, 0, 1, 44]);
}

fn parsed(text: &str) -> UserRx {
    UserRx::fromJson(text.to_string())
}

fn error_text(rx: UserRx) -> String {
    match rx {
        UserRx::ParsingError(s) => s,
        other => panic!("expected a parsing error, got {:?}", other),
    }
}

#[test]
fn key_messages() {
    assert!(matches!(parsed(r#"{"op":"key","d":"l"}"#), UserRx::KeyPress { key: Key::LEFT }));
    assert!(matches!(parsed(r#"{"op":"key","d":"r"}"#), UserRx::KeyPress { key: Key::RIGHT }));
    assert!(matches!(parsed(r#"{"op":"key","d":"d"}"#), UserRx::KeyPress { key: Key::DOWN }));
    assert!(matches!(parsed(r#"{"d":"t","op":"key"}"#), UserRx::KeyPress { key: Key::ROTATION }));
}

#[test]
fn unknown_letter_is_reported() {
    assert_eq!(error_text(parsed(r#"{"op":"key","d":"x"}"#)), "Unknown key Some(\"x\")");
    assert_eq!(error_text(parsed(r#"{"op":"key","d":5}"#)), "Unknown key None");
}

#[test]
fn unknown_operation_is_reported() {
    assert_eq!(error_text(parsed(r#"{"op":"move","d":"l"}"#)), "Unknown key \"move\"");
    assert_eq!(error_text(parsed(r#"{"op":"key"}"#)), "Unknown key \"key\"");
}

#[test]
fn message_without_operation_is_returned() {
    let text = r#"{"d":"l"}"#;
    assert_eq!(error_text(parsed(text)), text);
    let text = r#"[1, 2]"#;
    assert_eq!(error_text(parsed(text)), text);
    let text = r#"{"op":3}"#;
    assert_eq!(error_text(parsed(text)), text);
}

#[test]
fn malformed_message_is_not_json() {
    assert_eq!(error_text(parsed("{op: key")), "not json!");
    assert_eq!(error_text(parsed("")), "not json!");
}

#[test]
fn parts_are_read_as_the_parser_found_them() {
    let r = UserRx::from_json_parts("x".to_string(), Some("key".to_string()), Some(Some("t".to_string())));
    assert!(matches!(r, UserRx::KeyPress { key: Key::ROTATION }));
    let r = UserRx::from_json_parts("whole".to_string(), None, Some(Some("t".to_string())));
    assert_eq!(error_text(r), "whole");
    let r = UserRx::from_json_parts("x".to_string(), Some("key".to_string()), None);
    assert_eq!(error_text(r), "Unknown key \"key\"");
}

#[test]
fn user_new_keeps_its_id() {
    assert_eq!(User::new(42).id, 42);
}

#[test]
fn session_keeps_the_first_waiting_message() {
    let (tx, _rx) = mpsc::channel();
    let mut s = UserSession::new(User::new(1), tx);
    assert!(s.pop_user_rx().is_none());
    s.on_user_rx(UserRx::KeyPress { key: Key::LEFT });
    s.on_user_rx(UserRx::Closed);
    assert!(matches!(s.pop_user_rx(), Some(UserRx::KeyPress { key: Key::LEFT })));
    assert!(s.pop_user_rx().is_none());
    s.on_user_rx(UserRx::Closed);
    assert!(matches!(s.pop_user_rx(), Some(UserRx::Closed)));
}

#[test]
fn session_sends_the_encoding() {
    let (tx, rx) = mpsc::channel();
    let s = UserSession::new(User::new(2), tx);
    assert!(s.send_to(&ServerCommand::Join { is_player: true, player_id: 2 }));
    assert_eq!(rx.recv().unwrap(), vec![0, 1, 2]);
    drop(rx);
    assert!(!s.send_to(&ServerCommand::GameOver));
}

#[test]
fn deeply_nested_message_is_read() {
    let text = format!("{}{}", "[".repeat(500), "]".repeat(500));
    assert_eq!(text.chars().count(), 1000);
    assert_eq!(error_text(parsed(&text)), text);
}

#[test]
fn long_message_within_the_bound_is_read() {
    let key = "é".repeat(1000);
    let text = format!("{{\"{}\":1}}", key);
    assert!(text.chars().count() <= server::user_rx::MAX_MESSAGE_CHARS);
    assert_eq!(error_text(parsed(&text)), text);
}
