//! Game logic of a multiplayer falling-block server: the board, the pieces,
//! the per-frame rules, the wire format of server commands and the parsing of
//! client messages.

pub mod block_state;
pub mod user_rx;
pub mod mino;
pub mod board;
pub mod game;
pub mod user;
pub mod session;
pub mod server_command;
