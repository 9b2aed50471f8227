# server

The logic of a multiplayer falling-block game played over WebSockets,
written in Verus with its contracts proved.

- `src/block_state.rs`: positions and the cell colours.
- `src/mino.rs`: the seven shapes, their rotations, and the cells a piece covers.
- `src/board.rs`: the 16 × 20 board: collisions, piling, clearing full rows,
  drawing the pieces.
- `src/game.rs`: players and the per-frame rules (clear, fall, keys, new pieces,
  game over), stated as spec functions over a view of the game.
- `src/session.rs`: user ids, and one tick of the server: messages in,
  a frame, sessions to close and commands to broadcast.
- `src/server_command.rs`: the byte encoding of server commands.
- `src/user_rx.rs`: client messages, read from JSON with `rustc_serialize`.
- `src/user.rs`: users and their sessions, which send on an `mpsc` channel.
- `app/main.rs`: the WebSocket server and its threads.
