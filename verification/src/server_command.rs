use vstd::prelude::*;

verus! {

/// A message sent from the server to every client.
#[derive(Debug, Clone)]
pub enum ServerCommand {
    Join { is_player: bool, player_id: u8 },
    Fin,
    Board { state: Vec<Vec<u8>>, score: u8, player: u8, spectator: u8 },
    GameOver,
}

/// The mathematical value of a server command: the board is a sequence of
/// columns, each a sequence of cells.
pub enum CommandView {
    Join { is_player: bool, player_id: u8 },
    Fin,
    Board { state: Seq<Seq<u8>>, score: u8, player: u8, spectator: u8 },
    GameOver,
}

/// The view of a sequence of vectors: the sequence of their views.
pub open spec fn rows_view(rows: Seq<Vec<u8>>) -> Seq<Seq<u8>> {
    Seq::new(rows.len(), |i: int| rows[i]@)
}

impl View for ServerCommand {
    type V = CommandView;

    open spec fn view(&self) -> CommandView {
        match self {
            ServerCommand::Join { is_player, player_id } => CommandView::Join {
                is_player: *is_player,
                player_id: *player_id,
            },
            ServerCommand::Fin => CommandView::Fin,
            ServerCommand::Board { state, score, player, spectator } => CommandView::Board {
                state: rows_view(state@),
                score: *score,
                player: *player,
                spectator: *spectator,
            },
            ServerCommand::GameOver => CommandView::GameOver,
        }
    }
}

/// The rows one after the other.
pub open spec fn flatten(rows: Seq<Seq<u8>>) -> Seq<u8>
    decreases rows.len(),
{
    if rows.len() == 0 {
        seq![]
    } else {
        flatten(rows.drop_last()) + rows.last()
    }
}

/// The bytes of a command on the wire: an operation code, then its fields;
/// a board carries its score, player and spectator counts, its number of
/// columns and of rows (each truncated to a byte), then its columns.
pub open spec fn blob_of(cmd: CommandView) -> Seq<u8> {
    match cmd {
        CommandView::Join { is_player, player_id } => seq![
            0u8,
            if is_player { 1u8 } else { 0u8 },
            player_id,
        ],
        CommandView::Fin => seq![1u8],
        CommandView::Board { state, score, player, spectator } => seq![
            2u8,
            score,
            player,
            spectator,
            state.len() as u8,
            state[0].len() as u8,
        ] + flatten(state),
        CommandView::GameOver => seq![3u8],
    }
}

/// True when `to_blob` can encode the command: a board has at least one
/// column, and its bytes fit in memory.
pub open spec fn encodable(cmd: CommandView) -> bool {
    match cmd {
        CommandView::Board { state, .. } => state.len() > 0 && 6 + flatten(state).len() <= usize::MAX,
        _ => true,
    }
}

proof fn lemma_flatten_take(rows: Seq<Seq<u8>>, i: int)
    requires
        0 <= i < rows.len(),
    ensures
        flatten(rows.take(i + 1)) == flatten(rows.take(i)) + rows[i],
{
    assert(rows.take(i + 1).drop_last() =~= rows.take(i));
}

proof fn lemma_flatten_prefix_len(rows: Seq<Seq<u8>>, i: int)
    requires
        0 <= i <= rows.len(),
    ensures
        flatten(rows.take(i)).len() <= flatten(rows).len(),
    decreases rows.len() - i,
{
    if i < rows.len() {
        lemma_flatten_take(rows, i);
        lemma_flatten_prefix_len(rows, i + 1);
    } else {
        assert(rows.take(i) =~= rows);
    }
}

impl ServerCommand {
    /// Encodes a command as bytes.
    pub fn to_blob(cmd: &ServerCommand) -> (blob: Vec<u8>)
        requires
            encodable(cmd@),
        ensures
            blob@ == blob_of(cmd@),
    {
        let mut blob: Vec<u8> = Vec::new();
        match cmd {
            ServerCommand::Join { is_player, player_id } => {
                blob.push(0);
                if *is_player {
                    blob.push(1);
                } else {
                    blob.push(0);
                }
                blob.push(*player_id);
                assert(blob@ =~= blob_of(cmd@));
            },
            ServerCommand::Fin => {
                blob.push(1);
                assert(blob@ =~= blob_of(cmd@));
            },
            ServerCommand::Board { state, score, player, spectator } => {
                let ghost rows = rows_view(state@);
                blob.push(2);
                blob.push(*score);
                blob.push(*player);
                blob.push(*spectator);
                blob.push(state.len() as u8);
                blob.push(state[0].len() as u8);
                let ghost header = blob@;
                assert(header =~= seq![2u8, *score, *player, *spectator, rows.len() as u8, rows[0].len() as u8]);
                let mut i: usize = 0;
                assert(rows.take(0) =~= Seq::<Seq<u8>>::empty());
                while i < state.len()
                    invariant
                        0 <= i <= state.len(),
                        rows == rows_view(state@),
                        6 + flatten(rows).len() <= usize::MAX,
                        header.len() == 6,
                        blob@ == header + flatten(rows.take(i as int)),
                    decreases state.len() - i,
                {
                    let row = &state[i];
                    let mut j: usize = 0;
                    proof {
                        lemma_flatten_take(rows, i as int);
                        lemma_flatten_prefix_len(rows, i as int + 1);
                    }
                    while j < row.len()
                        invariant
                            0 <= i < state.len(),
                            0 <= j <= row.len(),
                            row@ == rows[i as int],
                            header.len() == 6,
                            6 + flatten(rows.take(i as int + 1)).len() <= usize::MAX,
                            flatten(rows.take(i as int + 1)) == flatten(rows.take(i as int)) + rows[i as int],
                            blob@ == header + flatten(rows.take(i as int)) + row@.take(j as int),
                        decreases row.len() - j,
                    {
                        blob.push(row[j]);
                        assert(row@.take(j as int + 1) =~= row@.take(j as int).push(row@[j as int]));
                        j = j + 1;
                    }
                    assert(row@.take(j as int) =~= row@);
                    assert(blob@ =~= header + flatten(rows.take(i as int + 1)));
                    i = i + 1;
                }
                assert(rows.take(state.len() as int) =~= rows);
                assert(blob@ =~= blob_of(cmd@));
            },
            ServerCommand::GameOver => {
                blob.push(3);
                assert(blob@ =~= blob_of(cmd@));
            },
        }
        blob
    }
}

/// The length of an encoded command: three bytes for a join, one for a fin
/// or a game over, and six plus one per cell for a board.
pub proof fn lemma_blob_len(cmd: CommandView)
    ensures
        blob_of(cmd).len() == match cmd {
            CommandView::Join { .. } => 3,
            CommandView::Fin => 1,
            CommandView::Board { state, .. } => 6 + flatten(state).len(),
            CommandView::GameOver => 1,
        },
{
}

} // verus!
