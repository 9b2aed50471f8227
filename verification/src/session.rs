use vstd::prelude::*;
use crate::game::{apply_events, board_command, events_view, frame, frame_ready, initial_game, Game};
use crate::mino::Shape;
use crate::server_command::{encodable, CommandView, ServerCommand};
use crate::user::User;
use crate::user_rx::{RxView, UserRx};

verus! {

/// Users get ids `0..MAX_USER`.
pub const MAX_USER: i32 = 100;

/// True when some of `used` is `id`.
pub open spec fn id_used(used: Seq<i32>, id: int) -> bool {
    exists|j: int| 0 <= j < used.len() && used[j] == id
}

/// The smallest id in `0..MAX_USER` that no session uses, if there is one.
pub fn first_free_user_id(used: &Vec<i32>) -> (r: Option<i32>)
    ensures
        match r {
            Some(id) => 0 <= id < MAX_USER && !id_used(used@, id as int) && forall|k: int|
                0 <= k < id ==> #[trigger] id_used(used@, k),
            None => forall|k: int| 0 <= k < MAX_USER ==> #[trigger] id_used(used@, k),
        },
{
    let mut i: i32 = 0;
    while i < MAX_USER
        invariant
            0 <= i <= MAX_USER,
            forall|k: int| 0 <= k < i ==> #[trigger] id_used(used@, k),
        decreases MAX_USER - i,
    {
        let mut candidate = true;
        let mut j: usize = 0;
        while j < used.len()
            invariant
                0 <= j <= used.len(),
                0 <= i < MAX_USER,
                candidate <==> forall|k: int| 0 <= k < j ==> used@[k] != i,
            decreases used.len() - j,
        {
            if used[j] == i {
                candidate = false;
            }
            j = j + 1;
        }
        if candidate {
            return Some(i);
        }
        assert(id_used(used@, i as int));
        i = i + 1;
    }
    None
}

/// What a tick asks of the server: the sessions to close, and the
/// commands to send to every session, in order.
pub struct TickOutcome {
    pub closed: Vec<User>,
    pub broadcasts: Vec<ServerCommand>,
}

/// The users whose connections closed, in order.
pub open spec fn closed_users(es: Seq<(User, RxView)>) -> Seq<User>
    decreases es.len(),
{
    if es.len() == 0 {
        seq![]
    } else {
        let rest = closed_users(es.drop_last());
        match es.last().1 {
            RxView::Closed => rest.push(es.last().0),
            _ => rest,
        }
    }
}

/// The commands as values.
pub open spec fn commands_view(cs: Seq<ServerCommand>) -> Seq<CommandView> {
    Seq::new(cs.len(), |i: int| cs[i]@)
}

impl Game {
    /// Handles one tick of the server: applies the messages of the users in
    /// order, runs a frame, and says which sessions to close and what to
    /// send to every session. When the game is over, the board and a game
    /// over are sent and a new game starts; otherwise the board is sent when
    /// it changed. `session_num` is the number of sessions the server has.
    pub fn run_tick(&mut self, events: &Vec<(User, UserRx)>, session_num: usize) -> (out: TickOutcome)
        requires
            old(self).wf(),
            frame_ready(apply_events(old(self)@, events_view(events@))),
        ensures
            final(self).wf(),
            out.closed@ == closed_users(events_view(events@)),
            forall|i: int| 0 <= i < out.broadcasts.len() ==> encodable(#[trigger] out.broadcasts@[i]@),
            exists|shapes: Seq<Shape>| {
                let (v2, r) = #[trigger] frame(apply_events(old(self)@, events_view(events@)), shapes);
                if r.1 {
                    &&& initial_game(final(self)@)
                    &&& commands_view(out.broadcasts@) == seq![
                        board_command(v2, session_num as int),
                        CommandView::GameOver,
                    ]
                } else {
                    &&& final(self)@ == v2
                    &&& commands_view(out.broadcasts@) == if r.0 {
                        seq![board_command(v2, session_num as int)]
                    } else {
                        Seq::<CommandView>::empty()
                    }
                }
            },
    {
        let ghost evs = events_view(events@);
        let mut closed: Vec<User> = Vec::new();
        let mut i: usize = 0;
        while i < events.len()
            invariant
                0 <= i <= events.len(),
                evs == events_view(events@),
                self.wf(),
                frame_ready(apply_events(old(self)@, evs)),
                self@ == apply_events(old(self)@, evs.take(i as int)),
                closed@ == closed_users(evs.take(i as int)),
            decreases events.len() - i,
        {
            let ghost before = self@;
            let user = events[i].0;
            assert(evs.take(i as int + 1).drop_last() =~= evs.take(i as int));
            assert(evs.take(i as int + 1).last() == evs[i as int]);
            match &events[i].1 {
                UserRx::Closed => {
                    self.remove_player(user.id);
                    closed.push(user);
                },
                UserRx::KeyPress { key } => {
                    self.on_key_press(user.id, *key);
                },
                UserRx::ParsingError(_) => {},
            }
            i = i + 1;
        }
        assert(evs.take(events.len() as int) =~= evs);
        let ghost v1 = self@;
        let (updated, game_over) = self.on_frame();
        let ghost v2 = self@;
        let mut broadcasts: Vec<ServerCommand> = Vec::new();
        if game_over {
            let board_cmd = self.get_board_state(session_num);
            broadcasts.push(board_cmd);
            broadcasts.push(ServerCommand::GameOver);
            self.new_game();
            assert(commands_view(broadcasts@) =~= seq![board_command(v2, session_num as int), CommandView::GameOver]);
        } else if updated {
            let board_cmd = self.get_board_state(session_num);
            broadcasts.push(board_cmd);
            assert(commands_view(broadcasts@) =~= seq![board_command(v2, session_num as int)]);
        } else {
            assert(commands_view(broadcasts@) =~= Seq::<CommandView>::empty());
        }
        proof {
            let shapes = choose|shapes: Seq<Shape>| #[trigger] frame(v1, shapes) == (v2, (updated, game_over));
            assert(frame(apply_events(old(self)@, evs), shapes) == (v2, (updated, game_over)));
        }
        TickOutcome { closed, broadcasts }
    }
}

} // verus!
