use vstd::prelude::*;
use std::sync::mpsc::Sender;
use crate::server_command::{encodable, ServerCommand};
use crate::user_rx::UserRx;

verus! {

pub type UserId = i32;

/// A connected user, known by its id.
#[derive(Debug, Copy, Clone, PartialEq, Eq, Hash, Structural)]
pub struct User {
    pub id: UserId,
}

impl User {
    pub fn new(id: UserId) -> (u: User)
        ensures
            u == (User { id }),
    {
        User { id: id }
    }
}

#[verifier::external_type_specification]
#[verifier::external_body]
#[verifier::reject_recursive_types(T)]
pub struct ExSender<T>(Sender<T>);

/// Calls `Sender::send` of `std::sync::mpsc`; whether the receiver still
/// takes messages is not known here, so nothing is claimed of the answer.
#[verifier::external_body]
fn channel_send(ch: &Sender<Vec<u8>>, blob: Vec<u8>) -> bool {
    ch.send(blob).is_ok()
}

/// A user's connection: the user, the channel to its socket writer, and the
/// one message received from it that waits to be handled.
pub struct UserSession {
    pub user: User,
    pub ch: Sender<Vec<u8>>,
    pub rx: Option<UserRx>,
}

impl UserSession {
    pub fn new(user: User, ch: Sender<Vec<u8>>) -> (s: UserSession)
        ensures
            s.user == user,
            s.ch == ch,
            s.rx is None,
    {
        UserSession { user: user, ch: ch, rx: None }
    }

    /// Keeps `cmd` as the waiting message, unless one already waits.
    pub fn on_user_rx(&mut self, cmd: UserRx)
        ensures
            final(self).user == old(self).user,
            final(self).ch == old(self).ch,
            old(self).rx is Some ==> final(self).rx == old(self).rx,
            old(self).rx is None ==> final(self).rx == Some(cmd),
    {
        match self.rx {
            Some(_) => {},
            None => self.rx = Some(cmd),
        };
    }

    /// Takes the waiting message, if any.
    pub fn pop_user_rx(&mut self) -> (r: Option<UserRx>)
        ensures
            r == old(self).rx,
            final(self).user == old(self).user,
            final(self).ch == old(self).ch,
            final(self).rx is None,
    {
        let org = self.rx.take();
        org
    }

    /// Sends the encoding of `cmd` to the user; says whether the channel
    /// took it.
    pub fn send_to(&self, cmd: &ServerCommand) -> bool
        requires
            encodable(cmd@),
    {
        channel_send(&self.ch, ServerCommand::to_blob(cmd))
    }
}

} // verus!
