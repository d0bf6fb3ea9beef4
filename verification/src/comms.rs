//! Inbound session state: the mailbox and the replicated game state.
//!
//! The listener itself (socket binding, HTTP) lives outside the library;
//! what its handlers do to the shared state is specified and proved here.
use std::collections::VecDeque;

use crate::game::{spec_flip, GameState, GameView};
use vstd::prelude::*;

verus! {

/// An event produced by an inbound request handler and consumed, in FIFO
/// order, by the foreground tick.
pub enum ServerMessage {
    UpdatedGameState,
    GuestConnected(String),
}

/// One session's inbound side: the address it serves, the event mailbox,
/// and this side's copy of the game state.
pub struct Server {
    pub url: String,
    pub messages: VecDeque<ServerMessage>,
    pub current_game_state: GameState,
}

impl Server {
    /// A fresh server for the given address, with an empty mailbox.
    pub fn new(url: String, state: GameState) -> (r: Server)
        ensures
            r.url@ == url@,
            r.messages@.len() == 0,
            r.current_game_state@ == state@,
    {
        Server { url, messages: VecDeque::new(), current_game_state: state }
    }

    /// The connection handshake: record that a guest at `guest_url` joined,
    /// and answer with a snapshot of the current state seen from the
    /// recipient's perspective — every field copied, the role flipped.
    pub fn handshake(&mut self, guest_url: String) -> (snapshot: GameState)
        ensures
            final(self).url@ == old(self).url@,
            final(self).current_game_state@ == old(self).current_game_state@,
            final(self).messages@ == old(self).messages@.push(
                ServerMessage::GuestConnected(guest_url),
            ),
            snapshot@ == (GameView {
                role: spec_flip(old(self).current_game_state@.role),
                ..old(self).current_game_state@
            }),
    {
        self.messages.push_back(ServerMessage::GuestConnected(guest_url));
        self.current_game_state.to_peer_perspective()
    }

    /// Full-state replication: overwrite this side's copy wholesale and
    /// record that it happened.
    pub fn receive_state(&mut self, new_state: GameState)
        ensures
            final(self).url@ == old(self).url@,
            final(self).current_game_state@ == new_state@,
            final(self).messages@ == old(self).messages@.push(
                ServerMessage::UpdatedGameState,
            ),
    {
        self.current_game_state = new_state;
        self.messages.push_back(ServerMessage::UpdatedGameState);
    }

    /// Take the oldest pending event, if any: the mailbox is a FIFO queue.
    pub fn pop_message(&mut self) -> (r: Option<ServerMessage>)
        ensures
            final(self).url@ == old(self).url@,
            final(self).current_game_state@ == old(self).current_game_state@,
            old(self).messages@.len() == 0 ==> r is None && final(self).messages@ == old(
                self,
            ).messages@,
            old(self).messages@.len() > 0 ==> r == Some(old(self).messages@[0])
                && final(self).messages@ == old(self).messages@.drop_first(),
    {
        self.messages.pop_front()
    }
}

} // verus!
