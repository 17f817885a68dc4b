//! The messages that flow between the peers, the connections and the manager.

use crate::board::{Game, Player};
use vstd::prelude::*;

verus! {

/// A request from a peer to mark a square; checked by the manager, not here.
#[derive(Debug, Clone, Copy, PartialEq, Eq, Structural)]
pub struct MoveRequest {
    pub row: usize,
    pub col: usize,
}

/// One message on the wire: the state of the game, sent to the peers, or a
/// move, sent by a peer.
#[derive(Debug, Clone, Copy, PartialEq, Eq)]
pub enum Frame {
    Game(Game),
    Move(MoveRequest),
}

/// What the manager tells a connection.
#[derive(Debug, Clone, Copy, PartialEq, Eq)]
pub enum ConnectionMessage {
    /// Stop serving the peer.
    Exit,
    /// The seat the connection now holds, if any.
    SetPlayer(Option<Player>),
    /// The state of the game, to be written to the peer.
    Game(Game),
}

/// Who a connection is, as the manager's registry knows it.
pub type ConnectionId = u64;

/// What the manager is told.
#[derive(Debug, Clone, Copy, PartialEq, Eq)]
pub enum ManagerMessage {
    /// Shut down: ask every connection to exit, then stop.
    Exit,
    /// A new connection wants to join.
    Connect(ConnectionId),
    /// A connection has ended, holding the given seat; the manager takes
    /// back whatever seat its own record gives that connection.
    Disconnect(ConnectionId, Option<Player>),
    /// The holder of a seat asks to play.
    Move(Player, MoveRequest),
    /// Send this to every registered connection.
    Broadcast(ConnectionMessage),
}

} // verus!
