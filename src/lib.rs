//! Two-player tic-tac-toe over a network: the board rules, the wire format of
//! frames, and the decisions of the manager, the connections and the client.

pub mod board;
pub mod client;
pub mod codec;
pub mod connection;
pub mod manager;
pub mod protocol;

pub use protocol::{ConnectionId, ConnectionMessage, Frame, ManagerMessage, MoveRequest};
