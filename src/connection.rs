//! A connection: the decisions of the actor that serves one peer. It is told
//! what happened (a message from the manager, a frame from the peer, the end
//! of either side) and answers with what to send; the caller does the I/O.

use crate::board::Player;
use crate::codec::{encode_message, message_bytes};
use crate::protocol::{ConnectionId, ConnectionMessage, Frame, ManagerMessage};
use vstd::prelude::*;

verus! {

/// Something that happened to a connection.
#[derive(Debug, Clone, Copy, PartialEq, Eq)]
pub enum ConnectionEvent {
    /// A message from the manager.
    Manager(ConnectionMessage),
    /// The manager's channel has closed.
    ManagerGone,
    /// A whole frame from the peer.
    Inbound(Frame),
    /// The peer closed its side.
    PeerClosed,
    /// Reading from the peer failed, or its bytes were no frame.
    ReadFailed,
    /// Writing to the peer failed.
    WriteFailed,
}

/// What to do after an event.
#[derive(Debug)]
pub struct Actions {
    /// A message for the manager.
    pub to_manager: Option<ManagerMessage>,
    /// Bytes to write to the peer.
    pub to_peer: Option<Vec<u8>>,
}

/// The state of a connection, as contracts see it.
pub struct ConnectionView {
    pub id: ConnectionId,
    pub seat: Option<Player>,
    /// Still serving the peer.
    pub open: bool,
}

impl ConnectionView {
    /// Whether `ev` ends the connection.
    pub open spec fn ends(ev: ConnectionEvent) -> bool {
        match ev {
            ConnectionEvent::Manager(ConnectionMessage::Exit) => true,
            ConnectionEvent::ManagerGone => true,
            ConnectionEvent::PeerClosed => true,
            ConnectionEvent::ReadFailed => true,
            ConnectionEvent::WriteFailed => true,
            _ => false,
        }
    }

    /// What the connection does with `ev`: its next state, what it tells the
    /// manager, and what it writes to the peer.
    pub open spec fn next(self, ev: ConnectionEvent) -> (
        ConnectionView,
        Option<ManagerMessage>,
        Option<Seq<u8>>,
    ) {
        if !self.open {
            (self, None, None)
        } else if Self::ends(ev) {
            (
                ConnectionView { open: false, ..self },
                Some(ManagerMessage::Disconnect(self.id, self.seat)),
                None,
            )
        } else {
            match ev {
                ConnectionEvent::Manager(ConnectionMessage::SetPlayer(s)) => (
                    ConnectionView { seat: s, ..self },
                    None,
                    None,
                ),
                ConnectionEvent::Manager(ConnectionMessage::Game(g)) => (
                    self,
                    None,
                    Some(message_bytes(Frame::Game(g))),
                ),
                ConnectionEvent::Inbound(Frame::Move(req)) => (
                    self,
                    match self.seat {
                        Some(p) => Some(ManagerMessage::Move(p, req)),
                        None => None,
                    },
                    None,
                ),
                _ => (self, None, None),
            }
        }
    }

    /// The state after `evs`, one after another, and how many disconnect
    /// notices were sent on the way.
    pub open spec fn run(self, evs: Seq<ConnectionEvent>) -> (ConnectionView, nat)
        decreases evs.len(),
    {
        if evs.len() == 0 {
            (self, 0)
        } else {
            let (c, m, _) = self.next(evs[0]);
            let (d, k) = c.run(evs.drop_first());
            (d, k + if m matches Some(ManagerMessage::Disconnect(_, _)) { 1nat } else { 0nat })
        }
    }
}

/// The bytes held by `o`, if any.
pub open spec fn bytes_of(o: Option<Vec<u8>>) -> Option<Seq<u8>> {
    match o {
        Some(v) => Some(v@),
        None => None,
    }
}

/// Whatever happens, a connection tells the manager of its end exactly once:
/// one disconnect notice if it has closed, none while it is open.
pub proof fn lemma_disconnect_once(c: ConnectionView, evs: Seq<ConnectionEvent>)
    requires
        c.open,
    ensures
        c.run(evs).1 == (if c.run(evs).0.open { 0nat } else { 1nat }),
    decreases evs.len(),
{
    if evs.len() > 0 {
        let (d, m, _) = c.next(evs[0]);
        if d.open {
            lemma_disconnect_once(d, evs.drop_first());
        } else {
            lemma_closed_stays(d, evs.drop_first());
        }
    }
}

proof fn lemma_closed_stays(c: ConnectionView, evs: Seq<ConnectionEvent>)
    requires
        !c.open,
    ensures
        c.run(evs) == (c, 0nat),
    decreases evs.len(),
{
    if evs.len() > 0 {
        lemma_closed_stays(c, evs.drop_first());
    }
}

/// The actor's state for one peer.
pub struct Connection {
    id: ConnectionId,
    seat: Option<Player>,
    open: bool,
}

impl View for Connection {
    type V = ConnectionView;

    closed spec fn view(&self) -> ConnectionView {
        ConnectionView { id: self.id, seat: self.seat, open: self.open }
    }
}

impl Connection {
    /// A new connection: open, with no seat.
    pub fn new(id: ConnectionId) -> (r: Connection)
        ensures
            r@.id == id,
            r@.seat is None,
            r@.open,
    {
        Connection { id, seat: None, open: true }
    }

    pub fn id(&self) -> (r: ConnectionId)
        ensures
            r == self@.id,
    {
        self.id
    }

    /// The seat this connection holds, if any.
    pub fn seat(&self) -> (r: Option<Player>)
        ensures
            r == self@.seat,
    {
        self.seat
    }

    /// Whether the peer is still served.
    pub fn is_open(&self) -> (r: bool)
        ensures
            r == self@.open,
    {
        self.open
    }

    /// Takes one event and returns what to send.
    pub fn handle(&mut self, ev: ConnectionEvent) -> (r: Actions)
        ensures
            final(self)@ == old(self)@.next(ev).0,
            r.to_manager == old(self)@.next(ev).1,
            bytes_of(r.to_peer) == old(self)@.next(ev).2,
    {
        let none = Actions { to_manager: None, to_peer: None };
        if !self.open {
            return none;
        }
        match ev {
            ConnectionEvent::Manager(ConnectionMessage::SetPlayer(s)) => {
                self.seat = s;
                none
            },
            ConnectionEvent::Manager(ConnectionMessage::Game(g)) => {
                Actions { to_manager: None, to_peer: Some(encode_message(&Frame::Game(g))) }
            },
            ConnectionEvent::Inbound(Frame::Move(req)) => {
                match self.seat {
                    Some(p) => Actions { to_manager: Some(ManagerMessage::Move(p, req)), to_peer: None },
                    None => none,
                }
            },
            ConnectionEvent::Inbound(Frame::Game(_)) => none,
            _ => {
                self.open = false;
                Actions {
                    to_manager: Some(ManagerMessage::Disconnect(self.id, self.seat)),
                    to_peer: None,
                }
            },
        }
    }
}

} // verus!
