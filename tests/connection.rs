use tictactoe::board::{Game, Player};
use tictactoe::codec::encode_message;
use tictactoe::connection::{Connection, ConnectionEvent};
use tictactoe::{ConnectionMessage, Frame, ManagerMessage, MoveRequest};

#[test]
fn starts_open_without_seat() {
    let c = Connection::new(3);
    assert!(c.is_open());
    assert_eq!(c.seat(), None);
    assert_eq!(c.id(), 3);
}

#[test]
fn unseated_move_is_dropped() {
    let mut c = Connection::new(1);
    let a = c.handle(ConnectionEvent::Inbound(Frame::Move(MoveRequest { row: 0, col: 0 })));
    assert_eq!(a.to_manager, None);
    assert_eq!(a.to_peer, None);
}

#[test]
fn seated_move_is_forwarded() {
    let mut c = Connection::new(1);
    c.handle(ConnectionEvent::Manager(ConnectionMessage::SetPlayer(Some(Player::O))));
    assert_eq!(c.seat(), Some(Player::O));
    let req = MoveRequest { row: 2, col: 0 };
    let a = c.handle(ConnectionEvent::Inbound(Frame::Move(req)));
    assert_eq!(a.to_manager, Some(ManagerMessage::Move(Player::O, req)));
}

#[test]
fn game_is_written_to_peer() {
    let mut c = Connection::new(1);
    let g = Game::new();
    let a = c.handle(ConnectionEvent::Manager(ConnectionMessage::Game(g)));
    assert_eq!(a.to_peer, Some(encode_message(&Frame::Game(g))));
    assert_eq!(a.to_manager, None);
}

#[test]
fn every_ending_notifies_once() {
    let endings = [
        ConnectionEvent::Manager(ConnectionMessage::Exit),
        ConnectionEvent::ManagerGone,
        ConnectionEvent::PeerClosed,
        ConnectionEvent::ReadFailed,
        ConnectionEvent::WriteFailed,
    ];
    for ev in endings {
        let mut c = Connection::new(8);
        c.handle(ConnectionEvent::Manager(ConnectionMessage::SetPlayer(Some(Player::X))));
        let a = c.handle(ev);
        assert_eq!(a.to_manager, Some(ManagerMessage::Disconnect(8, Some(Player::X))));
        assert!(!c.is_open());
        for later in endings {
            let b = c.handle(later);
            assert_eq!(b.to_manager, None);
            assert_eq!(b.to_peer, None);
        }
        let b = c.handle(ConnectionEvent::Manager(ConnectionMessage::Game(Game::new())));
        assert_eq!(b.to_peer, None);
    }
}
