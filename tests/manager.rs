use tictactoe::board::{Game, Player};
use tictactoe::manager::{Manager, Outgoing, Phase};
use tictactoe::{ConnectionMessage, ManagerMessage, MoveRequest};

fn mv(p: Player, row: usize, col: usize) -> ManagerMessage {
    ManagerMessage::Move(p, MoveRequest { row, col })
}

#[test]
fn seats_go_to_first_two_connections() {
    let mut m = Manager::new();
    let out = m.handle(ManagerMessage::Connect(1));
    assert_eq!(
        out,
        vec![
            Outgoing { to: 1, msg: ConnectionMessage::Game(Game::new()) },
            Outgoing { to: 1, msg: ConnectionMessage::SetPlayer(Some(Player::X)) },
        ]
    );
    let out = m.handle(ManagerMessage::Connect(2));
    assert_eq!(out[1], Outgoing { to: 2, msg: ConnectionMessage::SetPlayer(Some(Player::O)) });
    let out = m.handle(ManagerMessage::Connect(3));
    assert_eq!(
        out,
        vec![
            Outgoing { to: 3, msg: ConnectionMessage::Game(Game::new()) },
            Outgoing { to: 3, msg: ConnectionMessage::SetPlayer(None) },
        ]
    );
    assert_eq!(m.seat_of(1), Some(Player::X));
    assert_eq!(m.seat_of(2), Some(Player::O));
    assert_eq!(m.seat_of(3), None);
    assert_eq!(m.connection_count(), 3);
    assert!(m.free_seats().is_empty());
}

#[test]
fn freed_seat_goes_to_next_connection() {
    let mut m = Manager::new();
    m.handle(ManagerMessage::Connect(1));
    m.handle(ManagerMessage::Connect(2));
    m.handle(mv(Player::X, 1, 1));
    let out = m.handle(ManagerMessage::Disconnect(1, Some(Player::X)));
    assert!(out.is_empty());
    assert_eq!(m.seat_of(1), None);
    assert_eq!(m.free_seats(), vec![Player::X]);
    let out = m.handle(ManagerMessage::Connect(7));
    assert_eq!(out[1], Outgoing { to: 7, msg: ConnectionMessage::SetPlayer(Some(Player::X)) });
    match out[0].msg {
        ConnectionMessage::Game(g) => assert_eq!(g, m.game()),
        _ => panic!("expected the game first"),
    }
    assert_eq!(m.game().current_player, Player::O);
}

#[test]
fn accepted_move_is_sent_to_everyone() {
    let mut m = Manager::new();
    m.handle(ManagerMessage::Connect(1));
    m.handle(ManagerMessage::Connect(2));
    m.handle(ManagerMessage::Connect(3));
    let out = m.handle(mv(Player::X, 0, 2));
    let g = m.game();
    assert_eq!(g.current_player, Player::O);
    assert_eq!(
        out,
        vec![
            Outgoing { to: 1, msg: ConnectionMessage::Game(g) },
            Outgoing { to: 2, msg: ConnectionMessage::Game(g) },
            Outgoing { to: 3, msg: ConnectionMessage::Game(g) },
        ]
    );
}

#[test]
fn refused_move_sends_nothing() {
    let mut m = Manager::new();
    m.handle(ManagerMessage::Connect(1));
    assert!(m.handle(mv(Player::O, 0, 0)).is_empty());
    assert!(m.handle(mv(Player::X, 3, 0)).is_empty());
    assert_eq!(m.game(), Game::new());
}

#[test]
fn moves_after_a_win_are_ignored() {
    let mut m = Manager::new();
    m.handle(ManagerMessage::Connect(1));
    for (p, r, c) in [
        (Player::X, 0, 0),
        (Player::O, 1, 0),
        (Player::X, 0, 1),
        (Player::O, 1, 1),
        (Player::X, 0, 2),
    ] {
        assert_eq!(m.handle(mv(p, r, c)).len(), 1);
    }
    assert_eq!(m.game().board.winner(), Some(Player::X));
    let before = m.game();
    assert!(m.handle(mv(Player::O, 2, 2)).is_empty());
    assert_eq!(m.game(), before);
}

#[test]
fn exit_with_no_connection_stops_silently() {
    let mut m = Manager::new();
    let out = m.handle(ManagerMessage::Exit);
    assert!(out.is_empty());
    assert!(m.is_stopped());
    assert!(m.handle(ManagerMessage::Connect(1)).is_empty());
    assert_eq!(m.connection_count(), 0);
}

#[test]
fn exit_drains_then_stops() {
    let mut m = Manager::new();
    m.handle(ManagerMessage::Connect(1));
    m.handle(ManagerMessage::Connect(2));
    let out = m.handle(ManagerMessage::Exit);
    assert_eq!(
        out,
        vec![
            Outgoing { to: 1, msg: ConnectionMessage::Exit },
            Outgoing { to: 2, msg: ConnectionMessage::Exit },
        ]
    );
    assert_eq!(m.phase(), Phase::Draining);
    assert!(m.handle(ManagerMessage::Connect(3)).is_empty());
    assert_eq!(m.connection_count(), 2);
    assert!(!m.is_registered(3));
    assert!(m.is_registered(1));
    m.handle(ManagerMessage::Disconnect(2, Some(Player::O)));
    assert_eq!(m.phase(), Phase::Draining);
    m.handle(ManagerMessage::Disconnect(1, Some(Player::X)));
    assert_eq!(m.phase(), Phase::Stopped);
}

#[test]
fn broadcast_reaches_every_connection() {
    let mut m = Manager::new();
    m.handle(ManagerMessage::Connect(4));
    m.handle(ManagerMessage::Connect(5));
    let out = m.handle(ManagerMessage::Broadcast(ConnectionMessage::SetPlayer(None)));
    assert_eq!(
        out,
        vec![
            Outgoing { to: 4, msg: ConnectionMessage::SetPlayer(None) },
            Outgoing { to: 5, msg: ConnectionMessage::SetPlayer(None) },
        ]
    );
}

#[test]
fn unknown_or_repeated_ids_change_nothing() {
    let mut m = Manager::new();
    m.handle(ManagerMessage::Connect(1));
    assert!(m.handle(ManagerMessage::Connect(1)).is_empty());
    assert!(m.handle(ManagerMessage::Disconnect(9, None)).is_empty());
    assert_eq!(m.connection_count(), 1);
    assert_eq!(m.seat_of(1), Some(Player::X));
}

#[test]
fn seats_are_never_lost() {
    let mut m = Manager::new();
    let mut next_id = 0u64;
    let mut live: Vec<u64> = Vec::new();
    for step in 0..40u64 {
        if step % 3 == 2 && !live.is_empty() {
            let id = live.remove((step as usize) % live.len());
            let seat = m.seat_of(id);
            m.handle(ManagerMessage::Disconnect(id, seat));
        } else {
            m.handle(ManagerMessage::Connect(next_id));
            live.push(next_id);
            next_id += 1;
        }
        let held: Vec<Player> = live.iter().filter_map(|id| m.seat_of(*id)).collect();
        let free = m.free_seats();
        assert_eq!(held.len() + free.len(), 2);
        for p in [Player::X, Player::O] {
            assert_eq!(held.contains(&p), !free.contains(&p));
        }
    }
}
