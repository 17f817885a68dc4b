use std::collections::BTreeMap;

use serde_cbor::Value;
use tictactoe::board::{Cell, Game, Player};
use tictactoe::codec::{
    decode_body, decode_message, encode_body, encode_message, FrameBuffer, FrameError,
    MAX_FRAME_LEN,
};
use tictactoe::{Frame, MoveRequest};

fn text(s: &str) -> Value {
    Value::Text(s.to_string())
}

fn map(entries: Vec<(Value, Value)>) -> Value {
    let mut m = BTreeMap::new();
    for (k, v) in entries {
        m.insert(k, v);
    }
    Value::Map(m)
}

fn sample_game() -> Game {
    let mut g = Game::new();
    g.try_move(Player::X, 0, 0).unwrap();
    g.try_move(Player::O, 1, 1).unwrap();
    g.try_move(Player::X, 2, 1).unwrap();
    g
}

#[test]
fn move_body_has_exact_bytes() {
    let f = Frame::Move(MoveRequest { row: 1, col: 300 });
    let expected: Vec<u8> = vec![
        0xa1, 0x64, b'M', b'o', b'v', b'e', 0xa2, 0x63, b'r', b'o', b'w', 0x01, 0x63, b'c', b'o',
        b'l', 0x19, 0x01, 0x2c,
    ];
    assert_eq!(encode_body(&f), expected);
    let mut message = vec![0, 0, 0, 19];
    message.extend_from_slice(&expected);
    assert_eq!(encode_message(&f), message);
}

#[test]
fn integers_take_their_shortest_form() {
    let cases: Vec<(usize, Vec<u8>)> = vec![
        (0, vec![0x00]),
        (23, vec![0x17]),
        (24, vec![0x18, 24]),
        (255, vec![0x18, 0xff]),
        (256, vec![0x19, 0x01, 0x00]),
        (65535, vec![0x19, 0xff, 0xff]),
        (65536, vec![0x1a, 0x00, 0x01, 0x00, 0x00]),
        (
            usize::MAX,
            vec![0x1b, 0xff, 0xff, 0xff, 0xff, 0xff, 0xff, 0xff, 0xff],
        ),
    ];
    for (v, bytes) in cases {
        let body = encode_body(&Frame::Move(MoveRequest { row: v, col: 0 }));
        assert_eq!(&body[11..11 + bytes.len()], &bytes[..]);
        assert_eq!(
            decode_body(&body),
            Ok(Frame::Move(MoveRequest { row: v, col: 0 }))
        );
    }
}

#[test]
fn round_trip_of_frames() {
    let frames = vec![
        Frame::Game(Game::new()),
        Frame::Game(sample_game()),
        Frame::Move(MoveRequest { row: 0, col: 0 }),
        Frame::Move(MoveRequest { row: 2, col: 1 }),
        Frame::Move(MoveRequest { row: 1 << 40, col: 70000 }),
    ];
    for f in frames {
        assert_eq!(decode_body(&encode_body(&f)), Ok(f));
        let mut bytes = encode_message(&f);
        let len = bytes.len();
        bytes.extend_from_slice(&[0xde, 0xad]);
        assert_eq!(decode_message(&bytes), Ok(Some((f, len))));
    }
}

#[test]
fn incomplete_message_waits_for_more() {
    let bytes = encode_message(&Frame::Game(sample_game()));
    for k in 0..bytes.len() {
        assert_eq!(decode_message(&bytes[..k]), Ok(None));
    }
}

#[test]
fn length_over_cap_is_malformed() {
    let n = MAX_FRAME_LEN + 1;
    let bytes = n.to_be_bytes();
    assert_eq!(decode_message(&bytes), Err(FrameError::MalformedFrame));
    let ok = MAX_FRAME_LEN.to_be_bytes();
    assert_eq!(decode_message(&ok), Ok(None));
}

#[test]
fn unknown_tag_is_malformed() {
    let mut body = encode_body(&Frame::Move(MoveRequest { row: 1, col: 2 }));
    body[2] = b'X';
    assert_eq!(decode_body(&body), Err(FrameError::MalformedFrame));
    let mut message = vec![0, 0, 0, body.len() as u8];
    message.extend_from_slice(&body);
    assert_eq!(decode_message(&message), Err(FrameError::MalformedFrame));
}

#[test]
fn trailing_or_missing_bytes_are_malformed() {
    let mut body = encode_body(&Frame::Game(Game::new()));
    body.push(0);
    assert_eq!(decode_body(&body), Err(FrameError::MalformedFrame));
    body.pop();
    body.pop();
    assert_eq!(decode_body(&body), Err(FrameError::MalformedFrame));
    assert_eq!(decode_body(&[]), Err(FrameError::MalformedFrame));
}

#[test]
fn longer_integer_form_is_refused() {
    let body: Vec<u8> = vec![
        0xa1, 0x64, b'M', b'o', b'v', b'e', 0xa2, 0x63, b'r', b'o', b'w', 0x18, 0x05, 0x63, b'c',
        b'o', b'l', 0x01,
    ];
    assert_eq!(decode_body(&body), Err(FrameError::MalformedFrame));
}

#[test]
fn move_body_is_cbor() {
    let body = encode_body(&Frame::Move(MoveRequest { row: 2, col: 300 }));
    let value: Value = serde_cbor::from_slice(&body).unwrap();
    let expected = map(vec![(
        text("Move"),
        map(vec![
            (text("row"), Value::Integer(2)),
            (text("col"), Value::Integer(300)),
        ]),
    )]);
    assert_eq!(value, expected);
}

#[test]
fn game_body_is_cbor() {
    let g = sample_game();
    let body = encode_body(&Frame::Game(g));
    let value: Value = serde_cbor::from_slice(&body).unwrap();
    let mut rows = Vec::new();
    for r in 0..3 {
        let mut cells = Vec::new();
        for c in 0..3 {
            cells.push(match g.board.cell(r, c) {
                Cell(None) => Value::Null,
                Cell(Some(Player::X)) => text("X"),
                Cell(Some(Player::O)) => text("O"),
            });
        }
        rows.push(Value::Array(cells));
    }
    let expected = map(vec![(
        text("Game"),
        map(vec![
            (text("board"), Value::Array(rows)),
            (text("current_player"), text("O")),
        ]),
    )]);
    assert_eq!(value, expected);
}

#[test]
fn cbor_game_decodes() {
    let mut rows = Vec::new();
    for r in 0..3 {
        let mut cells = Vec::new();
        for c in 0..3 {
            cells.push(if r == c { text("X") } else { Value::Null });
        }
        rows.push(Value::Array(cells));
    }
    let mut game = BTreeMap::new();
    game.insert(text("board"), Value::Array(rows));
    game.insert(text("current_player"), text("O"));
    let value = map(vec![(text("Game"), Value::Map(game))]);
    let bytes = serde_cbor::to_vec(&value).unwrap();
    let f = decode_body(&bytes).unwrap();
    match f {
        Frame::Game(g) => {
            assert_eq!(g.current_player, Player::O);
            assert_eq!(g.board.winner(), Some(Player::X));
            assert_eq!(g.board.cell(0, 1), Cell(None));
        }
        Frame::Move(_) => panic!("expected a game"),
    }
}

#[test]
fn serialize_deserialize() {
    let mut b1 = tictactoe::board::Board::default();

    b1.set_cell(0, 0, Cell(Some(Player::X)));
    b1.set_cell(1, 1, Cell(Some(Player::X)));

    let frame = Frame::Game(Game { board: b1, current_player: Player::O });
    let data = encode_message(&frame);

    let (decoded, used) = decode_message(&data).unwrap().unwrap();
    assert_eq!(used, data.len());
    match decoded {
        Frame::Game(g) => assert_eq!(g.board, b1),
        Frame::Move(_) => panic!("expected a game"),
    }
}

#[test]
fn buffer_yields_frames_as_they_complete() {
    let a = Frame::Move(MoveRequest { row: 1, col: 2 });
    let b = Frame::Game(sample_game());
    let mut bytes = encode_message(&a);
    bytes.extend_from_slice(&encode_message(&b));
    let mut buf = FrameBuffer::new();
    assert_eq!(buf.next_frame(), Ok(None));
    buf.extend(&bytes[..3]);
    assert_eq!(buf.next_frame(), Ok(None));
    buf.extend(&bytes[3..30]);
    assert_eq!(buf.next_frame(), Ok(Some(a)));
    assert_eq!(buf.next_frame(), Ok(None));
    buf.extend(&bytes[30..]);
    assert_eq!(buf.next_frame(), Ok(Some(b)));
    assert_eq!(buf.next_frame(), Ok(None));
}

#[test]
fn buffer_reports_malformed_and_keeps_bytes() {
    let mut buf = FrameBuffer::new();
    buf.extend(&[0, 0, 0, 2, 0xa0, 0x00]);
    assert_eq!(buf.next_frame(), Err(FrameError::MalformedFrame));
    assert_eq!(buf.next_frame(), Err(FrameError::MalformedFrame));
}
