//! The wire format. Each message is a 4-byte big-endian length followed by
//! that many bytes of body. The body is a CBOR document: a map of one entry
//! whose key names the kind of frame (`"Game"` or `"Move"`) and whose value
//! is a map of the frame's fields by name. Integers take their shortest form.

use crate::board::{Board, Cell, Game, Player};
use crate::protocol::{Frame, MoveRequest};
use vstd::prelude::*;

verus! {

/// The largest body that a length prefix may announce (1 MiB).
pub const MAX_FRAME_LEN: u32 = 1048576;

/// Why bytes from a peer were refused.
#[derive(Debug, Clone, Copy, PartialEq, Eq, Structural)]
pub enum FrameError {
    /// The length prefix is over `MAX_FRAME_LEN`, or the body is no frame.
    MalformedFrame,
}

/// `t` stands in `s` from position `i` on.
pub open spec fn starts(s: Seq<u8>, i: int, t: Seq<u8>) -> bool {
    0 <= i && i + t.len() <= s.len() && s.subrange(i, i + t.len()) == t
}

/// A CBOR unsigned integer in its shortest form.
pub open spec fn uint_bytes(v: u64) -> Seq<u8> {
    if v < 24 {
        seq![v as u8]
    } else if v < 0x100 {
        seq![24u8, v as u8]
    } else if v < 0x1_0000 {
        seq![25u8, (v >> 8u64) as u8, v as u8]
    } else if v < 0x1_0000_0000 {
        seq![26u8, (v >> 24u64) as u8, (v >> 16u64) as u8, (v >> 8u64) as u8, v as u8]
    } else {
        seq![
            27u8,
            (v >> 56u64) as u8,
            (v >> 48u64) as u8,
            (v >> 40u64) as u8,
            (v >> 32u64) as u8,
            (v >> 24u64) as u8,
            (v >> 16u64) as u8,
            (v >> 8u64) as u8,
            v as u8,
        ]
    }
}

proof fn lemma_starts_concat(s: Seq<u8>, i: int, t1: Seq<u8>, t2: Seq<u8>)
    ensures
        starts(s, i, t1 + t2) <==> starts(s, i, t1) && starts(s, i + t1.len(), t2),
{
    if starts(s, i, t1 + t2) {
        let w = s.subrange(i, i + (t1 + t2).len());
        assert(w == t1 + t2);
        assert(s.subrange(i, i + t1.len()) =~= w.subrange(0, t1.len() as int));
        assert(w.subrange(0, t1.len() as int) =~= t1);
        assert(s.subrange(i + t1.len(), i + t1.len() + t2.len()) =~= w.subrange(
            t1.len() as int,
            w.len() as int,
        ));
        assert(w.subrange(t1.len() as int, w.len() as int) =~= t2);
    }
    if starts(s, i, t1) && starts(s, i + t1.len(), t2) {
        assert(s.subrange(i, i + (t1 + t2).len()) =~= t1 + t2);
    }
}

proof fn lemma_u16_split(v: u64)
    requires
        v < 0x1_0000,
    ensures
        ((((v >> 8u64) as u8) as u64) << 8u64) | (((v as u8) as u64)) == v,
{
    assert(((((v >> 8u64) as u8) as u64) << 8u64) | (((v as u8) as u64)) == v) by (bit_vector)
        requires
            v < 0x1_0000,
    ;
}

proof fn lemma_u16_join(b1: u8, b2: u8)
    ensures
        ({
            let v = ((b1 as u64) << 8u64) | (b2 as u64);
            &&& v < 0x1_0000
            &&& (v >> 8u64) as u8 == b1
            &&& v as u8 == b2
        }),
{
    assert(({
        let v = ((b1 as u64) << 8u64) | (b2 as u64);
        &&& v < 0x1_0000
        &&& (v >> 8u64) as u8 == b1
        &&& v as u8 == b2
    })) by (bit_vector);
}

proof fn lemma_u32_split(v: u64)
    requires
        v < 0x1_0000_0000,
    ensures
        ((((v >> 24u64) as u8) as u64) << 24u64) | ((((v >> 16u64) as u8) as u64) << 16u64) | ((((
        v >> 8u64) as u8) as u64) << 8u64) | (((v as u8) as u64)) == v,
{
    assert(((((v >> 24u64) as u8) as u64) << 24u64) | ((((v >> 16u64) as u8) as u64) << 16u64) | ((
    ((v >> 8u64) as u8) as u64) << 8u64) | (((v as u8) as u64)) == v) by (bit_vector)
        requires
            v < 0x1_0000_0000,
    ;
}

proof fn lemma_u32_join(b1: u8, b2: u8, b3: u8, b4: u8)
    ensures
        ({
            let v = ((b1 as u64) << 24u64) | ((b2 as u64) << 16u64) | ((b3 as u64) << 8u64) | (
            b4 as u64);
            &&& v < 0x1_0000_0000
            &&& (v >> 24u64) as u8 == b1
            &&& (v >> 16u64) as u8 == b2
            &&& (v >> 8u64) as u8 == b3
            &&& v as u8 == b4
        }),
{
    assert(({
        let v = ((b1 as u64) << 24u64) | ((b2 as u64) << 16u64) | ((b3 as u64) << 8u64) | (
        b4 as u64);
        &&& v < 0x1_0000_0000
        &&& (v >> 24u64) as u8 == b1
        &&& (v >> 16u64) as u8 == b2
        &&& (v >> 8u64) as u8 == b3
        &&& v as u8 == b4
    })) by (bit_vector);
}

proof fn lemma_u64_split(v: u64)
    ensures
        ((((v >> 56u64) as u8) as u64) << 56u64) | ((((v >> 48u64) as u8) as u64) << 48u64) | ((((
        v >> 40u64) as u8) as u64) << 40u64) | ((((v >> 32u64) as u8) as u64) << 32u64) | ((((v
            >> 24u64) as u8) as u64) << 24u64) | ((((v >> 16u64) as u8) as u64) << 16u64) | ((((v
            >> 8u64) as u8) as u64) << 8u64) | (((v as u8) as u64)) == v,
{
    assert(((((v >> 56u64) as u8) as u64) << 56u64) | ((((v >> 48u64) as u8) as u64) << 48u64) | ((
    ((v >> 40u64) as u8) as u64) << 40u64) | ((((v >> 32u64) as u8) as u64) << 32u64) | ((((v
        >> 24u64) as u8) as u64) << 24u64) | ((((v >> 16u64) as u8) as u64) << 16u64) | ((((v
        >> 8u64) as u8) as u64) << 8u64) | (((v as u8) as u64)) == v) by (bit_vector);
}

proof fn lemma_u64_join(b1: u8, b2: u8, b3: u8, b4: u8, b5: u8, b6: u8, b7: u8, b8: u8)
    ensures
        ({
            let v = ((b1 as u64) << 56u64) | ((b2 as u64) << 48u64) | ((b3 as u64) << 40u64) | ((
            b4 as u64) << 32u64) | ((b5 as u64) << 24u64) | ((b6 as u64) << 16u64) | ((b7 as u64)
                << 8u64) | (b8 as u64);
            &&& (v >> 56u64) as u8 == b1
            &&& (v >> 48u64) as u8 == b2
            &&& (v >> 40u64) as u8 == b3
            &&& (v >> 32u64) as u8 == b4
            &&& (v >> 24u64) as u8 == b5
            &&& (v >> 16u64) as u8 == b6
            &&& (v >> 8u64) as u8 == b7
            &&& v as u8 == b8
        }),
{
    assert(({
        let v = ((b1 as u64) << 56u64) | ((b2 as u64) << 48u64) | ((b3 as u64) << 40u64) | ((
        b4 as u64) << 32u64) | ((b5 as u64) << 24u64) | ((b6 as u64) << 16u64) | ((b7 as u64)
            << 8u64) | (b8 as u64);
        &&& (v >> 56u64) as u8 == b1
        &&& (v >> 48u64) as u8 == b2
        &&& (v >> 40u64) as u8 == b3
        &&& (v >> 32u64) as u8 == b4
        &&& (v >> 24u64) as u8 == b5
        &&& (v >> 16u64) as u8 == b6
        &&& (v >> 8u64) as u8 == b7
        &&& v as u8 == b8
    })) by (bit_vector);
}

proof fn lemma_uint_shape(v: u64)
    ensures
        uint_bytes(v).len() >= 1,
        (uint_bytes(v)[0] < 24) == (v < 24),
        v < 24 ==> uint_bytes(v)[0] as u64 == v,
        (uint_bytes(v)[0] == 24) == (24 <= v < 0x100),
        24 <= v < 0x100 ==> uint_bytes(v)[1] as u64 == v,
        (uint_bytes(v)[0] == 25) == (0x100 <= v < 0x1_0000),
        (uint_bytes(v)[0] == 26) == (0x1_0000 <= v < 0x1_0000_0000),
        (uint_bytes(v)[0] == 27) == (0x1_0000_0000 <= v),
{
    if v < 24 {
        assert((v as u8) as u64 == v) by (bit_vector)
            requires
                v < 24,
        ;
    } else if v < 0x100 {
        assert((v as u8) as u64 == v) by (bit_vector)
            requires
                v < 0x100,
        ;
    }
}

/// Two unsigned integers cannot both stand at one place.
proof fn lemma_uint_unique(s: Seq<u8>, i: int, a: u64, b: u64)
    requires
        starts(s, i, uint_bytes(a)),
        starts(s, i, uint_bytes(b)),
    ensures
        a == b,
{
    lemma_uint_shape(a);
    lemma_uint_shape(b);
    assert(uint_bytes(a)[0] == s[i] && uint_bytes(b)[0] == s[i]) by {
        assert(s.subrange(i, i + uint_bytes(a).len())[0] == s[i]);
        assert(s.subrange(i, i + uint_bytes(b).len())[0] == s[i]);
    }
    assert(uint_bytes(a) == uint_bytes(b) ==> a == b) by {
        if uint_bytes(a) == uint_bytes(b) {
            if 0x100 <= a < 0x1_0000 {
                lemma_u16_split(a);
                lemma_u16_split(b);
            } else if 0x1_0000 <= a < 0x1_0000_0000 {
                lemma_u32_split(a);
                lemma_u32_split(b);
            } else if 0x1_0000_0000 <= a {
                lemma_u64_split(a);
                lemma_u64_split(b);
            }
        }
    }
    assert(uint_bytes(a) =~= uint_bytes(b)) by {
        assert(uint_bytes(a).len() == uint_bytes(b).len());
        assert(uint_bytes(a) == s.subrange(i, i + uint_bytes(a).len()));
    }
}

/// Appends `bytes` to `out`.
fn put_bytes(out: &mut Vec<u8>, bytes: &[u8])
    ensures
        final(out)@ == old(out)@ + bytes@,
{
    let mut k: usize = 0;
    while k < bytes.len()
        invariant
            k <= bytes@.len(),
            out@ == old(out)@ + bytes@.subrange(0, k as int),
        decreases bytes@.len() - k,
    {
        out.push(bytes[k]);
        k = k + 1;
        assert(bytes@.subrange(0, k as int) =~= bytes@.subrange(0, k - 1) + seq![bytes@[k - 1]]);
    }
    assert(bytes@.subrange(0, k as int) =~= bytes@);
}

/// Whether `lit` stands in `b` from `pos` on.
fn has_at(b: &[u8], pos: usize, lit: &[u8]) -> (r: bool)
    ensures
        r == starts(b@, pos as int, lit@),
        r ==> pos + lit@.len() <= b.len(),
{
    if pos > b.len() || lit.len() > b.len() - pos {
        return false;
    }
    let blen = b.len();
    let mut k: usize = 0;
    while k < lit.len()
        invariant
            k <= lit@.len(),
            blen == b@.len(),
            pos + lit@.len() <= b@.len(),
            forall|j: int| 0 <= j < k ==> b@[pos + j] == lit@[j],
        decreases lit@.len() - k,
    {
        if b[pos + k] != lit[k] {
            assert(b@.subrange(pos as int, pos + lit@.len())[k as int] != lit@[k as int]);
            return false;
        }
        k = k + 1;
    }
    assert(b@.subrange(pos as int, pos + lit@.len()) =~= lit@);
    true
}

fn put_uint(out: &mut Vec<u8>, v: u64)
    ensures
        final(out)@ == old(out)@ + uint_bytes(v),
{
    if v < 24 {
        put_bytes(out, &[v as u8]);
    } else if v < 0x100 {
        put_bytes(out, &[24u8, v as u8]);
    } else if v < 0x1_0000 {
        put_bytes(out, &[25u8, (v >> 8u64) as u8, v as u8]);
    } else if v < 0x1_0000_0000 {
        put_bytes(out, &[26u8, (v >> 24u64) as u8, (v >> 16u64) as u8, (v >> 8u64) as u8, v as u8]);
    } else {
        put_bytes(
            out,
            &[
                27u8,
                (v >> 56u64) as u8,
                (v >> 48u64) as u8,
                (v >> 40u64) as u8,
                (v >> 32u64) as u8,
                (v >> 24u64) as u8,
                (v >> 16u64) as u8,
                (v >> 8u64) as u8,
                v as u8,
            ],
        );
    }
}

/// Reads the unsigned integer that stands at `pos`, refusing any longer form
/// than the shortest.
fn parse_uint(b: &[u8], pos: usize) -> (r: Option<(u64, usize)>)
    ensures
        r matches Some((v, n)) ==> n == pos + uint_bytes(v).len() && starts(b@, pos as int, uint_bytes(v)),
        forall|v: u64|
            #[trigger] starts(b@, pos as int, uint_bytes(v)) ==> r == Some(
                (v, (pos + uint_bytes(v).len()) as usize),
            ),
{
    if pos >= b.len() {
        proof {
            assert forall|v: u64| !#[trigger] starts(b@, pos as int, uint_bytes(v)) by {
                lemma_uint_shape(v);
            }
        }
        return None;
    }
    let h = b[pos];
    let r: Option<(u64, usize)> = if h < 24 {
        Some((h as u64, pos + 1))
    } else if h == 24 && b.len() - pos >= 2 {
        let v = b[pos + 1] as u64;
        if v < 24 { None } else { Some((v, pos + 2)) }
    } else if h == 25 && b.len() - pos >= 3 {
        let v = ((b[pos + 1] as u64) << 8u64) | (b[pos + 2] as u64);
        proof {
            lemma_u16_join(b@[pos + 1], b@[pos + 2]);
        }
        if v < 0x100 { None } else { Some((v, pos + 3)) }
    } else if h == 26 && b.len() - pos >= 5 {
        let v = ((b[pos + 1] as u64) << 24u64) | ((b[pos + 2] as u64) << 16u64) | ((b[pos + 3] as u64)
            << 8u64) | (b[pos + 4] as u64);
        proof {
            lemma_u32_join(b@[pos + 1], b@[pos + 2], b@[pos + 3], b@[pos + 4]);
        }
        if v < 0x1_0000 { None } else { Some((v, pos + 5)) }
    } else if h == 27 && b.len() - pos >= 9 {
        let v = ((b[pos + 1] as u64) << 56u64) | ((b[pos + 2] as u64) << 48u64) | ((b[pos + 3] as u64)
            << 40u64) | ((b[pos + 4] as u64) << 32u64) | ((b[pos + 5] as u64) << 24u64) | ((b[pos
            + 6] as u64) << 16u64) | ((b[pos + 7] as u64) << 8u64) | (b[pos + 8] as u64);
        proof {
            lemma_u64_join(
                b@[pos + 1],
                b@[pos + 2],
                b@[pos + 3],
                b@[pos + 4],
                b@[pos + 5],
                b@[pos + 6],
                b@[pos + 7],
                b@[pos + 8],
            );
        }
        if v < 0x1_0000_0000 { None } else { Some((v, pos + 9)) }
    } else {
        None
    };
    proof {
        if let Some((v, n)) = r {
            lemma_uint_shape(v);
            if v < 24 {
                assert(b@.subrange(pos as int, n as int) =~= uint_bytes(v));
            } else if v < 0x100 {
                assert(b@.subrange(pos as int, n as int) =~= uint_bytes(v));
            } else {
                assert(b@.subrange(pos as int, n as int) =~= uint_bytes(v));
            }
        }
        assert forall|v: u64| #[trigger] starts(b@, pos as int, uint_bytes(v)) implies r == Some(
            (v, (pos + uint_bytes(v).len()) as usize),
        ) by {
            lemma_uint_shape(v);
            let w = b@.subrange(pos as int, pos + uint_bytes(v).len());
            assert(w[0] == h);
            if 0x100 <= v < 0x1_0000 {
                assert(w[1] == b@[pos + 1] && w[2] == b@[pos + 2]);
                lemma_u16_split(v);
            } else if 0x1_0000 <= v < 0x1_0000_0000 {
                assert(w[1] == b@[pos + 1] && w[2] == b@[pos + 2] && w[3] == b@[pos + 3] && w[4]
                    == b@[pos + 4]);
                lemma_u32_split(v);
            } else if 0x1_0000_0000 <= v {
                assert(w[1] == b@[pos + 1] && w[2] == b@[pos + 2] && w[3] == b@[pos + 3] && w[4]
                    == b@[pos + 4] && w[5] == b@[pos + 5] && w[6] == b@[pos + 6] && w[7] == b@[pos
                    + 7] && w[8] == b@[pos + 8]);
                lemma_u64_split(v);
            } else if 24 <= v {
                assert(w[1] == b@[pos + 1]);
            }
        }
    }
    r
}

/// The text string "Game".
pub open spec fn key_game() -> Seq<u8> {
    seq![0x64u8, 0x47, 0x61, 0x6d, 0x65]
}

/// The text string "Move".
pub open spec fn key_move() -> Seq<u8> {
    seq![0x64u8, 0x4d, 0x6f, 0x76, 0x65]
}

/// The text string "board".
pub open spec fn key_board() -> Seq<u8> {
    seq![0x65u8, 0x62, 0x6f, 0x61, 0x72, 0x64]
}

/// The text string "current_player".
pub open spec fn key_current_player() -> Seq<u8> {
    seq![0x6eu8, 0x63, 0x75, 0x72, 0x72, 0x65, 0x6e, 0x74, 0x5f, 0x70, 0x6c, 0x61, 0x79, 0x65, 0x72]
}

/// The text string "row".
pub open spec fn key_row() -> Seq<u8> {
    seq![0x63u8, 0x72, 0x6f, 0x77]
}

/// The text string "col".
pub open spec fn key_col() -> Seq<u8> {
    seq![0x63u8, 0x63, 0x6f, 0x6c]
}

/// A seat: the text string "X" or "O".
pub open spec fn player_bytes(p: Player) -> Seq<u8> {
    match p {
        Player::X => seq![0x61u8, 0x58],
        Player::O => seq![0x61u8, 0x4f],
    }
}

/// A square: null when empty, else its seat.
pub open spec fn cell_bytes(c: Cell) -> Seq<u8> {
    match c.0 {
        None => seq![0xf6u8],
        Some(p) => player_bytes(p),
    }
}

/// A row: an array of its three squares.
pub open spec fn row_bytes(r: [Cell; 3]) -> Seq<u8> {
    seq![0x83u8] + cell_bytes(r[0]) + cell_bytes(r[1]) + cell_bytes(r[2])
}

/// A board: an array of its three rows.
pub open spec fn board_bytes(b: Board) -> Seq<u8> {
    seq![0x83u8] + row_bytes(b.0[0]) + row_bytes(b.0[1]) + row_bytes(b.0[2])
}

/// A game: a map with the keys "board" and "current_player".
pub open spec fn game_bytes(g: Game) -> Seq<u8> {
    seq![0xa2u8] + key_board() + board_bytes(g.board) + key_current_player() + player_bytes(
        g.current_player,
    )
}

/// A move request: a map with the keys "row" and "col".
pub open spec fn move_bytes(m: MoveRequest) -> Seq<u8> {
    seq![0xa2u8] + key_row() + uint_bytes(m.row as u64) + key_col() + uint_bytes(m.col as u64)
}

/// The body of a frame: a map of one entry, from the frame's kind to its
/// content.
pub open spec fn body_bytes(f: Frame) -> Seq<u8> {
    match f {
        Frame::Game(g) => seq![0xa1u8] + key_game() + game_bytes(g),
        Frame::Move(m) => seq![0xa1u8] + key_move() + move_bytes(m),
    }
}

proof fn lemma_starts_one(s: Seq<u8>, i: int, t: Seq<u8>)
    requires
        starts(s, i, t),
    ensures
        forall|j: int| 0 <= j < t.len() ==> s[i + j] == #[trigger] t[j],
{
    assert forall|j: int| 0 <= j < t.len() implies s[i + j] == #[trigger] t[j] by {
        assert(s.subrange(i, i + t.len())[j] == s[i + j]);
    }
}

proof fn lemma_player_unique(s: Seq<u8>, i: int, a: Player, b: Player)
    requires
        starts(s, i, player_bytes(a)),
        starts(s, i, player_bytes(b)),
    ensures
        a == b,
{
    lemma_starts_one(s, i, player_bytes(a));
    lemma_starts_one(s, i, player_bytes(b));
    assert(player_bytes(a)[1] == s[i + 1]);
    assert(player_bytes(b)[1] == s[i + 1]);
}

proof fn lemma_cell_unique(s: Seq<u8>, i: int, a: Cell, b: Cell)
    requires
        starts(s, i, cell_bytes(a)),
        starts(s, i, cell_bytes(b)),
    ensures
        a == b,
{
    lemma_starts_one(s, i, cell_bytes(a));
    lemma_starts_one(s, i, cell_bytes(b));
    assert(cell_bytes(a)[0] == s[i]);
    assert(cell_bytes(b)[0] == s[i]);
    if a.0 is Some && b.0 is Some {
        lemma_player_unique(s, i, a.0->0, b.0->0);
    }
}

proof fn lemma_row_parts(s: Seq<u8>, i: int, r: [Cell; 3])
    ensures
        starts(s, i, row_bytes(r)) <==> {
            &&& starts(s, i, seq![0x83u8])
            &&& starts(s, i + 1, cell_bytes(r[0]))
            &&& starts(s, i + 1 + cell_bytes(r[0]).len(), cell_bytes(r[1]))
            &&& starts(
                s,
                i + 1 + cell_bytes(r[0]).len() + cell_bytes(r[1]).len(),
                cell_bytes(r[2]),
            )
        },
{
    let h = seq![0x83u8];
    lemma_starts_concat(s, i, h + cell_bytes(r[0]) + cell_bytes(r[1]), cell_bytes(r[2]));
    lemma_starts_concat(s, i, h + cell_bytes(r[0]), cell_bytes(r[1]));
    lemma_starts_concat(s, i, h, cell_bytes(r[0]));
}

proof fn lemma_row_unique(s: Seq<u8>, i: int, a: [Cell; 3], b: [Cell; 3])
    requires
        starts(s, i, row_bytes(a)),
        starts(s, i, row_bytes(b)),
    ensures
        a == b,
{
    lemma_row_parts(s, i, a);
    lemma_row_parts(s, i, b);
    lemma_cell_unique(s, i + 1, a[0], b[0]);
    lemma_cell_unique(s, i + 1 + cell_bytes(a[0]).len(), a[1], b[1]);
    lemma_cell_unique(s, i + 1 + cell_bytes(a[0]).len() + cell_bytes(a[1]).len(), a[2], b[2]);
    assert(a =~= b);
}

proof fn lemma_board_parts(s: Seq<u8>, i: int, b: Board)
    ensures
        starts(s, i, board_bytes(b)) <==> {
            &&& starts(s, i, seq![0x83u8])
            &&& starts(s, i + 1, row_bytes(b.0[0]))
            &&& starts(s, i + 1 + row_bytes(b.0[0]).len(), row_bytes(b.0[1]))
            &&& starts(
                s,
                i + 1 + row_bytes(b.0[0]).len() + row_bytes(b.0[1]).len(),
                row_bytes(b.0[2]),
            )
        },
{
    let h = seq![0x83u8];
    lemma_starts_concat(s, i, h + row_bytes(b.0[0]) + row_bytes(b.0[1]), row_bytes(b.0[2]));
    lemma_starts_concat(s, i, h + row_bytes(b.0[0]), row_bytes(b.0[1]));
    lemma_starts_concat(s, i, h, row_bytes(b.0[0]));
}

proof fn lemma_board_unique(s: Seq<u8>, i: int, a: Board, b: Board)
    requires
        starts(s, i, board_bytes(a)),
        starts(s, i, board_bytes(b)),
    ensures
        a == b,
{
    lemma_board_parts(s, i, a);
    lemma_board_parts(s, i, b);
    lemma_row_unique(s, i + 1, a.0[0], b.0[0]);
    lemma_row_unique(s, i + 1 + row_bytes(a.0[0]).len(), a.0[1], b.0[1]);
    lemma_row_unique(s, i + 1 + row_bytes(a.0[0]).len() + row_bytes(a.0[1]).len(), a.0[2], b.0[2]);
    assert(a.0 =~= b.0);
}

proof fn lemma_game_parts(s: Seq<u8>, i: int, g: Game)
    ensures
        starts(s, i, game_bytes(g)) <==> {
            &&& starts(s, i, seq![0xa2u8] + key_board())
            &&& starts(s, i + 7, board_bytes(g.board))
            &&& starts(s, i + 7 + board_bytes(g.board).len(), key_current_player())
            &&& starts(s, i + 22 + board_bytes(g.board).len(), player_bytes(g.current_player))
        },
{
    let h = seq![0xa2u8] + key_board();
    let bb = board_bytes(g.board);
    lemma_starts_concat(s, i, h + bb + key_current_player(), player_bytes(g.current_player));
    lemma_starts_concat(s, i, h + bb, key_current_player());
    lemma_starts_concat(s, i, h, bb);
}

proof fn lemma_game_unique(s: Seq<u8>, i: int, a: Game, b: Game)
    requires
        starts(s, i, game_bytes(a)),
        starts(s, i, game_bytes(b)),
    ensures
        a == b,
{
    lemma_game_parts(s, i, a);
    lemma_game_parts(s, i, b);
    lemma_board_unique(s, i + 7, a.board, b.board);
    lemma_player_unique(s, i + 22 + board_bytes(a.board).len(), a.current_player, b.current_player);
}

proof fn lemma_move_parts(s: Seq<u8>, i: int, m: MoveRequest)
    ensures
        starts(s, i, move_bytes(m)) <==> {
            &&& starts(s, i, seq![0xa2u8] + key_row())
            &&& starts(s, i + 5, uint_bytes(m.row as u64))
            &&& starts(s, i + 5 + uint_bytes(m.row as u64).len(), key_col())
            &&& starts(s, i + 9 + uint_bytes(m.row as u64).len(), uint_bytes(m.col as u64))
        },
{
    let h = seq![0xa2u8] + key_row();
    let rb = uint_bytes(m.row as u64);
    lemma_starts_concat(s, i, h + rb + key_col(), uint_bytes(m.col as u64));
    lemma_starts_concat(s, i, h + rb, key_col());
    lemma_starts_concat(s, i, h, rb);
}

proof fn lemma_move_unique(s: Seq<u8>, i: int, a: MoveRequest, b: MoveRequest)
    requires
        starts(s, i, move_bytes(a)),
        starts(s, i, move_bytes(b)),
    ensures
        a == b,
{
    lemma_move_parts(s, i, a);
    lemma_move_parts(s, i, b);
    lemma_uint_unique(s, i + 5, a.row as u64, b.row as u64);
    lemma_uint_unique(s, i + 9 + uint_bytes(a.row as u64).len(), a.col as u64, b.col as u64);
}

proof fn lemma_body_parts(s: Seq<u8>, i: int, f: Frame)
    ensures
        f matches Frame::Game(g) ==> (starts(s, i, body_bytes(f)) <==> starts(
            s,
            i,
            seq![0xa1u8] + key_game(),
        ) && starts(s, i + 6, game_bytes(g))),
        f matches Frame::Move(m) ==> (starts(s, i, body_bytes(f)) <==> starts(
            s,
            i,
            seq![0xa1u8] + key_move(),
        ) && starts(s, i + 6, move_bytes(m))),
{
    match f {
        Frame::Game(g) => lemma_starts_concat(s, i, seq![0xa1u8] + key_game(), game_bytes(g)),
        Frame::Move(m) => lemma_starts_concat(s, i, seq![0xa1u8] + key_move(), move_bytes(m)),
    }
}

proof fn lemma_body_unique(s: Seq<u8>, i: int, a: Frame, b: Frame)
    requires
        starts(s, i, body_bytes(a)),
        starts(s, i, body_bytes(b)),
    ensures
        a == b,
{
    lemma_body_parts(s, i, a);
    lemma_body_parts(s, i, b);
    let ha = match a {
        Frame::Game(_) => seq![0xa1u8] + key_game(),
        Frame::Move(_) => seq![0xa1u8] + key_move(),
    };
    let hb = match b {
        Frame::Game(_) => seq![0xa1u8] + key_game(),
        Frame::Move(_) => seq![0xa1u8] + key_move(),
    };
    lemma_starts_one(s, i, ha);
    lemma_starts_one(s, i, hb);
    assert(ha[2] == s[i + 2] && hb[2] == s[i + 2]);
    match (a, b) {
        (Frame::Game(x), Frame::Game(y)) => lemma_game_unique(s, i + 6, x, y),
        (Frame::Move(x), Frame::Move(y)) => lemma_move_unique(s, i + 6, x, y),
        _ => {},
    }
}

fn put_player(out: &mut Vec<u8>, p: Player)
    ensures
        final(out)@ == old(out)@ + player_bytes(p),
{
    match p {
        Player::X => put_bytes(out, &[0x61u8, 0x58]),
        Player::O => put_bytes(out, &[0x61u8, 0x4f]),
    }
}

fn parse_player(b: &[u8], pos: usize) -> (r: Option<(Player, usize)>)
    ensures
        r matches Some((v, n)) ==> n == pos + player_bytes(v).len() && starts(b@, pos as int, player_bytes(v)),
        forall|v: Player|
            #[trigger] starts(b@, pos as int, player_bytes(v)) ==> r == Some(
                (v, (pos + player_bytes(v).len()) as usize),
            ),
{
    proof {
        assert forall|v: Player, w: Player|
            #[trigger] starts(b@, pos as int, player_bytes(v)) && #[trigger] starts(
                b@,
                pos as int,
                player_bytes(w),
            ) implies v == w by {
            lemma_player_unique(b@, pos as int, v, w);
        }
    }
    let x: [u8; 2] = [0x61u8, 0x58];
    let o: [u8; 2] = [0x61u8, 0x4f];
    assert(x@ =~= player_bytes(Player::X));
    assert(o@ =~= player_bytes(Player::O));
    if has_at(b, pos, &x) {
        Some((Player::X, pos + 2))
    } else if has_at(b, pos, &o) {
        Some((Player::O, pos + 2))
    } else {
        None
    }
}

fn put_cell(out: &mut Vec<u8>, c: Cell)
    ensures
        final(out)@ == old(out)@ + cell_bytes(c),
{
    match c.0 {
        None => put_bytes(out, &[0xf6u8]),
        Some(p) => put_player(out, p),
    }
}

fn parse_cell(b: &[u8], pos: usize) -> (r: Option<(Cell, usize)>)
    ensures
        r matches Some((v, n)) ==> n == pos + cell_bytes(v).len() && starts(b@, pos as int, cell_bytes(v)),
        forall|v: Cell|
            #[trigger] starts(b@, pos as int, cell_bytes(v)) ==> r == Some(
                (v, (pos + cell_bytes(v).len()) as usize),
            ),
{
    proof {
        assert forall|v: Cell, w: Cell|
            #[trigger] starts(b@, pos as int, cell_bytes(v)) && #[trigger] starts(
                b@,
                pos as int,
                cell_bytes(w),
            ) implies v == w by {
            lemma_cell_unique(b@, pos as int, v, w);
        }
    }
    let null: [u8; 1] = [0xf6u8];
    assert(null@ =~= cell_bytes(Cell(None)));
    if has_at(b, pos, &null) {
        Some((Cell(None), pos + 1))
    } else {
        match parse_player(b, pos) {
            Some((p, n)) => {
                assert(cell_bytes(Cell(Some(p))) == player_bytes(p));
                Some((Cell(Some(p)), n))
            },
            None => {
                assert forall|v: Cell| !#[trigger] starts(b@, pos as int, cell_bytes(v)) by {
                    if let Some(p) = v.0 {
                        assert(cell_bytes(v) == player_bytes(p));
                    }
                }
                None
            },
        }
    }
}

fn put_row(out: &mut Vec<u8>, r: &[Cell; 3])
    ensures
        final(out)@ == old(out)@ + row_bytes(*r),
{
    put_bytes(out, &[0x83u8]);
    put_cell(out, r[0]);
    put_cell(out, r[1]);
    put_cell(out, r[2]);
    assert(out@ =~= old(out)@ + row_bytes(*r));
}

fn parse_row(b: &[u8], pos: usize) -> (r: Option<([Cell; 3], usize)>)
    ensures
        r matches Some((v, n)) ==> n == pos + row_bytes(v).len() && starts(b@, pos as int, row_bytes(v)),
        forall|v: [Cell; 3]|
            #[trigger] starts(b@, pos as int, row_bytes(v)) ==> r == Some(
                (v, (pos + row_bytes(v).len()) as usize),
            ),
{
    proof {
        assert forall|v: [Cell; 3]| #[trigger] starts(b@, pos as int, row_bytes(v)) implies {
            &&& starts(b@, pos as int, seq![0x83u8])
            &&& starts(b@, pos + 1, cell_bytes(v[0]))
            &&& starts(b@, pos + 1 + cell_bytes(v[0]).len(), cell_bytes(v[1]))
            &&& starts(
                b@,
                pos + 1 + cell_bytes(v[0]).len() + cell_bytes(v[1]).len(),
                cell_bytes(v[2]),
            )
        } by {
            lemma_row_parts(b@, pos as int, v);
        }
    }
    let head: [u8; 1] = [0x83u8];
    assert(head@ =~= seq![0x83u8]);
    if !has_at(b, pos, &head) {
        return None;
    }
    let (c0, i1) = match parse_cell(b, pos + 1) {
        Some(x) => x,
        None => return None,
    };
    let (c1, i2) = match parse_cell(b, i1) {
        Some(x) => x,
        None => return None,
    };
    let (c2, i3) = match parse_cell(b, i2) {
        Some(x) => x,
        None => return None,
    };
    let row = [c0, c1, c2];
    proof {
        lemma_row_parts(b@, pos as int, row);
        assert forall|v: [Cell; 3]| #[trigger] starts(b@, pos as int, row_bytes(v)) implies v
            == row by {
            lemma_row_unique(b@, pos as int, v, row);
        }
    }
    Some((row, i3))
}

fn put_board(out: &mut Vec<u8>, bd: &Board)
    ensures
        final(out)@ == old(out)@ + board_bytes(*bd),
{
    put_bytes(out, &[0x83u8]);
    put_row(out, &bd.0[0]);
    put_row(out, &bd.0[1]);
    put_row(out, &bd.0[2]);
    assert(out@ =~= old(out)@ + board_bytes(*bd));
}

fn parse_board(b: &[u8], pos: usize) -> (r: Option<(Board, usize)>)
    ensures
        r matches Some((v, n)) ==> n == pos + board_bytes(v).len() && starts(b@, pos as int, board_bytes(v)),
        forall|v: Board|
            #[trigger] starts(b@, pos as int, board_bytes(v)) ==> r == Some(
                (v, (pos + board_bytes(v).len()) as usize),
            ),
{
    proof {
        assert forall|v: Board| #[trigger] starts(b@, pos as int, board_bytes(v)) implies {
            &&& starts(b@, pos as int, seq![0x83u8])
            &&& starts(b@, pos + 1, row_bytes(v.0[0]))
            &&& starts(b@, pos + 1 + row_bytes(v.0[0]).len(), row_bytes(v.0[1]))
            &&& starts(
                b@,
                pos + 1 + row_bytes(v.0[0]).len() + row_bytes(v.0[1]).len(),
                row_bytes(v.0[2]),
            )
        } by {
            lemma_board_parts(b@, pos as int, v);
        }
    }
    let head: [u8; 1] = [0x83u8];
    assert(head@ =~= seq![0x83u8]);
    if !has_at(b, pos, &head) {
        return None;
    }
    let (r0, i1) = match parse_row(b, pos + 1) {
        Some(x) => x,
        None => return None,
    };
    let (r1, i2) = match parse_row(b, i1) {
        Some(x) => x,
        None => return None,
    };
    let (r2, i3) = match parse_row(b, i2) {
        Some(x) => x,
        None => return None,
    };
    let bd = Board([r0, r1, r2]);
    proof {
        lemma_board_parts(b@, pos as int, bd);
        assert forall|v: Board| #[trigger] starts(b@, pos as int, board_bytes(v)) implies v
            == bd by {
            lemma_board_unique(b@, pos as int, v, bd);
        }
    }
    Some((bd, i3))
}

fn put_game(out: &mut Vec<u8>, g: &Game)
    ensures
        final(out)@ == old(out)@ + game_bytes(*g),
{
    let head: [u8; 7] = [0xa2u8, 0x65, 0x62, 0x6f, 0x61, 0x72, 0x64];
    let key: [u8; 15] = [
        0x6eu8, 0x63, 0x75, 0x72, 0x72, 0x65, 0x6e, 0x74, 0x5f, 0x70, 0x6c, 0x61, 0x79, 0x65, 0x72,
    ];
    assert(head@ =~= seq![0xa2u8] + key_board());
    assert(key@ =~= key_current_player());
    put_bytes(out, &head);
    put_board(out, &g.board);
    put_bytes(out, &key);
    put_player(out, g.current_player);
    assert(out@ =~= old(out)@ + game_bytes(*g));
}

#[verifier::rlimit(40)]
fn parse_game(b: &[u8], pos: usize) -> (r: Option<(Game, usize)>)
    ensures
        r matches Some((v, n)) ==> n == pos + game_bytes(v).len() && starts(b@, pos as int, game_bytes(v)),
        forall|v: Game|
            #[trigger] starts(b@, pos as int, game_bytes(v)) ==> r == Some(
                (v, (pos + game_bytes(v).len()) as usize),
            ),
{
    proof {
        assert forall|v: Game| #[trigger] starts(b@, pos as int, game_bytes(v)) implies {
            &&& starts(b@, pos as int, seq![0xa2u8] + key_board())
            &&& starts(b@, pos + 7, board_bytes(v.board))
            &&& starts(b@, pos + 7 + board_bytes(v.board).len(), key_current_player())
            &&& starts(b@, pos + 22 + board_bytes(v.board).len(), player_bytes(v.current_player))
        } by {
            lemma_game_parts(b@, pos as int, v);
        }
    }
    let head: [u8; 7] = [0xa2u8, 0x65, 0x62, 0x6f, 0x61, 0x72, 0x64];
    let key: [u8; 15] = [
        0x6eu8, 0x63, 0x75, 0x72, 0x72, 0x65, 0x6e, 0x74, 0x5f, 0x70, 0x6c, 0x61, 0x79, 0x65, 0x72,
    ];
    assert(head@ =~= seq![0xa2u8] + key_board());
    assert(key@ =~= key_current_player());
    if !has_at(b, pos, &head) {
        return None;
    }
    let (board, i1) = match parse_board(b, pos + 7) {
        Some(x) => x,
        None => return None,
    };
    if !has_at(b, i1, &key) {
        return None;
    }
    let (current_player, i2) = match parse_player(b, i1 + 15) {
        Some(x) => x,
        None => return None,
    };
    let g = Game { board, current_player };
    proof {
        lemma_game_parts(b@, pos as int, g);
        assert forall|v: Game| #[trigger] starts(b@, pos as int, game_bytes(v)) implies v == g by {
            lemma_game_unique(b@, pos as int, v, g);
        }
    }
    Some((g, i2))
}

fn put_move(out: &mut Vec<u8>, m: &MoveRequest)
    ensures
        final(out)@ == old(out)@ + move_bytes(*m),
{
    let head: [u8; 5] = [0xa2u8, 0x63, 0x72, 0x6f, 0x77];
    let key: [u8; 4] = [0x63u8, 0x63, 0x6f, 0x6c];
    assert(head@ =~= seq![0xa2u8] + key_row());
    assert(key@ =~= key_col());
    put_bytes(out, &head);
    put_uint(out, m.row as u64);
    put_bytes(out, &key);
    put_uint(out, m.col as u64);
    assert(out@ =~= old(out)@ + move_bytes(*m));
}

fn parse_move(b: &[u8], pos: usize) -> (r: Option<(MoveRequest, usize)>)
    ensures
        r matches Some((v, n)) ==> n == pos + move_bytes(v).len() && starts(b@, pos as int, move_bytes(v)),
        forall|v: MoveRequest|
            #[trigger] starts(b@, pos as int, move_bytes(v)) ==> r == Some(
                (v, (pos + move_bytes(v).len()) as usize),
            ),
{
    proof {
        assert forall|v: MoveRequest| #[trigger] starts(b@, pos as int, move_bytes(v)) implies {
            &&& starts(b@, pos as int, seq![0xa2u8] + key_row())
            &&& starts(b@, pos + 5, uint_bytes(v.row as u64))
            &&& starts(b@, pos + 5 + uint_bytes(v.row as u64).len(), key_col())
            &&& starts(b@, pos + 9 + uint_bytes(v.row as u64).len(), uint_bytes(v.col as u64))
        } by {
            lemma_move_parts(b@, pos as int, v);
        }
    }
    let head: [u8; 5] = [0xa2u8, 0x63, 0x72, 0x6f, 0x77];
    let key: [u8; 4] = [0x63u8, 0x63, 0x6f, 0x6c];
    assert(head@ =~= seq![0xa2u8] + key_row());
    assert(key@ =~= key_col());
    if !has_at(b, pos, &head) {
        return None;
    }
    let (row, i1) = match parse_uint(b, pos + 5) {
        Some(x) => x,
        None => return None,
    };
    if row > usize::MAX as u64 || !has_at(b, i1, &key) {
        return None;
    }
    let (col, i2) = match parse_uint(b, i1 + 4) {
        Some(x) => x,
        None => return None,
    };
    if col > usize::MAX as u64 {
        return None;
    }
    let m = MoveRequest { row: row as usize, col: col as usize };
    proof {
        lemma_move_parts(b@, pos as int, m);
        assert forall|v: MoveRequest| #[trigger] starts(b@, pos as int, move_bytes(v)) implies v
            == m by {
            lemma_move_unique(b@, pos as int, v, m);
        }
    }
    Some((m, i2))
}

fn put_body(out: &mut Vec<u8>, f: &Frame)
    ensures
        final(out)@ == old(out)@ + body_bytes(*f),
{
    match f {
        Frame::Game(g) => {
            let head: [u8; 6] = [0xa1u8, 0x64, 0x47, 0x61, 0x6d, 0x65];
            assert(head@ =~= seq![0xa1u8] + key_game());
            put_bytes(out, &head);
            put_game(out, g);
        },
        Frame::Move(m) => {
            let head: [u8; 6] = [0xa1u8, 0x64, 0x4d, 0x6f, 0x76, 0x65];
            assert(head@ =~= seq![0xa1u8] + key_move());
            put_bytes(out, &head);
            put_move(out, m);
        },
    }
    assert(out@ =~= old(out)@ + body_bytes(*f));
}

fn parse_body(b: &[u8], pos: usize) -> (r: Option<(Frame, usize)>)
    ensures
        r matches Some((v, n)) ==> n == pos + body_bytes(v).len() && starts(b@, pos as int, body_bytes(v)),
        forall|v: Frame|
            #[trigger] starts(b@, pos as int, body_bytes(v)) ==> r == Some(
                (v, (pos + body_bytes(v).len()) as usize),
            ),
{
    proof {
        assert forall|v: Frame| #[trigger] starts(b@, pos as int, body_bytes(v)) implies {
            &&& v matches Frame::Game(g) ==> starts(b@, pos as int, seq![0xa1u8] + key_game())
                && starts(b@, pos + 6, game_bytes(g))
            &&& v matches Frame::Move(m) ==> starts(b@, pos as int, seq![0xa1u8] + key_move())
                && starts(b@, pos + 6, move_bytes(m))
        } by {
            lemma_body_parts(b@, pos as int, v);
        }
    }
    let game_head: [u8; 6] = [0xa1u8, 0x64, 0x47, 0x61, 0x6d, 0x65];
    let move_head: [u8; 6] = [0xa1u8, 0x64, 0x4d, 0x6f, 0x76, 0x65];
    assert(game_head@ =~= seq![0xa1u8] + key_game());
    assert(move_head@ =~= seq![0xa1u8] + key_move());
    let r = if has_at(b, pos, &game_head) {
        match parse_game(b, pos + 6) {
            Some((g, n)) => Some((Frame::Game(g), n)),
            None => None,
        }
    } else if has_at(b, pos, &move_head) {
        match parse_move(b, pos + 6) {
            Some((m, n)) => Some((Frame::Move(m), n)),
            None => None,
        }
    } else {
        None
    };
    proof {
        if let Some((f, n)) = r {
            lemma_body_parts(b@, pos as int, f);
        }
        assert forall|v: Frame| #[trigger] starts(b@, pos as int, body_bytes(v)) implies r == Some(
            (v, (pos + body_bytes(v).len()) as usize),
        ) by {
            if starts(b@, pos as int, game_head@) {
                lemma_starts_one(b@, pos as int, game_head@);
            }
            match v {
                Frame::Game(g) => {
                    lemma_starts_one(b@, pos as int, seq![0xa1u8] + key_game());
                },
                Frame::Move(m) => {
                    lemma_starts_one(b@, pos as int, seq![0xa1u8] + key_move());
                },
            }
        }
    }
    r
}

/// What decoding a body gives: the frame whose encoding it is, if any.
pub open spec fn decode_body_spec(s: Seq<u8>) -> Result<Frame, FrameError> {
    if exists|f: Frame| body_bytes(f) == s {
        Ok(choose|f: Frame| body_bytes(f) == s)
    } else {
        Err(FrameError::MalformedFrame)
    }
}

/// A length as four big-endian bytes.
pub open spec fn be32(n: u32) -> Seq<u8> {
    seq![(n >> 24u32) as u8, (n >> 16u32) as u8, (n >> 8u32) as u8, n as u8]
}

/// The big-endian number in the first four bytes of `s`.
pub open spec fn be32_value(s: Seq<u8>) -> u32 {
    ((s[0] as u32) << 24u32) | ((s[1] as u32) << 16u32) | ((s[2] as u32) << 8u32) | (s[3] as u32)
}

/// A whole message: the body's length, then the body.
pub open spec fn message_bytes(f: Frame) -> Seq<u8> {
    be32(body_bytes(f).len() as u32) + body_bytes(f)
}

/// What reading a message from the front of `s` gives: `None` while the
/// message is incomplete, else the frame and the number of bytes it took.
pub open spec fn decode_message_spec(s: Seq<u8>) -> Result<Option<(Frame, usize)>, FrameError> {
    if s.len() < 4 {
        Ok(None)
    } else if be32_value(s) > MAX_FRAME_LEN {
        Err(FrameError::MalformedFrame)
    } else if s.len() < 4 + be32_value(s) {
        Ok(None)
    } else {
        match decode_body_spec(s.subrange(4, 4 + be32_value(s))) {
            Ok(f) => Ok(Some((f, (4 + be32_value(s)) as usize))),
            Err(e) => Err(e),
        }
    }
}

proof fn lemma_be32(n: u32)
    ensures
        be32_value(be32(n)) == n,
{
    let s = be32(n);
    assert(((((n >> 24u32) as u8) as u32) << 24u32) | ((((n >> 16u32) as u8) as u32) << 16u32) | (((
    (n >> 8u32) as u8) as u32) << 8u32) | ((n as u8) as u32) == n) by (bit_vector);
}

proof fn lemma_body_len(f: Frame)
    ensures
        body_bytes(f).len() <= 52,
{
    assert forall|p: Player| (#[trigger] player_bytes(p)).len() == 2 by {}
    assert forall|c: Cell| (#[trigger] cell_bytes(c)).len() <= 2 by {}
    assert forall|v: u64| (#[trigger] uint_bytes(v)).len() <= 9 by {}
}

/// The body of `f`.
pub fn encode_body(f: &Frame) -> (r: Vec<u8>)
    ensures
        r@ == body_bytes(*f),
{
    let mut out: Vec<u8> = Vec::new();
    put_body(&mut out, f);
    assert(out@ =~= body_bytes(*f));
    out
}

/// The frame that `b` is the body of; `MalformedFrame` if it is the body of none.
pub fn decode_body(b: &[u8]) -> (r: Result<Frame, FrameError>)
    ensures
        r == decode_body_spec(b@),
{
    assert(b@.subrange(0, b@.len() as int) =~= b@);
    decode_body_in(b, 0, b.len())
}

fn decode_body_in(b: &[u8], start: usize, end: usize) -> (r: Result<Frame, FrameError>)
    requires
        start <= end <= b@.len(),
    ensures
        r == decode_body_spec(b@.subrange(start as int, end as int)),
{
    let s = Ghost(b@.subrange(start as int, end as int));
    let r = match parse_body(b, start) {
        Some((f, n)) => {
            if n == end {
                Ok(f)
            } else {
                Err(FrameError::MalformedFrame)
            }
        },
        None => Err(FrameError::MalformedFrame),
    };
    proof {
        assert forall|g: Frame| body_bytes(g) == s@ implies #[trigger] starts(
            b@,
            start as int,
            body_bytes(g),
        ) by {}
        if let Ok(f) = r {
            assert(body_bytes(f) == s@);
            let g = choose|g: Frame| body_bytes(g) == s@;
            lemma_body_unique(b@, start as int, g, f);
        } else if exists|g: Frame| body_bytes(g) == s@ {
            let g = choose|g: Frame| body_bytes(g) == s@;
            assert(starts(b@, start as int, body_bytes(g)));
            assert(false);
        }
    }
    r
}

/// The whole message for `f`: its length prefix, then its body.
pub fn encode_message(f: &Frame) -> (r: Vec<u8>)
    ensures
        r@ == message_bytes(*f),
{
    let body = encode_body(f);
    proof {
        lemma_body_len(*f);
    }
    let n = body.len() as u32;
    let mut out: Vec<u8> = Vec::new();
    put_bytes(&mut out, &[(n >> 24u32) as u8, (n >> 16u32) as u8, (n >> 8u32) as u8, n as u8]);
    put_bytes(&mut out, body.as_slice());
    assert(out@ =~= message_bytes(*f));
    out
}

/// Reads one message from the front of `b`: `Ok(None)` while more bytes are
/// needed, the frame and the number of bytes it took once it is complete,
/// `MalformedFrame` for a length over `MAX_FRAME_LEN` or a body that is no
/// frame.
pub fn decode_message(b: &[u8]) -> (r: Result<Option<(Frame, usize)>, FrameError>)
    ensures
        r == decode_message_spec(b@),
{
    if b.len() < 4 {
        return Ok(None);
    }
    let n: u32 = ((b[0] as u32) << 24u32) | ((b[1] as u32) << 16u32) | ((b[2] as u32) << 8u32) | (
    b[3] as u32);
    if n > MAX_FRAME_LEN {
        return Err(FrameError::MalformedFrame);
    }
    let len = n as usize;
    if b.len() - 4 < len {
        return Ok(None);
    }
    match decode_body_in(b, 4, 4 + len) {
        Ok(f) => Ok(Some((f, 4 + len))),
        Err(e) => Err(e),
    }
}

/// Bytes from a peer that do not yet make a whole message.
pub struct FrameBuffer {
    pending: Vec<u8>,
}

impl View for FrameBuffer {
    type V = Seq<u8>;

    closed spec fn view(&self) -> Seq<u8> {
        self.pending@
    }
}

impl FrameBuffer {
    pub fn new() -> (r: FrameBuffer)
        ensures
            r@ == Seq::<u8>::empty(),
    {
        FrameBuffer { pending: Vec::new() }
    }

    /// Appends bytes that arrived.
    pub fn extend(&mut self, data: &[u8])
        ensures
            final(self)@ == old(self)@ + data@,
    {
        put_bytes(&mut self.pending, data);
    }

    /// Takes the first message off the front once it is whole: `Ok(None)`
    /// while it is not, and on an error the bytes stay as they were.
    pub fn next_frame(&mut self) -> (r: Result<Option<Frame>, FrameError>)
        ensures
            match decode_message_spec(old(self)@) {
                Ok(Some((f, n))) => r == Ok::<Option<Frame>, FrameError>(Some(f)) && final(self)@
                    == old(self)@.subrange(n as int, old(self)@.len() as int),
                Ok(None) => r == Ok::<Option<Frame>, FrameError>(None) && final(self)@ == old(self)@,
                Err(e) => r == Err::<Option<Frame>, FrameError>(e) && final(self)@ == old(self)@,
            },
    {
        match decode_message(self.pending.as_slice()) {
            Ok(Some((f, n))) => {
                let rest = self.pending.split_off(n);
                self.pending = rest;
                Ok(Some(f))
            },
            Ok(None) => Ok(None),
            Err(e) => Err(e),
        }
    }
}

/// Decoding the encoding of a frame gives the frame back: from a body alone,
/// and from a message followed by any further bytes, which it leaves unread.
pub proof fn lemma_round_trip(f: Frame, rest: Seq<u8>)
    ensures
        decode_body_spec(body_bytes(f)) == Ok::<Frame, FrameError>(f),
        decode_message_spec(message_bytes(f) + rest) == Ok::<Option<(Frame, usize)>, FrameError>(
            Some((f, message_bytes(f).len() as usize)),
        ),
{
    let b = body_bytes(f);
    let g = choose|g: Frame| body_bytes(g) == b;
    assert(starts(b, 0, b)) by {
        assert(b.subrange(0, b.len() as int) =~= b);
    }
    lemma_body_unique(b, 0, g, f);
    lemma_body_len(f);
    let n = b.len() as u32;
    lemma_be32(n);
    let s = message_bytes(f) + rest;
    assert(s.subrange(0, 4) =~= be32(n));
    assert(be32_value(s) == be32_value(be32(n)));
    assert(s.subrange(4, 4 + n) =~= b);
}

} // verus!
