//! The 3×3 board, the two seats, and the rules for placing a mark.

use vstd::array::spec_array_update;
use vstd::prelude::*;

verus! {

/// One of the two seats of the game.
#[derive(Debug, Clone, Copy, PartialEq, Eq, Structural)]
pub enum Player {
    X,
    O,
}

impl Player {
    /// The seat whose turn follows this one's.
    pub open spec fn spec_next(self) -> Player {
        match self {
            Player::X => Player::O,
            Player::O => Player::X,
        }
    }

    pub fn next(&self) -> (r: Player)
        ensures
            r == self.spec_next(),
            r != *self,
    {
        match self {
            Player::X => Player::O,
            Player::O => Player::X,
        }
    }
}

/// A square of the board: empty, or marked by one seat.
#[derive(Debug, Clone, Copy, PartialEq, Eq, Structural)]
pub struct Cell(pub Option<Player>);

impl Default for Cell {
    fn default() -> (r: Cell)
        ensures
            r.0 is None,
    {
        Cell(None)
    }
}

impl Player {
    pub open spec fn spec_symbol(self) -> char {
        match self {
            Player::X => 'X',
            Player::O => 'O',
        }
    }

    /// The letter that names the seat.
    pub fn symbol(&self) -> (r: char)
        ensures
            r == self.spec_symbol(),
    {
        match self {
            Player::X => 'X',
            Player::O => 'O',
        }
    }
}

impl Cell {
    pub open spec fn spec_symbol(self) -> char {
        match self.0 {
            Some(p) => p.spec_symbol(),
            None => ' ',
        }
    }

    /// The seat's letter, or a space for an empty square.
    pub fn symbol(&self) -> (r: char)
        ensures
            r == self.spec_symbol(),
    {
        match self.0 {
            Some(p) => p.symbol(),
            None => ' ',
        }
    }
}

/// Why a move was refused.
#[derive(Debug, Clone, Copy, PartialEq, Eq, Structural)]
pub enum MoveError {
    /// The row or the column is not in `0..3`.
    OutOfBounds,
    /// The seat that moved is not the one whose turn it is.
    NotYourTurn,
    /// The square already holds a mark.
    CellOccupied,
}

/// The grid, row by row.
#[derive(Debug, Clone, Copy, PartialEq, Eq)]
pub struct Board(pub [[Cell; 3]; 3]);

/// The eight lines that win, as `[row, col]` pairs: three rows, three
/// columns, then the two diagonals.
pub open spec fn line_square(k: int, i: int) -> (int, int) {
    if k < 3 {
        (k, i)
    } else if k < 6 {
        (i, k - 3)
    } else if k == 6 {
        (i, i)
    } else {
        (2 - i, i)
    }
}

impl Board {
    /// The mark on square (`r`, `c`).
    pub open spec fn at(self, r: int, c: int) -> Option<Player> {
        self.0@[r]@[c].0
    }

    pub open spec fn is_empty_board(self) -> bool {
        forall|r: int, c: int| 0 <= r < 3 && 0 <= c < 3 ==> (#[trigger] self.at(r, c)) is None
    }

    /// The mark on the `i`-th square of line `k`.
    pub open spec fn on_line(self, k: int, i: int) -> Option<Player> {
        self.at(line_square(k, i).0, line_square(k, i).1)
    }

    /// Seat `p` holds all three squares of line `k`.
    pub open spec fn owns_line(self, p: Player, k: int) -> bool {
        &&& self.on_line(k, 0) == Some(p)
        &&& self.on_line(k, 1) == Some(p)
        &&& self.on_line(k, 2) == Some(p)
    }

    /// The owner of the first fully held line among lines `k..8`.
    pub open spec fn winner_from(self, k: int) -> Option<Player>
        decreases 8 - k,
    {
        if k >= 8 || k < 0 {
            None
        } else if self.on_line(k, 0) is Some && self.on_line(k, 0) == self.on_line(k, 1)
            && self.on_line(k, 0) == self.on_line(k, 2) {
            self.on_line(k, 0)
        } else {
            self.winner_from(k + 1)
        }
    }

    /// The owner of the first fully held line, in the order of `line_square`.
    pub open spec fn spec_winner(self) -> Option<Player> {
        self.winner_from(0)
    }

    /// The board with `p` marked on square (`r`, `c`).
    pub open spec fn marked(self, p: Player, r: int, c: int) -> Board {
        Board(spec_array_update(self.0, r, spec_array_update(self.0@[r], c, Cell(Some(p)))))
    }

    /// What placing `p` on (`r`, `c`) gives: the new board, or why it is refused.
    pub open spec fn move_outcome(self, p: Player, r: int, c: int) -> Result<Board, MoveError> {
        if !(0 <= r < 3 && 0 <= c < 3) {
            Err(MoveError::OutOfBounds)
        } else if self.at(r, c) is Some {
            Err(MoveError::CellOccupied)
        } else {
            Ok(self.marked(p, r, c))
        }
    }
}

/// Square `i` of line `k`, as `line_square` gives it.
fn square(k: usize, i: usize) -> (r: (usize, usize))
    requires
        k < 8,
        i < 3,
    ensures
        r.0 < 3,
        r.1 < 3,
        r.0 as int == line_square(k as int, i as int).0,
        r.1 as int == line_square(k as int, i as int).1,
{
    if k < 3 {
        (k, i)
    } else if k < 6 {
        (i, k - 3)
    } else if k == 6 {
        (i, i)
    } else {
        (2 - i, i)
    }
}

impl Default for Board {
    fn default() -> (r: Board)
        ensures
            r.is_empty_board(),
    {
        Board([[Cell(None); 3]; 3])
    }
}

impl Board {
    /// The square at (`row`, `col`).
    pub fn cell(&self, row: usize, col: usize) -> (r: Cell)
        requires
            row < 3,
            col < 3,
        ensures
            r.0 == self.at(row as int, col as int),
    {
        self.0[row][col]
    }

    /// Overwrites the square at (`row`, `col`), whatever it held.
    pub fn set_cell(&mut self, row: usize, col: usize, cell: Cell)
        requires
            row < 3,
            col < 3,
        ensures
            forall|r: int, c: int|
                0 <= r < 3 && 0 <= c < 3 ==> #[trigger] final(self).at(r, c) == if r == row
                    && c == col {
                    cell.0
                } else {
                    old(self).at(r, c)
                },
    {
        self.0[row][col] = cell;
    }

    /// The seat that holds a whole row, column or diagonal, if any; where
    /// several lines are held, the first of rows, then columns, then diagonals.
    pub fn winner(&self) -> (r: Option<Player>)
        ensures
            r == self.spec_winner(),
    {
        let mut k: usize = 0;
        while k < 8
            invariant
                k <= 8,
                self.spec_winner() == self.winner_from(k as int),
            decreases 8 - k,
        {
            let (r0, c0) = square(k, 0);
            let (r1, c1) = square(k, 1);
            let (r2, c2) = square(k, 2);
            let a = self.0[r0][c0].0;
            let b = self.0[r1][c1].0;
            let c = self.0[r2][c2].0;
            if a.is_some() && a == b && a == c {
                return a;
            }
            k = k + 1;
        }
        None
    }

    /// Marks (`row`, `col`) for `player` if it is on the board and empty.
    pub fn try_move(&mut self, player: Player, row: usize, col: usize) -> (r: Result<(), MoveError>)
        ensures
            match old(self).move_outcome(player, row as int, col as int) {
                Ok(b) => r == Ok::<(), MoveError>(()) && *final(self) == b,
                Err(e) => r == Err::<(), MoveError>(e) && *final(self) == *old(self),
            },
    {
        if row >= 3 || col >= 3 {
            return Err(MoveError::OutOfBounds);
        }
        if self.0[row][col].0.is_some() {
            return Err(MoveError::CellOccupied);
        }
        self.0[row][col] = Cell(Some(player));
        proof {
            let b = old(self).marked(player, row as int, col as int);
            assert(self.0@[row as int] =~= b.0@[row as int]);
            assert(self.0 =~= b.0);
        }
        Ok(())
    }
}

/// The board and the seat whose turn it is.
#[derive(Debug, Clone, Copy, PartialEq, Eq)]
pub struct Game {
    pub board: Board,
    pub current_player: Player,
}

impl Game {
    /// What a move of `p` at (`r`, `c`) gives: the new game, or why it is
    /// refused. The bounds are checked first, then the turn, then the square.
    pub open spec fn move_outcome(self, p: Player, r: int, c: int) -> Result<Game, MoveError> {
        if !(0 <= r < 3 && 0 <= c < 3) {
            Err(MoveError::OutOfBounds)
        } else if p != self.current_player {
            Err(MoveError::NotYourTurn)
        } else {
            match self.board.move_outcome(p, r, c) {
                Ok(b) => Ok(Game { board: b, current_player: p.spec_next() }),
                Err(e) => Err(e),
            }
        }
    }

    /// An empty board, with seat X to move.
    pub fn new() -> (r: Game)
        ensures
            r.board.is_empty_board(),
            r.current_player == Player::X,
    {
        Game { board: Board::default(), current_player: Player::X }
    }

    /// Plays `player` at (`row`, `col`); on success the turn passes to the
    /// other seat, on failure nothing changes.
    pub fn try_move(&mut self, player: Player, row: usize, col: usize) -> (r: Result<(), MoveError>)
        ensures
            match old(self).move_outcome(player, row as int, col as int) {
                Ok(g) => r == Ok::<(), MoveError>(()) && *final(self) == g,
                Err(e) => r == Err::<(), MoveError>(e) && *final(self) == *old(self),
            },
    {
        if row >= 3 || col >= 3 {
            return Err(MoveError::OutOfBounds);
        }
        if player != self.current_player {
            return Err(MoveError::NotYourTurn);
        }
        match self.board.try_move(player, row, col) {
            Ok(()) => {
                self.current_player = player.next();
                Ok(())
            },
            Err(e) => Err(e),
        }
    }
}

/// The top border of the drawing.
pub open spec fn top_line() -> Seq<char> {
    seq!['\u{252c}', '\u{2500}', '\u{2500}', '\u{2500}', '\u{252c}', '\u{2500}', '\u{2500}', '\u{2500}', '\u{252c}', '\u{2500}', '\u{2500}', '\u{2500}', '\u{252c}', '\n']
}

/// The border between two rows.
pub open spec fn middle_line() -> Seq<char> {
    seq!['\u{251c}', '\u{2500}', '\u{2500}', '\u{2500}', '\u{253c}', '\u{2500}', '\u{2500}', '\u{2500}', '\u{253c}', '\u{2500}', '\u{2500}', '\u{2500}', '\u{253c}', '\n']
}

/// The bottom border.
pub open spec fn bottom_line() -> Seq<char> {
    seq!['\u{251c}', '\u{2500}', '\u{2500}', '\u{2500}', '\u{2534}', '\u{2500}', '\u{2500}', '\u{2500}', '\u{2534}', '\u{2500}', '\u{2500}', '\u{2500}', '\u{2518}', '\n']
}

/// One row of squares between bars.
pub open spec fn row_line(a: char, b: char, c: char) -> Seq<char> {
    seq!['\u{2502}', ' ', a, ' ', '\u{2502}', ' ', b, ' ', '\u{2502}', ' ', c, ' ', '\u{2502}', '\n']
}

impl Board {
    /// Row `r` of the drawing.
    pub open spec fn row_text(self, r: int) -> Seq<char> {
        row_line(self.0[r][0].spec_symbol(), self.0[r][1].spec_symbol(), self.0[r][2].spec_symbol())
    }

    /// The board drawn with box characters, one text line per row.
    pub open spec fn text(self) -> Seq<char> {
        top_line() + self.row_text(0) + middle_line() + self.row_text(1) + middle_line()
            + self.row_text(2) + bottom_line()
    }

    /// The board drawn as `text` says.
    pub fn render(&self) -> (r: String)
        ensures
            r@ == self.text(),
    {
        let top = [
            '\u{252c}', '\u{2500}', '\u{2500}', '\u{2500}', '\u{252c}', '\u{2500}', '\u{2500}',
            '\u{2500}', '\u{252c}', '\u{2500}', '\u{2500}', '\u{2500}', '\u{252c}', '\n',
        ];
        let middle = [
            '\u{251c}', '\u{2500}', '\u{2500}', '\u{2500}', '\u{253c}', '\u{2500}', '\u{2500}',
            '\u{2500}', '\u{253c}', '\u{2500}', '\u{2500}', '\u{2500}', '\u{253c}', '\n',
        ];
        let bottom = [
            '\u{251c}', '\u{2500}', '\u{2500}', '\u{2500}', '\u{2534}', '\u{2500}', '\u{2500}',
            '\u{2500}', '\u{2534}', '\u{2500}', '\u{2500}', '\u{2500}', '\u{2518}', '\n',
        ];
        assert(top@ =~= top_line());
        assert(middle@ =~= middle_line());
        assert(bottom@ =~= bottom_line());
        let mut out = String::new();
        push_chars(&mut out, &top);
        let mut r: usize = 0;
        while r < 3
            invariant
                r <= 3,
                out@ == if r == 0 {
                    top_line()
                } else if r == 1 {
                    top_line() + self.row_text(0)
                } else if r == 2 {
                    top_line() + self.row_text(0) + middle_line() + self.row_text(1)
                } else {
                    top_line() + self.row_text(0) + middle_line() + self.row_text(1) + middle_line()
                        + self.row_text(2)
                },
                middle@ == middle_line(),
            decreases 3 - r,
        {
            if r > 0 {
                push_chars(&mut out, &middle);
            }
            let line = [
                '\u{2502}', ' ', self.0[r][0].symbol(), ' ', '\u{2502}', ' ', self.0[r][1].symbol(), ' ',
                '\u{2502}', ' ', self.0[r][2].symbol(), ' ', '\u{2502}', '\n',
            ];
            assert(line@ =~= self.row_text(r as int));
            push_chars(&mut out, &line);
            r = r + 1;
        }
        push_chars(&mut out, &bottom);
        out
    }
}

/// Relies on `String::push`, which appends one character.
#[verifier::external_body]
fn push_char(s: &mut String, c: char)
    ensures
        final(s)@ == old(s)@.push(c),
{
    s.push(c);
}

fn push_chars(s: &mut String, cs: &[char])
    ensures
        final(s)@ == old(s)@ + cs@,
{
    let mut k: usize = 0;
    while k < cs.len()
        invariant
            k <= cs@.len(),
            s@ == old(s)@ + cs@.subrange(0, k as int),
        decreases cs@.len() - k,
    {
        push_char(s, cs[k]);
        k = k + 1;
        assert(cs@.subrange(0, k as int) =~= cs@.subrange(0, k - 1) + seq![cs@[k - 1]]);
    }
    assert(cs@.subrange(0, k as int) =~= cs@);
}

proof fn lemma_winner_from(b: Board, k: int)
    requires
        0 <= k <= 8,
    ensures
        b.winner_from(k) is None <==> forall|p: Player, j: int|
            k <= j < 8 ==> !#[trigger] b.owns_line(p, j),
        b.winner_from(k) matches Some(p) ==> exists|j: int| k <= j < 8 && #[trigger] b.owns_line(p, j),
    decreases 8 - k,
{
    if k < 8 {
        lemma_winner_from(b, k + 1);
        if b.winner_from(k) is None {
            assert forall|p: Player, j: int| k <= j < 8 implies !#[trigger] b.owns_line(p, j) by {
                if j > k {
                } else {
                    assert(!b.owns_line(p, k));
                }
            }
        }
        if let Some(p) = b.winner_from(k) {
            if b.on_line(k, 0) is Some && b.on_line(k, 0) == b.on_line(k, 1) && b.on_line(k, 0)
                == b.on_line(k, 2) {
                assert(b.owns_line(p, k));
            }
        }
    }
}

/// There is no winner exactly as long as no seat holds a whole row, column
/// or diagonal; a winner, when there is one, holds such a line.
pub proof fn lemma_winner_iff_line_owned(b: Board)
    ensures
        b.spec_winner() is None <==> forall|p: Player, k: int| 0 <= k < 8 ==> !#[trigger] b.owns_line(p, k),
        b.spec_winner() matches Some(p) ==> exists|k: int| 0 <= k < 8 && #[trigger] b.owns_line(p, k),
{
    lemma_winner_from(b, 0);
}

/// Once there is a winner it stays: a move onto a marked square is refused
/// and leaves the game as it was, and an accepted move keeps every line that
/// was held, so a winner remains.
pub proof fn lemma_winner_stays(g: Game, p: Player, r: int, c: int)
    requires
        g.board.spec_winner() is Some,
    ensures
        0 <= r < 3 && 0 <= c < 3 && g.board.at(r, c) is Some ==> g.move_outcome(p, r, c) is Err,
        g.move_outcome(p, r, c) matches Ok(g2) ==> g2.board.spec_winner() is Some,
{
    if let Ok(g2) = g.move_outcome(p, r, c) {
        lemma_winner_iff_line_owned(g.board);
        let q = g.board.spec_winner()->0;
        let k = choose|k: int| 0 <= k < 8 && #[trigger] g.board.owns_line(q, k);
        assert(g2.board.owns_line(q, k));
        lemma_winner_iff_line_owned(g2.board);
    }
}

/// Placing the same mark twice: the second attempt finds the square taken.
pub proof fn lemma_board_repeat_move(b: Board, p: Player, r: int, c: int)
    requires
        b.move_outcome(p, r, c) is Ok,
    ensures
        b.move_outcome(p, r, c)->Ok_0.move_outcome(p, r, c) == Err::<Board, MoveError>(
            MoveError::CellOccupied,
        ),
{
}

/// Repeating an accepted move is refused and cannot pass the turn again: the
/// turn has passed exactly once, so the seat is told it is not its turn, and
/// the square is taken on the board in any case.
pub proof fn lemma_game_repeat_move(g: Game, p: Player, r: int, c: int)
    ensures
        g.move_outcome(p, r, c) matches Ok(g2) ==> {
            &&& g2.move_outcome(p, r, c) == Err::<Game, MoveError>(MoveError::NotYourTurn)
            &&& g2.current_player == g.current_player.spec_next()
            &&& g2.board.move_outcome(p, r, c) == Err::<Board, MoveError>(MoveError::CellOccupied)
        },
{
}

} // verus!
