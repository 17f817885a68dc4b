use tictactoe::board::{Board, Cell, Game, MoveError, Player};

#[test]
fn winner_works() {
    let mut b = Board::default();

    assert_eq!(b.winner(), None);

    b.set_cell(0, 0, Cell(Some(Player::X)));
    b.set_cell(1, 1, Cell(Some(Player::X)));
    b.set_cell(2, 2, Cell(Some(Player::X)));

    assert_eq!(b.winner(), Some(Player::X));

    b.set_cell(1, 1, Cell(Some(Player::O)));

    assert_eq!(b.winner(), None);
}

#[test]
fn next_alternates() {
    assert_eq!(Player::X.next(), Player::O);
    assert_eq!(Player::O.next(), Player::X);
}

#[test]
fn new_game_is_empty_with_x_to_move() {
    let g = Game::new();
    assert_eq!(g.current_player, Player::X);
    for r in 0..3 {
        for c in 0..3 {
            assert_eq!(g.board.cell(r, c), Cell(None));
        }
    }
    assert_eq!(g.board.winner(), None);
}

#[test]
fn move_then_wrong_turn_then_occupied() {
    let mut g = Game::new();
    assert_eq!(g.try_move(Player::X, 1, 1), Ok(()));
    assert_eq!(g.current_player, Player::O);
    assert_eq!(g.try_move(Player::X, 0, 0), Err(MoveError::NotYourTurn));
    assert_eq!(g.try_move(Player::O, 1, 1), Err(MoveError::CellOccupied));
    assert_eq!(g.current_player, Player::O);
    assert_eq!(g.board.cell(1, 1), Cell(Some(Player::X)));
    assert_eq!(g.board.cell(0, 0), Cell(None));
}

#[test]
fn top_row_wins_for_x() {
    let mut g = Game::new();
    assert_eq!(g.try_move(Player::X, 0, 0), Ok(()));
    assert_eq!(g.try_move(Player::O, 1, 0), Ok(()));
    assert_eq!(g.try_move(Player::X, 0, 1), Ok(()));
    assert_eq!(g.try_move(Player::O, 1, 1), Ok(()));
    assert_eq!(g.board.winner(), None);
    assert_eq!(g.try_move(Player::X, 0, 2), Ok(()));
    assert_eq!(g.board.winner(), Some(Player::X));
}

#[test]
fn out_of_bounds_comes_before_turn() {
    let mut g = Game::new();
    assert_eq!(g.try_move(Player::O, 3, 0), Err(MoveError::OutOfBounds));
    assert_eq!(g.try_move(Player::X, 0, 3), Err(MoveError::OutOfBounds));
    assert_eq!(g.try_move(Player::X, usize::MAX, 1), Err(MoveError::OutOfBounds));
    assert_eq!(g, Game::new());
}

#[test]
fn out_of_turn_on_occupied_reports_turn() {
    let mut g = Game::new();
    assert_eq!(g.try_move(Player::X, 2, 2), Ok(()));
    assert_eq!(g.try_move(Player::X, 2, 2), Err(MoveError::NotYourTurn));
}

#[test]
fn repeated_move_on_board_finds_square_taken() {
    let mut b = Board::default();
    assert_eq!(b.try_move(Player::O, 2, 1), Ok(()));
    let after_first = b;
    assert_eq!(b.try_move(Player::O, 2, 1), Err(MoveError::CellOccupied));
    assert_eq!(b, after_first);
}

#[test]
fn repeated_move_in_game_advances_turn_once() {
    let mut g = Game::new();
    assert_eq!(g.try_move(Player::X, 0, 1), Ok(()));
    let after_first = g;
    assert!(g.try_move(Player::X, 0, 1).is_err());
    assert_eq!(g, after_first);
    assert_eq!(g.current_player, Player::O);
}

#[test]
fn winner_kept_after_move_onto_marked_square() {
    let mut g = Game::new();
    for (p, r, c) in [
        (Player::X, 0, 0),
        (Player::O, 1, 0),
        (Player::X, 1, 1),
        (Player::O, 2, 0),
        (Player::X, 2, 2),
    ] {
        assert_eq!(g.try_move(p, r, c), Ok(()));
    }
    assert_eq!(g.board.winner(), Some(Player::X));
    assert_eq!(g.try_move(Player::O, 1, 1), Err(MoveError::CellOccupied));
    assert_eq!(g.board.winner(), Some(Player::X));
}

#[test]
fn each_line_wins() {
    let lines: [[(usize, usize); 3]; 8] = [
        [(0, 0), (0, 1), (0, 2)],
        [(1, 0), (1, 1), (1, 2)],
        [(2, 0), (2, 1), (2, 2)],
        [(0, 0), (1, 0), (2, 0)],
        [(0, 1), (1, 1), (2, 1)],
        [(0, 2), (1, 2), (2, 2)],
        [(0, 0), (1, 1), (2, 2)],
        [(2, 0), (1, 1), (0, 2)],
    ];
    for line in lines.iter() {
        let mut b = Board::default();
        b.set_cell(line[0].0, line[0].1, Cell(Some(Player::O)));
        b.set_cell(line[1].0, line[1].1, Cell(Some(Player::O)));
        assert_eq!(b.winner(), None);
        b.set_cell(line[2].0, line[2].1, Cell(Some(Player::O)));
        assert_eq!(b.winner(), Some(Player::O));
    }
}

#[test]
fn first_line_in_order_wins_on_hand_built_board() {
    let mut b = Board::default();
    for c in 0..3 {
        b.set_cell(2, c, Cell(Some(Player::X)));
        b.set_cell(0, c, Cell(Some(Player::O)));
    }
    assert_eq!(b.winner(), Some(Player::O));
}

#[test]
fn full_board_without_line_has_no_winner() {
    let mut g = Game::new();
    for (p, r, c) in [
        (Player::X, 0, 0),
        (Player::O, 0, 1),
        (Player::X, 0, 2),
        (Player::O, 1, 1),
        (Player::X, 1, 0),
        (Player::O, 1, 2),
        (Player::X, 2, 1),
        (Player::O, 2, 0),
        (Player::X, 2, 2),
    ] {
        assert_eq!(g.try_move(p, r, c), Ok(()));
    }
    assert_eq!(g.board.winner(), None);
    assert_eq!(g.try_move(Player::O, 1, 1), Err(MoveError::CellOccupied));
}

#[test]
fn render_draws_the_grid() {
    let mut b = Board::default();
    b.set_cell(0, 0, Cell(Some(Player::X)));
    b.set_cell(1, 1, Cell(Some(Player::O)));
    let expected = "\u{252c}\u{2500}\u{2500}\u{2500}\u{252c}\u{2500}\u{2500}\u{2500}\u{252c}\u{2500}\u{2500}\u{2500}\u{252c}\n\
\u{2502} X \u{2502}   \u{2502}   \u{2502}\n\
\u{251c}\u{2500}\u{2500}\u{2500}\u{253c}\u{2500}\u{2500}\u{2500}\u{253c}\u{2500}\u{2500}\u{2500}\u{253c}\n\
\u{2502}   \u{2502} O \u{2502}   \u{2502}\n\
\u{251c}\u{2500}\u{2500}\u{2500}\u{253c}\u{2500}\u{2500}\u{2500}\u{253c}\u{2500}\u{2500}\u{2500}\u{253c}\n\
\u{2502}   \u{2502}   \u{2502}   \u{2502}\n\
\u{251c}\u{2500}\u{2500}\u{2500}\u{2534}\u{2500}\u{2500}\u{2500}\u{2534}\u{2500}\u{2500}\u{2500}\u{2518}\n";
    assert_eq!(b.render(), expected);
}

#[test]
fn symbols_name_the_seats() {
    assert_eq!(Player::X.symbol(), 'X');
    assert_eq!(Player::O.symbol(), 'O');
    assert_eq!(Cell(None).symbol(), ' ');
    assert_eq!(Cell(Some(Player::O)).symbol(), 'O');
}
