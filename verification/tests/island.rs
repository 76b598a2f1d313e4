use hive::board::{Board, BoardPiece, BoardSquare, Color, Piece};
use hive::connect::create_island;
use hive::square::Square;

fn sq(q: i64, r: i64, s: i64) -> Square {
    Square::new(q, r, s)
}

fn black_ant() -> Piece {
    Piece::new(BoardPiece::Ant, Color::Black)
}

#[test]
fn can_detect_create_islands_simple() {
    let mut board = Board::default();
    for c in [sq(0, -1, 1), sq(0, 0, 0), sq(0, 1, -1)] {
        board.insert(c, BoardSquare::new(black_ant()));
    }

    let from = sq(0, 1, -1);
    let to = sq(1, 0, -1);

    assert!(!create_island(&mut board, from, to));

    let from = sq(0, 1, -1);
    let to = sq(0, 2, -2);

    assert!(create_island(&mut board, from, to));
}

#[test]
fn can_detect_create_islands_more_pieces() {
    let mut board = Board::default();

    let squares = [
        sq(0, -1, 1),
        sq(0, 0, 0),
        sq(0, 1, -1),
        sq(0, 2, -2),
        sq(-2, 0, 2),
        sq(-2, 1, 1),
        sq(-1, 0, 1),
        sq(-1, 1, 0),
        sq(-1, 3, -2),
        sq(1, -1, 0),
        sq(1, 0, -1),
        sq(1, 1, -2),
        sq(1, 2, -3),
    ];

    for c in squares {
        board.insert(c, BoardSquare::new(black_ant()));
    }

    let from = sq(1, 0, -1);
    let to = sq(2, -1, -1);

    assert!(!create_island(&mut board, from, to));

    let from = sq(1, 0, -1);
    let to = sq(3, -1, -2);

    assert!(create_island(&mut board, from, to));
}

#[test]
fn can_detect_create_island_circle() {
    let mut board = Board::default();

    let squares = [
        sq(-1, -2, 3),
        sq(-1, -1, 2),
        sq(-1, 0, 1),
        sq(-1, 1, 0),
        sq(0, 1, -1),
        sq(1, 1, -2),
        sq(2, 1, -3),
        sq(3, 0, -3),
        sq(4, -1, -3),
        sq(4, -2, -2),
        sq(4, -3, -1),
        sq(4, -4, 0),
        sq(3, -4, 1),
        sq(2, -4, 2),
        sq(1, -4, 3),
        sq(0, -3, 3),
        sq(0, 0, 0),
    ];

    for c in squares {
        board.insert(c, BoardSquare::new(black_ant()));
    }

    let from = sq(0, 0, 0);
    let to = sq(1, 0, -1);

    assert!(!create_island(&mut board, from, to));

    let from = sq(-1, -2, 3);
    let to = sq(-2, -1, 3);

    assert!(!create_island(&mut board, from, to));

    board.remove(sq(2, 1, -3));
    let from = sq(-1, -2, 3);
    let to = sq(-2, -1, 3);

    assert!(create_island(&mut board, from, to));
}
