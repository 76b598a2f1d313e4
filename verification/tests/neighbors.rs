use hive::square::{neighbors, Square};

fn sq(q: i64, r: i64, s: i64) -> Square {
    Square::new(q, r, s)
}

#[test]
fn test_get_correct_neighbors() {
    let same = |a: [Square; 6], b: [Square; 6]| a.iter().all(|x| b.contains(x));

    assert!(same(neighbors(&sq(0, 0, 0)), [
        sq(0, -1, 1),
        sq(0, 1, -1),
        sq(1, 0, -1),
        sq(-1, 0, 1),
        sq(1, -1, 0),
        sq(-1, 1, 0),
    ]));

    assert!(same(neighbors(&sq(0, -2, 2)), [
        sq(0, -3, 3),
        sq(1, -3, 2),
        sq(1, -2, 1),
        sq(0, -1, 1),
        sq(-1, -1, 2),
        sq(-1, -2, 3),
    ]));
}

#[test]
fn neighbors_are_six_distinct_zero_sum_squares() {
    let center = sq(3, -5, 2);
    let n = neighbors(&center);
    assert_eq!(n.len(), 6);
    for (i, a) in n.iter().enumerate() {
        assert_eq!(a.q + a.r + a.s, 0);
        let dq = a.q - center.q;
        let dr = a.r - center.r;
        let ds = a.s - center.s;
        assert_eq!(dq.abs().max(dr.abs()).max(ds.abs()), 1);
        assert_eq!(dq + dr + ds, 0);
        for b in n.iter().skip(i + 1) {
            assert!(a != b);
        }
    }
}

#[test]
fn square_has_neighbors_ignores_the_mover() {
    let mut board = hive::board::Board::new();
    let ant = hive::board::Piece::new(hive::board::BoardPiece::Ant, hive::board::Color::Black);
    board.insert(sq(0, 0, 0), hive::board::BoardSquare::new(ant));
    board.insert(sq(0, 1, -1), hive::board::BoardSquare::new(ant));
    // from (0, -1, 1) the only occupied neighbor is (0, 0, 0)
    assert!(hive::moves::square_has_neighbors(sq(0, -1, 1), &board, sq(0, 1, -1)));
    assert!(!hive::moves::square_has_neighbors(sq(0, -1, 1), &board, sq(0, 0, 0)));
}
