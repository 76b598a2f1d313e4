use hive::board::{Board, BoardPiece, BoardSquare, Color, Piece};
use hive::movers::grasshopper_move;
use hive::moves::{is_game_over, legal_moves};
use hive::square::Square;

fn sq(q: i64, r: i64, s: i64) -> Square {
    Square::new(q, r, s)
}

fn piece(species: BoardPiece, color: Color) -> Piece {
    Piece::new(species, color)
}

fn same_set(v: &Vec<Square>, e: &[Square]) -> bool {
    v.len() == e.len() && e.iter().all(|x| v.contains(x))
}

#[test]
fn empty_board_opens_at_origin() {
    let board = Board::new();
    for p in [
        piece(BoardPiece::Ant, Color::White),
        piece(BoardPiece::Queen, Color::Black),
        piece(BoardPiece::Beetle, Color::White),
    ] {
        let moves = legal_moves(&p, &board, None);
        assert!(same_set(&moves, &[sq(0, 0, 0)]));
    }
}

#[test]
fn second_placement_takes_any_origin_neighbor() {
    let mut board = Board::new();
    board.play(piece(BoardPiece::Spider, Color::White), sq(0, 0, 0), None);
    for p in [
        piece(BoardPiece::Ant, Color::Black),
        piece(BoardPiece::Queen, Color::White),
    ] {
        let moves = legal_moves(&p, &board, None);
        assert!(same_set(&moves, &[
            sq(1, -1, 0),
            sq(-1, 1, 0),
            sq(1, 0, -1),
            sq(-1, 0, 1),
            sq(0, 1, -1),
            sq(0, -1, 1),
        ]));
    }
}

#[test]
fn forced_queen_blocks_every_other_species() {
    let mut board = Board::new();
    board.insert(sq(0, 0, 0), BoardSquare::new(piece(BoardPiece::Ant, Color::White)));
    board.insert(sq(0, 1, -1), BoardSquare::new(piece(BoardPiece::Ant, Color::Black)));
    board.turns = 6;
    for species in [
        BoardPiece::Ant,
        BoardPiece::Spider,
        BoardPiece::Beetle,
        BoardPiece::Grasshopper,
    ] {
        let moves = legal_moves(&piece(species, Color::White), &board, None);
        assert!(moves.is_empty());
    }
}

#[test]
fn forced_queen_keeps_normal_placements_for_the_queen() {
    let mut board = Board::new();
    board.insert(sq(0, 0, 0), BoardSquare::new(piece(BoardPiece::Ant, Color::White)));
    board.insert(sq(0, 1, -1), BoardSquare::new(piece(BoardPiece::Ant, Color::Black)));
    board.turns = 6;
    let moves = legal_moves(&piece(BoardPiece::Queen, Color::White), &board, None);
    // unoccupied squares touching the white top and no black top
    assert!(same_set(&moves, &[sq(1, -1, 0), sq(0, -1, 1), sq(-1, 0, 1)]));
}

#[test]
fn placements_never_touch_the_other_color() {
    let mut board = Board::new();
    board.insert(sq(0, 0, 0), BoardSquare::new(piece(BoardPiece::Ant, Color::White)));
    board.insert(sq(0, 1, -1), BoardSquare::new(piece(BoardPiece::Ant, Color::Black)));
    board.turns = 8;
    let moves = legal_moves(&piece(BoardPiece::Grasshopper, Color::Black), &board, None);
    assert!(same_set(&moves, &[sq(0, 2, -2), sq(1, 1, -2), sq(-1, 2, -1)]));
}

#[test]
fn sole_link_may_only_move_where_the_link_survives() {
    // X at the origin is the only link between the pieces at (-1, 0, 1)
    // and (0, 1, -1); the ant on X may end only on the one square that
    // touches both.
    let mut board = Board::new();
    let ant = piece(BoardPiece::Ant, Color::Black);
    board.insert(sq(0, 0, 0), BoardSquare::new(ant));
    board.insert(sq(-1, 0, 1), BoardSquare::new(ant));
    board.insert(sq(0, 1, -1), BoardSquare::new(ant));
    board.turns = 8;
    let moves = legal_moves(&ant, &board, Some(sq(0, 0, 0)));
    assert!(same_set(&moves, &[sq(-1, 1, 0)]));
    assert!(!moves.contains(&sq(0, -1, 1)));
    assert!(!moves.contains(&sq(1, 0, -1)));
}

#[test]
fn grasshopper_lands_just_past_a_run_of_three() {
    let mut board = Board::new();
    board.insert(sq(0, 0, 0), BoardSquare::new(piece(BoardPiece::Grasshopper, Color::White)));
    board.insert(sq(1, 0, -1), BoardSquare::new(piece(BoardPiece::Ant, Color::Black)));
    board.insert(sq(2, 0, -2), BoardSquare::new(piece(BoardPiece::Ant, Color::White)));
    board.insert(sq(3, 0, -3), BoardSquare::new(piece(BoardPiece::Ant, Color::Black)));
    let jumps = grasshopper_move(&board, sq(0, 0, 0));
    assert!(same_set(&jumps, &[sq(4, 0, -4)]));
    // never inside the run
    assert!(!jumps.contains(&sq(1, 0, -1)));
    assert!(!jumps.contains(&sq(2, 0, -2)));
    assert!(!jumps.contains(&sq(3, 0, -3)));
    // no candidate where the first neighbor is empty
    assert!(!jumps.contains(&sq(0, 2, -2)));
    assert!(!jumps.contains(&sq(-1, 0, 1)));
}

#[test]
fn beetle_climbs_stacks_and_slides_gated() {
    let mut board = Board::new();
    board.insert(sq(0, 0, 0), BoardSquare::new(piece(BoardPiece::Beetle, Color::White)));
    board.insert(sq(1, 0, -1), BoardSquare::new(piece(BoardPiece::Ant, Color::Black)));
    board.turns = 8;
    let moves = legal_moves(&piece(BoardPiece::Beetle, Color::White), &board, Some(sq(0, 0, 0)));
    assert!(same_set(&moves, &[sq(1, 0, -1), sq(0, 1, -1), sq(1, -1, 0)]));
}

#[test]
fn queen_slides_one_gated_step() {
    let mut board = Board::new();
    board.insert(sq(0, 0, 0), BoardSquare::new(piece(BoardPiece::Queen, Color::White)));
    board.insert(sq(1, 0, -1), BoardSquare::new(piece(BoardPiece::Ant, Color::Black)));
    board.turns = 8;
    let moves = legal_moves(&piece(BoardPiece::Queen, Color::White), &board, Some(sq(0, 0, 0)));
    assert!(same_set(&moves, &[sq(0, 1, -1), sq(1, -1, 0)]));
}

#[test]
fn play_pushes_pops_and_counts_plies() {
    let mut board = Board::new();
    assert_eq!(board.turns, 0);
    let queen = piece(BoardPiece::Queen, Color::White);
    let ant = piece(BoardPiece::Ant, Color::Black);
    board.play(queen, sq(0, 0, 0), None);
    assert_eq!(board.turns, 1);
    board.play(ant, sq(0, 1, -1), None);
    assert_eq!(board.turns, 2);
    board.play(ant, sq(1, 0, -1), Some(sq(0, 1, -1)));
    assert_eq!(board.turns, 3);
    assert!(!board.contains_key(&sq(0, 1, -1)));
    assert_eq!(board.top_of(&sq(1, 0, -1)), Some(ant));
    assert_eq!(board.top_of(&sq(0, 0, 0)), Some(queen));
}

#[test]
fn stacks_keep_insertion_order() {
    let mut board = Board::new();
    let ant = piece(BoardPiece::Ant, Color::White);
    let beetle = piece(BoardPiece::Beetle, Color::Black);
    board.place_piece(ant, sq(0, 0, 0));
    board.place_piece(beetle, sq(0, 0, 0));
    assert_eq!(board.height(&sq(0, 0, 0)), 2);
    // only the top piece is visible
    assert_eq!(board.top_of(&sq(0, 0, 0)), Some(beetle));
    let bs = BoardSquare::new(ant);
    assert_eq!(bs.top(), ant);
}

#[test]
fn beetle_atop_a_stack_moves_freely() {
    // the square under the beetle stays occupied, so no destination can
    // split the hive and climbing down is open in every direction
    let mut board = Board::new();
    board.place_piece(piece(BoardPiece::Queen, Color::White), sq(0, 0, 0));
    board.place_piece(piece(BoardPiece::Beetle, Color::Black), sq(0, 0, 0));
    board.insert(sq(1, 0, -1), BoardSquare::new(piece(BoardPiece::Ant, Color::Black)));
    board.turns = 8;
    let moves = legal_moves(&piece(BoardPiece::Beetle, Color::Black), &board, Some(sq(0, 0, 0)));
    assert!(same_set(&moves, &[
        sq(1, 0, -1),
        sq(1, -1, 0),
        sq(0, -1, 1),
        sq(-1, 0, 1),
        sq(-1, 1, 0),
        sq(0, 1, -1),
    ]));
}

#[test]
fn moving_the_tip_of_a_line_keeps_the_hive_whole() {
    let mut board = Board::new();
    let ant = piece(BoardPiece::Ant, Color::Black);
    for c in [sq(0, -1, 1), sq(0, 0, 0), sq(0, 1, -1)] {
        board.insert(c, BoardSquare::new(ant));
    }
    board.turns = 8;
    let moves = legal_moves(&ant, &board, Some(sq(0, 1, -1)));
    assert!(moves.contains(&sq(1, 0, -1)));
    assert!(!moves.contains(&sq(0, 2, -2)));
}

#[test]
fn game_ends_when_a_queen_is_surrounded() {
    let mut board = Board::new();
    board.insert(sq(0, 0, 0), BoardSquare::new(piece(BoardPiece::Queen, Color::White)));
    let ring = [
        sq(1, 0, -1),
        sq(1, -1, 0),
        sq(0, -1, 1),
        sq(-1, 0, 1),
        sq(-1, 1, 0),
        sq(0, 1, -1),
    ];
    for c in ring.iter().take(5) {
        board.insert(*c, BoardSquare::new(piece(BoardPiece::Ant, Color::Black)));
    }
    assert!(!is_game_over(&board));
    board.insert(ring[5], BoardSquare::new(piece(BoardPiece::Ant, Color::Black)));
    assert!(is_game_over(&board));
}

#[test]
fn queen_placement_is_tracked_by_color() {
    let mut board = Board::new();
    board.insert(sq(0, 0, 0), BoardSquare::new(piece(BoardPiece::Queen, Color::White)));
    board.insert(sq(0, 1, -1), BoardSquare::new(piece(BoardPiece::Ant, Color::Black)));
    assert!(board.has_queen(Color::White));
    assert!(!board.has_queen(Color::Black));
    // a queen buried under a beetle still counts as placed
    board.place_piece(piece(BoardPiece::Beetle, Color::Black), sq(0, 0, 0));
    assert!(board.has_queen(Color::White));
}
