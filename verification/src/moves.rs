//! The move generator: turn-phase rules (opening moves, forced Queen
//! placement, placement adjacency) and dispatch to the species movers,
//! with every on-board candidate filtered through the connectivity guard.

use vstd::prelude::*;
use crate::square::{
    Square, adjacent, neighbors, spec_neighbor, contains_square, push_square,
    lemma_adjacent_index,
};
use crate::board::{Board, BoardPiece, Color, Piece};
use crate::connect::{disconnects, would_disconnect};
use crate::movers::{
    ant_dest, ant_move, beetle_dest, beetle_move, gh_dest, grasshopper_move, queen_dest,
    queen_move, spider_dest, spider_move,
};

verus! {

/// The square every game opens on.
pub open spec fn origin() -> Square {
    Square { q: 0i64, r: 0i64, s: 0i64 }
}

/// A placement destination for a new piece of color `c`: an unoccupied
/// square touching at least one square whose visible piece has color `c`
/// and no square whose visible piece has the other color.
pub open spec fn placement_dest(board: Board, c: Color, d: Square) -> bool {
    &&& !board.occ(d)
    &&& exists|w: Square| #[trigger] board.occ(w) && adjacent(d, w) && board.top_at(w).color == c
    &&& forall|w: Square| #[trigger] board.occ(w) && adjacent(d, w) ==> board.top_at(w).color == c
}

/// The raw candidates of the mover for `p.species`.
pub open spec fn species_dest(board: Board, p: Piece, src: Square, d: Square) -> bool {
    match p.species {
        BoardPiece::Queen => queen_dest(board, src, d),
        BoardPiece::Ant => ant_dest(board, src, d),
        BoardPiece::Spider => spider_dest(board, src, d),
        BoardPiece::Beetle => beetle_dest(board, src, d),
        BoardPiece::Grasshopper => gh_dest(board, src, d),
    }
}

/// Color `c` is forced to place its Queen on this ply.
pub open spec fn must_place_queen(board: Board, c: Color) -> bool {
    (board.turns == 6 || board.turns == 7) && !board.color_has_queen(c)
}

/// The full contract of `legal_moves`: which squares are legal for piece
/// `p` on `board`, moving from `board_pos` when it is already placed.
pub open spec fn legal_dest(p: Piece, board: Board, board_pos: Option<Square>, d: Square) -> bool {
    if board.num_squares() == 0 {
        d == origin()
    } else if board.one_piece() {
        adjacent(origin(), d)
    } else if must_place_queen(board, p.color) && p.species != BoardPiece::Queen {
        false
    } else {
        match board_pos {
            Some(src) => species_dest(board, p, src, d) && !disconnects(board, src, d),
            None => placement_dest(board, p.color, d),
        }
    }
}

/// On an empty board the only legal destination is the origin, whatever
/// the piece, its color, or the claimed source.
pub proof fn lemma_empty_board_opening(p: Piece, board: Board, board_pos: Option<Square>)
    requires
        board.num_squares() == 0,
    ensures
        forall|d: Square| legal_dest(p, board, board_pos, d) <==> d == origin(),
{
}

/// With exactly one piece placed, the legal destinations are exactly the
/// six neighbors of the origin, whatever the piece or its color.
pub proof fn lemma_second_placement(p: Piece, board: Board, board_pos: Option<Square>)
    requires
        board.one_piece(),
    ensures
        forall|d: Square| legal_dest(p, board, board_pos, d) <==> adjacent(origin(), d),
{
}

/// On global ply six or seven a color that has not placed its Queen may
/// move nothing but a Queen: every other species has no legal square,
/// while the Queen keeps the normal placement candidates.
pub proof fn lemma_forced_queen(p: Piece, board: Board, board_pos: Option<Square>)
    requires
        board.num_squares() >= 2,
        !board.one_piece(),
        must_place_queen(board, p.color),
    ensures
        p.species != BoardPiece::Queen ==> forall|d: Square| !legal_dest(p, board, board_pos, d),
        p.species == BoardPiece::Queen && board_pos is None ==> forall|d: Square|
            legal_dest(p, board, board_pos, d) <==> placement_dest(board, p.color, d),
{
}

/// Whether `sq` touches an occupied square other than `me`.
pub fn square_has_neighbors(sq: Square, board: &Board, me: Square) -> (r: bool)
    requires
        sq.near(),
    ensures
        r == exists|s: Square| adjacent(sq, s) && s != me && board.occ(s),
{
    let nb = neighbors(&sq);
    let mut k: usize = 0;
    while k < 6
        invariant
            k <= 6,
            forall|j: int| 0 <= j < 6 ==> adjacent(sq, #[trigger] nb@[j]),
            forall|c: Square| adjacent(sq, c) ==> nb@.contains(c),
            forall|j: int| 0 <= j < k ==> !((#[trigger] nb@[j]) != me && board.occ(nb@[j])),
        decreases 6 - k,
    {
        let s = nb[k];
        if s != me && board.contains_key(&s) {
            proof {
                assert(adjacent(sq, nb@[k as int]) && nb@[k as int] != me && board.occ(
                    nb@[k as int],
                ));
            }
            return true;
        }
        k += 1;
    }
    proof {
        if exists|s: Square| adjacent(sq, s) && s != me && board.occ(s) {
            let s = choose|s: Square| adjacent(sq, s) && s != me && board.occ(s);
            assert(nb@.contains(s));
            let j = choose|j: int| 0 <= j < nb@.len() && nb@[j] == s;
            assert(!(nb@[j] != me && board.occ(nb@[j])));
        }
    }
    false
}

/// Decides whether `d` is unoccupied and touches no square whose visible
/// piece has a color other than `c`.
fn placement_check(board: &Board, c: Color, d: Square) -> (r: bool)
    requires
        board.wf(),
        d.near(),
    ensures
        r == (!board.occ(d) && forall|w: Square|
            #[trigger] board.occ(w) && adjacent(d, w) ==> board.top_at(w).color == c),
{
    if board.contains_key(&d) {
        return false;
    }
    let nb = neighbors(&d);
    let mut k: usize = 0;
    while k < 6
        invariant
            board.wf(),
            k <= 6,
            !board.occ(d),
            forall|j: int| 0 <= j < 6 ==> adjacent(d, #[trigger] nb@[j]),
            forall|c2: Square| adjacent(d, c2) ==> nb@.contains(c2),
            forall|j: int|
                0 <= j < k && board.occ(#[trigger] nb@[j]) ==> board.top_at(nb@[j]).color == c,
        decreases 6 - k,
    {
        let w = nb[k];
        match board.top_of(&w) {
            Some(p) => {
                if !(p.color == c) {
                    proof {
                        assert(board.occ(nb@[k as int]) && adjacent(d, nb@[k as int])
                            && board.top_at(nb@[k as int]).color != c);
                    }
                    return false;
                }
            },
            None => {},
        }
        k += 1;
    }
    proof {
        assert forall|w: Square|
            #[trigger] board.occ(w) && adjacent(d, w) implies board.top_at(w).color == c by {
            assert(nb@.contains(w));
            let j = choose|j: int| 0 <= j < nb@.len() && nb@[j] == w;
            assert(board.occ(nb@[j]));
        }
    }
    true
}

/// Placement candidates for a new piece: unoccupied squares adjacent to a
/// same-color square and to no opposite-color square. Placing next to the
/// hive cannot disconnect it, so no connectivity filter is needed.
fn legal_new_piece_moves(piece: &Piece, board: &Board) -> (res: Vec<Square>)
    requires
        board.wf(),
    ensures
        res@.no_duplicates(),
        forall|d: Square| res@.contains(d) == placement_dest(*board, piece.color, d),
{
    let ghost c = piece.color;
    let mut res: Vec<Square> = Vec::new();
    let n = board.len();
    let mut i: usize = 0;
    while i < n
        invariant
            board.wf(),
            c == piece.color,
            n == board.num_squares(),
            i <= n,
            res@.no_duplicates(),
            forall|d: Square| res@.contains(d) ==> placement_dest(*board, c, d),
            forall|a: int, k: int|
                0 <= a < i && 0 <= k < 6 && placement_dest(
                    *board,
                    c,
                    #[trigger] spec_neighbor(board.cells@[a].0, k),
                ) && board.cells@[a].1.pieces@.last().color == c ==> res@.contains(
                    spec_neighbor(board.cells@[a].0, k),
                ),
        decreases n - i,
    {
        let top = board.top_at_index(i);
        if top.color == piece.color {
            let sqi = board.square_at(i);
            proof {
                assert(board.cells@[i as int].0.valid());
                board.lemma_key_at(i as int);
            }
            let nb = neighbors(&sqi);
            let mut k: usize = 0;
            while k < 6
                invariant
                    board.wf(),
                    c == piece.color,
                    n == board.num_squares(),
                    i < n,
                    k <= 6,
                    sqi == board.cells@[i as int].0,
                    sqi.valid(),
                    board.occ(sqi),
                    board.top_at(sqi).color == c,
                    board.cells@[i as int].1.pieces@.last().color == c,
                    forall|j: int| 0 <= j < 6 ==> (#[trigger] nb@[j]) == spec_neighbor(sqi, j),
                    forall|j: int| 0 <= j < 6 ==> adjacent(sqi, #[trigger] nb@[j]),
                    res@.no_duplicates(),
                    forall|d: Square| res@.contains(d) ==> placement_dest(*board, c, d),
                    forall|a: int, k2: int|
                        0 <= a < i && 0 <= k2 < 6 && placement_dest(
                            *board,
                            c,
                            #[trigger] spec_neighbor(board.cells@[a].0, k2),
                        ) && board.cells@[a].1.pieces@.last().color == c ==> res@.contains(
                            spec_neighbor(board.cells@[a].0, k2),
                        ),
                    forall|k2: int|
                        0 <= k2 < k && placement_dest(
                            *board,
                            c,
                            #[trigger] spec_neighbor(sqi, k2),
                        ) ==> res@.contains(spec_neighbor(sqi, k2)),
                decreases 6 - k,
            {
                let d = nb[k];
                if placement_check(board, piece.color, d) {
                    if !contains_square(&res, &d) {
                        proof {
                            assert(board.occ(sqi) && adjacent(d, sqi) && board.top_at(
                                sqi,
                            ).color == c);
                            assert(placement_dest(*board, c, d));
                        }
                        push_square(&mut res, d);
                    }
                }
                k += 1;
            }
        }
        i += 1;
    }
    proof {
        assert forall|d: Square|
            res@.contains(d) == placement_dest(*board, c, d) by {
            if placement_dest(*board, c, d) {
                let w = choose|w: Square|
                    #[trigger] board.occ(w) && adjacent(d, w) && board.top_at(w).color == c;
                let a = choose|a: int|
                    0 <= a < board.cells@.len() && (#[trigger] board.cells@[a]).0 == w;
                board.lemma_key_at(a);
                assert(board.cells@[a].1.pieces@.last().color == c);
                assert(board.cells@[a].0.valid());
                assert(adjacent(w, d));
                lemma_adjacent_index(w, d);
                let k = choose|k: int| 0 <= k < 6 && d == spec_neighbor(w, k);
                assert(placement_dest(*board, c, spec_neighbor(board.cells@[a].0, k)));
            }
        }
    }
    res
}

/// Keep only the candidates whose move does not split the hive.
fn create_island_multiple(board: &Board, from: Square, vec: Vec<Square>) -> (out: Vec<Square>)
    requires
        board.wf(),
        board.occ(from),
        vec@.no_duplicates(),
        forall|i: int| 0 <= i < vec@.len() ==> (#[trigger] vec@[i]).near(),
    ensures
        out@.no_duplicates(),
        forall|d: Square|
            out@.contains(d) == (vec@.contains(d) && !disconnects(*board, from, d)),
{
    let mut out: Vec<Square> = Vec::new();
    let n = vec.len();
    let mut i: usize = 0;
    while i < n
        invariant
            board.wf(),
            board.occ(from),
            n == vec@.len(),
            i <= n,
            vec@.no_duplicates(),
            forall|j: int| 0 <= j < vec@.len() ==> (#[trigger] vec@[j]).near(),
            out@.no_duplicates(),
            forall|d: Square|
                out@.contains(d) ==> vec@.contains(d) && !disconnects(*board, from, d),
            forall|j: int|
                0 <= j < i && !disconnects(*board, from, #[trigger] vec@[j]) ==> out@.contains(
                    vec@[j],
                ),
        decreases n - i,
    {
        let d = vec[i];
        if !would_disconnect(board, from, d) {
            if !contains_square(&out, &d) {
                proof {
                    assert(vec@[i as int] == d);
                    assert(vec@.contains(d));
                }
                push_square(&mut out, d);
            }
        }
        i += 1;
    }
    proof {
        assert forall|d: Square|
            out@.contains(d) == (vec@.contains(d) && !disconnects(*board, from, d)) by {
            if vec@.contains(d) && !disconnects(*board, from, d) {
                let j = choose|j: int| 0 <= j < vec@.len() && vec@[j] == d;
                assert(!disconnects(*board, from, vec@[j]));
            }
        }
    }
    out
}

/// Candidates for a piece already on the board: the species mover's raw
/// candidates, minus every destination that would split the hive.
fn legal_on_board_move(p: &Piece, board: &Board, sq: Square) -> (res: Vec<Square>)
    requires
        board.wf(),
        board.occ(sq),
    ensures
        res@.no_duplicates(),
        forall|d: Square|
            res@.contains(d) == (species_dest(*board, *p, sq, d) && !disconnects(
                *board,
                sq,
                d,
            )),
{
    proof {
        let ci = choose|ci: int|
            0 <= ci < board.cells@.len() && (#[trigger] board.cells@[ci]).0 == sq;
        assert(board.cells@[ci].0.valid());
    }
    let vec = match p.species {
        BoardPiece::Ant => ant_move(board, sq),
        BoardPiece::Beetle => beetle_move(board, sq),
        BoardPiece::Grasshopper => grasshopper_move(board, sq),
        BoardPiece::Queen => queen_move(board, sq),
        BoardPiece::Spider => spider_move(board, sq),
    };
    create_island_multiple(board, sq, vec)
}

/// The set of legal destination squares for `p`: an empty board opens at
/// the origin; the second placement takes any
/// neighbor of the origin; a color that still owes its Queen on ply six
/// or seven may move nothing else; then placements obey the color
/// adjacency rule, and on-board moves are the species candidates that
/// keep the hive in one piece.
pub fn legal_moves(p: &Piece, board: &Board, board_pos: Option<Square>) -> (res: Vec<Square>)
    requires
        board.wf(),
        match board_pos {
            Some(src) => board.occ(src) && board.top_at(src) == *p,
            None => true,
        },
    ensures
        res@.no_duplicates(),
        forall|d: Square| res@.contains(d) == legal_dest(*p, *board, board_pos, d),
{
    let n = board.len();
    if n == 0 {
        let mut res: Vec<Square> = Vec::new();
        push_square(&mut res, Square { q: 0, r: 0, s: 0 });
        proof {
            assert forall|d: Square| res@.contains(d) == legal_dest(*p, *board, board_pos, d) by {
                if res@.contains(d) {
                    let j = choose|j: int| 0 <= j < res@.len() && res@[j] == d;
                    assert(res@[0] == origin());
                }
            }
        }
        return res;
    }
    let first = board.square_at(0);
    if n == 1 && board.height(&first) == 1 {
        proof {
            board.lemma_key_at(0);
            assert(board.one_piece());
        }
        let nb = neighbors(&Square { q: 0, r: 0, s: 0 });
        let mut res: Vec<Square> = Vec::new();
        let mut k: usize = 0;
        while k < 6
            invariant
                k <= 6,
                res@.len() == k,
                forall|j: int| 0 <= j < 6 ==> (#[trigger] nb@[j]) == spec_neighbor(origin(), j),
                forall|j: int| 0 <= j < 6 ==> adjacent(origin(), #[trigger] nb@[j]),
                forall|c: Square| adjacent(origin(), c) ==> nb@.contains(c),
                forall|i2: int, j2: int| 0 <= i2 < j2 < 6 ==> nb@[i2] != nb@[j2],
                forall|j: int| 0 <= j < k ==> res@[j] == nb@[j],
            decreases 6 - k,
        {
            res.push(nb[k]);
            k += 1;
        }
        proof {
            assert forall|i2: int, j2: int|
                0 <= i2 < j2 < res@.len() implies res@[i2] != res@[j2] by {
                assert(res@[i2] == nb@[i2] && res@[j2] == nb@[j2]);
            }
            assert forall|d: Square| res@.contains(d) == legal_dest(*p, *board, board_pos, d) by {
                if res@.contains(d) {
                    let j = choose|j: int| 0 <= j < res@.len() && res@[j] == d;
                    assert(adjacent(origin(), nb@[j]));
                }
                if adjacent(origin(), d) {
                    assert(nb@.contains(d));
                    let j = choose|j: int| 0 <= j < nb@.len() && nb@[j] == d;
                    assert(res@[j] == d);
                }
            }
        }
        return res;
    }
    proof {
        if board.one_piece() {
            board.lemma_key_at(0);
        }
    }
    let queen_turn = board.turns == 6 || board.turns == 7;
    if queen_turn && !board.has_queen(p.color) && !(p.species == BoardPiece::Queen) {
        let res: Vec<Square> = Vec::new();
        return res;
    }
    match board_pos {
        Some(pos) => legal_on_board_move(p, board, pos),
        None => legal_new_piece_moves(p, board),
    }
}

/// Decides whether all six neighbors of `sq` are occupied.
fn fully_surrounded(board: &Board, sq: Square) -> (r: bool)
    requires
        board.wf(),
        sq.near(),
    ensures
        r == forall|k: int| 0 <= k < 6 ==> board.occ(spec_neighbor(sq, k)),
{
    let nb = neighbors(&sq);
    let mut k: usize = 0;
    while k < 6
        invariant
            board.wf(),
            k <= 6,
            forall|j: int| 0 <= j < 6 ==> (#[trigger] nb@[j]) == spec_neighbor(sq, j),
            forall|j: int| 0 <= j < k ==> board.occ(spec_neighbor(sq, j)),
        decreases 6 - k,
    {
        if !board.contains_key(&nb[k]) {
            proof {
                assert(!board.occ(spec_neighbor(sq, k as int)));
            }
            return false;
        }
        k += 1;
    }
    true
}

/// The game is over when a Queen of either color is fully surrounded,
/// its six neighbors all occupied (climbed-on stacks count).
pub fn is_game_over(board: &Board) -> (r: bool)
    requires
        board.wf(),
    ensures
        r == board.queen_surrounded(),
{
    let n = board.len();
    let mut i: usize = 0;
    while i < n
        invariant
            board.wf(),
            n == board.num_squares(),
            i <= n,
            forall|a: int, b: int|
                0 <= a < i && 0 <= b < (#[trigger] board.cells@[a]).1.pieces@.len() ==> !((
                #[trigger] board.cells@[a].1.pieces@[b]).species == BoardPiece::Queen && (
                forall|k: int| 0 <= k < 6 ==> board.occ(spec_neighbor(board.cells@[a].0, k)))),
        decreases n - i,
    {
        let sq = board.square_at(i);
        proof {
            assert(board.cells@[i as int].0.valid());
        }
        let sur = fully_surrounded(board, sq);
        let m = board.cells[i].1.pieces.len();
        let mut j: usize = 0;
        while j < m
            invariant
                board.wf(),
                n == board.num_squares(),
                i < n,
                j <= m,
                m == board.cells@[i as int].1.pieces@.len(),
                sq == board.cells@[i as int].0,
                sur == (forall|k: int| 0 <= k < 6 ==> board.occ(spec_neighbor(sq, k))),
                forall|b: int|
                    0 <= b < j ==> !((#[trigger] board.cells@[i as int].1.pieces@[b]).species
                        == BoardPiece::Queen && (forall|k: int|
                        0 <= k < 6 ==> board.occ(spec_neighbor(sq, k)))),
            decreases m - j,
        {
            let pc = board.cells[i].1.pieces[j];
            if pc.species == BoardPiece::Queen && sur {
                proof {
                    assert(0 <= i < board.cells@.len() && 0 <= j
                        < board.cells@[i as int].1.pieces@.len() && (board.cells@[
                        i as int].1.pieces@[j as int].species == BoardPiece::Queen && forall|
                        k: int,
                    | 0 <= k < 6 ==> board.occ(spec_neighbor(board.cells@[i as int].0, k))));
                }
                return true;
            }
            j += 1;
        }
        i += 1;
    }
    false
}

} // verus!
