//! The five species movers: candidate destination squares for a piece
//! that already stands on the board. All sliding species obey the
//! freedom-to-move rule: a slide between two adjacent squares is blocked
//! when both squares flanking the shared edge are occupied.

use vstd::prelude::*;
use crate::square::{
    Square, adjacent, neighbors, spec_neighbor, spec_dir, dir, contains_square, push_square,
    lemma_adjacent_index, COORD_LIMIT,
};
use crate::board::Board;

verus! {

/// One of the two squares flanking the edge between adjacent `a` and `b`:
/// `a` plus the unit direction one sixty-degree turn to the left of
/// `b - a`.
pub open spec fn flank1(a: Square, b: Square) -> Square {
    Square {
        q: (a.q - (b.r - a.r)) as i64,
        r: (a.r - (b.s - a.s)) as i64,
        s: (a.s - (b.q - a.q)) as i64,
    }
}

/// The other flanking square: one sixty-degree turn to the right.
pub open spec fn flank2(a: Square, b: Square) -> Square {
    Square {
        q: (a.q - (b.s - a.s)) as i64,
        r: (a.r - (b.q - a.q)) as i64,
        s: (a.s - (b.r - a.r)) as i64,
    }
}

/// For adjacent squares the two flanks are exactly the squares adjacent
/// to both: they decide the freedom to move through the shared edge.
pub proof fn lemma_flanks_are_common_neighbors(a: Square, b: Square)
    requires
        adjacent(a, b),
        a.near(),
    ensures
        adjacent(a, flank1(a, b)) && adjacent(b, flank1(a, b)),
        adjacent(a, flank2(a, b)) && adjacent(b, flank2(a, b)),
        flank1(a, b) != flank2(a, b),
        forall|c: Square|
            adjacent(a, c) && adjacent(b, c) ==> c == flank1(a, b) || c == flank2(a, b),
{
}

/// A slide through the edge between `a` and `b` is open when at least one
/// of the two flanking squares is unoccupied.
pub open spec fn gate_open(occ: Set<Square>, a: Square, b: Square) -> bool {
    !occ.contains(flank1(a, b)) || !occ.contains(flank2(a, b))
}

/// `b` touches at least one square of `occ`.
pub open spec fn hive_adj(occ: Set<Square>, b: Square) -> bool {
    exists|w: Square| occ.contains(w) && adjacent(b, w)
}

/// One legal sliding step from `a` to `b` for a piece lifted off `src`:
/// `b` is adjacent, unoccupied, free to move into, and still touches the
/// hive.
pub open spec fn slide_step(occ: Set<Square>, a: Square, b: Square) -> bool {
    adjacent(a, b) && !occ.contains(b) && gate_open(occ, a, b) && hive_adj(occ, b)
}

/// Decides the freedom-to-move rule for a step from `x` to `y`, with the
/// moving piece lifted off `src`.
fn gate_open_check(board: &Board, src: Square, x: Square, y: Square) -> (r: bool)
    requires
        board.wf(),
        adjacent(x, y),
        x.near(),
        -(COORD_LIMIT + 8) <= x.q <= COORD_LIMIT + 8,
        -(COORD_LIMIT + 8) <= x.r <= COORD_LIMIT + 8,
        -(COORD_LIMIT + 8) <= x.s <= COORD_LIMIT + 8,
    ensures
        r == gate_open(board.occ_wo(src), x, y),
{
    let f1 = Square { q: x.q - (y.r - x.r), r: x.r - (y.s - x.s), s: x.s - (y.q - x.q) };
    let f2 = Square { q: x.q - (y.s - x.s), r: x.r - (y.q - x.q), s: x.s - (y.r - x.r) };
    proof {
        assert(f1 == flank1(x, y));
        assert(f2 == flank2(x, y));
    }
    !board.occ_wo_contains(src, f1) || !board.occ_wo_contains(src, f2)
}

/// Decides whether `b` touches the hive once the moving piece is lifted
/// off `src`.
fn hive_adj_check(board: &Board, src: Square, b: Square) -> (r: bool)
    requires
        board.wf(),
        b.near(),
    ensures
        r == hive_adj(board.occ_wo(src), b),
{
    let nb = neighbors(&b);
    let mut k: usize = 0;
    while k < 6
        invariant
            board.wf(),
            k <= 6,
            forall|j: int| 0 <= j < 6 ==> adjacent(b, #[trigger] nb@[j]),
            forall|c: Square| adjacent(b, c) ==> nb@.contains(c),
            forall|j: int| 0 <= j < k ==> !board.occ_wo(src).contains(#[trigger] nb@[j]),
        decreases 6 - k,
    {
        if board.occ_wo_contains(src, nb[k]) {
            proof {
                assert(board.occ_wo(src).contains(nb@[k as int]) && adjacent(b, nb@[k as int]));
            }
            return true;
        }
        k += 1;
    }
    proof {
        if hive_adj(board.occ_wo(src), b) {
            let w = choose|w: Square| board.occ_wo(src).contains(w) && adjacent(b, w);
            assert(nb@.contains(w));
            let j = choose|j: int| 0 <= j < nb@.len() && nb@[j] == w;
            assert(!board.occ_wo(src).contains(nb@[j]));
        }
    }
    false
}

/// Decides one sliding step from `x` to adjacent `y` for the piece lifted
/// off `src`.
fn slide_step_check(board: &Board, src: Square, x: Square, y: Square) -> (r: bool)
    requires
        board.wf(),
        adjacent(x, y),
        x.near(),
        y.near(),
        -(COORD_LIMIT + 8) <= x.q <= COORD_LIMIT + 8,
        -(COORD_LIMIT + 8) <= x.r <= COORD_LIMIT + 8,
        -(COORD_LIMIT + 8) <= x.s <= COORD_LIMIT + 8,
    ensures
        r == slide_step(board.occ_wo(src), x, y),
{
    !board.occ_wo_contains(src, y) && gate_open_check(board, src, x, y) && hive_adj_check(
        board,
        src,
        y,
    )
}

/// A Queen destination: one gated slide out of `src` onto an unoccupied
/// square that still touches the hive.
pub open spec fn queen_dest(board: Board, src: Square, d: Square) -> bool {
    slide_step(board.occ_wo(src), src, d)
}

/// Queen candidates: the neighbors of `sq` reachable by one gated slide.
pub fn queen_move(board: &Board, sq: Square) -> (r: Vec<Square>)
    requires
        board.wf(),
        sq.valid(),
    ensures
        r@.no_duplicates(),
        forall|ii: int| 0 <= ii < r@.len() ==> (#[trigger] r@[ii]).near(),
        forall|d: Square| r@.contains(d) == queen_dest(*board, sq, d),
{
    let mut r: Vec<Square> = Vec::new();
    let nb = neighbors(&sq);
    let mut k: usize = 0;
    while k < 6
        invariant
            board.wf(),
            sq.valid(),
            k <= 6,
            forall|j: int| 0 <= j < 6 ==> adjacent(sq, #[trigger] nb@[j]),
            forall|c: Square| adjacent(sq, c) ==> nb@.contains(c),
            r@.no_duplicates(),
            forall|ii: int| 0 <= ii < r@.len() ==> (#[trigger] r@[ii]).near(),
            forall|d: Square| r@.contains(d) ==> queen_dest(*board, sq, d),
            forall|j: int|
                0 <= j < k && queen_dest(*board, sq, #[trigger] nb@[j]) ==> r@.contains(nb@[j]),
        decreases 6 - k,
    {
        let d = nb[k];
        if slide_step_check(board, sq, sq, d) {
            if !contains_square(&r, &d) {
                push_square(&mut r, d);
            }
        }
        k += 1;
    }
    proof {
        assert forall|d: Square| r@.contains(d) == queen_dest(*board, sq, d) by {
            if queen_dest(*board, sq, d) {
                assert(adjacent(sq, d));
                assert(nb@.contains(d));
                let j = choose|j: int| 0 <= j < nb@.len() && nb@[j] == d;
                assert(queen_dest(*board, sq, nb@[j]));
            }
        }
    }
    r
}

/// A Beetle destination: any adjacent square; climbing onto an occupied
/// stack is always allowed, stepping onto an empty square obeys the
/// freedom-to-move rule.
pub open spec fn beetle_dest(board: Board, src: Square, d: Square) -> bool {
    adjacent(src, d) && (board.occ_wo(src).contains(d) || gate_open(board.occ_wo(src), src, d))
}

/// Beetle candidates.
pub fn beetle_move(board: &Board, sq: Square) -> (r: Vec<Square>)
    requires
        board.wf(),
        sq.valid(),
    ensures
        r@.no_duplicates(),
        forall|ii: int| 0 <= ii < r@.len() ==> (#[trigger] r@[ii]).near(),
        forall|d: Square| r@.contains(d) == beetle_dest(*board, sq, d),
{
    let mut r: Vec<Square> = Vec::new();
    let nb = neighbors(&sq);
    let mut k: usize = 0;
    while k < 6
        invariant
            board.wf(),
            sq.valid(),
            k <= 6,
            forall|j: int| 0 <= j < 6 ==> adjacent(sq, #[trigger] nb@[j]),
            forall|c: Square| adjacent(sq, c) ==> nb@.contains(c),
            r@.no_duplicates(),
            forall|ii: int| 0 <= ii < r@.len() ==> (#[trigger] r@[ii]).near(),
            forall|d: Square| r@.contains(d) ==> beetle_dest(*board, sq, d),
            forall|j: int|
                0 <= j < k && beetle_dest(*board, sq, #[trigger] nb@[j]) ==> r@.contains(nb@[j]),
        decreases 6 - k,
    {
        let d = nb[k];
        if board.occ_wo_contains(sq, d) || gate_open_check(board, sq, sq, d) {
            if !contains_square(&r, &d) {
                push_square(&mut r, d);
            }
        }
        k += 1;
    }
    proof {
        assert forall|d: Square| r@.contains(d) == beetle_dest(*board, sq, d) by {
            if beetle_dest(*board, sq, d) {
                assert(adjacent(sq, d));
                assert(nb@.contains(d));
                let j = choose|j: int| 0 <= j < nb@.len() && nb@[j] == d;
                assert(beetle_dest(*board, sq, nb@[j]));
            }
        }
    }
    r
}

/// The square `k` unit steps from `src` in direction `i`.
pub open spec fn ray(src: Square, i: int, k: int) -> Square {
    Square {
        q: (src.q + k * spec_dir(i).q) as i64,
        r: (src.r + k * spec_dir(i).r) as i64,
        s: (src.s + k * spec_dir(i).s) as i64,
    }
}

/// A Grasshopper landing in direction `i`: the first unoccupied square
/// along the ray, after jumping at least one occupied square.
pub open spec fn gh_dest_dir(board: Board, src: Square, i: int, d: Square) -> bool {
    exists|k: int|
        2 <= k && d == ray(src, i, k) && !board.occ(d) && (forall|j: int|
            1 <= j < k ==> board.occ(ray(src, i, j)))
}

/// A Grasshopper destination: a landing in one of the six directions.
pub open spec fn gh_dest(board: Board, src: Square, d: Square) -> bool {
    exists|i: int| 0 <= i < 6 && gh_dest_dir(board, src, i, d)
}

/// Along each direction some coordinate moves strictly toward this bound.
pub open spec fn ray_measure(i: int, c: Square) -> int {
    if i == 0 || i == 1 {
        COORD_LIMIT + 2 - c.q
    } else if i == 3 || i == 4 {
        COORD_LIMIT + 2 + c.q
    } else if i == 2 {
        COORD_LIMIT + 2 + c.r
    } else {
        COORD_LIMIT + 2 - c.r
    }
}

/// Grasshopper candidates: for each direction whose immediate neighbor is
/// occupied, jump the run of occupied squares and land on the first
/// unoccupied one.
pub fn grasshopper_move(board: &Board, sq: Square) -> (res: Vec<Square>)
    requires
        board.wf(),
        sq.valid(),
    ensures
        res@.no_duplicates(),
        forall|ii: int| 0 <= ii < res@.len() ==> (#[trigger] res@[ii]).near(),
        forall|d: Square| res@.contains(d) == gh_dest(*board, sq, d),
{
    let mut res: Vec<Square> = Vec::new();
    let mut i: usize = 0;
    while i < 6
        invariant
            board.wf(),
            sq.valid(),
            i <= 6,
            res@.no_duplicates(),
            forall|ii: int| 0 <= ii < res@.len() ==> (#[trigger] res@[ii]).near(),
            forall|d: Square| res@.contains(d) ==> gh_dest(*board, sq, d),
            forall|i2: int, d: Square|
                0 <= i2 < i && gh_dest_dir(*board, sq, i2, d) ==> res@.contains(d),
        decreases 6 - i,
    {
        let d = dir(i);
        let first = Square { q: sq.q + d.q, r: sq.r + d.r, s: sq.s + d.s };
        proof {
            assert(first == ray(sq, i as int, 1));
        }
        if board.contains_key(&first) {
            let mut cur = first;
            let ghost mut k: int = 1;
            let mut occupied = board.contains_key(&cur);
            while occupied
                invariant
                    board.wf(),
                    sq.valid(),
                    i < 6,
                    d == spec_dir(i as int),
                    k >= 1,
                    sq.q + k * spec_dir(i as int).q == cur.q as int,
                    sq.r + k * spec_dir(i as int).r == cur.r as int,
                    sq.s + k * spec_dir(i as int).s == cur.s as int,
                    cur == ray(sq, i as int, k),
                    occupied == board.occ(cur),
                    board.occ(ray(sq, i as int, 1)),
                    forall|j: int| 1 <= j < k ==> board.occ(ray(sq, i as int, j)),
                    -(COORD_LIMIT + 1) <= cur.q <= COORD_LIMIT + 1,
                    -(COORD_LIMIT + 1) <= cur.r <= COORD_LIMIT + 1,
                    -(COORD_LIMIT + 1) <= cur.s <= COORD_LIMIT + 1,
                decreases ray_measure(i as int, cur),
            {
                proof {
                    let ci = choose|ci: int|
                        0 <= ci < board.cells@.len() && (#[trigger] board.cells@[ci]).0 == cur;
                    assert(board.cells@[ci].0.valid());
                }
                let next = Square { q: cur.q + d.q, r: cur.r + d.r, s: cur.s + d.s };
                proof {
                    assert(k * spec_dir(i as int).q + spec_dir(i as int).q == (k + 1) * spec_dir(
                        i as int,
                    ).q) by (nonlinear_arith);
                    assert(k * spec_dir(i as int).r + spec_dir(i as int).r == (k + 1) * spec_dir(
                        i as int,
                    ).r) by (nonlinear_arith);
                    assert(k * spec_dir(i as int).s + spec_dir(i as int).s == (k + 1) * spec_dir(
                        i as int,
                    ).s) by (nonlinear_arith);
                    assert(next == ray(sq, i as int, k + 1));
                }
                cur = next;
                proof {
                    k = k + 1;
                }
                occupied = board.contains_key(&cur);
            }
            proof {
                assert(k >= 2) by {
                    if k == 1 {
                        assert(board.occ(ray(sq, i as int, 1)));
                    }
                }
            }
            if !contains_square(&res, &cur) {
                push_square(&mut res, cur);
            }
            proof {
                assert(gh_dest_dir(*board, sq, i as int, cur)) by {
                    assert(2 <= k && cur == ray(sq, i as int, k) && !board.occ(cur) && (
                    forall|j: int| 1 <= j < k ==> board.occ(ray(sq, i as int, j))));
                }
                assert(gh_dest(*board, sq, cur));
                assert forall|d2: Square|
                    gh_dest_dir(*board, sq, i as int, d2) implies res@.contains(d2) by {
                    let k2 = choose|k2: int|
                        2 <= k2 && d2 == ray(sq, i as int, k2) && !board.occ(d2) && (forall|
                            j: int,
                        | 1 <= j < k2 ==> board.occ(ray(sq, i as int, j)));
                    if k2 < k {
                        assert(board.occ(ray(sq, i as int, k2)));
                        assert(false);
                    } else if k2 > k {
                        assert(board.occ(ray(sq, i as int, k)));
                        assert(false);
                    } else {
                        assert(d2 == cur);
                    }
                }
            }
        } else {
            proof {
                assert forall|d2: Square|
                    gh_dest_dir(*board, sq, i as int, d2) implies res@.contains(d2) by {
                    let k2 = choose|k2: int|
                        2 <= k2 && d2 == ray(sq, i as int, k2) && !board.occ(d2) && (forall|
                            j: int,
                        | 1 <= j < k2 ==> board.occ(ray(sq, i as int, j)));
                    assert(board.occ(ray(sq, i as int, 1)));
                    assert(false);
                }
            }
        }
        i += 1;
    }
    proof {
        assert forall|d2: Square| res@.contains(d2) == gh_dest(*board, sq, d2) by {
            if gh_dest(*board, sq, d2) {
                let i2 = choose|i2: int| 0 <= i2 < 6 && gh_dest_dir(*board, sq, i2, d2);
            }
        }
    }
    res
}

/// A square that touches the hive lies within one step of a stored
/// square.
proof fn lemma_hive_adj_near(board: Board, src: Square, b: Square)
    requires
        board.wf(),
        hive_adj(board.occ_wo(src), b),
    ensures
        -(COORD_LIMIT + 1) <= b.q <= COORD_LIMIT + 1,
        -(COORD_LIMIT + 1) <= b.r <= COORD_LIMIT + 1,
        -(COORD_LIMIT + 1) <= b.s <= COORD_LIMIT + 1,
        b.near(),
{
    let w = choose|w: Square| board.occ_wo(src).contains(w) && adjacent(b, w);
    assert(board.occ(w));
    let ci = choose|ci: int| 0 <= ci < board.cells@.len() && (#[trigger] board.cells@[ci]).0 == w;
    assert(board.cells@[ci].0.valid());
}

/// Three consecutive gated slides out of `src` that never revisit a
/// square of the walk.
pub open spec fn spider_chain(
    occ: Set<Square>,
    src: Square,
    p1: Square,
    p2: Square,
    p3: Square,
) -> bool {
    slide_step(occ, src, p1) && slide_step(occ, p1, p2) && slide_step(occ, p2, p3) && p2 != src
        && p3 != src && p3 != p1
}

/// A Spider destination: the end of some three-slide chain.
pub open spec fn spider_dest(board: Board, src: Square, d: Square) -> bool {
    exists|p1: Square, p2: Square| spider_chain(board.occ_wo(src), src, p1, p2, d)
}

/// Spider candidates: all length-three gated walks around the hive,
/// duplicate endpoints collapsed.
#[verifier::rlimit(60)]
pub fn spider_move(board: &Board, sq: Square) -> (res: Vec<Square>)
    requires
        board.wf(),
        sq.valid(),
    ensures
        res@.no_duplicates(),
        forall|ii: int| 0 <= ii < res@.len() ==> (#[trigger] res@[ii]).near(),
        forall|d: Square| res@.contains(d) == spider_dest(*board, sq, d),
{
    let ghost occw = board.occ_wo(sq);
    let mut res: Vec<Square> = Vec::new();
    let na = neighbors(&sq);
    let mut i1: usize = 0;
    while i1 < 6
        invariant
            board.wf(),
            sq.valid(),
            occw == board.occ_wo(sq),
            i1 <= 6,
            forall|j: int| 0 <= j < 6 ==> adjacent(sq, #[trigger] na@[j]),
            forall|c: Square| adjacent(sq, c) ==> na@.contains(c),
            res@.no_duplicates(),
            forall|ii: int| 0 <= ii < res@.len() ==> (#[trigger] res@[ii]).near(),
            forall|d: Square| res@.contains(d) ==> spider_dest(*board, sq, d),
            forall|j1: int, p2: Square, d: Square|
                0 <= j1 < i1 && spider_chain(occw, sq, na@[j1], p2, d) ==> res@.contains(d),
        decreases 6 - i1,
    {
        let a = na[i1];
        if slide_step_check(board, sq, sq, a) {
            proof {
                lemma_hive_adj_near(*board, sq, a);
            }
            let nb = neighbors(&a);
            let mut i2: usize = 0;
            while i2 < 6
                invariant
                    board.wf(),
                    sq.valid(),
                    occw == board.occ_wo(sq),
                    i1 < 6,
                    i2 <= 6,
                    a == na@[i1 as int],
                    slide_step(occw, sq, a),
                    -(COORD_LIMIT + 1) <= a.q <= COORD_LIMIT + 1,
                    -(COORD_LIMIT + 1) <= a.r <= COORD_LIMIT + 1,
                    -(COORD_LIMIT + 1) <= a.s <= COORD_LIMIT + 1,
                    forall|j: int| 0 <= j < 6 ==> adjacent(sq, #[trigger] na@[j]),
                    forall|c: Square| adjacent(sq, c) ==> na@.contains(c),
                    forall|j: int| 0 <= j < 6 ==> adjacent(a, #[trigger] nb@[j]),
                    forall|c: Square| adjacent(a, c) ==> nb@.contains(c),
                    res@.no_duplicates(),
                    forall|ii: int| 0 <= ii < res@.len() ==> (#[trigger] res@[ii]).near(),
                    forall|d: Square| res@.contains(d) ==> spider_dest(*board, sq, d),
                    forall|j1: int, p2: Square, d: Square|
                        0 <= j1 < i1 && spider_chain(occw, sq, na@[j1], p2, d) ==> res@.contains(
                            d,
                        ),
                    forall|j2: int, d: Square|
                        0 <= j2 < i2 && spider_chain(occw, sq, a, nb@[j2], d) ==> res@.contains(
                            d,
                        ),
                decreases 6 - i2,
            {
                let b = nb[i2];
                if b != sq && slide_step_check(board, sq, a, b) {
                    proof {
                        lemma_hive_adj_near(*board, sq, b);
                    }
                    let nc = neighbors(&b);
                    let mut i3: usize = 0;
                    while i3 < 6
                        invariant
                            board.wf(),
                            sq.valid(),
                            occw == board.occ_wo(sq),
                            i1 < 6,
                            i2 < 6,
                            i3 <= 6,
                            a == na@[i1 as int],
                            b == nb@[i2 as int],
                            b != sq,
                            slide_step(occw, sq, a),
                            slide_step(occw, a, b),
                            -(COORD_LIMIT + 1) <= b.q <= COORD_LIMIT + 1,
                            -(COORD_LIMIT + 1) <= b.r <= COORD_LIMIT + 1,
                            -(COORD_LIMIT + 1) <= b.s <= COORD_LIMIT + 1,
                            forall|j: int| 0 <= j < 6 ==> adjacent(b, #[trigger] nc@[j]),
                            forall|c: Square| adjacent(b, c) ==> nc@.contains(c),
                            res@.no_duplicates(),
                            forall|ii: int| 0 <= ii < res@.len() ==> (#[trigger] res@[ii]).near(),
                            forall|d: Square| res@.contains(d) ==> spider_dest(*board, sq, d),
                            forall|j1: int, p2: Square, d: Square|
                                0 <= j1 < i1 && spider_chain(occw, sq, na@[j1], p2, d)
                                    ==> res@.contains(d),
                            forall|j2: int, d: Square|
                                0 <= j2 < i2 && spider_chain(occw, sq, a, nb@[j2], d)
                                    ==> res@.contains(d),
                            forall|j: int| 0 <= j < 6 ==> adjacent(sq, #[trigger] na@[j]),
                            forall|j3: int|
                                0 <= j3 < i3 && spider_chain(occw, sq, a, b, #[trigger] nc@[j3])
                                    ==> res@.contains(nc@[j3]),
                        decreases 6 - i3,
                    {
                        let c = nc[i3];
                        if c != sq && c != a && slide_step_check(board, sq, b, c) {
                            if !contains_square(&res, &c) {
                                push_square(&mut res, c);
                            }
                            proof {
                                assert(spider_chain(occw, sq, a, b, c));
                                assert(spider_dest(*board, sq, c));
                            }
                        }
                        i3 += 1;
                    }
                    proof {
                        assert forall|d: Square|
                            spider_chain(occw, sq, a, b, d) implies res@.contains(d) by {
                            assert(adjacent(b, d));
                            assert(nc@.contains(d));
                            let j3 = choose|j3: int| 0 <= j3 < nc@.len() && nc@[j3] == d;
                            assert(spider_chain(occw, sq, a, b, nc@[j3]));
                        }
                    }
                }
                i2 += 1;
            }
            proof {
                assert forall|p2: Square, d: Square|
                    spider_chain(occw, sq, a, p2, d) implies res@.contains(d) by {
                    assert(adjacent(a, p2));
                    assert(nb@.contains(p2));
                    let j2 = choose|j2: int| 0 <= j2 < nb@.len() && nb@[j2] == p2;
                    assert(spider_chain(occw, sq, a, nb@[j2], d));
                }
            }
        }
        i1 += 1;
    }
    proof {
        assert forall|d: Square| res@.contains(d) == spider_dest(*board, sq, d) by {
            if spider_dest(*board, sq, d) {
                let (p1, p2) = choose|p1: Square, p2: Square|
                    spider_chain(occw, sq, p1, p2, d);
                assert(adjacent(sq, p1));
                assert(na@.contains(p1));
                let j1 = choose|j1: int| 0 <= j1 < na@.len() && na@[j1] == p1;
                assert(spider_chain(occw, sq, na@[j1], p2, d));
            }
        }
    }
    res
}

/// Over a straight run of exactly three occupied squares the Grasshopper
/// lands exactly one square past the run, never inside it: in that
/// direction the landing square is the unique candidate.
pub proof fn lemma_grasshopper_run_of_three(board: Board, sq: Square, i: int)
    requires
        0 <= i < 6,
        board.occ(ray(sq, i, 1)),
        board.occ(ray(sq, i, 2)),
        board.occ(ray(sq, i, 3)),
        !board.occ(ray(sq, i, 4)),
    ensures
        forall|d: Square| gh_dest_dir(board, sq, i, d) <==> d == ray(sq, i, 4),
{
    assert forall|d: Square| gh_dest_dir(board, sq, i, d) <==> d == ray(sq, i, 4) by {
        if gh_dest_dir(board, sq, i, d) {
            let k = choose|k: int|
                2 <= k && d == ray(sq, i, k) && !board.occ(d) && (forall|j: int|
                    1 <= j < k ==> board.occ(ray(sq, i, j)));
            if k < 4 {
                assert(board.occ(ray(sq, i, k)));
                assert(false);
            } else if k > 4 {
                assert(board.occ(ray(sq, i, 4)));
                assert(false);
            }
        }
        if d == ray(sq, i, 4) {
            assert(2 <= 4 && d == ray(sq, i, 4) && !board.occ(d) && (forall|j: int|
                1 <= j < 4 ==> board.occ(ray(sq, i, j))));
        }
    }
}

/// A direction whose immediate neighbor is empty yields no Grasshopper
/// candidate.
pub proof fn lemma_grasshopper_needs_occupied_neighbor(board: Board, sq: Square, i: int)
    requires
        0 <= i < 6,
        !board.occ(ray(sq, i, 1)),
    ensures
        forall|d: Square| !gh_dest_dir(board, sq, i, d),
{
    assert forall|d: Square| !gh_dest_dir(board, sq, i, d) by {
        if gh_dest_dir(board, sq, i, d) {
            let k = choose|k: int|
                2 <= k && d == ray(sq, i, k) && !board.occ(d) && (forall|j: int|
                    1 <= j < k ==> board.occ(ray(sq, i, j)));
            assert(board.occ(ray(sq, i, 1)));
        }
    }
}

/// `b` can be reached from `a` by at most `n` consecutive gated slides.
pub open spec fn slide_reach(occ: Set<Square>, a: Square, b: Square, n: nat) -> bool
    decreases n,
{
    a == b || (n > 0 && exists|m: Square|
        slide_step(occ, a, m) && slide_reach(occ, m, b, (n - 1) as nat))
}

/// `b` can be reached from `a` by some number of gated slides.
pub open spec fn slide_reachable(occ: Set<Square>, a: Square, b: Square) -> bool {
    exists|n: nat| slide_reach(occ, a, b, n)
}

/// An Ant destination: any square other than `src` that gated slides can
/// reach from `src`.
pub open spec fn ant_dest(board: Board, src: Square, d: Square) -> bool {
    d != src && slide_reachable(board.occ_wo(src), src, d)
}

/// A slide walk can be extended by one more slide.
proof fn lemma_slide_extend(occ: Set<Square>, a: Square, b: Square, c: Square, n: nat)
    requires
        slide_reach(occ, a, b, n),
        slide_step(occ, b, c),
    ensures
        slide_reach(occ, a, c, (n + 1) as nat),
    decreases n,
{
    if a == b {
        assert(slide_step(occ, a, c) && slide_reach(occ, c, c, n));
    } else {
        let mid = choose|mid: Square|
            slide_step(occ, a, mid) && slide_reach(occ, mid, b, (n - 1) as nat);
        lemma_slide_extend(occ, mid, b, c, (n - 1) as nat);
        assert(slide_step(occ, a, mid) && slide_reach(occ, mid, c, n));
    }
}

/// Whatever gated slides can reach from a member of a set closed under
/// single slides lies in that set.
proof fn lemma_slide_closed(occ: Set<Square>, vs: Seq<Square>, a: Square, b: Square, n: nat)
    requires
        vs.contains(a),
        slide_reach(occ, a, b, n),
        forall|v: Square, w: Square|
            #![trigger vs.contains(v), slide_step(occ, v, w)]
            vs.contains(v) && slide_step(occ, v, w) ==> vs.contains(w),
    ensures
        vs.contains(b),
    decreases n,
{
    if a != b {
        let mid = choose|mid: Square|
            slide_step(occ, a, mid) && slide_reach(occ, mid, b, (n - 1) as nat);
        assert(vs.contains(mid));
        lemma_slide_closed(occ, vs, mid, b, (n - 1) as nat);
    }
}

/// Ant candidates: the whole perimeter walk, collected by an iterative
/// traversal with an explicit visited set.
#[verifier::rlimit(60)]
pub fn ant_move(board: &Board, sq: Square) -> (res: Vec<Square>)
    requires
        board.wf(),
        sq.valid(),
    ensures
        res@.no_duplicates(),
        forall|ii: int| 0 <= ii < res@.len() ==> (#[trigger] res@[ii]).near(),
        forall|d: Square| res@.contains(d) == ant_dest(*board, sq, d),
{
    let ghost occw = board.occ_wo(sq);
    // a finite cover of every square the walk can visit: the start plus
    // every neighbor of every stored square
    let mut halo: Vec<Square> = Vec::new();
    push_square(&mut halo, sq);
    let nboard = board.len();
    let mut ci: usize = 0;
    while ci < nboard
        invariant
            board.wf(),
            sq.valid(),
            ci <= nboard,
            nboard == board.num_squares(),
            halo@.contains(sq),
            forall|j: int, k: int|
                0 <= j < ci && 0 <= k < 6 ==> halo@.contains(
                    #[trigger] spec_neighbor(board.cells@[j].0, k),
                ),
        decreases nboard - ci,
    {
        let c = board.square_at(ci);
        proof {
            assert(board.cells@[ci as int].0.valid());
        }
        let nbc = neighbors(&c);
        let mut k: usize = 0;
        while k < 6
            invariant
                board.wf(),
                sq.valid(),
                ci < nboard,
                nboard == board.num_squares(),
                k <= 6,
                c == board.cells@[ci as int].0,
                forall|j: int| 0 <= j < 6 ==> (#[trigger] nbc@[j]) == spec_neighbor(c, j),
                halo@.contains(sq),
                forall|j: int, k2: int|
                    0 <= j < ci && 0 <= k2 < 6 ==> halo@.contains(
                        #[trigger] spec_neighbor(board.cells@[j].0, k2),
                    ),
                forall|k2: int| 0 <= k2 < k ==> halo@.contains(#[trigger] spec_neighbor(c, k2)),
            decreases 6 - k,
        {
            push_square(&mut halo, nbc[k]);
            k += 1;
        }
        ci += 1;
    }
    proof {
        assert forall|u: Square, w: Square|
            #![trigger board.occ(u), adjacent(u, w)]
            board.occ(u) && adjacent(u, w) implies halo@.contains(w) by {
            let j = choose|j: int|
                0 <= j < board.cells@.len() && (#[trigger] board.cells@[j]).0 == u;
            assert(board.cells@[j].0.valid());
            lemma_adjacent_index(u, w);
            let k = choose|k: int| 0 <= k < 6 && w == spec_neighbor(u, k);
            assert(halo@.contains(spec_neighbor(board.cells@[j].0, k)));
        }
    }
    let mut visited: Vec<Square> = Vec::new();
    let mut todo: Vec<Square> = Vec::new();
    let mut res: Vec<Square> = Vec::new();
    push_square(&mut visited, sq);
    push_square(&mut todo, sq);
    proof {
        assert(slide_reach(occw, sq, sq, 0));
        assert(slide_reachable(occw, sq, sq));
        visited@.unique_seq_to_set();
        vstd::seq_lib::seq_to_set_is_finite::<Square>(halo@);
        assert(visited@.to_set().subset_of(halo@.to_set()));
        vstd::set_lib::lemma_len_subset(visited@.to_set(), halo@.to_set());
        halo@.lemma_cardinality_of_set();
    }
    while todo.len() > 0
        invariant
            board.wf(),
            sq.valid(),
            occw == board.occ_wo(sq),
            halo@.contains(sq),
            forall|u: Square, w: Square|
                #![trigger board.occ(u), adjacent(u, w)]
                board.occ(u) && adjacent(u, w) ==> halo@.contains(w),
            visited@.no_duplicates(),
            todo@.no_duplicates(),
            res@.no_duplicates(),
            visited@.contains(sq),
            forall|x: Square| todo@.contains(x) ==> visited@.contains(x),
            forall|x: Square| visited@.contains(x) ==> halo@.contains(x),
            forall|x: Square| visited@.contains(x) ==> slide_reachable(occw, sq, x),
            forall|x: Square|
                visited@.contains(x) ==> -(COORD_LIMIT + 1) <= x.q <= COORD_LIMIT + 1 && -(
                COORD_LIMIT + 1) <= x.r <= COORD_LIMIT + 1 && -(COORD_LIMIT + 1) <= x.s
                    <= COORD_LIMIT + 1,
            forall|v: Square, w: Square|
                #![trigger visited@.contains(v), slide_step(occw, v, w)]
                visited@.contains(v) && !todo@.contains(v) && slide_step(occw, v, w)
                    ==> visited@.contains(w),
            forall|ii: int| 0 <= ii < res@.len() ==> (#[trigger] res@[ii]).near(),
            forall|d: Square| res@.contains(d) == (visited@.contains(d) && d != sq),
            visited@.len() <= halo@.len(),
        decreases halo@.len() + 1 - visited@.len(), todo@.len(),
    {
        let ghost pre_visited = visited@;
        let ghost pre_todo = todo@;
        let topt = todo.pop();
        let t = match topt {
            Some(x) => x,
            None => sq,
        };
        proof {
            assert(pre_todo.contains(t)) by {
                assert(pre_todo[pre_todo.len() - 1] == t);
            }
            assert(visited@.contains(t));
            assert(!todo@.contains(t)) by {
                if todo@.contains(t) {
                    let j = choose|j: int| 0 <= j < todo@.len() && todo@[j] == t;
                    assert(pre_todo[j] == t);
                    assert(pre_todo[pre_todo.len() - 1] == t);
                    assert(false);
                }
            }
            assert forall|x: Square| pre_todo.contains(x) implies todo@.contains(x) || x == t by {
                let j = choose|j: int| 0 <= j < pre_todo.len() && pre_todo[j] == x;
                if j < pre_todo.len() - 1 {
                    assert(todo@[j] == x);
                }
            }
            assert forall|x: Square| todo@.contains(x) implies pre_todo.contains(x) by {
                let j = choose|j: int| 0 <= j < todo@.len() && todo@[j] == x;
                assert(pre_todo[j] == x);
            }
            assert forall|v: Square, w: Square|
                #![trigger visited@.contains(v), slide_step(occw, v, w)]
                visited@.contains(v) && !todo@.contains(v) && v != t && slide_step(occw, v, w)
                    implies visited@.contains(w) by {
                assert(!pre_todo.contains(v));
            }
        }
        let nb = neighbors(&t);
        let mut k: usize = 0;
        while k < 6
            invariant
                board.wf(),
                sq.valid(),
                occw == board.occ_wo(sq),
                k <= 6,
                halo@.contains(sq),
                forall|u: Square, w: Square|
                    #![trigger board.occ(u), adjacent(u, w)]
                    board.occ(u) && adjacent(u, w) ==> halo@.contains(w),
                visited@.no_duplicates(),
                todo@.no_duplicates(),
                res@.no_duplicates(),
                visited@.contains(sq),
                visited@.contains(t),
                !todo@.contains(t),
                -(COORD_LIMIT + 1) <= t.q <= COORD_LIMIT + 1,
                -(COORD_LIMIT + 1) <= t.r <= COORD_LIMIT + 1,
                -(COORD_LIMIT + 1) <= t.s <= COORD_LIMIT + 1,
                forall|j: int| 0 <= j < 6 ==> adjacent(t, #[trigger] nb@[j]),
                forall|c: Square| adjacent(t, c) ==> nb@.contains(c),
                forall|x: Square| todo@.contains(x) ==> visited@.contains(x),
                forall|x: Square| visited@.contains(x) ==> halo@.contains(x),
                forall|x: Square| visited@.contains(x) ==> slide_reachable(occw, sq, x),
                forall|x: Square|
                    visited@.contains(x) ==> -(COORD_LIMIT + 1) <= x.q <= COORD_LIMIT + 1 && -(
                    COORD_LIMIT + 1) <= x.r <= COORD_LIMIT + 1 && -(COORD_LIMIT + 1) <= x.s
                        <= COORD_LIMIT + 1,
                forall|v: Square, w: Square|
                    #![trigger visited@.contains(v), slide_step(occw, v, w)]
                    visited@.contains(v) && !todo@.contains(v) && v != t && slide_step(
                        occw,
                        v,
                        w,
                    ) ==> visited@.contains(w),
                forall|j: int|
                    0 <= j < k && slide_step(occw, t, #[trigger] nb@[j]) ==> visited@.contains(
                        nb@[j],
                    ),
                forall|ii: int| 0 <= ii < res@.len() ==> (#[trigger] res@[ii]).near(),
                forall|d: Square| res@.contains(d) == (visited@.contains(d) && d != sq),
                visited@.len() <= halo@.len(),
                visited@.len() > pre_visited.len() || (visited@ == pre_visited && todo@.len()
                    < pre_todo.len()),
            decreases 6 - k,
        {
            let w = nb[k];
            if slide_step_check(board, sq, t, w) {
                if !contains_square(&visited, &w) {
                    proof {
                        let nt = choose|n: nat| slide_reach(occw, sq, t, n);
                        lemma_slide_extend(occw, sq, t, w, nt);
                        assert(slide_reachable(occw, sq, w));
                        assert(w != sq);
                        assert(halo@.contains(w)) by {
                            let u = choose|u: Square| occw.contains(u) && adjacent(w, u);
                            assert(board.occ(u));
                            assert(adjacent(u, w));
                        }
                        lemma_hive_adj_near(*board, sq, w);
                    }
                    let ghost pv = visited@;
                    let ghost pt = todo@;
                    push_square(&mut visited, w);
                    push_square(&mut todo, w);
                    push_square(&mut res, w);
                    proof {
                        assert(!pt.contains(w)) by {
                            if pt.contains(w) {
                                assert(pv.contains(w));
                            }
                        }
                        assert forall|v2: Square, w2: Square|
                            #![trigger visited@.contains(v2), slide_step(occw, v2, w2)]
                            visited@.contains(v2) && !todo@.contains(v2) && v2 != t
                                && slide_step(occw, v2, w2) implies visited@.contains(w2) by {
                            assert(v2 != w);
                            assert(pv.contains(v2));
                            assert(!pt.contains(v2));
                            assert(pv.contains(w2));
                        }
                        visited@.unique_seq_to_set();
                        vstd::seq_lib::seq_to_set_is_finite::<Square>(halo@);
                        assert(visited@.to_set().subset_of(halo@.to_set()));
                        vstd::set_lib::lemma_len_subset(visited@.to_set(), halo@.to_set());
                        halo@.lemma_cardinality_of_set();
                        assert(visited@.len() <= halo@.len());
                    }
                }
            }
            k += 1;
        }
        proof {
            assert forall|v: Square, w: Square|
                #![trigger visited@.contains(v), slide_step(occw, v, w)]
                visited@.contains(v) && !todo@.contains(v) && slide_step(occw, v, w)
                    implies visited@.contains(w) by {
                if v == t {
                    assert(adjacent(t, w));
                    assert(nb@.contains(w));
                    let j = choose|j: int| 0 <= j < nb@.len() && nb@[j] == w;
                    assert(slide_step(occw, t, nb@[j]));
                }
            }
        }
    }
    proof {
        assert forall|d: Square| res@.contains(d) == ant_dest(*board, sq, d) by {
            if ant_dest(*board, sq, d) {
                let n = choose|n: nat| slide_reach(occw, sq, d, n);
                lemma_slide_closed(occw, visited@, sq, d, n);
            }
        }
    }
    res
}

} // verus!
