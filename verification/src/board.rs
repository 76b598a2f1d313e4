//! The board: colors, species, pieces, and the occupancy map from squares
//! to non-empty stacks of pieces, together with the ply counter.

use vstd::prelude::*;
use crate::square::{Square, spec_neighbor};

verus! {

#[derive(Clone, Copy, PartialEq, Eq, Structural, Debug)]
pub enum Color {
    White,
    Black,
}

#[derive(Clone, Copy, PartialEq, Eq, Structural, Debug)]
pub enum BoardPiece {
    Queen,
    Ant,
    Spider,
    Beetle,
    Grasshopper,
}

/// A piece: a species and the color it belongs to. Immutable once placed.
#[derive(Clone, Copy, PartialEq, Eq, Structural, Debug)]
pub struct Piece {
    pub species: BoardPiece,
    pub color: Color,
}

impl Piece {
    pub fn new(species: BoardPiece, color: Color) -> (p: Piece)
        ensures
            p.species == species && p.color == color,
    {
        Piece { species, color }
    }
}

/// The stack of pieces on one occupied square, bottom first. A stack that
/// is stored on a board is never empty.
#[derive(Debug)]
pub struct BoardSquare {
    pub pieces: Vec<Piece>,
}

impl BoardSquare {
    pub fn new(piece: Piece) -> (bs: BoardSquare)
        ensures
            bs.pieces@ == seq![piece],
    {
        let mut pieces: Vec<Piece> = Vec::new();
        pieces.push(piece);
        proof {
            assert(pieces@ =~= seq![piece]);
        }
        BoardSquare { pieces }
    }

    /// The piece on top of the stack: the only one visible to adjacency
    /// rules.
    pub fn top(&self) -> (p: Piece)
        requires
            self.pieces@.len() >= 1,
        ensures
            p == self.pieces@.last(),
    {
        self.pieces[self.pieces.len() - 1]
    }
}

/// The occupancy map. A square absent from `cells` is empty; stacks are
/// never stored empty. `turns` counts accepted moves (the global ply).
#[derive(Debug)]
pub struct Board {
    pub cells: Vec<(Square, BoardSquare)>,
    pub turns: usize,
}

impl Board {
    /// Well-formed boards keep one entry per square, no empty stacks, and
    /// only valid squares.
    pub open spec fn wf(self) -> bool {
        &&& forall|i: int, j: int|
            0 <= i < j < self.cells@.len() ==> (#[trigger] self.cells@[i]).0 != (
            #[trigger] self.cells@[j]).0
        &&& forall|i: int|
            0 <= i < self.cells@.len() ==> (#[trigger] self.cells@[i]).1.pieces@.len() >= 1
        &&& forall|i: int| 0 <= i < self.cells@.len() ==> (#[trigger] self.cells@[i]).0.valid()
    }

    /// Whether `t` is occupied.
    pub open spec fn occ(self, t: Square) -> bool {
        exists|i: int| 0 <= i < self.cells@.len() && (#[trigger] self.cells@[i]).0 == t
    }

    /// The index of the entry for an occupied square.
    pub open spec fn key_idx(self, t: Square) -> int {
        choose|i: int| 0 <= i < self.cells@.len() && (#[trigger] self.cells@[i]).0 == t
    }

    /// The stack at an occupied square, bottom first.
    pub open spec fn stack_at(self, t: Square) -> Seq<Piece> {
        self.cells@[self.key_idx(t)].1.pieces@
    }

    /// The visible piece at an occupied square.
    pub open spec fn top_at(self, t: Square) -> Piece {
        self.stack_at(t).last()
    }

    pub open spec fn num_squares(self) -> int {
        self.cells@.len() as int
    }

    /// The set of occupied squares.
    pub open spec fn occ_set(self) -> Set<Square> {
        Set::new(|t: Square| self.occ(t))
    }

    /// Occupancy once the top piece at `src` has been lifted off the board
    /// and not yet put back down.
    pub open spec fn occ_wo(self, src: Square) -> Set<Square> {
        Set::new(
            |t: Square|
                if t == src {
                    self.occ(src) && self.stack_at(src).len() > 1
                } else {
                    self.occ(t)
                },
        )
    }

    /// Occupancy once the top piece at `from` has been moved onto `to`.
    pub open spec fn occ_moved(self, from: Square, to: Square) -> Set<Square> {
        self.occ_wo(from).insert(to)
    }

    /// Exactly one piece stands on the board.
    pub open spec fn one_piece(self) -> bool {
        self.cells@.len() == 1 && self.cells@[0].1.pieces@.len() == 1
    }

    /// Some piece of color `c`, anywhere in any stack, is a Queen.
    pub open spec fn color_has_queen(self, c: Color) -> bool {
        exists|i: int, j: int|
            0 <= i < self.cells@.len() && 0 <= j < (#[trigger] self.cells@[i]).1.pieces@.len()
                && ((#[trigger] self.cells@[i].1.pieces@[j]).species == BoardPiece::Queen
                && self.cells@[i].1.pieces@[j].color == c)
    }

    /// Some Queen of either color has all six of its neighbors occupied.
    pub open spec fn queen_surrounded(self) -> bool {
        exists|i: int, j: int|
            0 <= i < self.cells@.len() && 0 <= j < (#[trigger] self.cells@[i]).1.pieces@.len()
                && ((#[trigger] self.cells@[i].1.pieces@[j]).species == BoardPiece::Queen
                && forall|k: int| 0 <= k < 6 ==> self.occ(spec_neighbor(self.cells@[i].0, k)))
    }

    /// Occupied squares carry exactly one index: the one `key_idx` picks.
    pub proof fn lemma_key_at(self, i: int)
        requires
            self.wf(),
            0 <= i < self.cells@.len(),
        ensures
            self.occ(self.cells@[i].0),
            self.key_idx(self.cells@[i].0) == i,
            self.stack_at(self.cells@[i].0) == self.cells@[i].1.pieces@,
    {
        let t = self.cells@[i].0;
        assert(self.occ(t));
        let j = self.key_idx(t);
        if j != i {
            if j < i {
                assert(self.cells@[j].0 != self.cells@[i].0);
            } else {
                assert(self.cells@[i].0 != self.cells@[j].0);
            }
        }
    }

    /// Two boards with the same entries agree on occupancy and stacks;
    /// only the ply counter may differ.
    pub proof fn lemma_cells_eq(a: Board, b: Board)
        requires
            a.cells@ == b.cells@,
            a.wf(),
        ensures
            b.wf(),
            forall|t: Square| a.occ(t) == b.occ(t),
            forall|t: Square| a.occ(t) ==> a.stack_at(t) == b.stack_at(t),
    {
        assert forall|t: Square| a.occ(t) == b.occ(t) by {
            if a.occ(t) {
                let i = choose|i: int|
                    0 <= i < a.cells@.len() && (#[trigger] a.cells@[i]).0 == t;
                assert(b.cells@[i].0 == t);
            }
            if b.occ(t) {
                let i = choose|i: int|
                    0 <= i < b.cells@.len() && (#[trigger] b.cells@[i]).0 == t;
                assert(a.cells@[i].0 == t);
            }
        }
        assert forall|t: Square| a.occ(t) implies a.stack_at(t) == b.stack_at(t) by {
            let i = choose|i: int| 0 <= i < a.cells@.len() && (#[trigger] a.cells@[i]).0 == t;
            a.lemma_key_at(i);
            assert(b.cells@[i].0 == t);
            b.lemma_key_at(i);
        }
    }

    pub fn new() -> (b: Board)
        ensures
            b.wf(),
            b.num_squares() == 0,
            b.turns == 0,
            forall|t: Square| !b.occ(t),
    {
        Board { cells: Vec::new(), turns: 0 }
    }

    pub fn len(&self) -> (n: usize)
        ensures
            n == self.num_squares(),
    {
        self.cells.len()
    }

    /// The square of the entry at position `i` of the map.
    pub fn square_at(&self, i: usize) -> (sq: Square)
        requires
            i < self.num_squares(),
        ensures
            sq == self.cells@[i as int].0,
            self.occ(sq),
    {
        self.cells[i].0
    }

    /// The visible piece of the entry at position `i` of the map.
    pub fn top_at_index(&self, i: usize) -> (p: Piece)
        requires
            self.wf(),
            i < self.num_squares(),
        ensures
            p == self.cells@[i as int].1.pieces@.last(),
            p == self.top_at(self.cells@[i as int].0),
    {
        proof {
            self.lemma_key_at(i as int);
        }
        let n = self.cells[i].1.pieces.len();
        self.cells[i].1.pieces[n - 1]
    }

    fn find(&self, sq: &Square) -> (r: Option<usize>)
        ensures
            match r {
                Some(i) => i < self.num_squares() && self.cells@[i as int].0 == *sq && self.occ(
                    *sq,
                ),
                None => !self.occ(*sq),
            },
    {
        let mut i: usize = 0;
        while i < self.cells.len()
            invariant
                i <= self.cells@.len(),
                forall|j: int| 0 <= j < i ==> (#[trigger] self.cells@[j]).0 != *sq,
            decreases self.cells@.len() - i,
        {
            if self.cells[i].0 == *sq {
                return Some(i);
            }
            i += 1;
        }
        None
    }

    pub fn contains_key(&self, sq: &Square) -> (r: bool)
        ensures
            r == self.occ(*sq),
    {
        self.find(sq).is_some()
    }

    /// The height of the stack at `sq`; zero when the square is empty.
    pub fn height(&self, sq: &Square) -> (h: usize)
        ensures
            !self.occ(*sq) ==> h == 0,
            self.wf() && self.occ(*sq) ==> h == self.stack_at(*sq).len() && h >= 1,
    {
        match self.find(sq) {
            Some(i) => {
                proof {
                    if self.wf() {
                        self.lemma_key_at(i as int);
                    }
                }
                self.cells[i].1.pieces.len()
            },
            None => 0,
        }
    }

    /// The visible piece at `sq`, if the square is occupied.
    pub fn top_of(&self, sq: &Square) -> (r: Option<Piece>)
        requires
            self.wf(),
        ensures
            match r {
                Some(p) => self.occ(*sq) && p == self.top_at(*sq),
                None => !self.occ(*sq),
            },
    {
        match self.find(sq) {
            Some(i) => {
                proof {
                    self.lemma_key_at(i as int);
                }
                let n = self.cells[i].1.pieces.len();
                Some(self.cells[i].1.pieces[n - 1])
            },
            None => None,
        }
    }

    /// Membership in the occupancy that remains once the top piece at
    /// `src` is lifted.
    pub fn occ_wo_contains(&self, src: Square, t: Square) -> (r: bool)
        requires
            self.wf(),
        ensures
            r == self.occ_wo(src).contains(t),
    {
        if t == src {
            self.height(&src) > 1
        } else {
            self.contains_key(&t)
        }
    }

    /// Store `bs` at `sq`, replacing whatever entry was there, as a map
    /// insertion does. Used to set up positions; `play` is the move entry
    /// point.
    pub fn insert(&mut self, sq: Square, bs: BoardSquare)
        requires
            old(self).wf(),
            sq.valid(),
            bs.pieces@.len() >= 1,
        ensures
            final(self).wf(),
            final(self).occ(sq),
            final(self).stack_at(sq) == bs.pieces@,
            final(self).turns == old(self).turns,
            forall|t: Square| t != sq ==> final(self).occ(t) == old(self).occ(t),
            forall|t: Square|
                t != sq && old(self).occ(t) ==> final(self).stack_at(t) == old(self).stack_at(t),
    {
        let ghost pre = *self;
        match self.find(&sq) {
            Some(i) => {
                self.cells[i] = (sq, bs);
                proof {
                    assert forall|t: Square| t != sq implies self.occ(t) == pre.occ(t) by {
                        if pre.occ(t) {
                            let j = choose|j: int|
                                0 <= j < pre.cells@.len() && (#[trigger] pre.cells@[j]).0 == t;
                            assert(self.cells@[j].0 == t);
                        }
                        if self.occ(t) {
                            let j = choose|j: int|
                                0 <= j < self.cells@.len() && (#[trigger] self.cells@[j]).0 == t;
                            assert(pre.cells@[j].0 == t);
                        }
                    }
                    assert forall|t: Square| t != sq && pre.occ(t) implies self.stack_at(t)
                        == pre.stack_at(t) by {
                        let j = choose|j: int|
                            0 <= j < pre.cells@.len() && (#[trigger] pre.cells@[j]).0 == t;
                        pre.lemma_key_at(j);
                        self.lemma_key_at(j);
                    }
                    self.lemma_key_at(i as int);
                }
            },
            None => {
                self.cells.push((sq, bs));
                proof {
                    let n = pre.cells@.len() as int;
                    assert forall|t: Square| t != sq implies self.occ(t) == pre.occ(t) by {
                        if pre.occ(t) {
                            let j = choose|j: int|
                                0 <= j < pre.cells@.len() && (#[trigger] pre.cells@[j]).0 == t;
                            assert(self.cells@[j].0 == t);
                        }
                        if self.occ(t) {
                            let j = choose|j: int|
                                0 <= j < self.cells@.len() && (#[trigger] self.cells@[j]).0 == t;
                            assert(j < n);
                            assert(pre.cells@[j].0 == t);
                        }
                    }
                    assert forall|t: Square| t != sq && pre.occ(t) implies self.stack_at(t)
                        == pre.stack_at(t) by {
                        let j = choose|j: int|
                            0 <= j < pre.cells@.len() && (#[trigger] pre.cells@[j]).0 == t;
                        pre.lemma_key_at(j);
                        self.lemma_key_at(j);
                    }
                    self.lemma_key_at(n);
                }
            },
        }
    }

    /// Remove the whole entry at `sq`, if any. Used to set up positions.
    pub fn remove(&mut self, sq: Square)
        requires
            old(self).wf(),
        ensures
            final(self).wf(),
            !final(self).occ(sq),
            final(self).turns == old(self).turns,
            forall|t: Square| t != sq ==> final(self).occ(t) == old(self).occ(t),
            forall|t: Square|
                t != sq && old(self).occ(t) ==> final(self).stack_at(t) == old(self).stack_at(t),
    {
        let ghost pre = *self;
        match self.find(&sq) {
            Some(i) => {
                self.cells.swap_remove(i);
                proof {
                    let n = pre.cells@.len() as int;
                    // the new sequence: entry i replaced by the old last
                    // entry, then the last slot dropped
                    assert forall|t: Square| self.occ(t) implies t != sq && pre.occ(t) by {
                        let j = choose|j: int|
                            0 <= j < self.cells@.len() && (#[trigger] self.cells@[j]).0 == t;
                        if j == i {
                            assert(pre.cells@[n - 1].0 == t);
                            pre.lemma_key_at(n - 1);
                            pre.lemma_key_at(i as int);
                        } else {
                            assert(pre.cells@[j].0 == t);
                            pre.lemma_key_at(j);
                            pre.lemma_key_at(i as int);
                        }
                    }
                    assert forall|t: Square| t != sq && pre.occ(t) implies self.occ(t) by {
                        let j = choose|j: int|
                            0 <= j < pre.cells@.len() && (#[trigger] pre.cells@[j]).0 == t;
                        if j == i {
                            assert(false);
                        } else if j == n - 1 {
                            if i < n - 1 {
                                assert(self.cells@[i as int].0 == t);
                            } else {
                                assert(false);
                            }
                        } else {
                            assert(self.cells@[j].0 == t);
                        }
                    }
                    assert forall|i2: int, j2: int| 0 <= i2 < j2 < self.cells@.len() implies (
                    self.cells@[i2]).0 != (self.cells@[j2]).0 by {
                        assert(self.cells@[i2] == pre.cells@.update(i as int, pre.cells@[n - 1])[
                            i2]);
                        assert(self.cells@[j2] == pre.cells@.update(i as int, pre.cells@[n - 1])[
                            j2]);
                    }
                    assert forall|t: Square| t != sq && pre.occ(t) implies self.stack_at(t)
                        == pre.stack_at(t) by {
                        let j = choose|j: int|
                            0 <= j < self.cells@.len() && (#[trigger] self.cells@[j]).0 == t;
                        self.lemma_key_at(j);
                        if j == i {
                            assert(pre.cells@[n - 1].0 == t);
                            pre.lemma_key_at(n - 1);
                        } else {
                            assert(pre.cells@[j].0 == t);
                            pre.lemma_key_at(j);
                        }
                    }
                }
            },
            None => {},
        }
    }

    /// Push `piece` on top of the stack at `sq`, creating the entry when
    /// the square was empty. Does not advance the ply counter.
    pub fn place_piece(&mut self, piece: Piece, sq: Square)
        requires
            old(self).wf(),
            sq.valid(),
        ensures
            final(self).wf(),
            final(self).occ(sq),
            final(self).turns == old(self).turns,
            final(self).stack_at(sq) == if old(self).occ(sq) {
                old(self).stack_at(sq).push(piece)
            } else {
                seq![piece]
            },
            forall|t: Square| t != sq ==> final(self).occ(t) == old(self).occ(t),
            forall|t: Square|
                t != sq && old(self).occ(t) ==> final(self).stack_at(t) == old(self).stack_at(t),
    {
        match self.find(&sq) {
            Some(i) => {
                proof {
                    self.lemma_key_at(i as int);
                }
                let (key, mut bs) = self.cells.swap_remove(i);
                bs.pieces.push(piece);
                let ghost mid = *self;
                self.cells.push((key, bs));
                proof {
                    let pre = *old(self);
                    let n = pre.cells@.len() as int;
                    assert(self.cells@.len() == n);
                    self.lemma_key_at(n - 1);
                    assert(self.stack_at(sq) =~= pre.stack_at(sq).push(piece));
                    assert forall|t: Square| t != sq implies self.occ(t) == pre.occ(t) by {
                        if pre.occ(t) {
                            let j = choose|j: int|
                                0 <= j < pre.cells@.len() && (#[trigger] pre.cells@[j]).0 == t;
                            if j == i {
                                assert(false);
                            } else if j == n - 1 {
                                if i < n - 1 {
                                    assert(self.cells@[i as int].0 == t);
                                } else {
                                    assert(false);
                                }
                            } else {
                                assert(self.cells@[j].0 == t);
                            }
                        }
                        if self.occ(t) {
                            let j = choose|j: int|
                                0 <= j < self.cells@.len() && (#[trigger] self.cells@[j]).0 == t;
                            if j == n - 1 {
                                assert(false);
                            } else if j == i {
                                assert(pre.cells@[n - 1].0 == t);
                            } else {
                                assert(pre.cells@[j].0 == t);
                            }
                        }
                    }
                    assert forall|i2: int, j2: int| 0 <= i2 < j2 < self.cells@.len() implies (
                    self.cells@[i2]).0 != (self.cells@[j2]).0 by {
                        pre.lemma_key_at(i as int);
                    }
                    assert forall|t: Square| t != sq && pre.occ(t) implies self.stack_at(t)
                        == pre.stack_at(t) by {
                        let j = choose|j: int|
                            0 <= j < self.cells@.len() && (#[trigger] self.cells@[j]).0 == t;
                        self.lemma_key_at(j);
                        if j == i {
                            assert(pre.cells@[n - 1].0 == t);
                            pre.lemma_key_at(n - 1);
                        } else {
                            assert(pre.cells@[j].0 == t);
                            pre.lemma_key_at(j);
                        }
                    }
                }
            },
            None => {
                let bs = BoardSquare::new(piece);
                self.cells.push((sq, bs));
                proof {
                    let pre = *old(self);
                    let n = pre.cells@.len() as int;
                    self.lemma_key_at(n);
                    assert forall|t: Square| t != sq implies self.occ(t) == pre.occ(t) by {
                        if pre.occ(t) {
                            let j = choose|j: int|
                                0 <= j < pre.cells@.len() && (#[trigger] pre.cells@[j]).0 == t;
                            assert(self.cells@[j].0 == t);
                        }
                        if self.occ(t) {
                            let j = choose|j: int|
                                0 <= j < self.cells@.len() && (#[trigger] self.cells@[j]).0 == t;
                            assert(j < n);
                            assert(pre.cells@[j].0 == t);
                        }
                    }
                    assert forall|t: Square| t != sq && pre.occ(t) implies self.stack_at(t)
                        == pre.stack_at(t) by {
                        let j = choose|j: int|
                            0 <= j < pre.cells@.len() && (#[trigger] pre.cells@[j]).0 == t;
                        pre.lemma_key_at(j);
                        self.lemma_key_at(j);
                    }
                }
            },
        }
    }

    /// Pop the top piece at `sq`, dropping the entry when the stack
    /// empties.
    fn remove_top(&mut self, sq: Square)
        requires
            old(self).wf(),
            old(self).occ(sq),
        ensures
            final(self).wf(),
            final(self).turns == old(self).turns,
            final(self).occ(sq) == (old(self).stack_at(sq).len() > 1),
            old(self).stack_at(sq).len() > 1 ==> final(self).stack_at(sq) == old(self).stack_at(
                sq,
            ).drop_last(),
            forall|t: Square| t != sq ==> final(self).occ(t) == old(self).occ(t),
            forall|t: Square|
                t != sq && old(self).occ(t) ==> final(self).stack_at(t) == old(self).stack_at(t),
    {
        let h = self.height(&sq);
        if h > 1 {
            // shorten the stack in place: replace the entry
            match self.find(&sq) {
                Some(i) => {
                    proof {
                        self.lemma_key_at(i as int);
                    }
                    let (key, mut bs) = self.cells.swap_remove(i);
                    bs.pieces.pop();
                    self.cells.push((key, bs));
                    proof {
                        let pre = *old(self);
                        let n = pre.cells@.len() as int;
                        self.lemma_key_at(n - 1);
                        assert(self.stack_at(sq) =~= pre.stack_at(sq).drop_last());
                        assert forall|t: Square| t != sq implies self.occ(t) == pre.occ(t) by {
                            if pre.occ(t) {
                                let j = choose|j: int|
                                    0 <= j < pre.cells@.len() && (#[trigger] pre.cells@[j]).0
                                        == t;
                                if j == i {
                                    assert(false);
                                } else if j == n - 1 {
                                    if i < n - 1 {
                                        assert(self.cells@[i as int].0 == t);
                                    } else {
                                        assert(false);
                                    }
                                } else {
                                    assert(self.cells@[j].0 == t);
                                }
                            }
                            if self.occ(t) {
                                let j = choose|j: int|
                                    0 <= j < self.cells@.len() && (#[trigger] self.cells@[j]).0
                                        == t;
                                if j == n - 1 {
                                    assert(false);
                                } else if j == i {
                                    assert(pre.cells@[n - 1].0 == t);
                                } else {
                                    assert(pre.cells@[j].0 == t);
                                }
                            }
                        }
                        assert forall|i2: int, j2: int| 0 <= i2 < j2 < self.cells@.len() implies (
                        self.cells@[i2]).0 != (self.cells@[j2]).0 by {
                            let pre = *old(self);
                            pre.lemma_key_at(i as int);
                        }
                        assert forall|t: Square| t != sq && pre.occ(t) implies self.stack_at(t)
                            == pre.stack_at(t) by {
                            let j = choose|j: int|
                                0 <= j < self.cells@.len() && (#[trigger] self.cells@[j]).0 == t;
                            self.lemma_key_at(j);
                            if j == i {
                                assert(pre.cells@[n - 1].0 == t);
                                pre.lemma_key_at(n - 1);
                            } else {
                                assert(pre.cells@[j].0 == t);
                                pre.lemma_key_at(j);
                            }
                        }
                    }
                },
                None => {
                    proof {
                        assert(false);
                    }
                },
            }
        } else {
            proof {
                let pre = *old(self);
                let j = choose|j: int|
                    0 <= j < pre.cells@.len() && (#[trigger] pre.cells@[j]).0 == sq;
                pre.lemma_key_at(j);
            }
            self.remove(sq);
        }
    }

    /// The sole mutation entry point for accepted moves: push a new piece
    /// at `dest`, or relocate the top piece at `source` to `dest`, and
    /// advance the ply counter. Callers validate moves through
    /// `legal_moves` first.
    pub fn play(&mut self, piece: Piece, dest: Square, source: Option<Square>)
        requires
            old(self).wf(),
            dest.valid(),
            old(self).turns < usize::MAX,
            match source {
                Some(src) => old(self).occ(src) && old(self).top_at(src) == piece && src != dest,
                None => true,
            },
        ensures
            final(self).wf(),
            final(self).turns == old(self).turns + 1,
            final(self).occ(dest),
            match source {
                Some(src) => {
                    &&& final(self).stack_at(dest) == if old(self).occ(dest) {
                        old(self).stack_at(dest).push(piece)
                    } else {
                        seq![piece]
                    }
                    &&& final(self).occ(src) == (old(self).stack_at(src).len() > 1)
                    &&& old(self).stack_at(src).len() > 1 ==> final(self).stack_at(src) == old(
                        self,
                    ).stack_at(src).drop_last()
                    &&& forall|t: Square|
                        t != dest && t != src ==> final(self).occ(t) == old(self).occ(t)
                    &&& forall|t: Square|
                        t != dest && t != src && old(self).occ(t) ==> final(self).stack_at(t)
                            == old(self).stack_at(t)
                },
                None => {
                    &&& final(self).stack_at(dest) == if old(self).occ(dest) {
                        old(self).stack_at(dest).push(piece)
                    } else {
                        seq![piece]
                    }
                    &&& forall|t: Square| t != dest ==> final(self).occ(t) == old(self).occ(t)
                    &&& forall|t: Square|
                        t != dest && old(self).occ(t) ==> final(self).stack_at(t) == old(
                            self,
                        ).stack_at(t)
                },
            },
    {
        match source {
            Some(src) => {
                self.remove_top(src);
            },
            None => {},
        }
        self.place_piece(piece, dest);
        let ghost mid = *self;
        self.turns = self.turns + 1;
        proof {
            Board::lemma_cells_eq(mid, *self);
        }
    }

    /// Whether color `c` has placed its Queen anywhere (including under a
    /// stack).
    pub fn has_queen(&self, c: Color) -> (r: bool)
        ensures
            r == self.color_has_queen(c),
    {
        let mut i: usize = 0;
        while i < self.cells.len()
            invariant
                i <= self.cells@.len(),
                forall|a: int, b: int|
                    0 <= a < i && 0 <= b < (#[trigger] self.cells@[a]).1.pieces@.len() ==> !((
                    #[trigger] self.cells@[a].1.pieces@[b]).species == BoardPiece::Queen
                        && self.cells@[a].1.pieces@[b].color == c),
            decreases self.cells@.len() - i,
        {
            let mut j: usize = 0;
            let n = self.cells[i].1.pieces.len();
            while j < n
                invariant
                    j <= n,
                    n == self.cells@[i as int].1.pieces@.len(),
                    i < self.cells@.len(),
                    forall|b: int|
                        0 <= b < j ==> !((#[trigger] self.cells@[i as int].1.pieces@[b]).species
                            == BoardPiece::Queen && self.cells@[i as int].1.pieces@[b].color
                            == c),
                decreases n - j,
            {
                let p = self.cells[i].1.pieces[j];
                if p.species == BoardPiece::Queen && p.color == c {
                    return true;
                }
                j += 1;
            }
            i += 1;
        }
        false
    }
}

impl Default for Board {
    fn default() -> (b: Board)
        ensures
            b.wf(),
            b.num_squares() == 0,
            b.turns == 0,
            forall|t: Square| !b.occ(t),
    {
        Board::new()
    }
}

} // verus!
