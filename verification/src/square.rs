//! Cube coordinates for the hexagonal grid and the fixed six-direction
//! neighbor table.

use vstd::prelude::*;

verus! {

/// Coordinates of squares stored on a board stay within this bound, so that
/// every arithmetic step of the move generators (at most a handful of unit
/// steps away from an occupied square) fits in an `i64`.
pub const COORD_LIMIT: i64 = 4_000_000_000_000_000_000;

/// Bound on coordinates that `neighbors` accepts: wide enough for every
/// square the move generators ever step through.
pub const NEAR_LIMIT: i64 = COORD_LIMIT + 16;

/// A square of the unbounded hexagonal plane, in cube coordinates.
/// A meaningful square satisfies `q + r + s == 0`.
#[derive(Clone, Copy, PartialEq, Eq, Structural, Debug)]
pub struct Square {
    pub q: i64,
    pub r: i64,
    pub s: i64,
}

impl Square {
    /// A square has valid coordinates when they sum to zero and are small
    /// enough to be stored on a board.
    pub open spec fn valid(self) -> bool {
        &&& self.q + self.r + self.s == 0
        &&& -COORD_LIMIT <= self.q <= COORD_LIMIT
        &&& -COORD_LIMIT <= self.r <= COORD_LIMIT
        &&& -COORD_LIMIT <= self.s <= COORD_LIMIT
    }

    /// Coordinates close enough to the board that unit steps cannot
    /// overflow.
    pub open spec fn near(self) -> bool {
        &&& -NEAR_LIMIT <= self.q <= NEAR_LIMIT
        &&& -NEAR_LIMIT <= self.r <= NEAR_LIMIT
        &&& -NEAR_LIMIT <= self.s <= NEAR_LIMIT
    }

    pub fn new(q: i64, r: i64, s: i64) -> (sq: Square)
        ensures
            sq.q == q && sq.r == r && sq.s == s,
    {
        Square { q, r, s }
    }
}

/// The six unit cube directions, as a predicate on a coordinate difference.
pub open spec fn unit_dir(dq: int, dr: int, ds: int) -> bool {
    ||| (dq == 1 && dr == 0 && ds == -1)
    ||| (dq == 1 && dr == -1 && ds == 0)
    ||| (dq == 0 && dr == -1 && ds == 1)
    ||| (dq == -1 && dr == 0 && ds == 1)
    ||| (dq == -1 && dr == 1 && ds == 0)
    ||| (dq == 0 && dr == 1 && ds == -1)
}

/// Two squares are adjacent when they differ by one unit cube direction.
pub open spec fn adjacent(a: Square, b: Square) -> bool {
    unit_dir(b.q - a.q, b.r - a.r, b.s - a.s)
}

/// The fixed direction table, indexed 0 to 5.
pub open spec fn spec_dir(i: int) -> Square {
    if i == 0 {
        Square { q: 1i64, r: 0i64, s: -1i64 }
    } else if i == 1 {
        Square { q: 1i64, r: -1i64, s: 0i64 }
    } else if i == 2 {
        Square { q: 0i64, r: -1i64, s: 1i64 }
    } else if i == 3 {
        Square { q: -1i64, r: 0i64, s: 1i64 }
    } else if i == 4 {
        Square { q: -1i64, r: 1i64, s: 0i64 }
    } else {
        Square { q: 0i64, r: 1i64, s: -1i64 }
    }
}

/// The neighbor of `a` in direction `i`.
pub open spec fn spec_neighbor(a: Square, i: int) -> Square {
    Square {
        q: (a.q + spec_dir(i).q) as i64,
        r: (a.r + spec_dir(i).r) as i64,
        s: (a.s + spec_dir(i).s) as i64,
    }
}

pub fn dir(i: usize) -> (d: Square)
    requires
        i < 6,
    ensures
        d == spec_dir(i as int),
{
    if i == 0 {
        Square { q: 1i64, r: 0i64, s: -1i64 }
    } else if i == 1 {
        Square { q: 1i64, r: -1i64, s: 0i64 }
    } else if i == 2 {
        Square { q: 0i64, r: -1i64, s: 1i64 }
    } else if i == 3 {
        Square { q: -1i64, r: 0i64, s: 1i64 }
    } else if i == 4 {
        Square { q: -1i64, r: 1i64, s: 0i64 }
    } else {
        Square { q: 0i64, r: 1i64, s: -1i64 }
    }
}

/// The six squares obtained by adding each unit cube direction to `sq`:
/// always six distinct results, exactly the squares adjacent to `sq`.
pub fn neighbors(sq: &Square) -> (r: [Square; 6])
    requires
        sq.near(),
    ensures
        forall|i: int| 0 <= i < 6 ==> r@[i] == spec_neighbor(*sq, i),
        forall|i: int| 0 <= i < 6 ==> adjacent(*sq, #[trigger] r@[i]),
        forall|i: int| 0 <= i < 6 ==> (#[trigger] r@[i]).q + r@[i].r + r@[i].s == sq.q + sq.r
            + sq.s,
        forall|i: int, j: int| 0 <= i < j < 6 ==> r@[i] != r@[j],
        forall|b: Square| adjacent(*sq, b) ==> r@.contains(b),
{
    let r = [
        Square { q: sq.q + 1, r: sq.r, s: sq.s - 1 },
        Square { q: sq.q + 1, r: sq.r - 1, s: sq.s },
        Square { q: sq.q, r: sq.r - 1, s: sq.s + 1 },
        Square { q: sq.q - 1, r: sq.r, s: sq.s + 1 },
        Square { q: sq.q - 1, r: sq.r + 1, s: sq.s },
        Square { q: sq.q, r: sq.r + 1, s: sq.s - 1 },
    ];
    proof {
        assert forall|b: Square| adjacent(*sq, b) implies r@.contains(b) by {
            if b.q - sq.q == 1 && b.r - sq.r == 0 {
                assert(r@[0] == b);
            } else if b.q - sq.q == 1 && b.r - sq.r == -1 {
                assert(r@[1] == b);
            } else if b.q - sq.q == 0 && b.r - sq.r == -1 {
                assert(r@[2] == b);
            } else if b.q - sq.q == -1 && b.r - sq.r == 0 {
                assert(r@[3] == b);
            } else if b.q - sq.q == -1 && b.r - sq.r == 1 {
                assert(r@[4] == b);
            } else {
                assert(r@[5] == b);
            }
        }
    }
    r
}

/// Every square adjacent to `a` is one of its six indexed neighbors.
pub proof fn lemma_adjacent_index(a: Square, b: Square)
    requires
        adjacent(a, b),
        a.near(),
    ensures
        exists|i: int| 0 <= i < 6 && b == spec_neighbor(a, i),
{
    if b.q - a.q == 1 && b.r - a.r == 0 {
        assert(b == spec_neighbor(a, 0));
    } else if b.q - a.q == 1 && b.r - a.r == -1 {
        assert(b == spec_neighbor(a, 1));
    } else if b.q - a.q == 0 && b.r - a.r == -1 {
        assert(b == spec_neighbor(a, 2));
    } else if b.q - a.q == -1 && b.r - a.r == 0 {
        assert(b == spec_neighbor(a, 3));
    } else if b.q - a.q == -1 && b.r - a.r == 1 {
        assert(b == spec_neighbor(a, 4));
    } else {
        assert(b == spec_neighbor(a, 5));
    }
}

/// Push with the membership bookkeeping its callers need.
pub fn push_square(v: &mut Vec<Square>, x: Square)
    ensures
        final(v)@ == old(v)@.push(x),
        final(v)@.len() == old(v)@.len() + 1,
        final(v)@.contains(x),
        forall|t: Square| final(v)@.contains(t) == (old(v)@.contains(t) || t == x),
        old(v)@.no_duplicates() && !old(v)@.contains(x) ==> final(v)@.no_duplicates(),
{
    let ghost pre = v@;
    v.push(x);
    proof {
        assert(v@[v@.len() - 1] == x);
        assert(v@.contains(x));
        assert forall|t: Square| v@.contains(t) == (pre.contains(t) || t == x) by {
            if pre.contains(t) {
                let m = choose|m: int| 0 <= m < pre.len() && pre[m] == t;
                assert(v@[m] == t);
            }
            if v@.contains(t) {
                let m = choose|m: int| 0 <= m < v@.len() && v@[m] == t;
                if m < pre.len() {
                    assert(pre[m] == t);
                }
            }
        }
        if pre.no_duplicates() && !pre.contains(x) {
            assert forall|i2: int, j2: int| 0 <= i2 < j2 < v@.len() implies v@[i2] != v@[j2] by {
                if j2 < pre.len() {
                    assert(pre[i2] != pre[j2]);
                } else {
                    if v@[i2] == x {
                        assert(pre[i2] == x);
                        assert(pre.contains(x));
                    }
                }
            }
        }
    }
}

/// Linear membership test over a vector of squares.
pub fn contains_square(v: &Vec<Square>, x: &Square) -> (r: bool)
    ensures
        r == v@.contains(*x),
{
    let mut i: usize = 0;
    while i < v.len()
        invariant
            i <= v@.len(),
            forall|j: int| 0 <= j < i ==> v@[j] != *x,
        decreases v@.len() - i,
    {
        if v[i] == *x {
            return true;
        }
        i += 1;
    }
    false
}

} // verus!
