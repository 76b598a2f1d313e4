//! The one-hive connectivity guard: decides whether relocating the top
//! piece of one square to another would split the occupied squares into
//! more than one connected group.

use vstd::prelude::*;
use crate::square::{Square, adjacent, neighbors, contains_square};
use crate::board::Board;

verus! {

/// `b` can be reached from `a` in at most `n` steps, each step entering a
/// square of `occ` from an adjacent square.
pub open spec fn reach(occ: Set<Square>, a: Square, b: Square, n: nat) -> bool
    decreases n,
{
    a == b || (n > 0 && exists|m: Square|
        occ.contains(m) && adjacent(a, m) && reach(occ, m, b, (n - 1) as nat))
}

/// `b` can be reached from `a` through squares of `occ`.
pub open spec fn reachable(occ: Set<Square>, a: Square, b: Square) -> bool {
    exists|n: nat| reach(occ, a, b, n)
}

/// All squares of `occ` form one connected group under six-neighbor
/// adjacency.
pub open spec fn connected(occ: Set<Square>) -> bool {
    forall|a: Square, b: Square|
        occ.contains(a) && occ.contains(b) ==> reachable(occ, a, b)
}

/// Moving the top piece at `from` onto `to` leaves the hive in more than
/// one connected group.
pub open spec fn disconnects(board: Board, from: Square, to: Square) -> bool {
    !connected(board.occ_moved(from, to))
}

/// A path stays a path when its fuel grows.
pub proof fn lemma_reach_mono(occ: Set<Square>, a: Square, b: Square, n: nat, m: nat)
    requires
        reach(occ, a, b, n),
        n <= m,
    ensures
        reach(occ, a, b, m),
    decreases n,
{
    if a != b {
        let mid = choose|mid: Square|
            occ.contains(mid) && adjacent(a, mid) && reach(occ, mid, b, (n - 1) as nat);
        lemma_reach_mono(occ, mid, b, (n - 1) as nat, (m - 1) as nat);
        assert(occ.contains(mid) && adjacent(a, mid) && reach(occ, mid, b, (m - 1) as nat));
    }
}

/// A path can be extended by one step at its end.
pub proof fn lemma_reach_extend(occ: Set<Square>, a: Square, b: Square, c: Square, n: nat)
    requires
        reach(occ, a, b, n),
        occ.contains(c),
        adjacent(b, c),
    ensures
        reach(occ, a, c, (n + 1) as nat),
    decreases n,
{
    if a == b {
        assert(occ.contains(c) && adjacent(a, c) && reach(occ, c, c, n));
    } else {
        let mid = choose|mid: Square|
            occ.contains(mid) && adjacent(a, mid) && reach(occ, mid, b, (n - 1) as nat);
        lemma_reach_extend(occ, mid, b, c, (n - 1) as nat);
        assert(occ.contains(mid) && adjacent(a, mid) && reach(occ, mid, c, n));
    }
}

/// Paths compose.
pub proof fn lemma_reach_trans(occ: Set<Square>, a: Square, b: Square, c: Square, n: nat, m: nat)
    requires
        reach(occ, a, b, n),
        reach(occ, b, c, m),
    ensures
        reach(occ, a, c, (n + m) as nat),
    decreases n,
{
    if a == b {
        lemma_reach_mono(occ, b, c, m, (n + m) as nat);
    } else {
        let mid = choose|mid: Square|
            occ.contains(mid) && adjacent(a, mid) && reach(occ, mid, b, (n - 1) as nat);
        lemma_reach_trans(occ, mid, b, c, (n - 1) as nat, m);
        assert(occ.contains(mid) && adjacent(a, mid) && reach(occ, mid, c, (n - 1 + m) as nat));
    }
}

/// A path from a square of `occ` can be walked backwards.
pub proof fn lemma_reach_sym(occ: Set<Square>, a: Square, b: Square, n: nat)
    requires
        reach(occ, a, b, n),
        occ.contains(a),
    ensures
        reach(occ, b, a, n),
    decreases n,
{
    if a != b {
        let mid = choose|mid: Square|
            occ.contains(mid) && adjacent(a, mid) && reach(occ, mid, b, (n - 1) as nat);
        lemma_reach_sym(occ, mid, b, (n - 1) as nat);
        assert(adjacent(mid, a));
        lemma_reach_extend(occ, b, mid, a, (n - 1) as nat);
        lemma_reach_mono(occ, b, a, n, n);
    }
}

/// Whatever can be reached from a member of a set that is closed under
/// occupied adjacency lies in that set.
pub proof fn lemma_closed_reach(
    occ: Set<Square>,
    vs: Seq<Square>,
    a: Square,
    b: Square,
    n: nat,
)
    requires
        vs.contains(a),
        reach(occ, a, b, n),
        forall|v: Square, w: Square|
            #![trigger vs.contains(v), occ.contains(w)]
            vs.contains(v) && occ.contains(w) && adjacent(v, w) ==> vs.contains(w),
    ensures
        vs.contains(b),
    decreases n,
{
    if a != b {
        let mid = choose|mid: Square|
            occ.contains(mid) && adjacent(a, mid) && reach(occ, mid, b, (n - 1) as nat);
        assert(vs.contains(mid));
        lemma_closed_reach(occ, vs, mid, b, (n - 1) as nat);
    }
}

/// The occupied squares of the board after the top piece at `from` has
/// been moved onto `to`, as a duplicate-free vector.
fn occ_moved_vec(board: &Board, from: Square, to: Square) -> (v: Vec<Square>)
    requires
        board.wf(),
        board.occ(from),
        to.near(),
    ensures
        v@.no_duplicates(),
        forall|t: Square| v@.contains(t) == board.occ_moved(from, to).contains(t),
        forall|i: int| 0 <= i < v@.len() ==> (#[trigger] v@[i]).near(),
        v@.contains(to),
    {
    let mut v: Vec<Square> = Vec::new();
    let hfrom = board.height(&from);
    let n = board.len();
    let mut i: usize = 0;
    while i < n
        invariant
            board.wf(),
            board.occ(from),
            n == board.num_squares(),
            hfrom == board.stack_at(from).len(),
            i <= n,
            v@.no_duplicates(),
            forall|t: Square|
                v@.contains(t) == ((exists|j: int|
                    0 <= j < i && (#[trigger] board.cells@[j]).0 == t) && !(t == from
                    && board.stack_at(from).len() == 1)),
            forall|k: int| 0 <= k < v@.len() ==> (#[trigger] v@[k]).near(),
        decreases n - i,
    {
        let ghost pre = v@;
        let sq = board.square_at(i);
        let skip = sq == from && hfrom == 1;
        if !skip {
            proof {
                if v@.contains(sq) {
                    let j = choose|j: int|
                        0 <= j < i && (#[trigger] board.cells@[j]).0 == sq;
                    assert(board.cells@[j].0 == board.cells@[i as int].0);
                    assert(false);
                }
                assert(board.cells@[i as int].0.valid());
                assert(sq.near());
            }
            v.push(sq);
        }
        proof {
            assert forall|t: Square|
                v@.contains(t) == ((exists|j: int|
                    0 <= j < i + 1 && (#[trigger] board.cells@[j]).0 == t) && !(t == from
                    && board.stack_at(from).len() == 1)) by {
                if v@.contains(t) {
                    let j = choose|j: int| 0 <= j < v@.len() && v@[j] == t;
                    if j < pre.len() {
                        assert(pre[j] == t);
                        assert(pre.contains(t));
                    } else {
                        assert(t == sq);
                        assert(board.cells@[i as int].0 == t);
                    }
                }
                if (exists|j: int| 0 <= j < i + 1 && (#[trigger] board.cells@[j]).0 == t) && !(t
                    == from && board.stack_at(from).len() == 1) {
                    let j = choose|j: int|
                        0 <= j < i + 1 && (#[trigger] board.cells@[j]).0 == t;
                    if j < i {
                        assert(pre.contains(t));
                        let m = choose|m: int| 0 <= m < pre.len() && pre[m] == t;
                        assert(v@[m] == t);
                    } else {
                        assert(t == sq);
                        assert(!skip);
                        assert(v@[v@.len() - 1] == t);
                    }
                }
            }
        }
        i += 1;
    }
    proof {
        assert forall|t: Square| v@.contains(t) == board.occ_wo(from).contains(t) by {
            if board.occ_wo(from).contains(t) {
                if t == from {
                    assert(board.occ(from));
                    let j = choose|j: int|
                        0 <= j < board.cells@.len() && (#[trigger] board.cells@[j]).0 == from;
                    assert(board.cells@[j].0 == t);
                } else {
                    assert(board.occ(t));
                    let j = choose|j: int|
                        0 <= j < board.cells@.len() && (#[trigger] board.cells@[j]).0 == t;
                    assert(board.cells@[j].0 == t);
                }
            }
        }
    }
    let ghost pre = v@;
    if !contains_square(&v, &to) {
        proof {
            assert(to.near());
        }
        v.push(to);
        proof {
            assert(v@[v@.len() - 1] == to);
            assert(v@.contains(to));
            assert forall|t: Square| v@.contains(t) == (pre.contains(t) || t == to) by {
                if pre.contains(t) {
                    let m = choose|m: int| 0 <= m < pre.len() && pre[m] == t;
                    assert(v@[m] == t);
                }
                if v@.contains(t) {
                    let m = choose|m: int| 0 <= m < v@.len() && v@[m] == t;
                    if m < pre.len() {
                        assert(pre[m] == t);
                    }
                }
            }
            assert forall|i2: int, j2: int| 0 <= i2 < j2 < v@.len() implies v@[i2] != v@[j2] by {
                if j2 < pre.len() {
                    assert(pre[i2] != pre[j2]);
                } else {
                    if v@[i2] == to {
                        assert(pre[i2] == to);
                        assert(pre.contains(to));
                    }
                }
            }
        }
    } else {
        proof {
            assert forall|t: Square| v@.contains(t) == (pre.contains(t) || t == to) by {
            }
        }
    }
    proof {
        assert forall|t: Square| v@.contains(t) == board.occ_moved(from, to).contains(t) by {
            assert(v@.contains(t) == (pre.contains(t) || t == to));
            assert(pre.contains(t) == board.occ_wo(from).contains(t));
            assert(board.occ_moved(from, to) == board.occ_wo(from).insert(to));
        }
        assert(v@.contains(to));
    }
    v
}

/// Every square of `occ` that can be reached from `start` through squares
/// of `occ`, collected by an iterative traversal with an explicit visited
/// set.
pub fn create_set(occ: &Vec<Square>, start: Square) -> (visited: Vec<Square>)
    requires
        occ@.no_duplicates(),
        occ@.contains(start),
        forall|i: int| 0 <= i < occ@.len() ==> (#[trigger] occ@[i]).near(),
    ensures
        visited@.no_duplicates(),
        visited@.contains(start),
        forall|t: Square| visited@.contains(t) ==> occ@.contains(t),
        forall|t: Square| visited@.contains(t) ==> reachable(occ@.to_set(), start, t),
        forall|t: Square|
            occ@.contains(t) && reachable(occ@.to_set(), start, t) ==> visited@.contains(t),
{
    let ghost rset = occ@.to_set();
    let mut visited: Vec<Square> = Vec::new();
    let mut todo: Vec<Square> = Vec::new();
    visited.push(start);
    todo.push(start);
    proof {
        assert(visited@[0] == start);
        assert(visited@.contains(start));
        assert(todo@[0] == start);
        assert(todo@.contains(start));
        assert(reach(rset, start, start, 0));
        assert(reachable(rset, start, start));
        assert(occ@.len() >= 1) by {
            let j = choose|j: int| 0 <= j < occ@.len() && occ@[j] == start;
        }
        assert forall|t: Square| visited@.contains(t) implies occ@.contains(t) by {
            let j = choose|j: int| 0 <= j < visited@.len() && visited@[j] == t;
            assert(visited@[0] == start);
            assert(t == start);
        }
    }
    while todo.len() > 0
        invariant
            occ@.no_duplicates(),
            occ@.contains(start),
            forall|i: int| 0 <= i < occ@.len() ==> (#[trigger] occ@[i]).near(),
            visited@.no_duplicates(),
            todo@.no_duplicates(),
            visited@.contains(start),
            rset == occ@.to_set(),
            forall|t: Square| todo@.contains(t) ==> visited@.contains(t),
            forall|t: Square| visited@.contains(t) ==> occ@.contains(t),
            forall|t: Square| visited@.contains(t) ==> reachable(rset, start, t),
            forall|v: Square, w: Square|
                #![trigger visited@.contains(v), rset.contains(w)]
                visited@.contains(v) && !todo@.contains(v) && rset.contains(w) && adjacent(v, w)
                    ==> visited@.contains(w),
            visited@.len() <= occ@.len(),
        decreases occ@.len() - visited@.len(), todo@.len(),
    {
        let ghost pre_visited = visited@;
        let ghost pre_todo = todo@;
        let topt = todo.pop();
        let t = match topt {
            Some(x) => x,
            None => start,
        };
        proof {
            assert(pre_todo.contains(t)) by {
                assert(pre_todo[pre_todo.len() - 1] == t);
            }
            assert(visited@.contains(t));
            // t occurs nowhere else in todo
            assert(!todo@.contains(t)) by {
                if todo@.contains(t) {
                    let j = choose|j: int| 0 <= j < todo@.len() && todo@[j] == t;
                    assert(pre_todo[j] == t);
                    assert(pre_todo[pre_todo.len() - 1] == t);
                    assert(false);
                }
            }
            assert forall|x: Square| pre_todo.contains(x) implies todo@.contains(x) || x == t by {
                let j = choose|j: int| 0 <= j < pre_todo.len() && pre_todo[j] == x;
                if j < pre_todo.len() - 1 {
                    assert(todo@[j] == x);
                }
            }
            assert forall|x: Square| todo@.contains(x) implies pre_todo.contains(x) by {
                let j = choose|j: int| 0 <= j < todo@.len() && todo@[j] == x;
                assert(pre_todo[j] == x);
            }
            assert forall|v: Square, w: Square|
                #![trigger visited@.contains(v), rset.contains(w)]
                visited@.contains(v) && !todo@.contains(v) && v != t && rset.contains(w)
                    && adjacent(v, w) implies visited@.contains(w) by {
                assert(!pre_todo.contains(v));
            }
            let j = choose|j: int| 0 <= j < occ@.len() && occ@[j] == t;
            assert(occ@[j].near());
        }
        let nb = neighbors(&t);
        let mut k: usize = 0;
        while k < 6
            invariant
                occ@.no_duplicates(),
                occ@.contains(start),
                forall|i: int| 0 <= i < occ@.len() ==> (#[trigger] occ@[i]).near(),
                visited@.no_duplicates(),
                todo@.no_duplicates(),
                visited@.contains(start),
                visited@.contains(t),
                !todo@.contains(t),
                rset == occ@.to_set(),
                k <= 6,
                forall|j: int| 0 <= j < 6 ==> adjacent(t, #[trigger] nb@[j]),
                forall|b: Square| adjacent(t, b) ==> nb@.contains(b),
                forall|x: Square| todo@.contains(x) ==> visited@.contains(x),
                forall|x: Square| visited@.contains(x) ==> occ@.contains(x),
                forall|x: Square| visited@.contains(x) ==> reachable(rset, start, x),
                forall|v: Square, w: Square|
                    #![trigger visited@.contains(v), rset.contains(w)]
                    visited@.contains(v) && !todo@.contains(v) && v != t && rset.contains(w)
                        && adjacent(v, w) ==> visited@.contains(w),
                forall|j: int|
                    0 <= j < k && rset.contains(#[trigger] nb@[j]) ==> visited@.contains(nb@[j]),
                visited@.len() <= occ@.len(),
                visited@.len() > pre_visited.len() || (visited@ == pre_visited && todo@.len()
                    < pre_todo.len()),
            decreases 6 - k,
        {
            let w = nb[k];
            if contains_square(occ, &w) && !contains_square(&visited, &w) {
                proof {
                    assert(rset.contains(w));
                    let nw = choose|n: nat| reach(rset, start, t, n);
                    lemma_reach_extend(rset, start, t, w, nw);
                    assert(reachable(rset, start, w));
                }
                let ghost pv = visited@;
                let ghost pt = todo@;
                visited.push(w);
                todo.push(w);
                proof {
                    assert(visited@[visited@.len() - 1] == w);
                    assert(todo@[todo@.len() - 1] == w);
                    assert(visited@.contains(w));
                    assert(todo@.contains(w));
                    assert forall|x: Square| pv.contains(x) implies visited@.contains(x) by {
                        let m = choose|m: int| 0 <= m < pv.len() && pv[m] == x;
                        assert(visited@[m] == x);
                    }
                    assert forall|x: Square| visited@.contains(x) implies pv.contains(x) || x
                        == w by {
                        let m = choose|m: int| 0 <= m < visited@.len() && visited@[m] == x;
                        if m < pv.len() {
                            assert(pv[m] == x);
                        }
                    }
                    assert forall|x: Square| pt.contains(x) implies todo@.contains(x) by {
                        let m = choose|m: int| 0 <= m < pt.len() && pt[m] == x;
                        assert(todo@[m] == x);
                    }
                    assert forall|x: Square| todo@.contains(x) implies pt.contains(x) || x
                        == w by {
                        let m = choose|m: int| 0 <= m < todo@.len() && todo@[m] == x;
                        if m < pt.len() {
                            assert(pt[m] == x);
                        }
                    }
                    assert(!pt.contains(w)) by {
                        if pt.contains(w) {
                            assert(pv.contains(w));
                        }
                    }
                    assert forall|x: Square| todo@.contains(x) implies visited@.contains(x) by {
                        if pt.contains(x) {
                            assert(pv.contains(x));
                        } else {
                            assert(x == w);
                        }
                    }
                    assert forall|i2: int, j2: int|
                        0 <= i2 < j2 < visited@.len() implies visited@[i2] != visited@[j2] by {
                        if j2 < pv.len() {
                            assert(pv[i2] != pv[j2]);
                        } else {
                            if visited@[i2] == w {
                                assert(pv[i2] == w);
                                assert(pv.contains(w));
                            }
                        }
                    }
                    assert forall|i2: int, j2: int|
                        0 <= i2 < j2 < todo@.len() implies todo@[i2] != todo@[j2] by {
                        if j2 < pt.len() {
                            assert(pt[i2] != pt[j2]);
                        } else {
                            if todo@[i2] == w {
                                assert(pt[i2] == w);
                                assert(pt.contains(w));
                            }
                        }
                    }
                    assert forall|v2: Square, w2: Square|
                        #![trigger visited@.contains(v2), rset.contains(w2)]
                        visited@.contains(v2) && !todo@.contains(v2) && v2 != t && rset.contains(
                            w2,
                        ) && adjacent(v2, w2) implies visited@.contains(w2) by {
                        assert(v2 != w);
                        assert(pv.contains(v2));
                        assert(!pt.contains(v2));
                        assert(pv.contains(w2));
                    }
                    // cardinality: visited stays within the occupied squares
                    visited@.unique_seq_to_set();
                    occ@.unique_seq_to_set();
                    vstd::seq_lib::seq_to_set_is_finite::<Square>(occ@);
                    assert(visited@.to_set().subset_of(occ@.to_set()));
                    vstd::set_lib::lemma_len_subset(visited@.to_set(), occ@.to_set());
                    assert(visited@.len() <= occ@.len());
                }
            }
            k += 1;
        }
        proof {
            // the popped square now has every occupied neighbor visited
            assert forall|v: Square, w: Square|
                #![trigger visited@.contains(v), rset.contains(w)]
                visited@.contains(v) && !todo@.contains(v) && rset.contains(w) && adjacent(v, w)
                    implies visited@.contains(w) by {
                if v == t {
                    assert(nb@.contains(w));
                    let j = choose|j: int| 0 <= j < nb@.len() && nb@[j] == w;
                    assert(rset.contains(nb@[j]));
                }
            }
        }
    }
    proof {
        assert forall|v: Square, w: Square|
            #![trigger visited@.contains(v), rset.contains(w)]
            visited@.contains(v) && rset.contains(w) && adjacent(v, w) implies visited@.contains(
            w,
        ) by {
            assert(!todo@.contains(v));
        }
        assert forall|t: Square|
            occ@.contains(t) && reachable(rset, start, t) implies visited@.contains(t) by {
            let n = choose|n: nat| reach(rset, start, t, n);
            lemma_closed_reach(rset, visited@, start, t, n);
        }
    }
    visited
}

/// Whether moving the top piece at `from` onto `to` leaves more than one
/// connected group of occupied squares: the simulated occupancy is walked
/// from an anchor square, and any occupied square left unvisited means the
/// hive would split.
pub fn would_disconnect(board: &Board, from: Square, to: Square) -> (r: bool)
    requires
        board.wf(),
        board.occ(from),
        to.near(),
    ensures
        r == disconnects(*board, from, to),
{
    let v = occ_moved_vec(board, from, to);
    let ghost rset = v@.to_set();
    proof {
        assert(v@.contains(to));
        assert(rset =~= board.occ_moved(from, to));
        assert(rset == board.occ_moved(from, to));
    }
    let start = v[0];
    proof {
        assert(v@.contains(start)) by {
            assert(v@[0] == start);
        }
    }
    let visited = create_set(&v, start);
    let mut i: usize = 0;
    while i < v.len()
        invariant
            v@.no_duplicates(),
            v@.contains(start),
            forall|k: int| 0 <= k < v@.len() ==> (#[trigger] v@[k]).near(),
            i <= v@.len(),
            rset == v@.to_set(),
            rset == board.occ_moved(from, to),
            visited@.contains(start),
            forall|t: Square| visited@.contains(t) ==> v@.contains(t),
            forall|t: Square| visited@.contains(t) ==> reachable(rset, start, t),
            forall|t: Square|
                v@.contains(t) && reachable(rset, start, t) ==> visited@.contains(t),
            forall|j: int| 0 <= j < i ==> visited@.contains(#[trigger] v@[j]),
        decreases v@.len() - i,
    {
        if !contains_square(&visited, &v[i]) {
            proof {
                let x = v@[i as int];
                assert(rset.contains(x));
                assert(!reachable(rset, start, x));
                assert(rset.contains(start));
                assert(!connected(rset));
            }
            return true;
        }
        i += 1;
    }
    proof {
        // every occupied square was visited, so any two are joined through
        // the anchor
        assert forall|a: Square, b: Square|
            rset.contains(a) && rset.contains(b) implies reachable(rset, a, b) by {
            let ja = choose|j: int| 0 <= j < v@.len() && v@[j] == a;
            let jb = choose|j: int| 0 <= j < v@.len() && v@[j] == b;
            assert(visited@.contains(v@[ja]));
            assert(visited@.contains(v@[jb]));
            let na = choose|n: nat| reach(rset, start, a, n);
            let nb2 = choose|n: nat| reach(rset, start, b, n);
            lemma_reach_sym(rset, start, a, na);
            lemma_reach_trans(rset, a, start, b, na, nb2);
            assert(reach(rset, a, b, (na + nb2) as nat));
        }
        assert(connected(rset));
    }
    false
}

/// Whether relocating the piece on top of `from` to `to` would split the
/// hive. The board is only read: it is left exactly as it was.
pub fn create_island(board: &mut Board, from: Square, to: Square) -> (r: bool)
    requires
        old(board).wf(),
        old(board).occ(from),
        to.near(),
    ensures
        *final(board) == *old(board),
        r == disconnects(*old(board), from, to),
{
    let b: &Board = board;
    would_disconnect(b, from, to)
}

} // verus!
