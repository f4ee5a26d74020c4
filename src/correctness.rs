use vstd::prelude::*;
use vstd::arithmetic::div_mod::lemma_fundamental_div_mod_converse;

use crate::driver::{
    lemma_step_consistent, lemma_step_lowers_rank, lemma_steps_runnable, rank_inner,
    rank_line, rank_middle, rank_outer, rank_phase, runnable, step_spec, steps,
};
use crate::floyd_warshall_algo::{sat_add, UNREACHABLE};
use crate::floyd_warshall_state::{
    flat, flatten_matrix, initial, is_square, lemma_flat_in_bounds, StateView,
};

verus! {

/// A zero cell is an edge, and every vertex reaches itself.
pub open spec fn edge_or_self(m: Seq<Seq<u8>>, i: int, j: int) -> bool {
    i == j || m[i][j] == 0
}

/// `j` can be reached from `i` along edges whose intermediate vertices are all below `k`.
pub open spec fn reach(m: Seq<Seq<u8>>, k: nat, i: int, j: int) -> bool
    decreases k,
{
    if k == 0 {
        edge_or_self(m, i, j)
    } else {
        let p = (k - 1) as nat;
        reach(m, p, i, j) || (reach(m, p, i, p as int) && reach(m, p, p as int, j))
    }
}

/// The shortest distance from `i` to `j` through intermediates below `k`: edges weigh
/// nothing, so it is zero when `j` can be reached and `UNREACHABLE` otherwise.
pub open spec fn ref_dist(m: Seq<Seq<u8>>, k: nat, i: int, j: int) -> u16 {
    if reach(m, k, i, j) {
        0
    } else {
        UNREACHABLE
    }
}

/// Cells of the initialisation pass that have already been given their start value.
pub open spec fn init_done(s: StateView, r: int, c: int) -> bool {
    let l = s.current_line;
    let x = s.u.unwrap() as int;
    let y = s.v.unwrap() as int;
    if l == 4 {
        s.u is Some && r <= x
    } else if l == 5 {
        r < x || (r == x && s.v is Some && c <= y)
    } else if l == 8 || l == 10 || l == 13 {
        r < x || (r == x && c <= y)
    } else {
        r < x || (r == x && c < y)
    }
}

/// Cells that the current relaxation round has already visited.
pub open spec fn round_done(s: StateView, r: int, c: int) -> bool {
    let l = s.current_line;
    let y = s.i.unwrap() as int;
    let z = s.j.unwrap() as int;
    if l == 15 {
        s.k is Some
    } else if l == 16 {
        s.i is Some && r <= y
    } else if l == 17 {
        r < y || (r == y && s.j is Some && c <= z)
    } else if l == 20 {
        r < y || (r == y && c <= z)
    } else {
        r < y || (r == y && c < z)
    }
}

/// The relaxation round under way: the pivot register, or zero before the first.
pub open spec fn round(s: StateView) -> nat {
    match s.k {
        Some(x) => x as nat,
        None => 0,
    }
}

/// The distance that cell `(r, c)` holds at the state's line.
pub open spec fn expected_dist(s: StateView, m: Seq<Seq<u8>>, r: int, c: int) -> u16 {
    let l = s.current_line;
    if l <= 3 {
        m[r][c] as u16
    } else if l <= 14 {
        if init_done(s, r, c) {
            ref_dist(m, 0, r, c)
        } else {
            m[r][c] as u16
        }
    } else if l <= 21 {
        if round_done(s, r, c) {
            ref_dist(m, round(s) + 1, r, c)
        } else {
            ref_dist(m, round(s), r, c)
        }
    } else {
        ref_dist(m, s.V as nat, r, c)
    }
}

/// Cells whose successor is settled: those whose distance is settled, but for the one
/// cell whose distance was just written and whose successor is written next.
pub open spec fn next_known(s: StateView, r: int, c: int) -> bool {
    let l = s.current_line;
    if l <= 3 {
        false
    } else if l <= 14 {
        init_done(s, r, c) && !((l == 8 || l == 10 || l == 13) && r == s.u.unwrap() && c
            == s.v.unwrap())
    } else if l <= 21 {
        !(l == 20 && r == s.i.unwrap() && c == s.j.unwrap())
    } else {
        true
    }
}

/// The distance matrix holds, cell by cell, what the line reached so far implies,
/// together with the branch conditions that led to the line.
pub open spec fn tracks(s: StateView, m: Seq<Seq<u8>>) -> bool {
    let l = s.current_line;
    let n = s.V as int;
    &&& (s.dist is Some ==> forall|r: int, c: int|
        0 <= r < n && 0 <= c < n ==> #[trigger] s.dist_at(r, c) == expected_dist(s, m, r, c))
    &&& (l == 7 || l == 8 ==> s.u == s.v)
    &&& (l == 9 || l == 10 || l == 12 || l == 13 ==> s.u != s.v)
    &&& (l == 10 ==> m[s.u.unwrap() as int][s.v.unwrap() as int] == 0)
    &&& (l == 12 || l == 13 ==> m[s.u.unwrap() as int][s.v.unwrap() as int] != 0)
    &&& (s.next is Some ==> forall|r: int, c: int|
        0 <= r < n && 0 <= c < n && next_known(s, r, c) ==> (#[trigger] s.next_at(r, c) is None
            <==> s.dist_at(r, c) == UNREACHABLE))
    &&& (l == 20 ==> s.k != s.i && s.dist_at(s.k.unwrap() as int, s.j.unwrap() as int)
        != UNREACHABLE && s.dist_at(s.i.unwrap() as int, s.j.unwrap() as int) != UNREACHABLE)
    &&& (l == 19 ==> s.dist_at(s.i.unwrap() as int, s.j.unwrap() as int) > sat_add(
        s.dist_at(s.i.unwrap() as int, s.k.unwrap() as int),
        s.dist_at(s.k.unwrap() as int, s.j.unwrap() as int),
    ))
}

/// Writing one cell leaves every other cell as it was.
proof fn lemma_with_dist_at(s: StateView, a: int, b: int, val: u16, r: int, c: int)
    requires
        s.wf(),
        s.dist is Some,
        0 <= a < s.V,
        0 <= b < s.V,
        0 <= r < s.V,
        0 <= c < s.V,
    ensures
        s.with_dist(a, b, val).dist_at(r, c) == if r == a && c == b {
            val
        } else {
            s.dist_at(r, c)
        },
{
    let n = s.V as int;
    lemma_flat_in_bounds(a, b, n);
    lemma_flat_in_bounds(r, c, n);
    if r != a || c != b {
        lemma_fundamental_div_mod_converse(flat(r, c, n), n, r, c);
        lemma_fundamental_div_mod_converse(flat(a, b, n), n, a, b);
    }
}

/// Writing one successor leaves every other successor as it was.
proof fn lemma_with_next_at(s: StateView, a: int, b: int, val: Option<u16>, r: int, c: int)
    requires
        s.wf(),
        s.next is Some,
        0 <= a < s.V,
        0 <= b < s.V,
        0 <= r < s.V,
        0 <= c < s.V,
    ensures
        s.with_next(a, b, val).next_at(r, c) == if r == a && c == b {
            val
        } else {
            s.next_at(r, c)
        },
{
    let n = s.V as int;
    lemma_flat_in_bounds(a, b, n);
    lemma_flat_in_bounds(r, c, n);
    if r != a || c != b {
        lemma_fundamental_div_mod_converse(flat(r, c, n), n, r, c);
        lemma_fundamental_div_mod_converse(flat(a, b, n), n, a, b);
    }
}

/// Every vertex reaches itself.
proof fn lemma_reach_self(m: Seq<Seq<u8>>, p: nat, a: int)
    ensures
        reach(m, p, a, a),
    decreases p,
{
    if p > 0 {
        lemma_reach_self(m, (p - 1) as nat, a);
    }
}

/// The pivot's own row and column do not change in the round that uses it.
proof fn lemma_pivot_stable(m: Seq<Seq<u8>>, x: nat, i: int, j: int)
    ensures
        reach(m, x + 1, i, x as int) == reach(m, x, i, x as int),
        reach(m, x + 1, x as int, j) == reach(m, x, x as int, j),
{
    assert(reach(m, x + 1, i, x as int) == (reach(m, x, i, x as int) || (reach(m, x, i, x as int)
        && reach(m, x, x as int, x as int))));
    assert(reach(m, x + 1, x as int, j) == (reach(m, x, x as int, j) || (reach(m, x, x as int, x as int)
        && reach(m, x, x as int, j))));
}

/// Each step of a run keeps the distance matrix in line with what has been computed.
#[verifier::rlimit(100)]
pub proof fn lemma_step_tracks(s: StateView, m: Seq<Seq<u8>>)
    requires
        runnable(s, m),
        tracks(s, m),
        !s.is_done,
    ensures
        tracks(step_spec(s, m), m),
{
    let t = step_spec(s, m);
    let n = s.V as int;
    let l = s.current_line;
    if l == 2 {
        assert forall|r: int, c: int| 0 <= r < n && 0 <= c < n implies #[trigger] t.dist_at(r, c)
            == expected_dist(t, m, r, c) by {
            lemma_flat_in_bounds(r, c, n);
            lemma_fundamental_div_mod_converse(flat(r, c, n), n, r, c);
            assert(t.dist.unwrap() == flatten_matrix(m, n));
        }
    } else if l == 7 || l == 12 {
        let a = s.u.unwrap() as int;
        let b = s.v.unwrap() as int;
        assert forall|r: int, c: int| 0 <= r < n && 0 <= c < n implies #[trigger] t.dist_at(r, c)
            == expected_dist(t, m, r, c) by {
            lemma_with_dist_at(s, b, b, 0, r, c);
            lemma_with_dist_at(s, a, b, UNREACHABLE, r, c);
            assert(s.dist_at(r, c) == expected_dist(s, m, r, c));
            assert(reach(m, 0, r, c) == edge_or_self(m, r, c));
        }
        assert forall|r: int, c: int| 0 <= r < n && 0 <= c < n && next_known(t, r, c) implies (
        #[trigger] t.next_at(r, c) is None <==> t.dist_at(r, c) == UNREACHABLE) by {
            lemma_with_dist_at(s, b, b, 0, r, c);
            lemma_with_dist_at(s, a, b, UNREACHABLE, r, c);
            assert(s.next_at(r, c) is None <==> s.dist_at(r, c) == UNREACHABLE);
        }
    } else if l == 9 {
        let a = s.u.unwrap() as int;
        let b = s.v.unwrap() as int;
        assert forall|r: int, c: int| 0 <= r < n && 0 <= c < n implies #[trigger] t.dist_at(r, c)
            == expected_dist(t, m, r, c) by {
            assert(s.dist_at(r, c) == expected_dist(s, m, r, c));
            assert(reach(m, 0, r, c) == edge_or_self(m, r, c));
        }
        assert forall|r: int, c: int| 0 <= r < n && 0 <= c < n && next_known(t, r, c) implies (
        #[trigger] t.next_at(r, c) is None <==> t.dist_at(r, c) == UNREACHABLE) by {
            assert(s.next_at(r, c) is None <==> s.dist_at(r, c) == UNREACHABLE);
        }
    } else if l == 18 || l == 19 {
        let x = s.k.unwrap() as int;
        let y = s.i.unwrap() as int;
        let z = s.j.unwrap() as int;
        let xn = x as nat;
        lemma_pivot_stable(m, xn, y, z);
        assert(s.dist_at(y, x) == expected_dist(s, m, y, x));
        assert(s.dist_at(x, z) == expected_dist(s, m, x, z));
        assert(s.dist_at(y, z) == expected_dist(s, m, y, z));
        assert(reach(m, xn + 1, y, z) == (reach(m, xn, y, z) || (reach(m, xn, y, x) && reach(
            m,
            xn,
            x,
            z,
        ))));
        let sum = sat_add(s.dist_at(y, x), s.dist_at(x, z));
        lemma_reach_self(m, xn, x);
        lemma_reach_self(m, xn + 1, x);
        assert(s.dist_at(x, x) == expected_dist(s, m, x, x));
        assert forall|r: int, c: int| 0 <= r < n && 0 <= c < n implies #[trigger] t.dist_at(r, c)
            == expected_dist(t, m, r, c) by {
            lemma_with_dist_at(s, y, z, sum, r, c);
            assert(s.dist_at(r, c) == expected_dist(s, m, r, c));
        }
        assert forall|r: int, c: int| 0 <= r < n && 0 <= c < n && next_known(t, r, c) implies (
        #[trigger] t.next_at(r, c) is None <==> t.dist_at(r, c) == UNREACHABLE) by {
            lemma_with_dist_at(s, y, z, sum, r, c);
            assert(s.next_at(r, c) is None <==> s.dist_at(r, c) == UNREACHABLE);
        }
        if l == 19 {
            lemma_with_dist_at(s, y, z, sum, x, z);
            lemma_with_dist_at(s, y, z, sum, y, z);
        }
    } else if l == 8 || l == 10 || l == 13 || l == 20 {
        let a = if l == 20 { s.i.unwrap() as int } else if l == 8 { s.v.unwrap() as int } else { s.u.unwrap() as int };
        let b = if l == 20 { s.j.unwrap() as int } else { s.v.unwrap() as int };
        let val = if l == 20 { s.next_at(s.k.unwrap() as int, b) } else if l == 13 { None } else { s.v };
        assert forall|r: int, c: int| 0 <= r < n && 0 <= c < n implies #[trigger] t.dist_at(r, c)
            == expected_dist(t, m, r, c) by {
            assert(s.dist_at(r, c) == expected_dist(s, m, r, c));
        }
        if l == 20 {
            assert(next_known(s, s.k.unwrap() as int, b));
            assert(s.next_at(s.k.unwrap() as int, b) is None <==> s.dist_at(s.k.unwrap() as int, b) == UNREACHABLE);
        }
        if l == 10 {
            assert(s.dist_at(a, b) == expected_dist(s, m, a, b));
        }
        assert forall|r: int, c: int| 0 <= r < n && 0 <= c < n && next_known(t, r, c) implies (
        #[trigger] t.next_at(r, c) is None <==> t.dist_at(r, c) == UNREACHABLE) by {
            lemma_with_next_at(s, a, b, val, r, c);
            assert(s.dist_at(r, c) == expected_dist(s, m, r, c));
            if !(r == a && c == b) {
                assert(s.next_at(r, c) is None <==> s.dist_at(r, c) == UNREACHABLE);
            }
        }
    } else {
        assert forall|r: int, c: int| 0 <= r < n && 0 <= c < n && t.dist is Some implies #[trigger] t.dist_at(r, c)
            == expected_dist(t, m, r, c) by {
            assert(s.dist_at(r, c) == expected_dist(s, m, r, c));
        }
        assert forall|r: int, c: int| 0 <= r < n && 0 <= c < n && t.next is Some && next_known(t, r, c) implies (
        #[trigger] t.next_at(r, c) is None <==> t.dist_at(r, c) == UNREACHABLE) by {
            if s.next is Some && next_known(s, r, c) {
                assert(s.next_at(r, c) is None <==> s.dist_at(r, c) == UNREACHABLE);
            }
            assert(s.dist_at(r, c) == expected_dist(s, m, r, c));
        }
    }
}

/// From a state whose distances are on track, the run finishes, and the finished
/// state is still on track.
proof fn lemma_run_tracks(s: StateView, m: Seq<Seq<u8>>)
    requires
        runnable(s, m),
        tracks(s, m),
    ensures
        exists|n: nat| #[trigger] steps(s, m, n).is_done && tracks(steps(s, m, n), m),
    decreases rank_phase(s), rank_outer(s), rank_middle(s), rank_inner(s), rank_line(s),
{
    if s.is_done {
        assert(steps(s, m, 0) == s);
    } else {
        let t = step_spec(s, m);
        lemma_step_consistent(s, m);
        lemma_step_lowers_rank(s, m);
        lemma_step_tracks(s, m);
        lemma_run_tracks(t, m);
        let n = choose|n: nat| #[trigger] steps(t, m, n).is_done && tracks(steps(t, m, n), m);
        assert(steps(s, m, n + 1) == steps(t, m, n));
    }
}

/// A run on a square matrix of side `n` finishes, and its distance matrix then holds
/// the all-pairs shortest distances: zero from `i` to `j` when `j` can be reached from
/// `i` (a zero cell is an edge), `UNREACHABLE` otherwise.
pub proof fn lemma_final_distances_are_shortest(m: Seq<Seq<u8>>, n: u16)
    requires
        is_square(m, n as int),
    ensures
        exists|c: nat| {
            let f = #[trigger] steps(initial(n), m, c);
            &&& f.is_done
            &&& f.dist is Some
            &&& forall|i: int, j: int|
                0 <= i < n && 0 <= j < n ==> #[trigger] f.dist_at(i, j) == ref_dist(
                    m,
                    n as nat,
                    i,
                    j,
                )
        },
{
    let s = initial(n);
    lemma_run_tracks(s, m);
    let c = choose|c: nat| #[trigger] steps(s, m, c).is_done && tracks(steps(s, m, c), m);
    let f = steps(s, m, c);
    lemma_steps_runnable(s, m, c);
    assert forall|i: int, j: int| 0 <= i < n && 0 <= j < n implies #[trigger] f.dist_at(i, j)
        == ref_dist(m, n as nat, i, j) by {
        assert(f.dist_at(i, j) == expected_dist(f, m, i, j));
    }
}

/// Two reachable legs through a vertex below `p` join into a reachable pair.
proof fn lemma_reach_transitive(m: Seq<Seq<u8>>, p: nat, a: int, b: int, c: int)
    requires
        0 <= b < p,
        reach(m, p, a, b),
        reach(m, p, b, c),
    ensures
        reach(m, p, a, c),
    decreases p,
{
    let q = (p - 1) as nat;
    let qi = q as int;
    lemma_pivot_stable(m, q, a, c);
    if b < qi {
        if reach(m, q, a, b) && reach(m, q, b, c) {
            lemma_reach_transitive(m, q, a, b, c);
        } else if reach(m, q, a, b) {
            lemma_reach_transitive(m, q, a, b, qi);
        } else if reach(m, q, b, c) {
            lemma_reach_transitive(m, q, qi, b, c);
        }
    }
}

/// The distances that a run on a square matrix of side `n` finishes with cannot be
/// relaxed any further: no pair gets shorter by passing through a third vertex.
pub proof fn lemma_final_distances_admit_no_relaxation(m: Seq<Seq<u8>>, n: u16)
    requires
        is_square(m, n as int),
    ensures
        exists|c: nat| {
            let f = #[trigger] steps(initial(n), m, c);
            &&& f.is_done
            &&& f.dist is Some
            &&& forall|i: int, j: int, k: int|
                0 <= i < n && 0 <= j < n && 0 <= k < n ==> #[trigger] f.dist_at(i, j) <= sat_add(
                    #[trigger] f.dist_at(i, k),
                    #[trigger] f.dist_at(k, j),
                )
        },
{
    lemma_final_distances_are_shortest(m, n);
    let c = choose|c: nat| {
        let f = #[trigger] steps(initial(n), m, c);
        &&& f.is_done
        &&& f.dist is Some
        &&& forall|i: int, j: int|
            0 <= i < n && 0 <= j < n ==> #[trigger] f.dist_at(i, j) == ref_dist(m, n as nat, i, j)
    };
    let f = steps(initial(n), m, c);
    assert forall|i: int, j: int, k: int| 0 <= i < n && 0 <= j < n && 0 <= k < n implies #[trigger] f.dist_at(i, j)
        <= sat_add(#[trigger] f.dist_at(i, k), #[trigger] f.dist_at(k, j)) by {
        if reach(m, n as nat, i, k) && reach(m, n as nat, k, j) {
            lemma_reach_transitive(m, n as nat, i, k, j);
        }
    }
}

/// When a run on a square matrix of side `n` finishes, a pair `(i, j)` with `i != j`
/// and no walk along zero cells from `i` to `j` holds `UNREACHABLE` and no successor;
/// every other pair holds a successor.
pub proof fn lemma_unreachable_pairs(m: Seq<Seq<u8>>, n: u16)
    requires
        is_square(m, n as int),
    ensures
        exists|c: nat| {
            let f = #[trigger] steps(initial(n), m, c);
            &&& f.is_done
            &&& f.dist is Some
            &&& f.next is Some
            &&& forall|i: int, j: int|
                0 <= i < n && 0 <= j < n ==> {
                    &&& !(i == j || connected(m, n as nat, i, j)) ==> #[trigger] f.dist_at(i, j)
                        == UNREACHABLE && f.next_at(i, j) is None
                    &&& (i == j || connected(m, n as nat, i, j)) ==> f.next_at(i, j) is Some
                }
        },
{
    let s = initial(n);
    lemma_run_tracks(s, m);
    let c = choose|c: nat| #[trigger] steps(s, m, c).is_done && tracks(steps(s, m, c), m);
    let f = steps(s, m, c);
    lemma_steps_runnable(s, m, c);
    assert forall|i: int, j: int| 0 <= i < n && 0 <= j < n implies {
        &&& !(i == j || connected(m, n as nat, i, j)) ==> #[trigger] f.dist_at(i, j)
            == UNREACHABLE && f.next_at(i, j) is None
        &&& (i == j || connected(m, n as nat, i, j)) ==> f.next_at(i, j) is Some
    } by {
        lemma_reach_iff_walk(m, n as nat, i, j);
        assert(f.dist_at(i, j) == expected_dist(f, m, i, j));
        assert(next_known(f, i, j));
        assert(f.next_at(i, j) is None <==> f.dist_at(i, j) == UNREACHABLE);
    }
}

/// `w` is a walk along zero cells whose inner vertices all lie in `[0, k)`; a single
/// vertex is a walk of no edges.
pub open spec fn is_walk(m: Seq<Seq<u8>>, k: nat, w: Seq<int>) -> bool {
    &&& w.len() >= 1
    &&& forall|t: int| 0 <= t < w.len() - 1 ==> m[#[trigger] w[t]][w[t + 1]] == 0
    &&& forall|t: int| 0 < t < w.len() - 1 ==> 0 <= #[trigger] w[t] < k
}

/// Some walk leads from `i` to `j` through inner vertices below `k`.
pub open spec fn connected(m: Seq<Seq<u8>>, k: nat, i: int, j: int) -> bool {
    exists|w: Seq<int>| #[trigger] is_walk(m, k, w) && w[0] == i && w[w.len() - 1] == j
}

proof fn lemma_reach_gives_walk(m: Seq<Seq<u8>>, k: nat, i: int, j: int)
    requires
        reach(m, k, i, j),
    ensures
        connected(m, k, i, j),
    decreases k,
{
    if k == 0 {
        if i == j {
            let w = seq![i];
            assert(is_walk(m, k, w));
        } else {
            let w = seq![i, j];
            assert(is_walk(m, k, w));
        }
    } else {
        let p = (k - 1) as nat;
        let pi = p as int;
        if reach(m, p, i, j) {
            lemma_reach_gives_walk(m, p, i, j);
            let w = choose|w: Seq<int>| #[trigger] is_walk(m, p, w) && w[0] == i && w[w.len() - 1] == j;
            assert(is_walk(m, k, w));
        } else {
            lemma_reach_gives_walk(m, p, i, pi);
            lemma_reach_gives_walk(m, p, pi, j);
            let w1 = choose|w: Seq<int>| #[trigger] is_walk(m, p, w) && w[0] == i && w[w.len() - 1] == pi;
            let w2 = choose|w: Seq<int>| #[trigger] is_walk(m, p, w) && w[0] == pi && w[w.len() - 1] == j;
            let w = w1 + w2.subrange(1, w2.len() as int);
            let n1 = w1.len() as int;
            assert forall|t: int| 0 <= t < w.len() - 1 implies m[#[trigger] w[t]][w[t + 1]] == 0 by {
                if t < n1 - 1 {
                    assert(w[t] == w1[t] && w[t + 1] == w1[t + 1]);
                } else if t == n1 - 1 {
                    assert(w[t] == w2[0] && w[t + 1] == w2[1]);
                } else {
                    assert(w[t] == w2[t - n1 + 1] && w[t + 1] == w2[t - n1 + 2]);
                }
            }
            assert forall|t: int| 0 < t < w.len() - 1 implies 0 <= #[trigger] w[t] < k by {
                if t < n1 - 1 {
                    assert(w[t] == w1[t]);
                } else if t == n1 - 1 {
                    assert(w[t] == pi);
                } else {
                    assert(w[t] == w2[t - n1 + 1]);
                }
            }
            assert(w[w.len() - 1] == w2[w2.len() - 1]);
            assert(is_walk(m, k, w));
        }
    }
}

proof fn lemma_walk_gives_reach(m: Seq<Seq<u8>>, k: nat, w: Seq<int>)
    requires
        is_walk(m, k, w),
    ensures
        reach(m, k, w[0], w[w.len() - 1]),
    decreases k, w.len(),
{
    let i = w[0];
    let j = w[w.len() - 1];
    if w.len() == 1 {
        lemma_reach_self(m, k, i);
    } else if k == 0 {
        if w.len() > 2 {
            assert(0 <= w[1] < 0);
        }
        assert(m[w[0]][w[1]] == 0);
    } else {
        let p = (k - 1) as nat;
        let pi = p as int;
        if exists|f: int| 0 < f < w.len() - 1 && #[trigger] w[f] == pi {
            let f = choose|f: int| 0 < f < w.len() - 1 && #[trigger] w[f] == pi;
            let w1 = w.subrange(0, f + 1);
            let w2 = w.subrange(f, w.len() as int);
            assert forall|t: int| 0 <= t < w1.len() - 1 implies m[#[trigger] w1[t]][w1[t + 1]] == 0 by {
                assert(w1[t] == w[t] && w1[t + 1] == w[t + 1]);
            }
            assert forall|t: int| 0 < t < w1.len() - 1 implies 0 <= #[trigger] w1[t] < k by {
                assert(w1[t] == w[t]);
            }
            assert forall|t: int| 0 <= t < w2.len() - 1 implies m[#[trigger] w2[t]][w2[t + 1]] == 0 by {
                assert(w2[t] == w[t + f] && w2[t + 1] == w[t + f + 1]);
            }
            assert forall|t: int| 0 < t < w2.len() - 1 implies 0 <= #[trigger] w2[t] < k by {
                assert(w2[t] == w[t + f]);
            }
            lemma_walk_gives_reach(m, k, w1);
            lemma_walk_gives_reach(m, k, w2);
            lemma_pivot_stable(m, p, i, j);
        } else {
            assert forall|t: int| 0 < t < w.len() - 1 implies 0 <= #[trigger] w[t] < p by {
                assert(w[t] != pi);
            }
            assert(is_walk(m, p, w));
            lemma_walk_gives_reach(m, p, w);
        }
    }
}

/// The recurrence `reach` is exactly walk reachability: `j` can be reached from `i`
/// through inner vertices below `k` if and only if `i == j` or some walk along zero
/// cells leads from `i` to `j` with all its inner vertices below `k`.
pub proof fn lemma_reach_iff_walk(m: Seq<Seq<u8>>, k: nat, i: int, j: int)
    ensures
        reach(m, k, i, j) <==> (i == j || connected(m, k, i, j)),
{
    if reach(m, k, i, j) {
        lemma_reach_gives_walk(m, k, i, j);
    }
    if i == j {
        lemma_reach_self(m, k, i);
    }
    if connected(m, k, i, j) {
        let w = choose|w: Seq<int>| #[trigger] is_walk(m, k, w) && w[0] == i && w[w.len() - 1] == j;
        lemma_walk_gives_reach(m, k, w);
    }
}

} // verus!
