use vstd::prelude::*;

use crate::floyd_warshall_state::{
    flatten_matrix, is_square, reg_ok, FloydWarshallState, StateView,
};

verus! {

/// Number of lines in the program table.
pub const LINE_COUNT: u8 = 23;

/// The distance that stands for "no known path".
pub const UNREACHABLE: u16 = 0xFFFF;

/// The input matrix seen as sequences of cells.
pub open spec fn matrix_view(matrix: &Vec<Vec<u8>>) -> Seq<Seq<u8>> {
    matrix@.map_values(|row: Vec<u8>| row@)
}

/// Addition of two distances that stops at `UNREACHABLE` instead of wrapping.
pub open spec fn sat_add(a: u16, b: u16) -> u16 {
    if a + b > u16::MAX {
        u16::MAX
    } else {
        (a + b) as u16
    }
}

/// The next value of a loop register counting over `[0, n)`: `0` when the loop has
/// not started, the successor otherwise, and `None` once the count reaches `n`.
pub open spec fn bump(r: Option<u16>, n: u16) -> Option<u16> {
    let x: int = match r {
        Some(x) => x + 1,
        None => 0,
    };
    if x >= n {
        None
    } else {
        Some(x as u16)
    }
}

/// The jump taken by a loop-header line: leave for `exit` when the register ran out,
/// else fall through into the body.
pub open spec fn loop_jump(r: Option<u16>, exit: u8) -> Option<u8> {
    if r is None {
        Some(exit)
    } else {
        None
    }
}

/// What one line of the program table does to the state, and the line it jumps to
/// (`None`: fall through to the following line).
///
/// Each loop header advances its own register: line 16 steps `i` from `i` and line 17
/// steps `j` from `j`. Deriving either from `k` would restart that loop on every pass
/// and the run would never finish once `V >= 2`.
pub open spec fn line_op(s: StateView, m: Seq<Seq<u8>>) -> (StateView, Option<u8>) {
    let n = s.V;
    let u = s.u.unwrap() as int;
    let v = s.v.unwrap() as int;
    let k = s.k.unwrap() as int;
    let i = s.i.unwrap() as int;
    let j = s.j.unwrap() as int;
    match s.current_line {
        2 => (StateView { dist: Some(flatten_matrix(m, n as int)), ..s }, None),
        3 => (StateView { next: Some(Seq::new((n * n) as nat, |p: int| None::<u16>)), ..s }, None),
        4 => (StateView { u: bump(s.u, n), ..s }, loop_jump(bump(s.u, n), 15)),
        5 => (StateView { v: bump(s.v, n), ..s }, loop_jump(bump(s.v, n), 4)),
        6 => (s, if s.u == s.v { None } else { Some(9) }),
        7 => (s.with_dist(v, v, 0), None),
        8 => (s.with_next(v, v, s.v), Some(5)),
        9 => (s, if m[u][v] == 0 { None } else { Some(12) }),
        10 => (s.with_next(u, v, s.v), Some(5)),
        12 => (s.with_dist(u, v, UNREACHABLE), None),
        13 => (s.with_next(u, v, None), Some(5)),
        15 => (StateView { k: bump(s.k, n), ..s }, loop_jump(bump(s.k, n), 22)),
        16 => (StateView { i: bump(s.i, n), ..s }, loop_jump(bump(s.i, n), 15)),
        17 => (StateView { j: bump(s.j, n), ..s }, loop_jump(bump(s.j, n), 16)),
        18 => (
            s,
            if s.dist_at(i, j) > sat_add(s.dist_at(i, k), s.dist_at(k, j)) {
                None
            } else {
                Some(17)
            },
        ),
        19 => (s.with_dist(i, j, sat_add(s.dist_at(i, k), s.dist_at(k, j))), None),
        20 => (s.with_next(i, j, s.next_at(k, j)), Some(17)),
        22 => (StateView { is_done: true, ..s }, None),
        _ => (s, None),
    }
}

/// Which registers are set and which matrices are allocated at each line that an
/// execution started by `make` can reach. Line 23 is the state after the final line.
pub open spec fn consistent(s: StateView) -> bool {
    let regs_none = s.u is None && s.v is None && s.k is None && s.i is None && s.j is None;
    let alloc = s.dist is Some && s.next is Some;
    &&& s.wf()
    &&& s.current_line <= LINE_COUNT
    &&& (s.is_done <==> s.current_line == LINE_COUNT)
    &&& match s.current_line {
        0 | 1 | 2 => s.dist is None && s.next is None && regs_none,
        3 => s.dist is Some && s.next is None && regs_none,
        4 => alloc && s.v is None && s.k is None && s.i is None && s.j is None,
        5 => alloc && s.u is Some && s.k is None && s.i is None && s.j is None,
        6 | 7 | 8 | 9 | 10 | 12 | 13 => alloc && s.u is Some && s.v is Some && s.k is None
            && s.i is None && s.j is None,
        15 => alloc && s.u is None && s.v is None && s.i is None && s.j is None,
        16 => alloc && s.u is None && s.v is None && s.k is Some && s.j is None,
        17 => alloc && s.u is None && s.v is None && s.k is Some && s.i is Some,
        18 | 19 | 20 => alloc && s.u is None && s.v is None && s.k is Some && s.i is Some
            && s.j is Some,
        22 | 23 => alloc && regs_none,
        _ => false,
    }
}

/// Advances a loop register over `[0, n)`.
fn bump_register(r: Option<u16>, n: u16) -> (res: Option<u16>)
    requires
        reg_ok(r, n),
    ensures
        res == bump(r, n),
        reg_ok(res, n),
{
    let x: u16 = match r {
        Some(x) => x + 1,
        None => 0,
    };
    if x >= n {
        None
    } else {
        Some(x)
    }
}

/// Runs the line `state.current_line` of the program table on `state` and returns the
/// line to jump to, if the line jumps.
pub fn execute_line(state: &mut FloydWarshallState, matrix: &Vec<Vec<u8>>) -> (jump: Option<u8>)
    requires
        consistent(old(state)@),
        !old(state).is_done,
        is_square(matrix_view(matrix), old(state).V as int),
    ensures
        (final(state)@, jump) == line_op(old(state)@, matrix_view(matrix)),
        final(state)@.wf(),
{
    let n = state.V;
    match state.current_line {
        2 => {
            state.init_dist_from(matrix);
            None
        },
        3 => {
            state.init_next();
            None
        },
        4 => {
            state.u = bump_register(state.u, n);
            if state.u.is_none() { Some(15) } else { None }
        },
        5 => {
            state.v = bump_register(state.v, n);
            if state.v.is_none() { Some(4) } else { None }
        },
        6 => {
            if state.u == state.v { None } else { Some(9) }
        },
        7 => {
            let v = state.v.unwrap();
            state.update_dist(v, v, 0);
            None
        },
        8 => {
            let v = state.v.unwrap();
            state.update_next(v, v, state.v);
            Some(5)
        },
        9 => {
            let u = state.u.unwrap();
            let v = state.v.unwrap();
            proof {
                assert(matrix_view(matrix)[u as int] == matrix@[u as int]@);
            }
            if matrix[u as usize][v as usize] == 0 { None } else { Some(12) }
        },
        10 => {
            let u = state.u.unwrap();
            let v = state.v.unwrap();
            state.update_next(u, v, state.v);
            Some(5)
        },
        12 => {
            let u = state.u.unwrap();
            let v = state.v.unwrap();
            state.update_dist(u, v, UNREACHABLE);
            None
        },
        13 => {
            let u = state.u.unwrap();
            let v = state.v.unwrap();
            state.update_next(u, v, None);
            Some(5)
        },
        15 => {
            state.k = bump_register(state.k, n);
            if state.k.is_none() { Some(22) } else { None }
        },
        16 => {
            state.i = bump_register(state.i, n);
            if state.i.is_none() { Some(15) } else { None }
        },
        17 => {
            state.j = bump_register(state.j, n);
            if state.j.is_none() { Some(16) } else { None }
        },
        18 => {
            let i = state.i.unwrap();
            let j = state.j.unwrap();
            let k = state.k.unwrap();
            let dist_ij = state.get_dist(i, j);
            let dist_ik = state.get_dist(i, k);
            let dist_kj = state.get_dist(k, j);
            if dist_ij > dist_ik.saturating_add(dist_kj) { None } else { Some(17) }
        },
        19 => {
            let i = state.i.unwrap();
            let j = state.j.unwrap();
            let k = state.k.unwrap();
            let new_distance = state.get_dist(i, k).saturating_add(state.get_dist(k, j));
            state.update_dist(i, j, new_distance);
            None
        },
        20 => {
            let i = state.i.unwrap();
            let j = state.j.unwrap();
            let k = state.k.unwrap();
            let new_next = state.get_next(k, j);
            state.update_next(i, j, new_next);
            Some(17)
        },
        22 => {
            state.is_done = true;
            None
        },
        _ => None,
    }
}

} // verus!
