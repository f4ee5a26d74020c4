use vstd::prelude::*;

use crate::floyd_warshall_algo::{consistent, execute_line, line_op, matrix_view};
use crate::floyd_warshall_state::{
    initial, is_square, lemma_flat_in_bounds, FloydWarshallState, StateView,
};

verus! {

/// A run that was refused before its first step.
#[derive(Debug, Clone, Copy, PartialEq, Eq)]
pub enum ConfigError {
    /// The checkpoint interval is zero.
    InvalidCheckpointInterval,
    /// Some row of the input matrix does not have as many cells as there are rows.
    NonSquareMatrix,
    /// The matrix has more rows than a vertex index can name.
    TooManyVertices,
}

/// The state after one step of the driver: run the current line, move to the line it
/// jumps to (or the following one) and count the step.
pub open spec fn step_spec(s: StateView, m: Seq<Seq<u8>>) -> StateView {
    let (t, jump) = line_op(s, m);
    StateView {
        current_line: match jump {
            Some(l) => l,
            None => (s.current_line + 1) as u8,
        },
        current_step: (s.current_step + 1) as u32,
        ..t
    }
}

/// A snapshot is due after the step that brings the counter to a positive multiple of
/// the interval.
pub open spec fn checkpoint_due(step: u32, interval: u32) -> bool {
    step > 0 && step % interval == 0
}

/// What `start` accepts: a positive interval and a square matrix whose side fits a
/// vertex index.
pub open spec fn config_ok(m: Seq<Seq<u8>>, interval: u32) -> bool {
    interval > 0 && is_square(m, m.len() as int) && m.len() <= u16::MAX
}

/// A state that an execution started by `make` on a square matrix of side `V` can be in.
pub open spec fn runnable(s: StateView, m: Seq<Seq<u8>>) -> bool {
    consistent(s) && is_square(m, s.V as int)
}

/// Each step keeps the state consistent with the line it stands on.
pub proof fn lemma_step_consistent(s: StateView, m: Seq<Seq<u8>>)
    requires
        runnable(s, m),
        !s.is_done,
    ensures
        runnable(step_spec(s, m), m),
{
    let t = step_spec(s, m);
    let n = s.V as int;
    if s.current_line == 7 || s.current_line == 8 {
        lemma_flat_in_bounds(s.v.unwrap() as int, s.v.unwrap() as int, n);
    } else if s.current_line == 10 || s.current_line == 12 || s.current_line == 13 {
        lemma_flat_in_bounds(s.u.unwrap() as int, s.v.unwrap() as int, n);
    } else if s.current_line == 19 || s.current_line == 20 {
        lemma_flat_in_bounds(s.i.unwrap() as int, s.j.unwrap() as int, n);
    }
    assert(t.wf());
}

/// Every step raises the step counter by exactly one, so the counters of successive
/// snapshots strictly increase.
pub proof fn lemma_step_counts_up(s: StateView, m: Seq<Seq<u8>>)
    requires
        s.current_step < u32::MAX,
    ensures
        step_spec(s, m).current_step == s.current_step + 1,
        step_spec(s, m).current_step > s.current_step,
{
}

/// The step is a function of the state and the input matrix alone: equal states on
/// equal matrices take equal steps, so equal runs give equal snapshot sequences.
pub proof fn lemma_step_deterministic(s1: StateView, s2: StateView, m1: Seq<Seq<u8>>, m2: Seq<Seq<u8>>)
    requires
        s1 == s2,
        m1 == m2,
    ensures
        step_spec(s1, m1) == step_spec(s2, m2),
        line_op(s1, m1) == line_op(s2, m2),
{
}

/// The state after `n` steps from `s`, or the finished state if the run ends sooner.
pub open spec fn steps(s: StateView, m: Seq<Seq<u8>>, n: nat) -> StateView
    decreases n,
{
    if n == 0 || s.is_done {
        s
    } else {
        steps(step_spec(s, m), m, (n - 1) as nat)
    }
}

/// Any number of steps keeps a run on a square matrix runnable.
pub proof fn lemma_steps_runnable(s: StateView, m: Seq<Seq<u8>>, n: nat)
    requires
        runnable(s, m),
    ensures
        runnable(steps(s, m, n), m),
    decreases n,
{
    if n > 0 && !s.is_done {
        lemma_step_consistent(s, m);
        lemma_steps_runnable(step_spec(s, m), m, (n - 1) as nat);
    }
}

/// A run has one finished state: any two step counts that both end the run from `s`
/// reach the same state, with the same step counter. The checkpoint interval plays no
/// part in a step, so neither the finished state nor the total step count depends on it.
pub proof fn lemma_finished_state_unique(s: StateView, m: Seq<Seq<u8>>, a: nat, b: nat)
    requires
        steps(s, m, a).is_done,
        steps(s, m, b).is_done,
    ensures
        steps(s, m, a) == steps(s, m, b),
    decreases a,
{
    if !s.is_done {
        lemma_finished_state_unique(step_spec(s, m), m, (a - 1) as nat, (b - 1) as nat);
    }
}

/// How many times a loop register has been advanced in the current pass.
pub open spec fn reg_count(r: Option<u16>) -> int {
    match r {
        Some(x) => x + 1,
        None => 0,
    }
}

/// What is left of a loop over `[0, n)` whose register is `r`; the loop header
/// counts as half an iteration beyond the body it follows.
pub open spec fn loop_left(r: Option<u16>, at_header: bool, n: u16) -> nat {
    (2 * n + 2 - (2 * reg_count(r) + if at_header { 1int } else { 0int })) as nat
}

/// Which part of the program the line belongs to: setup and initialisation,
/// relaxation, the final line, or the finished state.
pub open spec fn rank_phase(s: StateView) -> nat {
    if s.current_line <= 14 {
        3
    } else if s.current_line <= 21 {
        2
    } else if s.current_line == 22 {
        1
    } else {
        0
    }
}

pub open spec fn rank_outer(s: StateView) -> nat {
    let l = s.current_line;
    if l <= 14 {
        loop_left(s.u, !(5 <= l && l <= 14), s.V)
    } else if l <= 21 {
        loop_left(s.k, l == 15, s.V)
    } else {
        0
    }
}

pub open spec fn rank_middle(s: StateView) -> nat {
    let l = s.current_line;
    if 5 <= l && l <= 14 {
        loop_left(s.v, l == 5, s.V)
    } else if 16 <= l && l <= 21 {
        loop_left(s.i, l == 16, s.V)
    } else {
        0
    }
}

pub open spec fn rank_inner(s: StateView) -> nat {
    let l = s.current_line;
    if 17 <= l && l <= 21 {
        loop_left(s.j, l == 17, s.V)
    } else {
        0
    }
}

pub open spec fn rank_line(s: StateView) -> nat {
    (23 - s.current_line) as nat
}

/// `t` comes strictly before `s` in the lexicographic order of the ranks.
pub open spec fn rank_lt(t: StateView, s: StateView) -> bool {
    ||| rank_phase(t) < rank_phase(s)
    ||| rank_phase(t) == rank_phase(s) && rank_outer(t) < rank_outer(s)
    ||| rank_phase(t) == rank_phase(s) && rank_outer(t) == rank_outer(s) && rank_middle(t)
        < rank_middle(s)
    ||| rank_phase(t) == rank_phase(s) && rank_outer(t) == rank_outer(s) && rank_middle(t)
        == rank_middle(s) && rank_inner(t) < rank_inner(s)
    ||| rank_phase(t) == rank_phase(s) && rank_outer(t) == rank_outer(s) && rank_middle(t)
        == rank_middle(s) && rank_inner(t) == rank_inner(s) && rank_line(t) < rank_line(s)
}

/// Every step of an unfinished run lowers its rank.
pub proof fn lemma_step_lowers_rank(s: StateView, m: Seq<Seq<u8>>)
    requires
        runnable(s, m),
        !s.is_done,
    ensures
        rank_lt(step_spec(s, m), s),
{
}

/// The program table always finishes: from any state of a run on a square matrix,
/// some number of steps reaches a finished state.
pub proof fn lemma_run_terminates(s: StateView, m: Seq<Seq<u8>>)
    requires
        runnable(s, m),
    ensures
        exists|n: nat| (#[trigger] steps(s, m, n)).is_done,
    decreases rank_phase(s), rank_outer(s), rank_middle(s), rank_inner(s), rank_line(s),
{
    if s.is_done {
        assert(steps(s, m, 0).is_done);
    } else {
        let t = step_spec(s, m);
        lemma_step_consistent(s, m);
        lemma_step_lowers_rank(s, m);
        lemma_run_terminates(t, m);
        let n = choose|n: nat| (#[trigger] steps(t, m, n)).is_done;
        assert(steps(s, m, n + 1) == steps(t, m, n));
        assert(steps(s, m, n + 1).is_done);
    }
}

/// Checks the configuration of a run and builds its initial state.
pub fn start(adjacency_matrix: &Vec<Vec<u8>>, check_point_size: u32) -> (r: Result<
    FloydWarshallState,
    ConfigError,
>)
    ensures
        r is Ok <==> config_ok(matrix_view(adjacency_matrix), check_point_size),
        check_point_size == 0 ==> r == Err::<FloydWarshallState, ConfigError>(
            ConfigError::InvalidCheckpointInterval,
        ),
        check_point_size > 0 && !is_square(
            matrix_view(adjacency_matrix),
            adjacency_matrix@.len() as int,
        ) ==> r == Err::<FloydWarshallState, ConfigError>(ConfigError::NonSquareMatrix),
        check_point_size > 0 && is_square(
            matrix_view(adjacency_matrix),
            adjacency_matrix@.len() as int,
        ) && adjacency_matrix@.len() > u16::MAX ==> r == Err::<FloydWarshallState, ConfigError>(
            ConfigError::TooManyVertices,
        ),
        r matches Ok(s) ==> {
            &&& s@ == initial(adjacency_matrix@.len() as u16)
            &&& s.V == adjacency_matrix@.len()
            &&& runnable(s@, matrix_view(adjacency_matrix))
        },
{
    if check_point_size == 0 {
        return Err(ConfigError::InvalidCheckpointInterval);
    }
    let ghost m = matrix_view(adjacency_matrix);
    let n = adjacency_matrix.len();
    let mut y: usize = 0;
    while y < n
        invariant
            n == adjacency_matrix@.len(),
            m == matrix_view(adjacency_matrix),
            y <= n,
            check_point_size > 0,
            forall|r: int| 0 <= r < y ==> (#[trigger] m[r]).len() == n,
        decreases n - y,
    {
        proof {
            assert(m[y as int] == adjacency_matrix@[y as int]@);
        }
        if adjacency_matrix[y].len() != n {
            return Err(ConfigError::NonSquareMatrix);
        }
        y = y + 1;
    }
    if n > 0xFFFF {
        return Err(ConfigError::TooManyVertices);
    }
    Ok(FloydWarshallState::make(n as u16))
}

impl FloydWarshallState {
    /// Runs one step: the current line, the move to the next line, and the count.
    pub fn step(&mut self, adjacency_matrix: &Vec<Vec<u8>>)
        requires
            runnable(old(self)@, matrix_view(adjacency_matrix)),
            !old(self).is_done,
            old(self).current_step < u32::MAX,
        ensures
            final(self)@ == step_spec(old(self)@, matrix_view(adjacency_matrix)),
            runnable(final(self)@, matrix_view(adjacency_matrix)),
    {
        proof {
            lemma_step_consistent(self@, matrix_view(adjacency_matrix));
        }
        let line = self.current_line;
        let jump = execute_line(self, adjacency_matrix);
        self.current_line = match jump {
            Some(l) => l,
            None => line + 1,
        };
        self.current_step = self.current_step + 1;
    }

    /// Runs one step and tells whether a snapshot of the new state is due.
    pub fn advance(&mut self, adjacency_matrix: &Vec<Vec<u8>>, check_point_size: u32) -> (emit:
        bool)
        requires
            runnable(old(self)@, matrix_view(adjacency_matrix)),
            !old(self).is_done,
            old(self).current_step < u32::MAX,
            check_point_size > 0,
        ensures
            final(self)@ == step_spec(old(self)@, matrix_view(adjacency_matrix)),
            runnable(final(self)@, matrix_view(adjacency_matrix)),
            final(self).current_step == old(self).current_step + 1,
            emit == checkpoint_due(final(self).current_step, check_point_size),
    {
        self.step(adjacency_matrix);
        self.current_step % check_point_size == 0
    }
}

} // verus!
