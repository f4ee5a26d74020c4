mod correctness;
mod driver;
mod floyd_warshall_algo;
mod floyd_warshall_state;
mod utils;

pub use correctness::{
    connected, edge_or_self, expected_dist, is_walk, lemma_reach_iff_walk, init_done, lemma_final_distances_admit_no_relaxation,
    lemma_final_distances_are_shortest, lemma_step_tracks, lemma_unreachable_pairs, next_known,
    reach, ref_dist, round, round_done, tracks,
};
pub use driver::{
    checkpoint_due, config_ok, lemma_finished_state_unique, lemma_run_terminates, lemma_step_consistent, lemma_step_counts_up,
    lemma_step_deterministic, lemma_step_lowers_rank, lemma_steps_runnable, loop_left, rank_inner,
    rank_line, rank_lt, rank_middle, rank_outer, rank_phase, reg_count, runnable, start, step_spec,
    steps, ConfigError,
};
pub use floyd_warshall_algo::{
    bump, consistent, execute_line, line_op, loop_jump, matrix_view, sat_add, LINE_COUNT, UNREACHABLE,
};
pub use floyd_warshall_state::{
    flat, flatten_matrix, initial, is_square, lemma_flat_in_bounds, reg_ok, FloydWarshallState,
    StateView,
};
pub use utils::{get_1D_index_from, lemma_side_square_fits};
