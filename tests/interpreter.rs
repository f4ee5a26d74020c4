use floyd_warshall::{
    execute_line, get_1D_index_from, start, ConfigError, FloydWarshallState, LINE_COUNT,
    UNREACHABLE,
};

const M: u16 = UNREACHABLE;

/// Runs `state` to completion and returns the counters of the emitted snapshots,
/// the final unconditional one last.
fn run_collecting(state: &mut FloydWarshallState, matrix: &Vec<Vec<u8>>, interval: u32) -> Vec<u32> {
    let mut emitted = Vec::new();
    while !state.is_done {
        if state.advance(matrix, interval) {
            emitted.push(state.current_step);
        }
    }
    emitted.push(state.current_step);
    emitted
}

fn run_to_end(matrix: &Vec<Vec<u8>>) -> FloydWarshallState {
    let mut state = start(matrix, 1).unwrap();
    while !state.is_done {
        state.step(matrix);
    }
    state
}

#[test]
fn index_is_row_major() {
    assert_eq!(get_1D_index_from(0, 0, 3), 0);
    assert_eq!(get_1D_index_from(1, 2, 3), 5);
    assert_eq!(get_1D_index_from(2, 1, 3), 7);
    assert_eq!(get_1D_index_from(2, 2, 3), 8);
}

#[test]
fn make_starts_at_line_zero() {
    let s = FloydWarshallState::make(4);
    assert_eq!(s.current_step, 0);
    assert_eq!(s.current_line, 0);
    assert!(!s.is_done);
    assert_eq!(s.V, 4);
    assert_eq!((s.u, s.v, s.k, s.i, s.j), (None, None, None, None, None));
    assert!(s.dist.is_none());
    assert!(s.next.is_none());
}

#[test]
fn init_dist_copies_matrix_row_major() {
    let matrix = vec![vec![0u8, 1, 2], vec![3, 4, 5], vec![6, 7, 8]];
    let mut s = FloydWarshallState::make(3);
    s.init_dist_from(&matrix);
    assert_eq!(s.dist, Some(vec![0u16, 1, 2, 3, 4, 5, 6, 7, 8]));
    assert_eq!(s.get_dist(1, 2), 5);
    assert_eq!(s.get_dist(2, 0), 6);
}

#[test]
fn init_next_fills_with_none() {
    let mut s = FloydWarshallState::make(3);
    s.init_next();
    assert_eq!(s.next, Some(vec![None; 9]));
}

#[test]
fn updates_touch_one_cell() {
    let matrix = vec![vec![0u8, 0], vec![0, 0]];
    let mut s = FloydWarshallState::make(2);
    s.init_dist_from(&matrix);
    s.init_next();
    s.update_dist(1, 0, 7);
    s.update_next(0, 1, Some(1));
    assert_eq!(s.dist, Some(vec![0u16, 0, 7, 0]));
    assert_eq!(s.next, Some(vec![None, Some(1), None, None]));
    assert_eq!(s.get_dist(1, 0), 7);
    assert_eq!(s.get_next(0, 1), Some(1));
    assert_eq!(s.get_next(1, 1), None);
}

#[test]
fn start_rejects_zero_interval() {
    let matrix = vec![vec![0u8]];
    assert_eq!(start(&matrix, 0).err(), Some(ConfigError::InvalidCheckpointInterval));
}

#[test]
fn start_rejects_non_square_matrix() {
    let matrix = vec![vec![0u8, 1], vec![0]];
    assert_eq!(start(&matrix, 3).err(), Some(ConfigError::NonSquareMatrix));
    let wide = vec![vec![0u8, 1, 1], vec![0, 1, 1]];
    assert_eq!(start(&wide, 3).err(), Some(ConfigError::NonSquareMatrix));
}

#[test]
fn start_builds_fresh_state() {
    let matrix = vec![vec![0u8, 1], vec![1, 0]];
    let s = start(&matrix, 3).unwrap();
    assert_eq!(s.V, 2);
    assert_eq!(s.current_line, 0);
    assert_eq!(s.current_step, 0);
    assert!(!s.is_done);
}

#[test]
fn empty_graph_runs_to_done() {
    let matrix: Vec<Vec<u8>> = Vec::new();
    let s = run_to_end(&matrix);
    assert!(s.is_done);
    assert_eq!(s.dist, Some(Vec::new()));
    assert_eq!(s.next, Some(Vec::new()));
    // lines 0, 1, 2, 3, 4, 15, 22
    assert_eq!(s.current_step, 7);
}

#[test]
fn two_vertices_without_edges_golden_trace() {
    // zero marks an edge: only the diagonal is zero here, so no pair of distinct
    // vertices is connected
    let matrix = vec![vec![0u8, 1], vec![1, 0]];
    let s = run_to_end(&matrix);
    assert!(s.is_done);
    assert_eq!(s.current_line, 23);
    assert_eq!(s.current_step, 57);
    assert_eq!(s.dist, Some(vec![0, M, M, 0]));
    assert_eq!(s.next, Some(vec![Some(0), None, None, Some(1)]));
    assert_eq!((s.u, s.v, s.k, s.i, s.j), (None, None, None, None, None));
}

#[test]
fn single_edge_is_recorded() {
    let matrix = vec![vec![1u8, 0], vec![1, 1]];
    let s = run_to_end(&matrix);
    assert_eq!(s.dist, Some(vec![0, 0, M, 0]));
    assert_eq!(s.next, Some(vec![Some(0), Some(1), None, Some(1)]));
}

#[test]
fn chain_is_relaxed_through_middle_vertex() {
    // edges 0 -> 1 and 1 -> 2
    let matrix = vec![vec![1u8, 0, 1], vec![1, 1, 0], vec![1, 1, 1]];
    let s = run_to_end(&matrix);
    assert_eq!(s.dist, Some(vec![0, 0, 0, M, 0, 0, M, M, 0]));
    // the successor of (0, 2) is copied from (1, 2)
    assert_eq!(s.get_next(0, 2), Some(2));
    assert_eq!(s.get_next(0, 1), Some(1));
    assert_eq!(s.get_next(2, 0), None);
    assert_eq!(s.get_next(1, 0), None);
}

#[test]
fn final_distances_admit_no_relaxation() {
    let matrix = vec![
        vec![1u8, 0, 1, 1],
        vec![1, 1, 1, 0],
        vec![0, 1, 1, 1],
        vec![1, 1, 0, 1],
    ];
    let s = run_to_end(&matrix);
    for i in 0..4u16 {
        for j in 0..4u16 {
            for k in 0..4u16 {
                let via = s.get_dist(i, k).saturating_add(s.get_dist(k, j));
                assert!(s.get_dist(i, j) <= via);
            }
        }
    }
    // 0 -> 1 -> 3 -> 2 -> 0 is a cycle: every pair is reachable
    assert_eq!(s.dist, Some(vec![0u16; 16]));
}

#[test]
fn unreachable_pairs_keep_sentinel_and_no_successor() {
    // 0 -> 1 only; vertex 2 is isolated
    let matrix = vec![vec![1u8, 0, 1], vec![1, 1, 1], vec![1, 1, 1]];
    let s = run_to_end(&matrix);
    for (i, j) in [(0u16, 2u16), (1, 0), (1, 2), (2, 0), (2, 1)] {
        assert_eq!(s.get_dist(i, j), M);
        assert_eq!(s.get_next(i, j), None);
    }
    assert_eq!(s.get_dist(0, 1), 0);
}

#[test]
fn checkpoints_are_multiples_then_final() {
    let matrix = vec![vec![0u8, 1], vec![1, 0]];
    let mut s = start(&matrix, 5).unwrap();
    let emitted = run_collecting(&mut s, &matrix, 5);
    assert_eq!(emitted, vec![5, 10, 15, 20, 25, 30, 35, 40, 45, 50, 55, 57]);
    for w in emitted.windows(2) {
        assert!(w[0] < w[1]);
    }
}

#[test]
fn checkpoint_on_last_step_is_emitted_twice() {
    let matrix = vec![vec![0u8, 1], vec![1, 0]];
    let mut s = start(&matrix, 57).unwrap();
    let emitted = run_collecting(&mut s, &matrix, 57);
    assert_eq!(emitted, vec![57, 57]);
}

#[test]
fn runs_are_deterministic() {
    let matrix = vec![vec![1u8, 0, 1], vec![0, 1, 0], vec![1, 1, 1]];
    let mut a = start(&matrix, 7).unwrap();
    let mut b = start(&matrix, 7).unwrap();
    loop {
        let ea = if a.is_done { None } else { Some(a.advance(&matrix, 7)) };
        let eb = if b.is_done { None } else { Some(b.advance(&matrix, 7)) };
        assert_eq!(ea, eb);
        assert_eq!(a.current_step, b.current_step);
        assert_eq!(a.current_line, b.current_line);
        assert_eq!((a.u, a.v, a.k, a.i, a.j), (b.u, b.v, b.k, b.i, b.j));
        assert_eq!(a.dist, b.dist);
        assert_eq!(a.next, b.next);
        if ea.is_none() {
            break;
        }
    }
}

#[test]
fn loop_header_counts_then_exits() {
    let matrix = vec![vec![0u8, 1], vec![1, 0]];
    let mut s = start(&matrix, 1).unwrap();
    // lines 0, 1, 2, 3 allocate the matrices
    for _ in 0..4 {
        s.step(&matrix);
    }
    assert_eq!(s.current_line, 4);
    assert_eq!(execute_line(&mut s, &matrix), None);
    assert_eq!(s.u, Some(0));
    s.u = Some(1);
    assert_eq!(execute_line(&mut s, &matrix), Some(15));
    assert_eq!(s.u, None);
}

/// A state on a 2-vertex graph with both matrices allocated, standing on `line`
/// with the relaxation registers `k, i, j`.
fn relax_state(matrix: &Vec<Vec<u8>>, line: u8, k: u16, i: u16, j: u16) -> FloydWarshallState {
    let mut s = start(matrix, 1).unwrap();
    for _ in 0..4 {
        s.step(matrix);
    }
    s.current_line = line;
    s.k = Some(k);
    s.i = Some(i);
    s.j = Some(j);
    s
}

#[test]
fn relax_test_skips_when_no_shorter() {
    let matrix = vec![vec![1u8, 1], vec![1, 1]];
    let mut s = relax_state(&matrix, 18, 0, 0, 1);
    s.update_dist(0, 0, M);
    s.update_dist(0, 1, M);
    // M > M (+) M is false: back to the j loop
    assert_eq!(execute_line(&mut s, &matrix), Some(17));
    s.update_dist(0, 0, 0);
    s.update_dist(0, 1, 9);
    // 9 > 0 + 9 is false
    assert_eq!(execute_line(&mut s, &matrix), Some(17));
}

#[test]
fn relax_test_falls_through_when_shorter() {
    let matrix = vec![vec![1u8, 1], vec![1, 1]];
    let mut s = relax_state(&matrix, 18, 1, 0, 0);
    s.update_dist(0, 0, 9);
    s.update_dist(0, 1, 2);
    s.update_dist(1, 0, 3);
    // 9 > 2 + 3
    assert_eq!(execute_line(&mut s, &matrix), None);
}

#[test]
fn relax_distance_saturates() {
    let matrix = vec![vec![1u8, 1], vec![1, 1]];
    let mut s = relax_state(&matrix, 19, 1, 0, 0);
    s.update_dist(0, 1, 9);
    s.update_dist(1, 0, 2);
    assert_eq!(execute_line(&mut s, &matrix), None);
    assert_eq!(s.get_dist(0, 0), 11);
    s.update_dist(0, 1, 65000);
    s.update_dist(1, 0, 1000);
    assert_eq!(execute_line(&mut s, &matrix), None);
    assert_eq!(s.get_dist(0, 0), M);
}

#[test]
fn relax_path_copies_pivot_successor() {
    let matrix = vec![vec![1u8, 1], vec![1, 1]];
    let mut s = relax_state(&matrix, 20, 1, 0, 0);
    s.update_next(1, 0, Some(0));
    assert_eq!(execute_line(&mut s, &matrix), Some(17));
    assert_eq!(s.get_next(0, 0), Some(0));
}

#[test]
fn inner_registers_advance_from_their_own_values() {
    let matrix = vec![vec![1u8, 1, 1], vec![1, 1, 1], vec![1, 1, 1]];
    let mut s = start(&matrix, 1).unwrap();
    for _ in 0..4 {
        s.step(&matrix);
    }
    s.current_line = 16;
    s.k = Some(0);
    s.i = Some(1);
    s.j = None;
    assert_eq!(execute_line(&mut s, &matrix), None);
    assert_eq!(s.i, Some(2));
    s.current_line = 17;
    s.j = Some(1);
    assert_eq!(execute_line(&mut s, &matrix), None);
    assert_eq!(s.j, Some(2));
    assert_eq!(execute_line(&mut s, &matrix), Some(16));
    assert_eq!(s.j, None);
}

#[test]
fn table_has_twenty_three_lines() {
    assert_eq!(LINE_COUNT, 23);
}

#[test]
fn total_step_count_does_not_depend_on_interval() {
    let matrix = vec![vec![0u8, 1], vec![1, 0]];
    for interval in [1u32, 3, 57, 100] {
        let mut s = start(&matrix, interval).unwrap();
        let emitted = run_collecting(&mut s, &matrix, interval);
        assert_eq!(*emitted.last().unwrap(), 57);
        assert!(s.is_done);
    }
}
