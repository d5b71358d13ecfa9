use equity_solver::equity::{sweep, value_iterate, PosEntry, RollEntry, SCALE};

/// A three-cell chain: cell 0 leads to cell 1, cell 1 leads to the terminal
/// cell 2 whose fixed value is one full point (a sure win for the side to
/// move there).  One ply back the mover faces that sure winner, so cell 1 is
/// a sure loss; two plies back cell 0 is a sure win again.  The value
/// propagates one cell per sweep, flipping sign at each step.
fn chain_entries() -> Vec<PosEntry> {
    vec![
        PosEntry { index: 0, rolls: vec![RollEntry { weight: 1, children: vec![1] }] },
        PosEntry { index: 1, rolls: vec![RollEntry { weight: 1, children: vec![2] }] },
    ]
}

#[test]
fn toy_chain_converges_to_exact_fixed_point() {
    let entries = chain_entries();
    let init = vec![0i64, 0, SCALE];
    let out = value_iterate(&entries, init, 1, 100);
    assert!(out.converged);
    assert_eq!(out.values, vec![SCALE, -SCALE, SCALE]);
    // One sweep moves the value one cell: convergence takes three sweeps
    // (the last confirms a zero delta).
    assert_eq!(out.sweeps, 3);
}

#[test]
fn toy_chain_terminal_cell_never_changes() {
    let entries = chain_entries();
    let init = vec![0i64, 0, SCALE];
    let mut cur = init.clone();
    for _ in 0..5 {
        let stats = sweep(&entries, &cur);
        cur = stats.values;
        assert_eq!(cur[2], SCALE, "terminal cell must keep its fixed value");
    }
}

#[test]
fn toy_chain_max_delta_shrinks_below_threshold() {
    let entries = chain_entries();
    let init = vec![0i64, 0, SCALE];
    let mut cur = init.clone();
    let mut deltas = Vec::new();
    for _ in 0..5 {
        let stats = sweep(&entries, &cur);
        cur = stats.values;
        deltas.push(stats.max_err);
    }
    // SCALE, SCALE, 0, 0, 0: the error reaches zero and stays there.
    assert_eq!(deltas, vec![SCALE as u64, SCALE as u64, 0, 0, 0]);
}

/// A one-position zero-sum game solvable by hand.  Successor values are
/// stored from the opponent's perspective: cell 2 is a sure loss for the
/// side to move there (the mover's sure win), cell 3 a sure win.
///
/// Cell 0: roll a (weight 1) reaches only cell 2 (value -SCALE); roll b
/// (weight 1) reaches cells 2 and 3 (values -SCALE and +SCALE); the mover
/// picks the minimum, -SCALE, both times.  Exact equity of cell 0:
/// -((1*(-SCALE) + 1*(-SCALE)) / 2) = +SCALE — the mover always wins.
#[test]
fn toy_choice_matches_hand_computed_equity() {
    let entries = vec![PosEntry {
        index: 0,
        rolls: vec![
            RollEntry { weight: 1, children: vec![2] },
            RollEntry { weight: 1, children: vec![2, 3] },
        ],
    }];
    let init = vec![0i64, 0, -SCALE, SCALE];
    let out = value_iterate(&entries, init.clone(), 1, 50);
    assert!(out.converged);
    assert_eq!(out.values[0], SCALE);
    // Cells without an entry are never rewritten.
    assert_eq!(out.values[1], 0);
    assert_eq!(out.values[2], -SCALE);
    assert_eq!(out.values[3], SCALE);
}

/// Mixed weights: a double (weight 1) whose best successor is a sure win
/// for the opponent and a mixed roll (weight 2) whose best successor is a
/// sure loss for the opponent average, from the mover's view, to
/// -((1 - 2) / 3) = one third of a point.
#[test]
fn toy_weighted_average_rounds_toward_zero() {
    let entries = vec![PosEntry {
        index: 0,
        rolls: vec![
            RollEntry { weight: 1, children: vec![1] },
            RollEntry { weight: 2, children: vec![2] },
        ],
    }];
    let init = vec![0i64, SCALE, -SCALE];
    let out = value_iterate(&entries, init, 1, 50);
    assert!(out.converged);
    // -((1*SCALE - 2*SCALE) / 3) with the division truncated toward zero.
    assert_eq!(out.values[0], SCALE / 3);
}

#[test]
fn sweep_reports_error_metrics() {
    let entries = chain_entries();
    let init = vec![0i64, 0, SCALE];
    let stats = sweep(&entries, &init);
    // Only cell 1 changes in the first sweep (0 -> -SCALE: its mover faces
    // a sure winner).
    assert_eq!(stats.values, vec![0, -SCALE, SCALE]);
    assert_eq!(stats.sum_err, SCALE as u64);
    assert_eq!(stats.max_err, SCALE as u64);
}

#[test]
fn sweep_with_no_entries_changes_nothing() {
    let entries: Vec<PosEntry> = Vec::new();
    let init = vec![5 * SCALE / 10, -SCALE, 0];
    let stats = sweep(&entries, &init);
    assert_eq!(stats.values, init);
    assert_eq!(stats.sum_err, 0);
    assert_eq!(stats.max_err, 0);
}
