use stochgrid::grid::StochasticGrid;
use stochgrid::shape::TreeShape;
use stochgrid::types::{GridError, Node, Sample};

fn make(n_stages: usize, n_scenarios: usize, stage_duration: usize, seed: u64) -> StochasticGrid {
    StochasticGrid::new(n_stages, n_scenarios, stage_duration, Some(seed)).unwrap()
}

#[test]
fn tree_index_formula_examples() {
    let shape = TreeShape { n_stages: 2, n_scenarios: 2, stage_duration: 3 };
    assert_eq!(shape.total_count_exec(), 21);
    assert_eq!(shape.tree_index(0, 0), Ok(0));
    assert_eq!(shape.tree_index(1, 3), Ok(4));
    assert_eq!(shape.tree_index(3, 8), Ok(20));
    assert_eq!(shape.tree_index(2, 0), Err(GridError::OutOfRange));
    assert_eq!(shape.tree_index(0, 9), Err(GridError::OutOfRange));
}

#[test]
fn tree_index_bijection_small_shapes() {
    for (d, b, l) in [(2usize, 2usize, 3usize), (1, 3, 2), (3, 1, 4), (2, 3, 1)] {
        let shape = TreeShape { n_stages: d, n_scenarios: b, stage_duration: l };
        let total = shape.total_count_exec();
        let mut seen = vec![false; total];
        for t in 0..(d + 1) * l {
            let stage = t / l;
            let width = b.pow(stage as u32);
            for s in 0..width {
                let i = shape.tree_index(s, t).unwrap();
                assert!(i < total, "index out of range");
                assert!(!seen[i], "two coordinates share an index");
                seen[i] = true;
            }
        }
        assert!(seen.iter().all(|&x| x), "some flat position is not covered");
    }
}

#[test]
fn degenerate_configurations_rejected() {
    assert!(matches!(
        StochasticGrid::new(1, 0, 2, None),
        Err(GridError::DegenerateConfiguration)
    ));
    assert!(matches!(
        StochasticGrid::new(1, 2, 0, None),
        Err(GridError::DegenerateConfiguration)
    ));
    let g = make(1, 2, 2, 1);
    assert!(matches!(g.new_grid(0, None), Err(GridError::DegenerateConfiguration)));
}

#[test]
fn initial_grid_is_canonical() {
    // D=1, B=2, L=2: six nodes, root scenario for t<2, both for t>=2
    let g = make(1, 2, 2, 42);
    let nodes = g.get_grid();
    let expect = vec![
        Node { s: 0, t: 0, d: 1 },
        Node { s: 0, t: 1, d: 1 },
        Node { s: 0, t: 2, d: 1 },
        Node { s: 0, t: 3, d: 1 },
        Node { s: 1, t: 2, d: 1 },
        Node { s: 1, t: 3, d: 1 },
    ];
    assert_eq!(nodes, expect);
}

#[test]
fn regrid_identity_at_stage_resolution() {
    let g = make(1, 2, 2, 7);
    let coarse = g.new_grid(2, None).unwrap();
    let expect = vec![
        Node { s: 0, t: 0, d: 1 },
        Node { s: 0, t: 0, d: 1 },
        Node { s: 0, t: 2, d: 1 },
        Node { s: 0, t: 2, d: 1 },
        Node { s: 1, t: 2, d: 1 },
        Node { s: 1, t: 2, d: 1 },
    ];
    assert_eq!(coarse, expect);
}

#[test]
fn regrid_with_delay_exports_zero_before_delay() {
    let g = make(1, 2, 2, 7);
    // delay covering the whole first stage: those nodes export time 0
    let coarse = g.new_grid(2, Some(2)).unwrap();
    // before the delay the export time is zero; from the delay on the
    // bucket starts at t - 2 rounded down, which is stage 0 again, so the
    // second-stage scenarios collapse onto the root
    let expect = vec![
        Node { s: 0, t: 0, d: 1 },
        Node { s: 0, t: 0, d: 1 },
        Node { s: 0, t: 0, d: 1 },
        Node { s: 0, t: 0, d: 1 },
        Node { s: 0, t: 0, d: 1 },
        Node { s: 0, t: 0, d: 1 },
    ];
    assert_eq!(coarse, expect);
}

#[test]
fn leaf_weights_powers_of_branching() {
    // D=2, B=3, L=1: stage 0 weighs 9, stage 1 weighs 3, leaves weigh 1
    let g = make(2, 3, 1, 3);
    let weights = g.leaf_nodes();
    assert_eq!(weights.len(), 13);
    let mut leaf_sum = 0usize;
    for (node, w) in &weights {
        let expected = 3usize.pow((2 - node.t) as u32);
        assert_eq!(*w, expected);
        if node.t == 2 {
            leaf_sum += *w;
        }
    }
    // the leaves under the root together weigh B^D
    assert_eq!(leaf_sum, 9);
}

#[test]
fn remove_duplicates_keeps_first_occurrences() {
    let g = make(1, 2, 2, 1);
    let input = vec![
        Node { s: 0, t: 0, d: 1 },
        Node { s: 0, t: 1, d: 1 },
        Node { s: 0, t: 0, d: 1 },
    ];
    let out = g.remove_duplicates(&input);
    assert_eq!(out, vec![Node { s: 0, t: 0, d: 1 }, Node { s: 0, t: 1, d: 1 }]);
}

#[test]
fn remove_duplicates_idempotent() {
    let g = make(1, 2, 2, 1);
    let input = vec![
        Node { s: 1, t: 2, d: 1 },
        Node { s: 0, t: 0, d: 1 },
        Node { s: 1, t: 2, d: 1 },
        Node { s: 0, t: 3, d: 1 },
        Node { s: 0, t: 0, d: 1 },
    ];
    let once = g.remove_duplicates(&input);
    let twice = g.remove_duplicates(&once);
    assert_eq!(once, twice);
    assert_eq!(
        once,
        vec![
            Node { s: 1, t: 2, d: 1 },
            Node { s: 0, t: 0, d: 1 },
            Node { s: 0, t: 3, d: 1 },
        ]
    );
}

#[test]
fn sampling_rejects_negative_tolerance() {
    let mut g = make(1, 2, 2, 5);
    let data: Vec<(usize, i64)> = (0..10).map(|i| (i, i as i64)).collect();
    assert!(matches!(
        g.add_dataset(&data, Some(false), -1, None),
        Err(GridError::DegenerateConfiguration)
    ));
}

#[test]
fn sampling_rejects_short_dataset() {
    let mut g = make(1, 2, 2, 5);
    // the root scenario needs more than (D+1)*L = 4 rows
    let data: Vec<(usize, i64)> = (0..4).map(|i| (i, i as i64)).collect();
    assert!(matches!(
        g.add_dataset(&data, Some(false), 0, None),
        Err(GridError::InsufficientData)
    ));
}

#[test]
fn sampling_window_pinned_when_single_offset() {
    // D=0, B=1, L=2: the single scenario needs 2 rows; with 3 rows the only
    // legal start offset is 0, so the sampled values are exactly the first
    // two dataset rows.
    let mut g = make(0, 1, 2, 99);
    let data: Vec<(usize, i64)> = vec![(0, 10), (1, 20), (2, 30)];
    let out = g.add_dataset(&data, Some(false), 0, None).unwrap();
    assert_eq!(out.len(), 2);
    assert_eq!(out[0], Sample { s: 0, t: 0, d: 1, value: 10 });
    assert_eq!(out[1], Sample { s: 0, t: 1, d: 1, value: 20 });
}

#[test]
fn zero_epsilon_never_merges() {
    // D=1, B=1, L=4: single chain over 8 steps; 9 rows force start 0
    let mut g = make(1, 1, 4, 0);
    let data: Vec<(usize, i64)> = (0..9).map(|i| (i, 10 * (i as i64 + 1))).collect();
    let out = g.add_dataset(&data, Some(true), 0, None).unwrap();
    assert_eq!(out.len(), 8);
    for (k, seg) in out.iter().enumerate() {
        assert_eq!(seg.s, 0);
        assert_eq!(seg.t, k);
        assert_eq!(seg.d, 1, "a run merged under zero tolerance");
    }
    // each closed run reports the anchor standing when it closed
    assert_eq!(out[0].value, 0);
    for k in 1..8 {
        assert_eq!(out[k].value, 10 * k as i64);
    }
}

#[test]
fn compression_respects_stage_boundaries() {
    // D=1, B=1, L=4, constant data and a wide tolerance: runs may merge
    // inside a stage but never across the boundary at t = 4
    let mut g = make(1, 1, 4, 0);
    let data: Vec<(usize, i64)> = (0..9).map(|i| (i, 5)).collect();
    let out = g.add_dataset(&data, Some(true), 1000, None).unwrap();
    let expect = vec![
        Sample { s: 0, t: 0, d: 1, value: 0 },
        Sample { s: 0, t: 1, d: 2, value: 5 },
        Sample { s: 0, t: 3, d: 1, value: 5 },
        Sample { s: 0, t: 4, d: 1, value: 5 },
        Sample { s: 0, t: 5, d: 2, value: 5 },
        Sample { s: 0, t: 7, d: 1, value: 5 },
    ];
    assert_eq!(out, expect);
    for seg in &out {
        let first_stage = seg.t / 4;
        let last_stage = (seg.t + seg.d - 1) / 4;
        assert_eq!(first_stage, last_stage, "a run crossed a stage boundary");
    }
    // the keep set lists each run's master with tag 1, and the exported
    // grid reports the run lengths
    let grid = g.get_grid();
    let expect_grid = vec![
        Node { s: 0, t: 0, d: 1 },
        Node { s: 0, t: 1, d: 2 },
        Node { s: 0, t: 3, d: 1 },
        Node { s: 0, t: 4, d: 1 },
        Node { s: 0, t: 5, d: 2 },
        Node { s: 0, t: 7, d: 1 },
    ];
    assert_eq!(grid, expect_grid);
}

#[test]
fn forced_break_points_split_runs() {
    // same constant data as above, but a break every 2 steps from phase 0
    let mut g = make(1, 1, 4, 0);
    let data: Vec<(usize, i64)> = (0..9).map(|i| (i, 5)).collect();
    let out = g.add_dataset(&data, Some(true), 1000, Some(vec![(2, 0)])).unwrap();
    // every t hits the break on- or off-by-one, so nothing merges
    assert_eq!(out.len(), 8);
    for seg in &out {
        assert_eq!(seg.d, 1);
    }
}

#[test]
fn same_seed_reproduces_samples() {
    let data: Vec<(usize, i64)> = (0..30).map(|i| (i, (i as i64) * 7 - 3)).collect();
    let mut g1 = make(1, 2, 2, 42);
    let mut g2 = make(1, 2, 2, 42);
    let out1 = g1.add_dataset(&data, Some(false), 0, None).unwrap();
    let out2 = g2.add_dataset(&data, Some(false), 0, None).unwrap();
    assert_eq!(out1.len(), 6);
    assert_eq!(out1, out2);
    let mut g3 = make(1, 2, 2, 42);
    let out3 = g3.add_dataset(&data, Some(true), 1, None).unwrap();
    let mut g4 = make(1, 2, 2, 42);
    let out4 = g4.add_dataset(&data, Some(true), 1, None).unwrap();
    assert_eq!(out3, out4);
    assert_eq!(g3.get_grid(), g4.get_grid());
}

#[test]
fn raw_sampling_leaves_keep_set_whole() {
    let data: Vec<(usize, i64)> = (0..30).map(|i| (i, i as i64)).collect();
    let mut g = make(1, 2, 2, 8);
    let before = g.get_grid();
    let out = g.add_dataset(&data, Some(false), 0, None).unwrap();
    assert_eq!(out.len(), 6);
    assert_eq!(g.get_grid(), before);
}

#[test]
fn shape_support_check() {
    assert!(TreeShape { n_stages: 2, n_scenarios: 2, stage_duration: 3 }.supported());
    assert!(!TreeShape { n_stages: 2, n_scenarios: 0, stage_duration: 3 }.supported());
    assert!(!TreeShape { n_stages: 2, n_scenarios: 2, stage_duration: 0 }.supported());
    // a horizon that cannot fit in memory is refused
    assert!(!TreeShape { n_stages: 200, n_scenarios: 2, stage_duration: 1 }.supported());
    assert!(!TreeShape { n_stages: usize::MAX - 1, n_scenarios: 1, stage_duration: 1 }.supported());
}
