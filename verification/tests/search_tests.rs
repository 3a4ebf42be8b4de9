use heatmap_collapse::catalog::SquareCatalog;
use heatmap_collapse::hca_utils::get_heatmap;
use heatmap_collapse::hca_utils::get_peaks;
use heatmap_collapse::search::solve;
use heatmap_collapse::state::State;

fn root_state(cat: &SquareCatalog) -> State {
    let heatmap = get_heatmap(&cat.squares_as_bitlist, cat.grid_size);
    let peaks = get_peaks(&heatmap);
    let depth = cat.grid_size as i32;
    State::new(heatmap, peaks, depth)
}

fn grid_population(state: &State) -> usize {
    state.as_grid().iter().filter(|&&cell| cell == 1).count()
}

#[test]
fn as_grid_reads_minus_one_as_zero() {
    // A cell at 0 still counts as 1; only the -1 sentinel reads as 0.
    let state = State::new(vec![2, 0, -1], vec![0], 3);
    assert_eq!(state.as_grid(), vec![1, 1, 0]);
}

#[test]
fn full_grid_contains_squares() {
    let cat = SquareCatalog::new(3).unwrap();
    let root = root_state(&cat);
    assert!(root.contains_squares(&cat));
}

#[test]
fn children_zero_one_peak_each() {
    let cat = SquareCatalog::new(3).unwrap();
    let root = root_state(&cat);
    let children = root.get_children(&cat);
    // The 3x3 heatmap has a single peak, the centre cell.
    assert_eq!(children.len(), 1);
    assert_eq!(children[0].depth, 8);
    assert_eq!(children[0].heatmap, vec![1, 0, 1, 0, -1, 0, 1, 0, 1]);
    assert_eq!(children[0].heatmap_peaks, vec![0, 2, 6, 8]);
}

#[test]
fn eliminated_cells_stay_eliminated() {
    // Applying another dependency map never revives a -1 cell.
    let cat = SquareCatalog::new(3).unwrap();
    let root = root_state(&cat);
    let child = &root.get_children(&cat)[0];
    assert_eq!(child.heatmap[4], -1);
    let grandchildren = child.get_children(&cat);
    assert_eq!(grandchildren.len(), 4);
    for grandchild in grandchildren.iter() {
        assert_eq!(grandchild.heatmap[4], -1);
    }
    assert_eq!(grandchildren[0].heatmap, vec![-1, 0, 0, 0, -1, 0, 0, 0, 0]);
}

#[test]
fn grandchild_of_three_by_three_is_square_free() {
    let cat = SquareCatalog::new(3).unwrap();
    let root = root_state(&cat);
    let child = &root.get_children(&cat)[0];
    assert!(child.contains_squares(&cat));
    let grandchild = &child.get_children(&cat)[0];
    assert!(!grandchild.contains_squares(&cat));
    assert_eq!(grid_population(grandchild), 7);
}

#[test]
fn three_by_three_maximum_is_seven() {
    // A227133(3): the densest square-free 3x3 grid has 7 set cells.
    let cat = SquareCatalog::new(3).unwrap();
    let answer = solve(&cat);
    assert_eq!(grid_population(&answer), 7);
    assert!(!answer.contains_squares(&cat));
}

#[test]
fn two_by_two_maximum_is_three() {
    // The 2x2 grid is itself a square, so one cell must stay empty.
    let cat = SquareCatalog::new(2).unwrap();
    let answer = solve(&cat);
    assert_eq!(grid_population(&answer), 3);
    assert!(!answer.contains_squares(&cat));
}

#[test]
fn population_stays_within_possible_depth() {
    // The returned population never exceeds gridSize - gridLength + 1.
    for grid_length in [2usize, 3] {
        let cat = SquareCatalog::new(grid_length).unwrap();
        let answer = solve(&cat);
        let bound = cat.grid_size - cat.grid_length + 1;
        assert!(grid_population(&answer) <= bound);
    }
}

#[test]
fn repeated_runs_agree() {
    // Determinism: the population count is invariant across runs.
    let cat = SquareCatalog::new(3).unwrap();
    let first = solve(&cat);
    let second = solve(&cat);
    assert_eq!(grid_population(&first), grid_population(&second));
    assert_eq!(first.as_grid(), second.as_grid());
}

#[test]
fn four_by_four_maximum_is_twelve() {
    // The densest square-free 4x4 grid has 12 set cells.
    let cat = SquareCatalog::new(4).unwrap();
    let answer = solve(&cat);
    assert_eq!(grid_population(&answer), 12);
    assert!(!answer.contains_squares(&cat));
    let bound = cat.grid_size - cat.grid_length + 1;
    assert!(grid_population(&answer) <= bound);
}

#[test]
fn five_by_five_run_is_deterministic() {
    // On the 5x5 grid the peak-guided elimination settles at population 14.
    // The pigeonhole bound allows up to 21 and denser square-free grids
    // exist, but the peak policy does not reach them; what the search does
    // return is the same on every run.
    let cat = SquareCatalog::new(5).unwrap();
    let first = solve(&cat);
    let second = solve(&cat);
    assert_eq!(grid_population(&first), 14);
    assert!(!first.contains_squares(&cat));
    assert_eq!(first.as_grid(), second.as_grid());
}
