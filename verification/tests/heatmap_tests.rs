use heatmap_collapse::catalog::SquareCatalog;
use heatmap_collapse::hca_utils::add_lists;
use heatmap_collapse::hca_utils::get_heatmap;
use heatmap_collapse::hca_utils::get_peaks;

#[test]
fn add_lists_sums_elementwise() {
    let a = vec![1, 2, -1];
    let b = vec![0, 1, 1];
    assert_eq!(add_lists(&a, &b), vec![1, 3, 0]);
}

#[test]
fn initial_heatmap_of_three_by_three() {
    let cat = SquareCatalog::new(3).unwrap();
    let heatmap = get_heatmap(&cat.squares_as_bitlist, cat.grid_size);
    assert_eq!(heatmap, vec![2, 2, 2, 2, 4, 2, 2, 2, 2]);
}

#[test]
fn dependency_map_diagonal_matches_heatmap() {
    // The self-count of every cell equals its initial heatmap entry.
    for grid_length in [2usize, 3, 4] {
        let cat = SquareCatalog::new(grid_length).unwrap();
        let heatmap = get_heatmap(&cat.squares_as_bitlist, cat.grid_size);
        for n in 0..cat.grid_size {
            assert_eq!(cat.dependency_maps[n][n], heatmap[n]);
        }
    }
}

#[test]
fn dependency_map_of_centre_cell() {
    let cat = SquareCatalog::new(3).unwrap();
    assert_eq!(cat.dependency_maps[4], vec![1, 2, 1, 2, 4, 2, 1, 2, 1]);
}

#[test]
fn peaks_report_every_maximum() {
    assert_eq!(get_peaks(&vec![2, 2, 2, 2, 4, 2, 2, 2, 2]), vec![4]);
    // Ties are not broken: all peaks come back, in increasing order.
    assert_eq!(get_peaks(&vec![1, 3, 3]), vec![1, 2]);
    assert_eq!(get_peaks(&vec![-1, -1]), vec![0, 1]);
    assert_eq!(get_peaks(&vec![7]), vec![0]);
}

#[test]
fn catalog_rejects_unsupported_dimensions() {
    assert!(SquareCatalog::new(0).is_none());
    assert!(SquareCatalog::new(1).is_none());
    assert!(SquareCatalog::new(12).is_none());
    assert!(SquareCatalog::new(2).is_some());
    assert!(SquareCatalog::new(11).is_some());
}
