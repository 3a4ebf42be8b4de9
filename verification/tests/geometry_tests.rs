use heatmap_collapse::square_utils::get_bitlist;
use heatmap_collapse::square_utils::get_current_row;
use heatmap_collapse::square_utils::get_squares;
use heatmap_collapse::square_utils::get_squares_as_bitlist;
use heatmap_collapse::square_utils::grid_contains_any_squares;
use heatmap_collapse::square_utils::grid_contains_squares;
use heatmap_collapse::square_utils::number_of_permutation_with_repititions;
use heatmap_collapse::square_utils::square_in_grid;
use heatmap_collapse::square_utils::valid_square;

#[test]
fn rows_are_one_based() {
    assert_eq!(get_current_row(1, 3), 1);
    assert_eq!(get_current_row(3, 3), 1);
    assert_eq!(get_current_row(4, 3), 2);
    assert_eq!(get_current_row(9, 3), 3);
}

#[test]
fn valid_square_accepts_fitting_squares() {
    // The whole 2x2 grid is its only square.
    assert!(valid_square(1, 2, 2));
    assert!(!valid_square(2, 2, 2));
    // A scale-2 square whose top edge would wrap to the next row.
    assert!(!valid_square(3, 2, 3));
    // The full-scale square of the 3x3 grid.
    assert!(valid_square(1, 3, 3));
    assert!(!valid_square(2, 3, 3));
}

#[test]
fn two_by_two_grid_has_one_square() {
    let squares = get_squares(2);
    assert_eq!(squares.len(), 1);
    assert_eq!(get_bitlist(squares[0], 4), vec![1, 1, 1, 1]);
}

#[test]
fn three_by_three_grid_has_five_squares() {
    let squares = get_squares(3);
    assert_eq!(squares.len(), 5);
    let bitlists = get_squares_as_bitlist(&squares, 9);
    for bl in bitlists.iter() {
        // Every square has exactly four corners, all inside the grid.
        assert_eq!(bl.len(), 9);
        assert_eq!(bl.iter().sum::<i32>(), 4);
        for &bit in bl.iter() {
            assert!(bit == 0 || bit == 1);
        }
    }
    // Generation order: (index, scale) = (1,2), (1,3), (2,2), (4,2), (5,2).
    assert_eq!(bitlists[0], vec![1, 1, 0, 1, 1, 0, 0, 0, 0]);
    assert_eq!(bitlists[1], vec![1, 0, 1, 0, 0, 0, 1, 0, 1]);
    assert_eq!(bitlists[2], vec![0, 1, 1, 0, 1, 1, 0, 0, 0]);
    assert_eq!(bitlists[3], vec![0, 0, 0, 1, 1, 0, 1, 1, 0]);
    assert_eq!(bitlists[4], vec![0, 0, 0, 0, 1, 1, 0, 1, 1]);
}

#[test]
fn bitlist_reads_mask_bits() {
    assert_eq!(get_bitlist(0b1011, 4), vec![1, 1, 0, 1]);
    assert_eq!(get_bitlist(0, 4), vec![0, 0, 0, 0]);
}

#[test]
fn square_in_grid_needs_all_corners() {
    let square = vec![1, 1, 1, 1];
    assert!(square_in_grid(&vec![1, 1, 1, 1], &square));
    assert!(!square_in_grid(&vec![1, 1, 1, 0], &square));
    assert!(!square_in_grid(&vec![0, 0, 0, 0], &square));
}

#[test]
fn mask_containment_matches_square_masks() {
    let squares = get_squares(2);
    // The full 2x2 grid contains its square; the empty grid and any grid
    // with fewer than four set cells do not.
    assert!(grid_contains_squares(0b1111, &squares));
    assert!(!grid_contains_squares(0, &squares));
    assert!(!grid_contains_squares(0b0111, &squares));
    assert!(grid_contains_any_squares(0b1111, squares.clone()));
    assert!(!grid_contains_any_squares(0b1110, squares));
}

#[test]
fn permutation_counts_match_formula() {
    // 9 cells, 7 of them set: 9!/7! / 2! = 36 layouts.
    assert_eq!(number_of_permutation_with_repititions(7, 9), 36);
    assert_eq!(number_of_permutation_with_repititions(9, 9), 1);
    assert_eq!(number_of_permutation_with_repititions(0, 9), 1);
    assert_eq!(number_of_permutation_with_repititions(3, 4), 4);
}

#[test]
fn generated_squares_are_distinct() {
    // Each (index, scale) pair yields its own mask: no duplicates.
    for grid_length in [2usize, 3, 4, 5] {
        let squares = get_squares(grid_length);
        for i in 0..squares.len() {
            for j in (i + 1)..squares.len() {
                assert_ne!(squares[i], squares[j]);
            }
        }
    }
}

#[test]
fn four_by_four_grid_has_fourteen_squares() {
    // Scales 2, 3 and 4 contribute 9, 4 and 1 squares.
    assert_eq!(get_squares(4).len(), 14);
}
