//! The read-only context of a search: the square catalog of a grid.
//!
//! All constants the search needs are computed once, up front, and passed by
//! shared reference: the squares as masks, the same squares as indicator
//! vectors, and the per-cell dependency maps.

use vstd::prelude::*;

use crate::hca_utils::{
    col_sum, dep_sum, get_dependency_maps, lemma_dependency_diagonal, wf_square_bitlists,
};
use crate::square_utils::{
    bit_value, bitlist_spec, corner_tl, get_squares, get_squares_as_bitlist, is_binary_seq,
    is_corner, is_generated_square, lemma_mask_containment_bitwise, lemma_square_mask_bits,
    lemma_valid_square_corners_in_bounds, mask_contains_square, nth_bit, square_in_grid_spec,
    square_mask_spec, valid_pair,
};

verus! {

/// The immutable inputs of a search over one grid: its dimension, every
/// square that fits in it, and the dependency map of every cell.
pub struct SquareCatalog {
    /// Side of the grid.
    pub grid_length: usize,
    /// Number of cells: `grid_length * grid_length`.
    pub grid_size: usize,
    /// Every square of the grid, as a corner bitmask.
    pub squares: Vec<u128>,
    /// The same squares, as length-`grid_size` indicator vectors.
    pub squares_as_bitlist: Vec<Vec<i32>>,
    /// For each cell `n`, the elementwise sum of the indicators of the
    /// squares that use `n` as a corner.
    pub dependency_maps: Vec<Vec<i32>>,
}

impl SquareCatalog {
    /// The catalog belongs to a supported grid and its three tables agree
    /// with one another.
    pub open spec fn wf(self) -> bool {
        &&& 2 <= self.grid_length <= 11
        &&& self.grid_size == self.grid_length * self.grid_length
        &&& self.grid_size <= 128
        &&& self.squares@.len() <= 1331
        &&& forall|k: int|
            0 <= k < self.squares@.len() ==> is_generated_square(
                #[trigger] self.squares@[k],
                self.grid_length as int,
            )
        &&& forall|idx: int, s: int|
            valid_pair(idx, s, self.grid_length as int) ==> self.squares@.contains(
                #[trigger] square_mask_spec(idx, s, self.grid_length as int),
            )
        &&& forall|k1: int, k2: int|
            0 <= k1 < k2 < self.squares@.len() ==> self.squares@[k1] != self.squares@[k2]
        &&& self.squares_as_bitlist@.len() == self.squares@.len()
        &&& forall|k: int|
            0 <= k < self.squares_as_bitlist@.len() ==> (#[trigger] self.squares_as_bitlist@[k])@.len()
                == self.grid_size
        &&& forall|k: int, i: int|
            0 <= k < self.squares_as_bitlist@.len() && 0 <= i < self.grid_size
                ==> (#[trigger] self.squares_as_bitlist@[k]@[i]) == bit_value(
                self.squares@[k],
                i as u128,
            )
        &&& wf_square_bitlists(self.squares_as_bitlist.deep_view(), self.grid_size as int)
        &&& self.dependency_maps@.len() == self.grid_size
        &&& forall|n: int|
            0 <= n < self.grid_size ==> (#[trigger] self.dependency_maps@[n])@.len()
                == self.grid_size
        &&& forall|n: int, i: int|
            0 <= n < self.grid_size && 0 <= i < self.grid_size
                ==> (#[trigger] self.dependency_maps@[n]@[i]) == dep_sum(
                self.squares_as_bitlist.deep_view(),
                n,
                i,
            )
    }

    /// Build the catalog of a grid of side `grid_length`. Dimensions the
    /// `u128` mask encoding cannot carry, and degenerate grids shorter than
    /// `2`, are rejected.
    pub fn new(grid_length: usize) -> (r: Option<SquareCatalog>)
        ensures
            r is Some <==> 2 <= grid_length <= 11,
            r is Some ==> r.unwrap().wf() && r.unwrap().grid_length == grid_length,
    {
        if grid_length < 2 || grid_length > 11 {
            return None;
        }
        proof {
            assert(grid_length * grid_length <= 121) by (nonlinear_arith)
                requires
                    2 <= grid_length <= 11,
            ;
            assert(grid_length * grid_length * grid_length <= 1331) by (nonlinear_arith)
                requires
                    2 <= grid_length <= 11,
            ;
            assert(grid_length * grid_length >= 4) by (nonlinear_arith)
                requires
                    2 <= grid_length,
            ;
        }
        let grid_size = grid_length * grid_length;
        let squares = get_squares(grid_length);
        let squares_as_bitlist = get_squares_as_bitlist(&squares, grid_size);
        proof {
            let dv = squares_as_bitlist.deep_view();
            assert forall|k: int| 0 <= k < dv.len() implies (#[trigger] dv[k]).len()
                == grid_size && is_binary_seq(dv[k]) by {
                assert(dv[k] == squares_as_bitlist@[k]@);
            }
        }
        let dependency_maps = get_dependency_maps(&squares_as_bitlist, grid_size);
        Some(
            SquareCatalog {
                grid_length,
                grid_size,
                squares,
                squares_as_bitlist,
                dependency_maps,
            },
        )
    }
}

/// The diagonal of every dependency map equals the initial heatmap: the
/// self-count of a cell is the number of squares that use it as a corner.
pub proof fn lemma_catalog_diagonal(cat: SquareCatalog, n: int)
    requires
        cat.wf(),
        0 <= n < cat.grid_size,
    ensures
        cat.dependency_maps@[n]@[n] == col_sum(cat.squares_as_bitlist.deep_view(), n),
{
    lemma_dependency_diagonal(cat.squares_as_bitlist.deep_view(), cat.grid_size as int, n);
}

/// Every square indicator of a well-formed catalog marks at least one cell:
/// its top-left corner.
pub proof fn lemma_square_has_corner(cat: SquareCatalog, k: int)
    requires
        cat.wf(),
        0 <= k < cat.squares_as_bitlist@.len(),
    ensures
        exists|i: int|
            0 <= i < cat.grid_size && #[trigger] cat.squares_as_bitlist@[k]@[i] == 1,
{
    let l = cat.grid_length as int;
    assert(is_generated_square(cat.squares@[k], l));
    let (idx, s) = choose|idx: int, s: int|
        valid_pair(idx, s, l) && cat.squares@[k] == #[trigger] square_mask_spec(idx, s, l);
    lemma_valid_square_corners_in_bounds(idx, s, l);
    lemma_square_mask_bits(idx, s, l);
    let a = corner_tl(idx);
    assert(nth_bit(square_mask_spec(idx, s, l), a as u128) == is_corner(a, idx, s, l));
    assert(cat.squares_as_bitlist@[k]@[a] == bit_value(cat.squares@[k], a as u128));
    assert(cat.squares_as_bitlist@[k]@[a] == 1);
}

/// The two encodings of the containment test agree on every square of the
/// catalog: ANDing the grid mask with the square mask leaves the square
/// unchanged exactly when the square's indicator vector is contained in the
/// grid's indicator vector.
pub proof fn lemma_containment_encodings_agree(cat: SquareCatalog, grid_mask: u128, k: int)
    requires
        cat.wf(),
        0 <= k < cat.squares@.len(),
    ensures
        mask_contains_square(grid_mask, cat.squares@[k]) == square_in_grid_spec(
            bitlist_spec(grid_mask, cat.grid_size as int),
            cat.squares_as_bitlist@[k]@,
        ),
{
    let l = cat.grid_length as int;
    let n = cat.grid_size as int;
    let sm = cat.squares@[k];
    let g = bitlist_spec(grid_mask, n);
    let sq = cat.squares_as_bitlist@[k]@;
    assert(is_generated_square(sm, l));
    let (idx, s) = choose|idx: int, s: int|
        valid_pair(idx, s, l) && sm == #[trigger] square_mask_spec(idx, s, l);
    lemma_valid_square_corners_in_bounds(idx, s, l);
    lemma_square_mask_bits(idx, s, l);
    lemma_mask_containment_bitwise(grid_mask, sm);
    if mask_contains_square(grid_mask, sm) {
        assert forall|i: int| 0 <= i < sq.len() && sq[i] == 1 implies g[i] == 1 by {
            assert(sq[i] == bit_value(sm, i as u128));
            assert(nth_bit(sm, i as u128));
            assert(nth_bit(grid_mask, i as u128));
        }
    } else {
        let w = choose|w: u128| w < 128 && nth_bit(sm, w) && !nth_bit(grid_mask, w);
        assert(nth_bit(sm, w) == is_corner(w as int, idx, s, l));
        assert(0 <= (w as int) && (w as int) < n);
        assert(sq[w as int] == bit_value(sm, w) && sq[w as int] == 1);
        assert(g[w as int] == bit_value(grid_mask, w) && g[w as int] == 0);
        assert(!square_in_grid_spec(g, sq));
    }
}

} // verus!
