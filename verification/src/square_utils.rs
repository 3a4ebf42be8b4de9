//! Geometry of the forbidden squares.
//!
//! A square of scale `s` inside an `l x l` grid is identified by the 1-based
//! flat index of its top-left corner; its four corners are four cells of the
//! grid. A square is encoded both as a `u128` bitmask with exactly the four
//! corner bits set and as a length-`l*l` indicator vector of `0`/`1` counts.

use vstd::prelude::*;

verus! {

/// 1-based row of the 1-based flat index `index` in a grid of side `l`.
pub open spec fn row_of_spec(index: int, l: int) -> int
    recommends
        l >= 1,
        index >= 1,
{
    ((index - 1) + l - ((index - 1) % l)) / l
}

/// All four corners of the square at `index` with scale `scale` stay inside
/// the `l * l` cells.
pub open spec fn square_within_bounds_spec(index: int, scale: int, l: int) -> bool {
    index + (scale - 1) + l * (scale - 1) <= l * l
}

/// The top edge of the candidate square wraps into a lower row.
pub open spec fn edge_row_differs_spec(index: int, scale: int, l: int) -> bool {
    row_of_spec(index + scale - 1, l) - row_of_spec(index, l) > 0
}

/// The candidate square at `index` with scale `scale` really is a square of
/// the grid: within bounds, and its top edge stays on one row.
pub open spec fn valid_square_spec(index: int, scale: int, l: int) -> bool {
    square_within_bounds_spec(index, scale, l) && !edge_row_differs_spec(index, scale, l)
}

/// `(index, scale)` ranges over the pairs that the generator enumerates and
/// passes its validity filter.
pub open spec fn valid_pair(index: int, scale: int, l: int) -> bool {
    1 <= index <= l * l && 2 <= scale <= l && valid_square_spec(index, scale, l)
}

/// 0-based cell of the top-left corner.
pub open spec fn corner_tl(index: int) -> int {
    index - 1
}

/// 0-based cell of the top-right corner.
pub open spec fn corner_tr(index: int, scale: int) -> int {
    index - 1 + (scale - 1)
}

/// 0-based cell of the bottom-left corner.
pub open spec fn corner_bl(index: int, scale: int, l: int) -> int {
    index - 1 + l * (scale - 1)
}

/// 0-based cell of the bottom-right corner.
pub open spec fn corner_br(index: int, scale: int, l: int) -> int {
    index - 1 + l * (scale - 1) + (scale - 1)
}

/// Cell `i` is one of the four corners of the square `(index, scale)`.
pub open spec fn is_corner(i: int, index: int, scale: int, l: int) -> bool {
    ||| i == corner_tl(index)
    ||| i == corner_tr(index, scale)
    ||| i == corner_bl(index, scale, l)
    ||| i == corner_br(index, scale, l)
}

/// The row formula reduces to floor division: row(index) = (index-1)/l + 1.
pub proof fn lemma_row_identity(index: int, l: int)
    requires
        index >= 1,
        l >= 1,
    ensures
        row_of_spec(index, l) == (index - 1) / l + 1,
{
    let q = (index - 1) / l;
    let r = (index - 1) % l;
    vstd::arithmetic::div_mod::lemma_fundamental_div_mod(index - 1, l);
    assert((index - 1) + l - r == l * (q + 1)) by (nonlinear_arith)
        requires
            index - 1 == l * q + r,
    ;
    vstd::arithmetic::div_mod::lemma_div_multiples_vanish(q + 1, l);
}

/// Rows do not decrease as the flat index grows.
pub proof fn lemma_row_monotonic(i1: int, i2: int, l: int)
    requires
        1 <= i1 <= i2,
        l >= 1,
    ensures
        row_of_spec(i1, l) <= row_of_spec(i2, l),
{
    lemma_row_identity(i1, l);
    lemma_row_identity(i2, l);
    vstd::arithmetic::div_mod::lemma_div_is_ordered(i1 - 1, i2 - 1, l);
}

/// Every valid square has its four corners inside `[0, l*l)`, in strictly
/// increasing order, and its top edge on a single row.
pub proof fn lemma_valid_square_corners_in_bounds(index: int, scale: int, l: int)
    requires
        l >= 2,
        valid_pair(index, scale, l),
    ensures
        0 <= corner_tl(index),
        corner_tl(index) < corner_tr(index, scale),
        corner_tr(index, scale) < corner_bl(index, scale, l),
        corner_bl(index, scale, l) < corner_br(index, scale, l),
        corner_br(index, scale, l) < l * l,
        row_of_spec(index, l) == row_of_spec(index + scale - 1, l),
{
    assert(l * (scale - 1) >= 2 * (scale - 1)) by (nonlinear_arith)
        requires
            l >= 2,
            scale >= 2,
    ;
    lemma_row_monotonic(index, index + scale - 1, l);
}

/// 1-based row of the 1-based flat index `index`.
pub fn get_current_row(index: usize, grid_length: usize) -> (r: usize)
    requires
        index >= 1,
        grid_length >= 1,
        index + grid_length <= usize::MAX,
    ensures
        r == row_of_spec(index as int, grid_length as int),
{
    ((index - 1) + grid_length - ((index - 1) % grid_length)) / grid_length
}

/// The top edge of the candidate square `(index, scale)` wraps into a lower
/// row.
pub fn edge_is_on_different_row(index: usize, scale: usize, grid_length: usize) -> (r: bool)
    requires
        index >= 1,
        scale >= 1,
        grid_length >= 1,
        index + scale + grid_length <= usize::MAX,
    ensures
        r == edge_row_differs_spec(index as int, scale as int, grid_length as int),
{
    proof {
        lemma_row_monotonic(index as int, index + scale - 1, grid_length as int);
    }
    get_current_row(index + scale - 1, grid_length) - get_current_row(index, grid_length) > 0
}

/// All four corners of the candidate square stay inside the grid.
pub fn square_within_bounds(index: usize, scale: usize, grid_length: usize) -> (r: bool)
    requires
        scale >= 1,
        grid_length <= 0x1000,
        index <= 0x1000_0000,
    ensures
        r == square_within_bounds_spec(index as int, scale as int, grid_length as int),
{
    if scale - 1 > grid_length {
        // The bottom row of such a square lies strictly below the grid.
        proof {
            assert(grid_length * (scale - 1) >= grid_length * grid_length + grid_length)
                by (nonlinear_arith)
                requires
                    scale - 1 > grid_length,
                    grid_length >= 0,
            ;
        }
        false
    } else {
        proof {
            assert(grid_length * (scale - 1) <= 0x1000 * 0x1000 && grid_length * grid_length
                <= 0x1000 * 0x1000) by (nonlinear_arith)
                requires
                    1 <= scale,
                    scale - 1 <= grid_length <= 0x1000,
            ;
        }
        index + (scale - 1) + grid_length * (scale - 1) <= grid_length * grid_length
    }
}

/// The candidate square `(index, scale)` is a square of the grid.
pub fn valid_square(index: usize, scale: usize, grid_length: usize) -> (r: bool)
    requires
        index >= 1,
        scale >= 1,
        grid_length >= 1,
        grid_length <= 0x1000,
        index <= 0x1000_0000,
        scale <= 0x1000_0000,
    ensures
        r == valid_square_spec(index as int, scale as int, grid_length as int),
{
    square_within_bounds(index, scale, grid_length) && !edge_is_on_different_row(
        index,
        scale,
        grid_length,
    )
}

/// Bit `i` of the mask `mask` is set.
pub open spec fn nth_bit(mask: u128, i: u128) -> bool {
    (mask >> i) & 1 == 1
}

/// Bit `i` of the mask, as the `0`/`1` count the heatmap arithmetic uses.
pub open spec fn bit_value(mask: u128, i: u128) -> i32 {
    if nth_bit(mask, i) {
        1
    } else {
        0
    }
}

/// The mask of the square `(index, scale)`: exactly its four corner bits set.
pub open spec fn square_mask_spec(index: int, scale: int, l: int) -> u128 {
    (1u128 << (corner_tl(index) as u128)) | (1u128 << (corner_tr(index, scale) as u128)) | (1u128
        << (corner_bl(index, scale, l) as u128)) | (1u128 << (corner_br(index, scale, l) as u128))
}

proof fn lemma_four_bit_mask(a: u128, b: u128, c: u128, d: u128, i: u128)
    requires
        a < 128,
        b < 128,
        c < 128,
        d < 128,
        i < 128,
    ensures
        nth_bit((1u128 << a) | (1u128 << b) | (1u128 << c) | (1u128 << d), i) == (i == a || i == b
            || i == c || i == d),
{
    assert(((((1u128 << a) | (1u128 << b) | (1u128 << c) | (1u128 << d)) >> i) & 1 == 1) == (i == a
        || i == b || i == c || i == d)) by (bit_vector)
        requires
            a < 128,
            b < 128,
            c < 128,
            d < 128,
            i < 128,
    ;
}

/// The mask of a valid square reads back, bit by bit, as the indicator of its
/// four corners.
pub proof fn lemma_square_mask_bits(index: int, scale: int, l: int)
    requires
        l >= 2,
        l * l <= 128,
        valid_pair(index, scale, l),
    ensures
        forall|i: u128|
            i < 128 ==> nth_bit(square_mask_spec(index, scale, l), i) == is_corner(
                i as int,
                index,
                scale,
                l,
            ),
{
    lemma_valid_square_corners_in_bounds(index, scale, l);
    let a = corner_tl(index) as u128;
    let b = corner_tr(index, scale) as u128;
    let c = corner_bl(index, scale, l) as u128;
    let d = corner_br(index, scale, l) as u128;
    assert forall|i: u128| i < 128 implies nth_bit(square_mask_spec(index, scale, l), i)
        == is_corner(i as int, index, scale, l) by {
        lemma_four_bit_mask(a, b, c, d, i);
    }
}

/// Distinct valid squares have distinct masks: the mask determines the
/// top-left corner and the scale.
pub proof fn lemma_square_mask_injective(idx1: int, s1: int, idx2: int, s2: int, l: int)
    requires
        l >= 2,
        l * l <= 128,
        valid_pair(idx1, s1, l),
        valid_pair(idx2, s2, l),
        square_mask_spec(idx1, s1, l) == square_mask_spec(idx2, s2, l),
    ensures
        idx1 == idx2,
        s1 == s2,
{
    let m = square_mask_spec(idx1, s1, l);
    lemma_valid_square_corners_in_bounds(idx1, s1, l);
    lemma_valid_square_corners_in_bounds(idx2, s2, l);
    lemma_square_mask_bits(idx1, s1, l);
    lemma_square_mask_bits(idx2, s2, l);
    let a1 = corner_tl(idx1);
    let b1 = corner_tr(idx1, s1);
    let a2 = corner_tl(idx2);
    let b2 = corner_tr(idx2, s2);
    assert(nth_bit(m, a1 as u128) == is_corner((a1 as u128) as int, idx1, s1, l));
    assert(nth_bit(m, a1 as u128) == is_corner((a1 as u128) as int, idx2, s2, l));
    assert(nth_bit(m, a2 as u128) == is_corner((a2 as u128) as int, idx1, s1, l));
    assert(nth_bit(m, a2 as u128) == is_corner((a2 as u128) as int, idx2, s2, l));
    assert(is_corner(a1, idx2, s2, l) && is_corner(a2, idx1, s1, l));
    assert(a1 == a2);
    assert(nth_bit(m, b1 as u128) == is_corner((b1 as u128) as int, idx1, s1, l));
    assert(nth_bit(m, b1 as u128) == is_corner((b1 as u128) as int, idx2, s2, l));
    assert(nth_bit(m, b2 as u128) == is_corner((b2 as u128) as int, idx1, s1, l));
    assert(nth_bit(m, b2 as u128) == is_corner((b2 as u128) as int, idx2, s2, l));
    assert(is_corner(b1, idx2, s2, l) && is_corner(b2, idx1, s1, l));
    assert(b1 == b2);
}

/// The `u128` whose only set bits are the four corners of the square
/// `(index, scale)`.
pub fn construct_square(index: usize, scale: usize, grid_length: usize) -> (r: u128)
    requires
        grid_length >= 2,
        grid_length * grid_length <= 128,
        valid_pair(index as int, scale as int, grid_length as int),
    ensures
        r == square_mask_spec(index as int, scale as int, grid_length as int),
{
    proof {
        lemma_valid_square_corners_in_bounds(index as int, scale as int, grid_length as int);
    }
    let tl: usize = index - 1;
    let tr: usize = tl + (scale - 1);
    let bl: usize = tl + grid_length * (scale - 1);
    let br: usize = bl + (scale - 1);
    (1u128 << tl) | (1u128 << tr) | (1u128 << bl) | (1u128 << br)
}

/// `m` is the mask of some valid square of the grid of side `l`.
pub open spec fn is_generated_square(m: u128, l: int) -> bool {
    exists|idx: int, s: int| valid_pair(idx, s, l) && m == #[trigger] square_mask_spec(idx, s, l)
}

/// `m` is the mask of a valid square whose `(index, scale)` pair precedes
/// the cursor `(index, scale)` in generation order.
spec fn is_generated_before(m: u128, l: int, index: int, scale: int) -> bool {
    exists|idx: int, s: int|
        valid_pair(idx, s, l) && (idx < index || (idx == index && s < scale)) && m
            == #[trigger] square_mask_spec(idx, s, l)
}

/// Moving the generation cursor forward keeps every already-generated mask
/// behind it.
proof fn lemma_generated_before_widen(m: u128, l: int, i1: int, s1: int, i2: int, s2: int)
    requires
        is_generated_before(m, l, i1, s1),
        i1 < i2 || (i1 == i2 && s1 <= s2),
    ensures
        is_generated_before(m, l, i2, s2),
{
    let (idx0, s0) = choose|idx0: int, s0: int|
        valid_pair(idx0, s0, l) && (idx0 < i1 || (idx0 == i1 && s0 < s1)) && m
            == #[trigger] square_mask_spec(idx0, s0, l);
    assert(valid_pair(idx0, s0, l) && (idx0 < i2 || (idx0 == i2 && s0 < s2)) && m
        == square_mask_spec(idx0, s0, l));
}

/// All squares that fit in a grid of side `grid_length`, each as a corner
/// bitmask. Every valid `(index, scale)` pair contributes its mask exactly
/// once, and nothing else is in the catalog.
pub fn get_squares(grid_length: usize) -> (r: Vec<u128>)
    requires
        grid_length >= 2,
        grid_length * grid_length <= 128,
    ensures
        forall|k: int| 0 <= k < r@.len() ==> is_generated_square(#[trigger] r@[k], grid_length as int),
        forall|idx: int, s: int|
            valid_pair(idx, s, grid_length as int) ==> r@.contains(
                #[trigger] square_mask_spec(idx, s, grid_length as int),
            ),
        forall|k1: int, k2: int| 0 <= k1 < k2 < r@.len() ==> r@[k1] != r@[k2],
        r@.len() <= grid_length * grid_length * grid_length,
{
    let l = grid_length;
    proof {
        assert(l <= 64) by (nonlinear_arith)
            requires
                l >= 2,
                l * l <= 128,
        ;
    }
    let grid_size = l * l;
    let mut squares: Vec<u128> = Vec::new();
    let mut index: usize = 1;
    while index <= grid_size
        invariant
            l >= 2,
            l <= 64,
            grid_size == l * l <= 128,
            1 <= index <= grid_size + 1,
            forall|k: int|
                0 <= k < squares@.len() ==> is_generated_before(
                    #[trigger] squares@[k],
                    l as int,
                    index as int,
                    2,
                ),
            forall|idx: int, s: int|
                valid_pair(idx, s, l as int) && idx < index ==> squares@.contains(
                    #[trigger] square_mask_spec(idx, s, l as int),
                ),
            forall|k1: int, k2: int| 0 <= k1 < k2 < squares@.len() ==> squares@[k1] != squares@[k2],
            squares@.len() <= (index - 1) * l,
        decreases grid_size + 1 - index,
    {
        let mut scale: usize = 2;
        while scale <= l
            invariant
                l >= 2,
                l <= 64,
                grid_size == l * l <= 128,
                1 <= index <= grid_size,
                2 <= scale <= l + 1,
                forall|k: int|
                    0 <= k < squares@.len() ==> is_generated_before(
                        #[trigger] squares@[k],
                        l as int,
                        index as int,
                        scale as int,
                    ),
                forall|idx: int, s: int|
                    valid_pair(idx, s, l as int) && (idx < index || (idx == index && s < scale))
                        ==> squares@.contains(#[trigger] square_mask_spec(idx, s, l as int)),
                forall|k1: int, k2: int|
                    0 <= k1 < k2 < squares@.len() ==> squares@[k1] != squares@[k2],
                squares@.len() <= (index - 1) * l + (scale - 2),
            decreases l + 1 - scale,
        {
            if valid_square(index, scale, l) {
                let mask = construct_square(index, scale, l);
                let ghost pre = squares@;
                squares.push(mask);
                proof {
                    assert forall|m: u128| pre.contains(m) implies squares@.contains(m) by {
                        let j = choose|j: int| 0 <= j < pre.len() && pre[j] == m;
                        assert(squares@[j] == m);
                    }
                    assert(squares@[pre.len() as int] == mask);
                    assert(squares@.contains(mask));
                    assert(valid_pair(index as int, scale as int, l as int) && mask
                        == square_mask_spec(index as int, scale as int, l as int));
                    assert(is_generated_before(mask, l as int, index as int, scale as int + 1));
                    // The new mask cannot repeat an earlier one: earlier
                    // masks come from strictly earlier (index, scale) pairs,
                    // and the mask determines the pair.
                    assert forall|k: int| 0 <= k < pre.len() implies squares@[k] != mask by {
                        let (idx0, s0) = choose|idx0: int, s0: int|
                            valid_pair(idx0, s0, l as int) && (idx0 < index || (idx0 == index && s0
                                < scale)) && pre[k] == #[trigger] square_mask_spec(
                                idx0,
                                s0,
                                l as int,
                            );
                        if pre[k] == mask {
                            lemma_square_mask_injective(
                                idx0,
                                s0,
                                index as int,
                                scale as int,
                                l as int,
                            );
                        }
                    }
                }
            }
            proof {
                assert forall|k: int| 0 <= k < squares@.len() implies is_generated_before(
                    #[trigger] squares@[k],
                    l as int,
                    index as int,
                    scale as int + 1,
                ) by {
                    if is_generated_before(squares@[k], l as int, index as int, scale as int) {
                        lemma_generated_before_widen(
                            squares@[k],
                            l as int,
                            index as int,
                            scale as int,
                            index as int,
                            scale as int + 1,
                        );
                    }
                }
            }
            scale = scale + 1;
        }
        proof {
            assert((index - 1) * l + (l - 1) <= index * l) by (nonlinear_arith)
                requires
                    index >= 1,
                    l >= 1,
            ;
            assert forall|k: int| 0 <= k < squares@.len() implies is_generated_before(
                #[trigger] squares@[k],
                l as int,
                index as int + 1,
                2,
            ) by {
                lemma_generated_before_widen(
                    squares@[k],
                    l as int,
                    index as int,
                    scale as int,
                    index as int + 1,
                    2,
                );
            }
        }
        index = index + 1;
    }
    proof {
        assert((grid_size as int) * (l as int) == (l * l * l) as int) by (nonlinear_arith)
            requires
                grid_size == l * l,
                l <= 128,
        ;
        assert forall|k: int| 0 <= k < squares@.len() implies is_generated_square(
            #[trigger] squares@[k],
            l as int,
        ) by {
            let (idx0, s0) = choose|idx0: int, s0: int|
                valid_pair(idx0, s0, l as int) && (idx0 < grid_size + 1 || (idx0 == grid_size + 1
                    && s0 < 2)) && squares@[k] == #[trigger] square_mask_spec(idx0, s0, l as int);
            assert(squares@[k] == square_mask_spec(idx0, s0, l as int));
        }
    }
    squares
}

/// The indicator vector of the low `n` bits of a mask.
pub open spec fn bitlist_spec(m: u128, n: int) -> Seq<i32> {
    Seq::new(n as nat, |i: int| bit_value(m, i as u128))
}

/// The length-`grid_size` indicator vector of the mask `input`: entry `i` is
/// bit `i` of the mask, as a count of `0` or `1`.
pub fn get_bitlist(input: u128, grid_size: usize) -> (r: Vec<i32>)
    requires
        grid_size <= 128,
    ensures
        r@.len() == grid_size,
        forall|i: int| 0 <= i < grid_size ==> r@[i] == bit_value(input, i as u128),
{
    let mut bits: Vec<i32> = Vec::new();
    let mut x: usize = 0;
    while x < grid_size
        invariant
            grid_size <= 128,
            x <= grid_size,
            bits@.len() == x,
            forall|i: int| 0 <= i < x ==> bits@[i] == bit_value(input, i as u128),
        decreases grid_size + 1 - x,
    {
        proof {
            let xg = x as u128;
            assert((input >> xg) & 1 <= 1) by (bit_vector);
        }
        let bit: i32 = ((input >> x) & 1) as i32;
        bits.push(bit);
        x = x + 1;
    }
    bits
}

/// Every mask of `squares`, converted to its indicator vector.
pub fn get_squares_as_bitlist(squares: &Vec<u128>, grid_size: usize) -> (r: Vec<Vec<i32>>)
    requires
        grid_size <= 128,
    ensures
        r@.len() == squares@.len(),
        forall|k: int|
            0 <= k < r@.len() ==> r@[k]@.len() == grid_size && forall|i: int|
                0 <= i < grid_size ==> r@[k]@[i] == bit_value(squares@[k], i as u128),
{
    let mut bitlists: Vec<Vec<i32>> = Vec::new();
    let mut k: usize = 0;
    while k < squares.len()
        invariant
            grid_size <= 128,
            k <= squares@.len(),
            bitlists@.len() == k,
            forall|j: int|
                0 <= j < k ==> bitlists@[j]@.len() == grid_size && forall|i: int|
                    0 <= i < grid_size ==> bitlists@[j]@[i] == bit_value(squares@[j], i as u128),
        decreases squares@.len() - k,
    {
        let bl = get_bitlist(squares[k], grid_size);
        bitlists.push(bl);
        k = k + 1;
    }
    bitlists
}

/// Every entry of `s` is a `0` or a `1`.
pub open spec fn is_binary_seq(s: Seq<i32>) -> bool {
    forall|i: int| 0 <= i < s.len() ==> 0 <= #[trigger] s[i] <= 1
}

/// Every cell that the square indicator `square` marks is set in `grid`.
pub open spec fn square_in_grid_spec(grid: Seq<i32>, square: Seq<i32>) -> bool {
    forall|i: int| 0 <= i < square.len() ==> (square[i] == 1 ==> grid[i] == 1)
}

proof fn lemma_and_01(a: i32, b: i32)
    requires
        0 <= a <= 1,
        0 <= b <= 1,
    ensures
        (a & b == b) == (b == 1 ==> a == 1),
{
    assert((a & b == b) == (b == 1 ==> a == 1)) by (bit_vector)
        requires
            0 <= a <= 1,
            0 <= b <= 1,
    ;
}

/// All four corners of the square indicator `square` are `1` in the `0`/`1`
/// grid `grid`: the elementwise AND of the two equals the square.
pub fn square_in_grid(grid: &Vec<i32>, square: &Vec<i32>) -> (r: bool)
    requires
        grid@.len() == square@.len(),
        is_binary_seq(grid@),
        is_binary_seq(square@),
    ensures
        r == square_in_grid_spec(grid@, square@),
{
    let mut i: usize = 0;
    while i < square.len()
        invariant
            grid@.len() == square@.len(),
            i <= square@.len(),
            is_binary_seq(grid@),
            is_binary_seq(square@),
            forall|j: int| 0 <= j < i ==> (square@[j] == 1 ==> grid@[j] == 1),
        decreases square@.len() - i,
    {
        proof {
            lemma_and_01(grid@[i as int], square@[i as int]);
        }
        if (grid[i] & square[i]) != square[i] {
            return false;
        }
        i = i + 1;
    }
    true
}

/// The mask `square` is contained in the mask `grid`: ANDing leaves the
/// square unchanged.
pub open spec fn mask_contains_square(grid: u128, square: u128) -> bool {
    grid & square == square
}

/// Some mask of `squares` is contained in the grid mask `grid`.
pub fn grid_contains_squares(grid: u128, squares: &Vec<u128>) -> (r: bool)
    ensures
        r == exists|k: int|
            0 <= k < squares@.len() && mask_contains_square(grid, #[trigger] squares@[k]),
{
    let mut k: usize = 0;
    while k < squares.len()
        invariant
            k <= squares@.len(),
            forall|j: int| 0 <= j < k ==> !mask_contains_square(grid, #[trigger] squares@[j]),
        decreases squares@.len() - k,
    {
        if (grid & squares[k]) == squares[k] {
            return true;
        }
        k = k + 1;
    }
    false
}

/// Some mask of `squares` is contained in the grid mask `grid`.
pub fn grid_contains_any_squares(grid: u128, squares: Vec<u128>) -> (r: bool)
    ensures
        r == exists|k: int|
            0 <= k < squares@.len() && mask_contains_square(grid, #[trigger] squares@[k]),
{
    grid_contains_squares(grid, &squares)
}

/// The product of the integers in `[lo, hi]`; `1` when the range is empty.
pub open spec fn prod_range(lo: int, hi: int) -> int
    decreases hi - lo + 1,
{
    if hi < lo {
        1
    } else {
        prod_range(lo, hi - 1) * hi
    }
}

/// A product of integers that are all at least `1` is at least `1`.
pub proof fn lemma_prod_range_pos(lo: int, hi: int)
    requires
        lo >= 1,
    ensures
        prod_range(lo, hi) >= 1,
    decreases hi - lo + 1,
{
    if hi >= lo {
        lemma_prod_range_pos(lo, hi - 1);
        assert(prod_range(lo, hi - 1) * hi >= 1) by (nonlinear_arith)
            requires
                prod_range(lo, hi - 1) >= 1,
                hi >= 1,
        ;
    }
}

/// A product over `[lo, hi]` splits at any point `mid` of the range.
pub proof fn lemma_prod_range_split(lo: int, mid: int, hi: int)
    requires
        lo - 1 <= mid <= hi,
    ensures
        prod_range(lo, hi) == prod_range(lo, mid) * prod_range(mid + 1, hi),
    decreases hi - mid,
{
    if hi == mid {
    } else {
        lemma_prod_range_split(lo, mid, hi - 1);
        assert((prod_range(lo, mid) * prod_range(mid + 1, hi - 1)) * hi == prod_range(lo, mid) * (
        prod_range(mid + 1, hi - 1) * hi)) by (nonlinear_arith);
    }
}

/// Dropping leading factors of a product of positive integers cannot make it
/// larger.
pub proof fn lemma_prod_range_le(lo: int, hi: int)
    requires
        lo >= 1,
    ensures
        prod_range(lo, hi) <= prod_range(1, hi),
{
    if lo - 1 <= hi {
        lemma_prod_range_split(1, lo - 1, hi);
        lemma_prod_range_pos(1, lo - 1);
        lemma_prod_range_pos(lo, hi);
        assert(prod_range(1, lo - 1) * prod_range(lo, hi) >= prod_range(lo, hi))
            by (nonlinear_arith)
            requires
                prod_range(1, lo - 1) >= 1,
                prod_range(lo, hi) >= 1,
        ;
    } else {
        lemma_prod_range_pos(1, hi);
    }
}

/// Extending the range of a product of positive integers cannot make it
/// smaller.
pub proof fn lemma_prod_range_mono(lo: int, h1: int, h2: int)
    requires
        lo >= 1,
        h1 <= h2,
    ensures
        prod_range(lo, h1) <= prod_range(lo, h2),
    decreases h2 - h1,
{
    if h1 < h2 {
        lemma_prod_range_mono(lo, h1, h2 - 1);
        lemma_prod_range_pos(lo, h2 - 1);
        if h2 >= lo {
            assert(prod_range(lo, h2 - 1) * h2 >= prod_range(lo, h2 - 1)) by (nonlinear_arith)
                requires
                    prod_range(lo, h2 - 1) >= 1,
                    h2 >= 1,
            ;
        }
    }
}

/// The product of `1` through `34` written out; it still fits in a `u128`.
pub proof fn lemma_prod_range_34()
    ensures
        prod_range(1, 34) == 295232799039604140847618609643520000000,
{
    assert(prod_range(1, 0) == 1);
    assert(prod_range(1, 1) == 1);
    assert(prod_range(1, 2) == 2);
    assert(prod_range(1, 3) == 6);
    assert(prod_range(1, 4) == 24);
    assert(prod_range(1, 5) == 120);
    assert(prod_range(1, 6) == 720);
    assert(prod_range(1, 7) == 5040);
    assert(prod_range(1, 8) == 40320);
    assert(prod_range(1, 9) == 362880);
    assert(prod_range(1, 10) == 3628800);
    assert(prod_range(1, 11) == 39916800);
    assert(prod_range(1, 12) == 479001600);
    assert(prod_range(1, 13) == 6227020800);
    assert(prod_range(1, 14) == 87178291200);
    assert(prod_range(1, 15) == 1307674368000);
    assert(prod_range(1, 16) == 20922789888000);
    assert(prod_range(1, 17) == 355687428096000);
    assert(prod_range(1, 18) == 6402373705728000);
    assert(prod_range(1, 19) == 121645100408832000);
    assert(prod_range(1, 20) == 2432902008176640000);
    assert(prod_range(1, 21) == 51090942171709440000);
    assert(prod_range(1, 22) == 1124000727777607680000);
    assert(prod_range(1, 23) == 25852016738884976640000);
    assert(prod_range(1, 24) == 620448401733239439360000);
    assert(prod_range(1, 25) == 15511210043330985984000000);
    assert(prod_range(1, 26) == 403291461126605635584000000);
    assert(prod_range(1, 27) == 10888869450418352160768000000);
    assert(prod_range(1, 28) == 304888344611713860501504000000);
    assert(prod_range(1, 29) == 8841761993739701954543616000000);
    assert(prod_range(1, 30) == 265252859812191058636308480000000);
    assert(prod_range(1, 31) == 8222838654177922817725562880000000);
    assert(prod_range(1, 32) == 263130836933693530167218012160000000);
    assert(prod_range(1, 33) == 8683317618811886495518194401280000000);
    assert(prod_range(1, 34) == 295232799039604140847618609643520000000);
}

/// The number of distinct grids with `popcount` cells set: the falling
/// factorial over the remaining cells divided by the factorial of the
/// count of unset cells.
///
/// `grid_size` is capped at `34`: the formula multiplies the factors out
/// before dividing, and `34!` is the largest factorial a `u128` holds, so
/// wider grids would overflow whatever their popcount. Counting layouts of
/// a wider grid needs a different evaluation order.
pub fn number_of_permutation_with_repititions(popcount: usize, grid_size: usize) -> (r: u128)
    requires
        popcount <= grid_size,
        grid_size <= 34,
    ensures
        r == prod_range(popcount as int + 1, grid_size as int) / prod_range(
            1,
            grid_size as int - popcount as int,
        ),
{
    proof {
        lemma_prod_range_34();
    }
    let mut numerator: u128 = 1;
    let mut x: usize = popcount + 1;
    while x <= grid_size
        invariant
            popcount + 1 <= x <= grid_size + 1,
            grid_size <= 34,
            numerator == prod_range(popcount as int + 1, x as int - 1),
            prod_range(1, 34) == 295232799039604140847618609643520000000,
        decreases grid_size + 1 - x,
    {
        proof {
            lemma_prod_range_pos(popcount as int + 1, x as int);
            lemma_prod_range_le(popcount as int + 1, x as int);
            lemma_prod_range_mono(1, x as int, 34);
            assert(numerator * x == prod_range(popcount as int + 1, x as int));
        }
        numerator = numerator * (x as u128);
        x = x + 1;
    }
    let difference = grid_size - popcount;
    let mut denominator: u128 = 1;
    let mut y: usize = 1;
    while y <= difference
        invariant
            1 <= y <= difference + 1,
            difference <= 34,
            denominator == prod_range(1, y as int - 1),
            prod_range(1, 34) == 295232799039604140847618609643520000000,
        decreases difference + 1 - y,
    {
        proof {
            lemma_prod_range_pos(1, y as int);
            lemma_prod_range_mono(1, y as int, 34);
            assert(denominator * y == prod_range(1, y as int));
        }
        denominator = denominator * (y as u128);
        y = y + 1;
    }
    proof {
        lemma_prod_range_pos(1, difference as int);
    }
    numerator / denominator
}

/// A nonzero mask has some set bit.
proof fn lemma_nonzero_has_bit(x: u128)
    requires
        x != 0,
    ensures
        exists|i: u128| i < 128 && nth_bit(x, i),
    decreases x,
{
    if x & 1 == 1 {
        assert(nth_bit(x, 0)) by (bit_vector)
            requires
                x & 1 == 1,
        ;
        assert(0u128 < 128 && nth_bit(x, 0u128));
    } else {
        assert(x >> 1 != 0 && x >> 1 < x) by (bit_vector)
            requires
                x != 0,
                x & 1 != 1,
        ;
        lemma_nonzero_has_bit(x >> 1);
        let i = choose|i: u128| i < 128 && nth_bit(x >> 1, i);
        assert(((x >> 1) >> 127) & 1 == 0) by (bit_vector);
        assert(i < 127);
        let j: u128 = (i + 1) as u128;
        assert(((x >> 1) >> i) & 1 == (x >> j) & 1) by (bit_vector)
            requires
                i < 127,
                j == i + 1,
        ;
        assert(j < 128 && nth_bit(x, j));
    }
}

/// The two encodings of containment agree: a square mask is contained in a
/// grid mask exactly when every bit the square sets is set in the grid.
pub proof fn lemma_mask_containment_bitwise(grid: u128, square: u128)
    ensures
        mask_contains_square(grid, square) <==> (forall|i: u128|
            i < 128 && nth_bit(square, i) ==> nth_bit(grid, i)),
{
    if grid & square == square {
        assert forall|i: u128| i < 128 && nth_bit(square, i) implies nth_bit(grid, i) by {
            assert((square >> i) & 1 == 1 ==> (grid >> i) & 1 == 1) by (bit_vector)
                requires
                    grid & square == square,
            ;
        }
    } else {
        let d = square & !grid;
        assert(d != 0) by (bit_vector)
            requires
                grid & square != square,
                d == square & !grid,
        ;
        lemma_nonzero_has_bit(d);
        let i = choose|i: u128| i < 128 && nth_bit(d, i);
        assert((square >> i) & 1 == 1 && (grid >> i) & 1 != 1) by (bit_vector)
            requires
                (d >> i) & 1 == 1,
                d == square & !grid,
        ;
        assert(nth_bit(square, i) && !nth_bit(grid, i));
    }
}

} // verus!
