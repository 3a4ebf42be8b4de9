//! Heatmap and dependency-map arithmetic.
//!
//! The heatmap holds, per cell, the number of squares that still use the
//! cell as a corner; the dependency map of a cell `n` holds, per cell `i`,
//! the number of squares that use both `n` and `i` as corners. Both are
//! elementwise sums of square indicator vectors.

use vstd::prelude::*;

use crate::square_utils::is_binary_seq;

verus! {

/// The square indicators all have one entry per grid cell, each a `0` or `1`.
pub open spec fn wf_square_bitlists(sqs: Seq<Seq<i32>>, n_cells: int) -> bool {
    forall|k: int|
        0 <= k < sqs.len() ==> (#[trigger] sqs[k]).len() == n_cells && is_binary_seq(sqs[k])
}

/// The sum over all squares of their entry at cell `i`: how many squares use
/// cell `i` as a corner.
pub open spec fn col_sum(sqs: Seq<Seq<i32>>, i: int) -> int
    decreases sqs.len(),
{
    if sqs.len() == 0 {
        0
    } else {
        col_sum(sqs.drop_last(), i) + sqs.last()[i]
    }
}

/// The sum, over the squares whose entry at cell `n` is set, of their entry
/// at cell `i`: how many squares use both `n` and `i` as corners.
pub open spec fn dep_sum(sqs: Seq<Seq<i32>>, n: int, i: int) -> int
    decreases sqs.len(),
{
    if sqs.len() == 0 {
        0
    } else {
        dep_sum(sqs.drop_last(), n, i) + if sqs.last()[n] == 1 {
            sqs.last()[i]
        } else {
            0
        }
    }
}

/// The greatest entry of a non-empty sequence.
pub open spec fn seq_max(s: Seq<i32>) -> int
    recommends
        s.len() > 0,
    decreases s.len(),
{
    if s.len() <= 1 {
        if s.len() == 1 {
            s[0] as int
        } else {
            0
        }
    } else if s.last() as int > seq_max(s.drop_last()) {
        s.last() as int
    } else {
        seq_max(s.drop_last())
    }
}

/// Column sums of `0`/`1` indicators stay between `0` and the number of
/// squares.
pub proof fn lemma_col_sum_bounds(sqs: Seq<Seq<i32>>, n_cells: int, i: int)
    requires
        wf_square_bitlists(sqs, n_cells),
        0 <= i < n_cells,
    ensures
        0 <= col_sum(sqs, i) <= sqs.len(),
    decreases sqs.len(),
{
    if sqs.len() > 0 {
        lemma_col_sum_bounds(sqs.drop_last(), n_cells, i);
    }
}

/// Dependency sums of `0`/`1` indicators stay between `0` and the number of
/// squares.
pub proof fn lemma_dep_sum_bounds(sqs: Seq<Seq<i32>>, n_cells: int, n: int, i: int)
    requires
        wf_square_bitlists(sqs, n_cells),
        0 <= i < n_cells,
        0 <= n < n_cells,
    ensures
        0 <= dep_sum(sqs, n, i) <= sqs.len(),
    decreases sqs.len(),
{
    if sqs.len() > 0 {
        lemma_dep_sum_bounds(sqs.drop_last(), n_cells, n, i);
    }
}

/// The diagonal of the dependency map counts every square that uses cell `n`
/// as a corner: it equals the initial heatmap entry of `n`.
pub proof fn lemma_dependency_diagonal(sqs: Seq<Seq<i32>>, n_cells: int, n: int)
    requires
        wf_square_bitlists(sqs, n_cells),
        0 <= n < n_cells,
    ensures
        dep_sum(sqs, n, n) == col_sum(sqs, n),
    decreases sqs.len(),
{
    if sqs.len() > 0 {
        lemma_dependency_diagonal(sqs.drop_last(), n_cells, n);
    }
}

/// The greatest entry is an entry, and no entry exceeds it.
pub proof fn lemma_seq_max_properties(s: Seq<i32>)
    requires
        s.len() > 0,
    ensures
        exists|i: int| 0 <= i < s.len() && s[i] == seq_max(s),
        forall|i: int| 0 <= i < s.len() ==> s[i] <= seq_max(s),
    decreases s.len(),
{
    if s.len() == 1 {
        assert(s[0] == seq_max(s));
    } else {
        lemma_seq_max_properties(s.drop_last());
        assert forall|i: int| 0 <= i < s.len() implies s[i] <= seq_max(s) by {
            if i < s.len() - 1 {
                assert(s.drop_last()[i] == s[i]);
            }
        }
        if s.last() as int > seq_max(s.drop_last()) {
            assert(s[s.len() - 1] == seq_max(s));
        } else {
            let i = choose|i: int|
                0 <= i < s.drop_last().len() && s.drop_last()[i] == seq_max(s.drop_last());
            assert(s[i] == seq_max(s));
        }
    }
}

/// The elementwise sum of a heatmap and a square indicator.
pub fn add_lists(heatmap: &Vec<i32>, square: &Vec<i32>) -> (r: Vec<i32>)
    requires
        heatmap@.len() == square@.len(),
        forall|i: int|
            0 <= i < heatmap@.len() ==> i32::MIN <= #[trigger] heatmap@[i] + square@[i]
                <= i32::MAX,
    ensures
        r@.len() == heatmap@.len(),
        forall|i: int| 0 <= i < r@.len() ==> r@[i] == heatmap@[i] + square@[i],
{
    let mut out: Vec<i32> = Vec::new();
    let mut i: usize = 0;
    while i < heatmap.len()
        invariant
            heatmap@.len() == square@.len(),
            i <= heatmap@.len(),
            out@.len() == i,
            forall|j: int|
                0 <= j < heatmap@.len() ==> i32::MIN <= #[trigger] heatmap@[j] + square@[j]
                    <= i32::MAX,
            forall|j: int| 0 <= j < i ==> out@[j] == heatmap@[j] + square@[j],
        decreases heatmap@.len() - i,
    {
        out.push(heatmap[i] + square[i]);
        i = i + 1;
    }
    out
}

/// The initial heatmap: for each cell, the number of squares that use it as
/// a corner, computed as the elementwise sum of every square indicator.
pub fn get_heatmap(squares_as_bitlist: &Vec<Vec<i32>>, grid_size: usize) -> (r: Vec<i32>)
    requires
        wf_square_bitlists(squares_as_bitlist.deep_view(), grid_size as int),
        squares_as_bitlist@.len() < 0x7fff_ffff,
    ensures
        r@.len() == grid_size,
        forall|i: int|
            0 <= i < grid_size ==> r@[i] == col_sum(squares_as_bitlist.deep_view(), i),
        forall|i: int| 0 <= i < grid_size ==> 0 <= #[trigger] r@[i] <= squares_as_bitlist@.len(),
{
    let ghost dv = squares_as_bitlist.deep_view();
    let mut heatmap: Vec<i32> = vec![0i32; grid_size];
    let mut k: usize = 0;
    while k < squares_as_bitlist.len()
        invariant
            wf_square_bitlists(dv, grid_size as int),
            dv == squares_as_bitlist.deep_view(),
            dv.len() == squares_as_bitlist@.len() < 0x7fff_ffff,
            k <= dv.len(),
            heatmap@.len() == grid_size,
            forall|i: int| 0 <= i < grid_size ==> heatmap@[i] == col_sum(dv.take(k as int), i),
            forall|i: int| 0 <= i < grid_size ==> 0 <= #[trigger] heatmap@[i] <= k,
        decreases dv.len() - k,
    {
        proof {
            assert(dv.take(k as int + 1).drop_last() =~= dv.take(k as int));
            assert(dv[k as int] == squares_as_bitlist@[k as int]@);
            assert forall|i: int| 0 <= i < grid_size implies col_sum(dv.take(k as int + 1), i)
                == col_sum(dv.take(k as int), i) + dv[k as int][i] by {
                assert(dv.take(k as int + 1).last() == dv[k as int]);
            }
        }
        heatmap = add_lists(&heatmap, &squares_as_bitlist[k]);
        k = k + 1;
    }
    proof {
        assert(dv.take(dv.len() as int) =~= dv);
    }
    heatmap
}

/// The dependency map of every cell `n`: the elementwise sum of the
/// indicators of exactly those squares whose entry at `n` is set.
pub fn get_dependency_maps(squares_as_bitlist: &Vec<Vec<i32>>, grid_size: usize) -> (r: Vec<
    Vec<i32>,
>)
    requires
        wf_square_bitlists(squares_as_bitlist.deep_view(), grid_size as int),
        squares_as_bitlist@.len() < 0x7fff_ffff,
    ensures
        r@.len() == grid_size,
        forall|n: int| 0 <= n < grid_size ==> (#[trigger] r@[n])@.len() == grid_size,
        forall|n: int, i: int|
            0 <= n < grid_size && 0 <= i < grid_size ==> (#[trigger] r@[n]@[i]) == dep_sum(
                squares_as_bitlist.deep_view(),
                n,
                i,
            ),
{
    let ghost dv = squares_as_bitlist.deep_view();
    let mut maps: Vec<Vec<i32>> = Vec::new();
    let mut n: usize = 0;
    while n < grid_size
        invariant
            wf_square_bitlists(dv, grid_size as int),
            dv == squares_as_bitlist.deep_view(),
            dv.len() == squares_as_bitlist@.len() < 0x7fff_ffff,
            n <= grid_size,
            maps@.len() == n,
            forall|m: int| 0 <= m < n ==> (#[trigger] maps@[m])@.len() == grid_size,
            forall|m: int, i: int|
                0 <= m < n && 0 <= i < grid_size ==> (#[trigger] maps@[m]@[i]) == dep_sum(dv, m, i),
        decreases grid_size - n,
    {
        let mut dep: Vec<i32> = vec![0i32; grid_size];
        let mut k: usize = 0;
        while k < squares_as_bitlist.len()
            invariant
                wf_square_bitlists(dv, grid_size as int),
                dv == squares_as_bitlist.deep_view(),
                dv.len() == squares_as_bitlist@.len() < 0x7fff_ffff,
                n < grid_size,
                k <= dv.len(),
                dep@.len() == grid_size,
                forall|i: int| 0 <= i < grid_size ==> dep@[i] == dep_sum(dv.take(k as int), n as int, i),
                forall|i: int| 0 <= i < grid_size ==> 0 <= #[trigger] dep@[i] <= k,
            decreases dv.len() - k,
        {
            proof {
                assert(dv.take(k as int + 1).drop_last() =~= dv.take(k as int));
                assert(dv[k as int] == squares_as_bitlist@[k as int]@);
                assert(dv.take(k as int + 1).last() == dv[k as int]);
            }
            if squares_as_bitlist[k][n] == 1 {
                dep = add_lists(&dep, &squares_as_bitlist[k]);
            }
            k = k + 1;
        }
        proof {
            assert(dv.take(dv.len() as int) =~= dv);
        }
        maps.push(dep);
        n = n + 1;
    }
    maps
}

/// All indices whose heatmap entry equals the greatest entry, in increasing
/// order. Ties are not broken: every peak is reported.
pub fn get_peaks(heatmap: &Vec<i32>) -> (r: Vec<usize>)
    requires
        heatmap@.len() > 0,
    ensures
        r@.len() > 0,
        forall|j: int|
            0 <= j < r@.len() ==> (#[trigger] r@[j]) < heatmap@.len() && heatmap@[r@[j] as int]
                == seq_max(heatmap@),
        forall|i: int|
            0 <= i < heatmap@.len() && heatmap@[i] == seq_max(heatmap@) ==> r@.contains(i as usize),
        forall|j1: int, j2: int| 0 <= j1 < j2 < r@.len() ==> r@[j1] < r@[j2],
{
    let mut maximum_value: i32 = heatmap[0];
    let mut i: usize = 1;
    while i < heatmap.len()
        invariant
            heatmap@.len() > 0,
            1 <= i <= heatmap@.len(),
            maximum_value == seq_max(heatmap@.take(i as int)),
        decreases heatmap@.len() - i,
    {
        proof {
            assert(heatmap@.take(i as int + 1).drop_last() =~= heatmap@.take(i as int));
            assert(heatmap@.take(i as int + 1).last() == heatmap@[i as int]);
        }
        if heatmap[i] > maximum_value {
            maximum_value = heatmap[i];
        }
        i = i + 1;
    }
    proof {
        assert(heatmap@.take(heatmap@.len() as int) =~= heatmap@);
    }
    let mut peaks: Vec<usize> = Vec::new();
    let mut j: usize = 0;
    while j < heatmap.len()
        invariant
            heatmap@.len() > 0,
            j <= heatmap@.len(),
            maximum_value == seq_max(heatmap@),
            forall|p: int|
                0 <= p < peaks@.len() ==> (#[trigger] peaks@[p]) < j && heatmap@[peaks@[p] as int]
                    == seq_max(heatmap@),
            forall|i2: int|
                0 <= i2 < j && heatmap@[i2] == seq_max(heatmap@) ==> peaks@.contains(i2 as usize),
            forall|p1: int, p2: int| 0 <= p1 < p2 < peaks@.len() ==> peaks@[p1] < peaks@[p2],
        decreases heatmap@.len() - j,
    {
        if heatmap[j] == maximum_value {
            let ghost pre = peaks@;
            peaks.push(j);
            proof {
                assert forall|m: usize| pre.contains(m) implies peaks@.contains(m) by {
                    let q = choose|q: int| 0 <= q < pre.len() && pre[q] == m;
                    assert(peaks@[q] == m);
                }
                assert(peaks@[pre.len() as int] == j);
                assert(peaks@.contains(j));
            }
        }
        j = j + 1;
    }
    proof {
        lemma_seq_max_properties(heatmap@);
        let w = choose|w: int| 0 <= w < heatmap@.len() && heatmap@[w] == seq_max(heatmap@);
        assert(peaks@.contains(w as usize));
    }
    peaks
}

} // verus!
