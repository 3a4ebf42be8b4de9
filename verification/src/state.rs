//! One candidate grid under construction.
//!
//! A state owns its heatmap, the set of its peaks, and the depth (target
//! population) of the search level it belongs to. States are never mutated:
//! every transition builds a fresh heatmap. A heatmap entry of `-1` marks a
//! cell explicitly forced to `0`; any other value reads as `1` in the
//! derived grid.

use vstd::prelude::*;

use crate::catalog::SquareCatalog;
use crate::hca_utils::{get_peaks, lemma_dep_sum_bounds, seq_max, lemma_seq_max_properties};
use crate::square_utils::{is_binary_seq, square_in_grid, square_in_grid_spec};

verus! {

/// The grid a heatmap stands for: a cell is `0` exactly where its entry is
/// the `-1` sentinel, and `1` everywhere else (an entry of `0` still counts
/// as `1`: no square depends on the cell, but it was never forced out).
pub open spec fn grid_of(h: Seq<i32>) -> Seq<i32> {
    Seq::new(
        h.len(),
        |i: int|
            if h[i] == -1 {
                0
            } else {
                1
            },
    )
}

/// The population of the grid a heatmap stands for: how many cells are not
/// forced to `0`.
pub open spec fn population(h: Seq<i32>) -> int
    decreases h.len(),
{
    if h.len() == 0 {
        0
    } else {
        population(h.drop_last()) + if h.last() == -1 {
            0int
        } else {
            1int
        }
    }
}

/// The heatmap that results from forcing cell `n` to `0`: every still-active
/// cell loses the squares it shared with `n`, cells at or below `0` are
/// frozen, and `n` itself becomes the `-1` sentinel.
pub open spec fn apply_dep_spec(h: Seq<i32>, dep: Seq<i32>, n: int) -> Seq<i32> {
    Seq::new(
        h.len(),
        |i: int|
            if i == n {
                -1i32
            } else if h[i] <= 0 {
                h[i]
            } else {
                (h[i] - dep[i]) as i32
            },
    )
}

/// The grid of the heatmap contains some square of the catalog: all four
/// corners of that square read as `1`.
pub open spec fn contains_square_spec(h: Seq<i32>, sqs: Seq<Seq<i32>>) -> bool {
    exists|k: int| 0 <= k < sqs.len() && square_in_grid_spec(grid_of(h), #[trigger] sqs[k])
}

/// Every heatmap entry stays within the counting range that `ns` squares
/// allow: never above `ns`, never below `-(ns + 1)`.
pub open spec fn wf_heatmap_values(h: Seq<i32>, ns: int) -> bool {
    forall|i: int| 0 <= i < h.len() ==> -(ns + 1) <= #[trigger] h[i] <= ns
}

/// `p` lists exactly the indices of the greatest heatmap entry, in
/// increasing order.
pub open spec fn wf_peaks(h: Seq<i32>, p: Seq<usize>) -> bool {
    &&& p.len() > 0
    &&& forall|j: int|
        0 <= j < p.len() ==> (#[trigger] p[j]) < h.len() && h[p[j] as int] == seq_max(h)
    &&& forall|i: int| 0 <= i < h.len() && h[i] == seq_max(h) ==> p.contains(i as usize)
    &&& forall|j1: int, j2: int| 0 <= j1 < j2 < p.len() ==> p[j1] < p[j2]
}

/// One candidate grid of the search: a heatmap, its peaks, and the depth of
/// the level the state belongs to.
pub struct State {
    /// Per-cell count of the squares still depending on the cell, or the
    /// `-1` sentinel for a cell forced to `0`.
    pub heatmap: Vec<i32>,
    /// The indices of the greatest heatmap entry.
    pub heatmap_peaks: Vec<usize>,
    /// The target population of the search level this state belongs to.
    pub depth: i32,
}

impl State {
    /// The state fits the catalog: right heatmap length, entries within the
    /// counting range, and peaks that match the heatmap.
    pub open spec fn wf(self, cat: SquareCatalog) -> bool {
        &&& self.heatmap@.len() == cat.grid_size
        &&& wf_heatmap_values(self.heatmap@, cat.squares@.len() as int)
        &&& wf_peaks(self.heatmap@, self.heatmap_peaks@)
    }

    /// Wrap a heatmap, its peaks and a depth as a state.
    pub fn new(heatmap: Vec<i32>, heatmap_peaks: Vec<usize>, depth: i32) -> (r: State)
        ensures
            r.heatmap == heatmap,
            r.heatmap_peaks == heatmap_peaks,
            r.depth == depth,
    {
        State { heatmap, heatmap_peaks, depth }
    }

    /// The grid this state stands for: `0` exactly where the heatmap holds
    /// the `-1` sentinel.
    pub fn as_grid(&self) -> (r: Vec<i32>)
        ensures
            r@ == grid_of(self.heatmap@),
            is_binary_seq(r@),
    {
        let mut grid: Vec<i32> = Vec::new();
        let mut i: usize = 0;
        while i < self.heatmap.len()
            invariant
                i <= self.heatmap@.len(),
                grid@.len() == i,
                forall|j: int| 0 <= j < i ==> grid@[j] == grid_of(self.heatmap@)[j],
            decreases self.heatmap@.len() - i,
        {
            if self.heatmap[i] == -1 {
                grid.push(0);
            } else {
                grid.push(1);
            }
            i = i + 1;
        }
        proof {
            assert(grid@ =~= grid_of(self.heatmap@));
        }
        grid
    }

    /// The grid of this state contains some square of the catalog.
    pub fn contains_squares(&self, cat: &SquareCatalog) -> (r: bool)
        requires
            cat.wf(),
            self.heatmap@.len() == cat.grid_size,
        ensures
            r == contains_square_spec(self.heatmap@, cat.squares_as_bitlist.deep_view()),
    {
        let ghost dv = cat.squares_as_bitlist.deep_view();
        let grid = self.as_grid();
        let mut k: usize = 0;
        while k < cat.squares_as_bitlist.len()
            invariant
                cat.wf(),
                self.heatmap@.len() == cat.grid_size,
                dv == cat.squares_as_bitlist.deep_view(),
                dv.len() == cat.squares_as_bitlist@.len(),
                k <= dv.len(),
                grid@ == grid_of(self.heatmap@),
                is_binary_seq(grid@),
                forall|j: int| 0 <= j < k ==> !square_in_grid_spec(grid_of(self.heatmap@), #[trigger] dv[j]),
            decreases dv.len() - k,
        {
            proof {
                assert(dv[k as int] == cat.squares_as_bitlist@[k as int]@);
            }
            if square_in_grid(&grid, &cat.squares_as_bitlist[k]) {
                return true;
            }
            k = k + 1;
        }
        false
    }

    /// The heatmap after forcing cell `n` to `0`, by subtracting `n`'s
    /// dependency map from every still-active cell and writing the `-1`
    /// sentinel at `n`.
    fn apply_dependency_map(&self, dependency_maps: &Vec<Vec<i32>>, n: usize) -> (r: Vec<i32>)
        requires
            n < self.heatmap@.len(),
            dependency_maps@.len() >= self.heatmap@.len(),
            dependency_maps@[n as int]@.len() == self.heatmap@.len(),
            forall|i: int|
                0 <= i < self.heatmap@.len() ==> -0x1000_0000 <= #[trigger] self.heatmap@[i]
                    <= 0x1000_0000,
            forall|i: int|
                0 <= i < self.heatmap@.len() ==> 0 <= #[trigger] dependency_maps@[n as int]@[i]
                    <= 0x1000_0000,
        ensures
            r@ == apply_dep_spec(self.heatmap@, dependency_maps@[n as int]@, n as int),
    {
        let dependency_map = &dependency_maps[n];
        let mut new_heatmap: Vec<i32> = Vec::new();
        let mut i: usize = 0;
        while i < self.heatmap.len()
            invariant
                n < self.heatmap@.len(),
                dependency_map@.len() == self.heatmap@.len(),
                dependency_map@ == dependency_maps@[n as int]@,
                i <= self.heatmap@.len(),
                new_heatmap@.len() == i,
                forall|j: int|
                    0 <= j < self.heatmap@.len() ==> -0x1000_0000 <= #[trigger] self.heatmap@[j]
                        <= 0x1000_0000,
                forall|j: int|
                    0 <= j < self.heatmap@.len() ==> 0 <= #[trigger] dependency_map@[j]
                        <= 0x1000_0000,
                forall|j: int|
                    0 <= j < i ==> new_heatmap@[j] == apply_dep_spec(
                        self.heatmap@,
                        dependency_map@,
                        n as int,
                    )[j],
            decreases self.heatmap@.len() - i,
        {
            if i == n {
                new_heatmap.push(-1);
            } else if self.heatmap[i] <= 0 {
                new_heatmap.push(self.heatmap[i]);
            } else {
                new_heatmap.push(self.heatmap[i] - dependency_map[i]);
            }
            i = i + 1;
        }
        proof {
            assert(new_heatmap@ =~= apply_dep_spec(self.heatmap@, dependency_map@, n as int));
        }
        new_heatmap
    }

    /// One child per peak: the state obtained by forcing that peak to `0`,
    /// with its peaks recomputed and its depth one lower. Children appear in
    /// peak order.
    pub fn get_children(&self, cat: &SquareCatalog) -> (r: Vec<State>)
        requires
            cat.wf(),
            self.wf(*cat),
            self.depth > i32::MIN,
        ensures
            r@.len() == self.heatmap_peaks@.len(),
            forall|j: int|
                0 <= j < r@.len() ==> {
                    &&& (#[trigger] r@[j]).heatmap@ == apply_dep_spec(
                        self.heatmap@,
                        cat.dependency_maps@[self.heatmap_peaks@[j] as int]@,
                        self.heatmap_peaks@[j] as int,
                    )
                    &&& r@[j].depth == self.depth - 1
                    &&& r@[j].wf(*cat)
                },
    {
        let ghost ns = cat.squares@.len() as int;
        let mut children: Vec<State> = Vec::new();
        let mut j: usize = 0;
        while j < self.heatmap_peaks.len()
            invariant
                cat.wf(),
                self.wf(*cat),
                self.depth > i32::MIN,
                j <= self.heatmap_peaks@.len(),
                children@.len() == j,
                ns == cat.squares@.len(),
                forall|m: int|
                    0 <= m < j ==> {
                        &&& (#[trigger] children@[m]).heatmap@ == apply_dep_spec(
                            self.heatmap@,
                            cat.dependency_maps@[self.heatmap_peaks@[m] as int]@,
                            self.heatmap_peaks@[m] as int,
                        )
                        &&& children@[m].depth == self.depth - 1
                        &&& children@[m].wf(*cat)
                    },
            decreases self.heatmap_peaks@.len() - j,
        {
            let heatmap_peak = self.heatmap_peaks[j];
            proof {
                assert(heatmap_peak < self.heatmap@.len());
                assert forall|i: int| 0 <= i < cat.grid_size implies 0
                    <= #[trigger] cat.dependency_maps@[heatmap_peak as int]@[i] <= ns by {
                    lemma_dep_sum_bounds(
                        cat.squares_as_bitlist.deep_view(),
                        cat.grid_size as int,
                        heatmap_peak as int,
                        i,
                    );
                }
            }
            let child_heatmap = self.apply_dependency_map(&cat.dependency_maps, heatmap_peak);
            proof {
                let ch = child_heatmap@;
                assert forall|i: int| 0 <= i < ch.len() implies -(ns + 1) <= #[trigger] ch[i]
                    <= ns by {
                    assert(ch[i] == apply_dep_spec(
                        self.heatmap@,
                        cat.dependency_maps@[heatmap_peak as int]@,
                        heatmap_peak as int,
                    )[i]);
                }
            }
            let heatmap_peaks = get_peaks(&child_heatmap);
            children.push(State::new(child_heatmap, heatmap_peaks, self.depth - 1));
            j = j + 1;
        }
        children
    }
}

/// Once a cell holds the `-1` sentinel, applying the dependency map of any
/// cell leaves it at `-1`: elimination is monotonic, and repeated
/// applications never revive an eliminated cell.
pub proof fn lemma_apply_keeps_eliminated(h: Seq<i32>, dep: Seq<i32>, n: int, i: int)
    requires
        0 <= i < h.len(),
        0 <= n < h.len(),
        h[i] == -1,
    ensures
        apply_dep_spec(h, dep, n)[i] == -1,
{
}

/// The heatmap after a whole sequence of eliminations: each step carries
/// the dependency map it subtracts and the cell it forces, applied left to
/// right.
pub open spec fn apply_dep_chain(h: Seq<i32>, steps: Seq<(Seq<i32>, int)>) -> Seq<i32>
    decreases steps.len(),
{
    if steps.len() == 0 {
        h
    } else {
        apply_dep_spec(apply_dep_chain(h, steps.drop_last()), steps.last().0, steps.last().1)
    }
}

/// Applying a dependency map keeps the number of cells.
pub proof fn lemma_apply_chain_len(h: Seq<i32>, steps: Seq<(Seq<i32>, int)>)
    ensures
        apply_dep_chain(h, steps).len() == h.len(),
    decreases steps.len(),
{
    if steps.len() > 0 {
        lemma_apply_chain_len(h, steps.drop_last());
    }
}

/// Once a cell holds the `-1` sentinel, no sequence of further
/// applications, whatever their cells and dependency maps, ever changes it.
pub proof fn lemma_apply_chain_keeps_eliminated(h: Seq<i32>, steps: Seq<(Seq<i32>, int)>, i: int)
    requires
        0 <= i < h.len(),
        h[i] == -1,
    ensures
        apply_dep_chain(h, steps)[i] == -1,
    decreases steps.len(),
{
    if steps.len() > 0 {
        lemma_apply_chain_keeps_eliminated(h, steps.drop_last(), i);
        lemma_apply_chain_len(h, steps.drop_last());
    }
}

/// A population is never negative and never exceeds the number of cells.
pub proof fn lemma_population_le_len(h: Seq<i32>)
    ensures
        0 <= population(h) <= h.len(),
    decreases h.len(),
{
    if h.len() > 0 {
        lemma_population_le_len(h.drop_last());
    }
}

/// A heatmap whose every cell is eliminated stands for the empty grid.
pub proof fn lemma_population_all_eliminated(h: Seq<i32>)
    requires
        forall|i: int| 0 <= i < h.len() ==> #[trigger] h[i] == -1,
    ensures
        population(h) == 0,
    decreases h.len(),
{
    if h.len() > 0 {
        lemma_population_all_eliminated(h.drop_last());
    }
}

/// If every live cell of `a` is live in `b`, the population of `a` is no
/// larger than that of `b`.
pub proof fn lemma_population_pointwise_le(a: Seq<i32>, b: Seq<i32>)
    requires
        a.len() == b.len(),
        forall|i: int| 0 <= i < a.len() ==> (#[trigger] a[i] != -1 ==> b[i] != -1),
    ensures
        population(a) <= population(b),
    decreases a.len(),
{
    if a.len() > 0 {
        assert forall|i: int|
            0 <= i < a.drop_last().len() && #[trigger] a.drop_last()[i] != -1 implies b.drop_last()[i]
            != -1 by {
            assert(a.drop_last()[i] == a[i] && b.drop_last()[i] == b[i]);
        }
        lemma_population_pointwise_le(a.drop_last(), b.drop_last());
        assert(a.last() == a[a.len() - 1] && b.last() == b[a.len() - 1]);
    }
}

/// If moreover some cell `n` is eliminated in `a` but live in `b`, the
/// population strictly drops.
pub proof fn lemma_population_pointwise_lt(a: Seq<i32>, b: Seq<i32>, n: int)
    requires
        a.len() == b.len(),
        forall|i: int| 0 <= i < a.len() ==> (#[trigger] a[i] != -1 ==> b[i] != -1),
        0 <= n < a.len(),
        a[n] == -1,
        b[n] != -1,
    ensures
        population(a) < population(b),
    decreases a.len(),
{
    assert forall|i: int|
        0 <= i < a.drop_last().len() && #[trigger] a.drop_last()[i] != -1 implies b.drop_last()[i]
        != -1 by {
        assert(a.drop_last()[i] == a[i] && b.drop_last()[i] == b[i]);
    }
    assert(a.last() == a[a.len() - 1] && b.last() == b[a.len() - 1]);
    if n == a.len() - 1 {
        lemma_population_pointwise_le(a.drop_last(), b.drop_last());
    } else {
        lemma_population_pointwise_lt(a.drop_last(), b.drop_last(), n);
    }
}

/// A live cell contributes to the population.
proof fn lemma_population_one_live(h: Seq<i32>, a: int)
    requires
        0 <= a < h.len(),
        h[a] != -1,
    ensures
        population(h) >= 1,
    decreases h.len(),
{
    if a < h.len() - 1 {
        assert(h.drop_last()[a] == h[a]);
        lemma_population_one_live(h.drop_last(), a);
    } else {
        assert(h.last() == h[a]);
        lemma_population_le_len(h.drop_last());
    }
}

/// Two distinct live cells contribute two to the population.
proof fn lemma_population_two_live(h: Seq<i32>, a: int, b: int)
    requires
        0 <= a < b < h.len(),
        h[a] != -1,
        h[b] != -1,
    ensures
        population(h) >= 2,
    decreases h.len(),
{
    if b < h.len() - 1 {
        assert(h.drop_last()[a] == h[a] && h.drop_last()[b] == h[b]);
        lemma_population_two_live(h.drop_last(), a, b);
    } else {
        assert(h.last() == h[b]);
        assert(h.drop_last()[a] == h[a]);
        lemma_population_one_live(h.drop_last(), a);
    }
}

/// Three distinct live cells contribute three to the population.
proof fn lemma_population_three_live(h: Seq<i32>, a: int, b: int, c: int)
    requires
        0 <= a < b < c < h.len(),
        h[a] != -1,
        h[b] != -1,
        h[c] != -1,
    ensures
        population(h) >= 3,
    decreases h.len(),
{
    if c < h.len() - 1 {
        assert(h.drop_last()[a] == h[a] && h.drop_last()[b] == h[b] && h.drop_last()[c] == h[c]);
        lemma_population_three_live(h.drop_last(), a, b, c);
    } else {
        assert(h.last() == h[c]);
        assert(h.drop_last()[a] == h[a] && h.drop_last()[b] == h[b]);
        lemma_population_two_live(h.drop_last(), a, b);
    }
}

/// Four distinct live cells contribute four to the population.
proof fn lemma_population_four_live(h: Seq<i32>, a: int, b: int, c: int, d: int)
    requires
        0 <= a < b < c < d < h.len(),
        h[a] != -1,
        h[b] != -1,
        h[c] != -1,
        h[d] != -1,
    ensures
        population(h) >= 4,
    decreases h.len(),
{
    if d < h.len() - 1 {
        assert(h.drop_last()[a] == h[a] && h.drop_last()[b] == h[b] && h.drop_last()[c] == h[c]
            && h.drop_last()[d] == h[d]);
        lemma_population_four_live(h.drop_last(), a, b, c, d);
    } else {
        assert(h.last() == h[d]);
        assert(h.drop_last()[a] == h[a] && h.drop_last()[b] == h[b] && h.drop_last()[c] == h[c]);
        lemma_population_three_live(h.drop_last(), a, b, c);
    }
}

/// A grid with fewer than four live cells contains no square of the
/// catalog: every square needs its four distinct corners set. In
/// particular the all-zero grid is square-free.
pub proof fn lemma_few_cells_no_square(h: Seq<i32>, cat: SquareCatalog)
    requires
        cat.wf(),
        h.len() == cat.grid_size,
        population(h) < 4,
    ensures
        !contains_square_spec(h, cat.squares_as_bitlist.deep_view()),
{
    let dv = cat.squares_as_bitlist.deep_view();
    let l = cat.grid_length as int;
    assert forall|k: int| 0 <= k < dv.len() implies !square_in_grid_spec(grid_of(h), dv[k]) by {
        if square_in_grid_spec(grid_of(h), dv[k]) {
            assert(crate::square_utils::is_generated_square(cat.squares@[k], l));
            let (idx, s) = choose|idx: int, s: int|
                crate::square_utils::valid_pair(idx, s, l) && cat.squares@[k]
                    == #[trigger] crate::square_utils::square_mask_spec(idx, s, l);
            crate::square_utils::lemma_valid_square_corners_in_bounds(idx, s, l);
            crate::square_utils::lemma_square_mask_bits(idx, s, l);
            let a = crate::square_utils::corner_tl(idx);
            let b = crate::square_utils::corner_tr(idx, s);
            let c = crate::square_utils::corner_bl(idx, s, l);
            let d = crate::square_utils::corner_br(idx, s, l);
            assert(dv[k] == cat.squares_as_bitlist@[k]@);
            let mask = crate::square_utils::square_mask_spec(idx, s, l);
            assert(cat.squares@[k] == mask);
            assert(crate::square_utils::nth_bit(mask, a as u128) == crate::square_utils::is_corner(
                (a as u128) as int,
                idx,
                s,
                l,
            ));
            assert(crate::square_utils::nth_bit(mask, b as u128) == crate::square_utils::is_corner(
                (b as u128) as int,
                idx,
                s,
                l,
            ));
            assert(crate::square_utils::nth_bit(mask, c as u128) == crate::square_utils::is_corner(
                (c as u128) as int,
                idx,
                s,
                l,
            ));
            assert(crate::square_utils::nth_bit(mask, d as u128) == crate::square_utils::is_corner(
                (d as u128) as int,
                idx,
                s,
                l,
            ));
            assert(cat.squares_as_bitlist@[k]@[a] == crate::square_utils::bit_value(mask, a as u128)
                && cat.squares_as_bitlist@[k]@[b] == crate::square_utils::bit_value(mask, b as u128)
                && cat.squares_as_bitlist@[k]@[c] == crate::square_utils::bit_value(mask, c as u128)
                && cat.squares_as_bitlist@[k]@[d] == crate::square_utils::bit_value(
                mask,
                d as u128,
            ));
            assert(crate::square_utils::nth_bit(mask, a as u128) && crate::square_utils::nth_bit(
                mask,
                b as u128,
            ) && crate::square_utils::nth_bit(mask, c as u128) && crate::square_utils::nth_bit(
                mask,
                d as u128,
            ));
            assert(dv[k][a] == 1 && dv[k][b] == 1 && dv[k][c] == 1 && dv[k][d] == 1);
            assert(grid_of(h)[a] == 1 && grid_of(h)[b] == 1 && grid_of(h)[c] == 1 && grid_of(h)[d]
                == 1);
            lemma_population_four_live(h, a, b, c, d);
            assert(false);
        }
    }
}

/// The search invariant passes from a state to each of its children: the
/// child of a state whose population fits its depth fits the depth below,
/// unless the heatmap is already entirely at or below the sentinel, in which
/// case it stays so.
pub proof fn lemma_child_search_invariant(h: Seq<i32>, p: Seq<usize>, dep: Seq<i32>, j: int, d: int)
    requires
        wf_peaks(h, p),
        0 <= j < p.len(),
        dep.len() == h.len(),
        population(h) <= d || seq_max(h) == -1,
    ensures
        population(apply_dep_spec(h, dep, p[j] as int)) <= d - 1 || seq_max(
            apply_dep_spec(h, dep, p[j] as int),
        ) == -1,
{
    let n = p[j] as int;
    let a = apply_dep_spec(h, dep, n);
    if seq_max(h) == -1 {
        lemma_seq_max_properties(h);
        assert(a =~= h);
    } else {
        assert(h[n] == seq_max(h));
        assert forall|i: int| 0 <= i < a.len() && #[trigger] a[i] != -1 implies h[i] != -1 by {
            if i != n && h[i] > 0 {
                assert(h[i] != -1);
            }
        }
        lemma_population_pointwise_lt(a, h, n);
    }
}

/// Two strictly increasing sequences with the same members are the same
/// sequence.
proof fn lemma_sorted_same_members(p1: Seq<usize>, p2: Seq<usize>)
    requires
        forall|j1: int, j2: int| 0 <= j1 < j2 < p1.len() ==> p1[j1] < p1[j2],
        forall|j1: int, j2: int| 0 <= j1 < j2 < p2.len() ==> p2[j1] < p2[j2],
        forall|x: usize| p1.contains(x) <==> p2.contains(x),
    ensures
        p1 == p2,
    decreases p1.len(),
{
    if p1.len() == 0 {
        if p2.len() > 0 {
            assert(p2.contains(p2[0]));
            assert(p1.contains(p2[0]));
        }
        assert(p1 =~= p2);
    } else {
        if p2.len() == 0 {
            assert(p1.contains(p1[0]));
            assert(p2.contains(p1[0]));
        }
        let l1 = p1.last();
        let l2 = p2.last();
        assert(p1[p1.len() - 1] == l1 && p1.contains(l1));
        assert(p2[p2.len() - 1] == l2 && p2.contains(l2));
        let j1 = choose|j: int| 0 <= j < p2.len() && p2[j] == l1;
        assert(l1 <= l2);
        let j2 = choose|j: int| 0 <= j < p1.len() && p1[j] == l2;
        assert(l2 <= l1);
        assert forall|x: usize| p1.drop_last().contains(x) <==> p2.drop_last().contains(
            x,
        ) by {
            if p1.drop_last().contains(x) {
                let j = choose|j: int| 0 <= j < p1.drop_last().len() && p1.drop_last()[j] == x;
                assert(p1[j] == x && x < l1);
                assert(p1.contains(x));
                let m = choose|m: int| 0 <= m < p2.len() && p2[m] == x;
                assert(m < p2.len() - 1);
                assert(p2.drop_last()[m] == x);
                assert(p2.drop_last().contains(x));
            }
            if p2.drop_last().contains(x) {
                let j = choose|j: int| 0 <= j < p2.drop_last().len() && p2.drop_last()[j] == x;
                assert(p2[j] == x && x < l2);
                assert(p2.contains(x));
                let m = choose|m: int| 0 <= m < p1.len() && p1[m] == x;
                assert(m < p1.len() - 1);
                assert(p1.drop_last()[m] == x);
                assert(p1.drop_last().contains(x));
            }
        }
        assert forall|j1a: int, j2a: int|
            0 <= j1a < j2a < p1.drop_last().len() implies p1.drop_last()[j1a]
            < p1.drop_last()[j2a] by {
            assert(p1.drop_last()[j1a] == p1[j1a] && p1.drop_last()[j2a] == p1[j2a]);
        }
        assert forall|j1a: int, j2a: int|
            0 <= j1a < j2a < p2.drop_last().len() implies p2.drop_last()[j1a]
            < p2.drop_last()[j2a] by {
            assert(p2.drop_last()[j1a] == p2[j1a] && p2.drop_last()[j2a] == p2[j2a]);
        }
        lemma_sorted_same_members(p1.drop_last(), p2.drop_last());
        assert(p1.drop_last().len() == p2.drop_last().len());
        assert forall|i: int| 0 <= i < p1.len() implies p1[i] == p2[i] by {
            if i < p1.len() - 1 {
                assert(p1.drop_last()[i] == p1[i] && p2.drop_last()[i] == p2[i]);
            }
        }
        assert(p1 =~= p2);
    }
}

/// The peak set is a function of the heatmap alone: any two well-formed
/// peak listings of one heatmap are identical. The branching of the search
/// is therefore determined by the catalog, run after run.
pub proof fn lemma_peaks_unique(h: Seq<i32>, p1: Seq<usize>, p2: Seq<usize>)
    requires
        wf_peaks(h, p1),
        wf_peaks(h, p2),
    ensures
        p1 == p2,
{
    assert forall|x: usize| p1.contains(x) <==> p2.contains(x) by {
        if p1.contains(x) {
            let j = choose|j: int| 0 <= j < p1.len() && p1[j] == x;
            assert(x < h.len() && h[x as int] == seq_max(h));
            assert(p2.contains(x));
        }
        if p2.contains(x) {
            let j = choose|j: int| 0 <= j < p2.len() && p2[j] == x;
            assert(x < h.len() && h[x as int] == seq_max(h));
            assert(p1.contains(x));
        }
    }
    lemma_sorted_same_members(p1, p2);
}

/// A heatmap with `k` distinct eliminated positions has population at most
/// its length minus `k`.
pub proof fn lemma_population_minus_marked(h: Seq<i32>, ws: Seq<int>)
    requires
        forall|m: int| 0 <= m < ws.len() ==> 0 <= #[trigger] ws[m] < h.len() && h[ws[m]] == -1,
        forall|m1: int, m2: int| 0 <= m1 < m2 < ws.len() ==> ws[m1] != ws[m2],
    ensures
        population(h) <= h.len() - ws.len(),
    decreases h.len(),
{
    if ws.len() == 0 {
        lemma_population_le_len(h);
    } else {
        assert(0 <= ws[0] < h.len());
        let last = h.len() - 1;
        if exists|m: int| 0 <= m < ws.len() && #[trigger] ws[m] == last {
            let m = choose|m: int| 0 <= m < ws.len() && #[trigger] ws[m] == last;
            let ws2 = ws.remove(m);
            ws.remove_ensures(m);
            assert forall|x: int| 0 <= x < ws2.len() implies 0 <= #[trigger] ws2[x] < h.len() - 1
                && h.drop_last()[ws2[x]] == -1 by {
                if x < m {
                    assert(ws2[x] == ws[x]);
                    assert(ws[x] != ws[m]);
                } else {
                    assert(ws2[x] == ws[x + 1]);
                    assert(ws[x + 1] != ws[m]);
                }
                assert(h.drop_last()[ws2[x]] == h[ws2[x]]);
            }
            assert forall|x1: int, x2: int| 0 <= x1 < x2 < ws2.len() implies ws2[x1] != ws2[x2] by {
                if x2 < m {
                    assert(ws2[x1] == ws[x1] && ws2[x2] == ws[x2]);
                } else if x1 < m {
                    assert(ws2[x1] == ws[x1] && ws2[x2] == ws[x2 + 1]);
                } else {
                    assert(ws2[x1] == ws[x1 + 1] && ws2[x2] == ws[x2 + 1]);
                }
            }
            lemma_population_minus_marked(h.drop_last(), ws2);
            assert(ws2.len() == ws.len() - 1);
            assert(h[ws[m]] == -1);
            assert(h.last() == h[last]);
            assert(population(h) == population(h.drop_last()));
        } else {
            assert forall|x: int| 0 <= x < ws.len() implies 0 <= #[trigger] ws[x] < h.len() - 1
                && h.drop_last()[ws[x]] == -1 by {
                assert(ws[x] != last);
                assert(h.drop_last()[ws[x]] == h[ws[x]]);
            }
            lemma_population_minus_marked(h.drop_last(), ws);
        }
    }
}

/// The peak listing of a heatmap: the one sequence that `wf_peaks`
/// characterizes. `lemma_peaks_of_is` identifies it with any listing a
/// function actually computes.
pub open spec fn peaks_of(h: Seq<i32>) -> Seq<usize> {
    choose|p: Seq<usize>| wf_peaks(h, p)
}

/// Any well-formed peak listing of `h` is the canonical one.
pub proof fn lemma_peaks_of_is(h: Seq<i32>, p: Seq<usize>)
    requires
        wf_peaks(h, p),
    ensures
        peaks_of(h) == p,
{
    assert(wf_peaks(h, peaks_of(h)));
    lemma_peaks_unique(h, peaks_of(h), p);
}

} // verus!
