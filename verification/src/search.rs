//! The breadth-first search driver.
//!
//! Levels are walked by decreasing target population ("depth"), starting at
//! the full grid. A state is accepted as the answer only once the depth has
//! fallen to where a square-free grid can exist at all; above that bound
//! states are only expanded. The first accepted state, scanning by
//! decreasing population and in queue order within a level, is returned.

use vstd::prelude::*;

use crate::catalog::{lemma_square_has_corner, SquareCatalog};
use crate::hca_utils::{get_heatmap, get_peaks, lemma_col_sum_bounds, seq_max};
use crate::square_utils::{
    bit_value, corner_bl, corner_br, corner_tl, corner_tr, is_corner, lemma_row_identity,
    lemma_square_mask_bits, nth_bit, row_of_spec, square_in_grid_spec, square_mask_spec,
    valid_pair,
};
use crate::state::{
    apply_dep_spec, contains_square_spec, grid_of, lemma_child_search_invariant,
    lemma_peaks_of_is, lemma_population_all_eliminated, lemma_population_le_len,
    lemma_population_minus_marked, peaks_of, population, State,
};

verus! {

/// The greatest population a square-free grid can have: along a main
/// diagonal run of squares, at least one cell per `grid_length` must be
/// empty.
pub open spec fn solution_possible_depth(cat: SquareCatalog) -> int {
    cat.grid_size - cat.grid_length + 1
}

/// Every state of a search level fits the catalog, carries the level's
/// depth, and its population fits that depth — except that a heatmap driven
/// entirely to or below the sentinel stops losing population and merely
/// persists. The population bound of the returned answer does not rest on
/// this bookkeeping: it follows from square-freeness alone, by
/// `lemma_square_free_population_bound`.
pub open spec fn wf_level(queue: Seq<State>, cat: SquareCatalog, depth: int) -> bool {
    forall|q: int|
        0 <= q < queue.len() ==> (#[trigger] queue[q]).wf(cat) && queue[q].depth == depth && (
        population(queue[q].heatmap@) <= depth || seq_max(queue[q].heatmap@) == -1)
}

/// The answer the search hands back: a square-free state whose population
/// stays within the possible bound and whose peak listing matches its
/// heatmap.
pub open spec fn valid_answer(r: State, cat: SquareCatalog) -> bool {
    &&& r.heatmap@.len() == cat.grid_size
    &&& !contains_square_spec(r.heatmap@, cat.squares_as_bitlist.deep_view())
    &&& population(r.heatmap@) <= solution_possible_depth(cat)
    &&& crate::state::wf_peaks(r.heatmap@, r.heatmap_peaks@)
}

/// A cell written as `row * l + col` has exactly that row and column.
proof fn lemma_cell_coords(r: int, c: int, l: int)
    requires
        l >= 1,
        0 <= c < l,
        0 <= r,
    ensures
        (r * l + c) / l == r,
        (r * l + c) % l == c,
{
    vstd::arithmetic::div_mod::lemma_fundamental_div_mod_converse(r * l + c, l, r, c);
}

/// In a square-free grid, the square whose corners are the diagonal cells
/// `(i, i)` and `(j, j)` and the off-diagonal cells `(i, j)` and `(j, i)`
/// loses at least one of its four corners.
proof fn lemma_diagonal_square_eliminated(h: Seq<i32>, cat: SquareCatalog, i: int, j: int)
    requires
        cat.wf(),
        h.len() == cat.grid_size,
        !contains_square_spec(h, cat.squares_as_bitlist.deep_view()),
        0 <= i < j < cat.grid_length,
    ensures
        h[i * cat.grid_length + i] == -1 || h[i * cat.grid_length + j] == -1 || h[j
            * cat.grid_length + i] == -1 || h[j * cat.grid_length + j] == -1,
{
    let l = cat.grid_length as int;
    let idx = i * l + i + 1;
    let s = j - i + 1;
    assert(idx + (s - 1) + l * (s - 1) == j * l + j + 1 && i * l + i + l * (j - i) == j * l + i)
        by (nonlinear_arith)
        requires
            idx == i * l + i + 1,
            s == j - i + 1,
    ;
    assert(j * l + j + 1 <= l * l && idx <= l * l) by (nonlinear_arith)
        requires
            0 <= i < j <= l - 1,
            idx == i * l + i + 1,
            l >= 2,
    ;
    lemma_row_identity(idx, l);
    lemma_row_identity(idx + s - 1, l);
    lemma_cell_coords(i, i, l);
    lemma_cell_coords(i, j, l);
    assert(row_of_spec(idx, l) == i + 1);
    assert(idx + s - 1 - 1 == i * l + j);
    assert(row_of_spec(idx + s - 1, l) == i + 1);
    assert(valid_pair(idx, s, l));
    assert(corner_tl(idx) == i * l + i);
    assert(corner_tr(idx, s) == i * l + j);
    assert(corner_bl(idx, s, l) == j * l + i);
    assert(corner_br(idx, s, l) == j * l + j);
    assert(cat.squares@.contains(square_mask_spec(idx, s, l)));
    let k = choose|k: int|
        0 <= k < cat.squares@.len() && cat.squares@[k] == square_mask_spec(idx, s, l);
    let dv = cat.squares_as_bitlist.deep_view();
    let sq = dv[k];
    assert(sq == cat.squares_as_bitlist@[k]@);
    assert(!square_in_grid_spec(grid_of(h), sq));
    let m = choose|m: int| 0 <= m < sq.len() && sq[m] == 1 && grid_of(h)[m] != 1;
    lemma_square_mask_bits(idx, s, l);
    assert(cat.squares_as_bitlist@[k]@[m] == bit_value(cat.squares@[k], m as u128));
    assert(nth_bit(square_mask_spec(idx, s, l), m as u128) == is_corner(
        (m as u128) as int,
        idx,
        s,
        l,
    ));
    assert(is_corner(m, idx, s, l));
    assert(h[m] == -1);
}

/// The smallest diagonal index below `b` whose cell is still live.
proof fn min_diagonal_one(h: Seq<i32>, l: int, b: int) -> (f: int)
    requires
        l >= 1,
        l * l <= h.len(),
        0 <= b <= l,
        exists|i: int| 0 <= i < b && #[trigger] h[i * l + i] != -1,
    ensures
        0 <= f < b,
        h[f * l + f] != -1,
        forall|i: int| 0 <= i < f ==> #[trigger] h[i * l + i] == -1,
    decreases b,
{
    let w = choose|i: int| 0 <= i < b && #[trigger] h[i * l + i] != -1;
    assert(0 <= w * l + w < l * l) by (nonlinear_arith)
        requires
            0 <= w < l,
            l >= 1,
    ;
    if forall|i: int| 0 <= i < w ==> #[trigger] h[i * l + i] == -1 {
        w
    } else {
        min_diagonal_one(h, l, w)
    }
}

/// The pigeonhole bound behind the search's depth cutoff: a grid that
/// contains no square of the catalog has at least `grid_length - 1` empty
/// cells, so its population is at most `grid_size - grid_length + 1`. Along
/// the main diagonal, any two live diagonal cells force an off-diagonal
/// empty cell of their own, and dead diagonal cells are empty themselves.
pub proof fn lemma_square_free_population_bound(h: Seq<i32>, cat: SquareCatalog)
    requires
        cat.wf(),
        h.len() == cat.grid_size,
        !contains_square_spec(h, cat.squares_as_bitlist.deep_view()),
    ensures
        population(h) <= solution_possible_depth(cat),
{
    let l = cat.grid_length as int;
    let n = cat.grid_size as int;
    assert(n == l * l);
    if forall|i: int| 0 <= i < l ==> #[trigger] h[i * l + i] == -1 {
        let ws = Seq::new((l - 1) as nat, |m: int| m * l + m);
        assert forall|m: int| 0 <= m < ws.len() implies 0 <= #[trigger] ws[m] < h.len()
            && h[ws[m]] == -1 by {
            assert(ws[m] == m * l + m);
            assert(0 <= m * l + m < l * l) by (nonlinear_arith)
                requires
                    0 <= m <= l - 2,
                    l >= 2,
            ;
        }
        assert forall|m1: int, m2: int| 0 <= m1 < m2 < ws.len() implies ws[m1] != ws[m2] by {
            lemma_cell_coords(m1, m1, l);
            lemma_cell_coords(m2, m2, l);
        }
        lemma_population_minus_marked(h, ws);
    } else {
        let f = min_diagonal_one(h, l, l);
        let ws = Seq::new(
            (l - 1) as nat,
            |m: int|
                {
                    let i = if m < f {
                        m
                    } else {
                        m + 1
                    };
                    if h[i * l + i] == -1 {
                        i * l + i
                    } else if h[f * l + i] == -1 {
                        f * l + i
                    } else {
                        i * l + f
                    }
                },
        );
        assert forall|m: int| 0 <= m < ws.len() implies 0 <= #[trigger] ws[m] < h.len()
            && h[ws[m]] == -1 by {
            let i = if m < f {
                m
            } else {
                m + 1
            };
            assert(0 <= i < l && i != f);
            assert(0 <= i * l + i < l * l && 0 <= f * l + i < l * l && 0 <= i * l + f < l * l)
                by (nonlinear_arith)
                requires
                    0 <= i < l,
                    0 <= f < l,
                    l >= 2,
            ;
            if h[i * l + i] != -1 {
                assert(i > f);
                lemma_diagonal_square_eliminated(h, cat, f, i);
                assert(h[f * l + i] == -1 || h[i * l + f] == -1);
            }
        }
        assert forall|m1: int, m2: int| 0 <= m1 < m2 < ws.len() implies ws[m1] != ws[m2] by {
            let i1 = if m1 < f {
                m1
            } else {
                m1 + 1
            };
            let i2 = if m2 < f {
                m2
            } else {
                m2 + 1
            };
            assert(0 <= i1 < l && 0 <= i2 < l && i1 != i2 && i1 != f && i2 != f);
            lemma_cell_coords(i1, i1, l);
            lemma_cell_coords(f, i1, l);
            lemma_cell_coords(i1, f, l);
            lemma_cell_coords(i2, i2, l);
            lemma_cell_coords(f, i2, l);
            lemma_cell_coords(i2, f, l);
        }
        lemma_population_minus_marked(h, ws);
    }
}

/// The heatmap views of a queue of states.
pub open spec fn heatmaps_of(queue: Seq<State>) -> Seq<Seq<i32>> {
    queue.map_values(|s: State| s.heatmap@)
}

/// The fully eliminated heatmap: the all-zero grid.
pub open spec fn eliminated_heatmap(n: int) -> Seq<i32> {
    Seq::new(n as nat, |i: int| -1i32)
}

/// The children of a heatmap, one per peak in peak order: each forces that
/// peak to `0` through its dependency map.
pub open spec fn children_of(h: Seq<i32>, cat: SquareCatalog) -> Seq<Seq<i32>> {
    Seq::new(
        peaks_of(h).len(),
        |j: int|
            apply_dep_spec(
                h,
                cat.dependency_maps@[peaks_of(h)[j] as int]@,
                peaks_of(h)[j] as int,
            ),
    )
}

/// One whole level expanded: the children of every queued heatmap, in queue
/// order.
pub open spec fn expand_level(q: Seq<Seq<i32>>, cat: SquareCatalog) -> Seq<Seq<i32>>
    decreases q.len(),
{
    if q.len() == 0 {
        Seq::empty()
    } else {
        expand_level(q.drop_last(), cat) + children_of(q.last(), cat)
    }
}

/// The position of the first square-free heatmap of the queue, or `-1` when
/// every queued heatmap still contains a square.
pub open spec fn first_square_free(q: Seq<Seq<i32>>, sqs: Seq<Seq<i32>>) -> int
    decreases q.len(),
{
    if q.len() == 0 {
        -1
    } else if !contains_square_spec(q[0], sqs) {
        0int
    } else {
        let rest = first_square_free(q.subrange(1, q.len() as int), sqs);
        if rest == -1 {
            -1
        } else {
            1 + rest
        }
    }
}

/// What the level walk returns: from the current level downward, the first
/// square-free heatmap in level order once the depth allows a solution, and
/// the fully eliminated heatmap if depth `0` is exhausted without one.
pub open spec fn search_spec(q: Seq<Seq<i32>>, depth: int, cat: SquareCatalog) -> Seq<i32>
    decreases depth,
{
    let sqs = cat.squares_as_bitlist.deep_view();
    if depth <= solution_possible_depth(cat) && first_square_free(q, sqs) >= 0 {
        q[first_square_free(q, sqs)]
    } else if depth <= 0 {
        eliminated_heatmap(cat.grid_size as int)
    } else {
        search_spec(expand_level(q, cat), depth - 1, cat)
    }
}

/// What the whole search returns for a catalog: the level walk started from
/// the initial heatmap at depth `grid_size`.
pub open spec fn solve_spec(cat: SquareCatalog) -> Seq<i32> {
    search_spec(
        seq![
            Seq::new(
                cat.grid_size as nat,
                |i: int| crate::hca_utils::col_sum(cat.squares_as_bitlist.deep_view(), i) as i32,
            ),
        ],
        cat.grid_size as int,
        cat,
    )
}

/// The first-square-free position is `-1` or a position of the queue.
proof fn lemma_first_free_range(q: Seq<Seq<i32>>, sqs: Seq<Seq<i32>>)
    ensures
        first_square_free(q, sqs) == -1 || (0 <= first_square_free(q, sqs) < q.len()),
    decreases q.len(),
{
    if q.len() > 0 && contains_square_spec(q[0], sqs) {
        lemma_first_free_range(q.subrange(1, q.len() as int), sqs);
    }
}

/// Skipping a square-containing prefix moves the first-square-free position
/// by exactly the prefix length.
proof fn lemma_first_free_offset(q: Seq<Seq<i32>>, p: int, sqs: Seq<Seq<i32>>)
    requires
        0 <= p <= q.len(),
        forall|m: int| 0 <= m < p ==> contains_square_spec(#[trigger] q[m], sqs),
    ensures
        first_square_free(q, sqs) == if first_square_free(q.subrange(p, q.len() as int), sqs)
            == -1 {
            -1int
        } else {
            p + first_square_free(q.subrange(p, q.len() as int), sqs)
        },
    decreases p,
{
    let xx = first_square_free(q.subrange(p, q.len() as int), sqs);
    if p == 0 {
        assert(q.subrange(0, q.len() as int) =~= q);
        assert(first_square_free(q, sqs) == if xx == -1 {
            -1int
        } else {
            p + xx
        });
    } else {
        let q1 = q.subrange(1, q.len() as int);
        assert forall|m: int| 0 <= m < p - 1 implies contains_square_spec(
            #[trigger] q1[m],
            sqs,
        ) by {
            assert(q1[m] == q[m + 1]);
        }
        lemma_first_free_offset(q1, p - 1, sqs);
        assert(q1.subrange(p - 1, q1.len() as int) =~= q.subrange(p, q.len() as int));
        assert(contains_square_spec(q[0], sqs));
        lemma_first_free_range(q.subrange(p, q.len() as int), sqs);
        let x = first_square_free(q.subrange(p, q.len() as int), sqs);
        assert(first_square_free(q1, sqs) == if x == -1 {
            -1int
        } else {
            (p - 1) + x
        });
        assert(first_square_free(q, sqs) == if first_square_free(q1, sqs) == -1 {
            -1int
        } else {
            1 + first_square_free(q1, sqs)
        });
        assert(first_square_free(q, sqs) == if xx == -1 {
            -1int
        } else {
            p + xx
        });
    }
}

/// Expanding one more queued heatmap appends exactly its children.
proof fn lemma_expand_level_step(q: Seq<Seq<i32>>, p: int, cat: SquareCatalog)
    requires
        0 <= p < q.len(),
    ensures
        expand_level(q.subrange(0, p + 1), cat) == expand_level(q.subrange(0, p), cat)
            + children_of(q[p], cat),
{
    assert(q.subrange(0, p + 1).drop_last() =~= q.subrange(0, p));
    assert(q.subrange(0, p + 1).last() == q[p]);
}

/// Drain the queue level by level, by decreasing depth. Within a level each
/// state is tested — once the depth is low enough that a solution is
/// possible — and otherwise expanded into one child per peak. If even the
/// level of depth `0` yields no square-free state, the empty grid is the
/// answer. The returned heatmap is exactly what the level walk
/// `search_spec` computes from the queued heatmaps.
pub fn search(state_queue: Vec<State>, current_depth: i32, cat: &SquareCatalog) -> (r: State)
    requires
        cat.wf(),
        current_depth >= 0,
        wf_level(state_queue@, *cat, current_depth as int),
    ensures
        valid_answer(r, *cat),
        r.heatmap@ == search_spec(heatmaps_of(state_queue@), current_depth as int, *cat),
{
    proof {
        assert(cat.grid_length <= cat.grid_size <= 128) by (nonlinear_arith)
            requires
                cat.grid_size == cat.grid_length * cat.grid_length,
                2 <= cat.grid_length,
                cat.grid_size <= 128,
        ;
    }
    let ghost target = search_spec(heatmaps_of(state_queue@), current_depth as int, *cat);
    let ghost sqs = cat.squares_as_bitlist.deep_view();
    let solution_is_possible_depth: i32 = (cat.grid_size - cat.grid_length + 1) as i32;
    let mut queue = state_queue;
    let mut depth = current_depth;
    loop
        invariant
            cat.wf(),
            depth >= 0,
            solution_is_possible_depth == solution_possible_depth(*cat),
            solution_is_possible_depth >= 1,
            sqs == cat.squares_as_bitlist.deep_view(),
            wf_level(queue@, *cat, depth as int),
            target == search_spec(heatmaps_of(queue@), depth as int, *cat),
            target == search_spec(heatmaps_of(state_queue@), current_depth as int, *cat),
        decreases depth,
    {
        let ghost orig = heatmaps_of(queue@);
        let ghost mut p: int = 0;
        let mut next_state_queue: Vec<State> = Vec::new();
        proof {
            assert(orig.subrange(0, 0) =~= Seq::<Seq<i32>>::empty());
            assert(heatmaps_of(next_state_queue@) =~= Seq::<Seq<i32>>::empty());
            assert(orig.subrange(0, orig.len() as int) =~= orig);
        }
        while queue.len() > 0
            invariant
                cat.wf(),
                depth >= 0,
                solution_is_possible_depth == solution_possible_depth(*cat),
                solution_is_possible_depth >= 1,
                sqs == cat.squares_as_bitlist.deep_view(),
                wf_level(queue@, *cat, depth as int),
                wf_level(next_state_queue@, *cat, depth as int - 1),
                0 <= p <= orig.len(),
                heatmaps_of(queue@) == orig.subrange(p, orig.len() as int),
                heatmaps_of(next_state_queue@) == expand_level(orig.subrange(0, p), *cat),
                depth <= solution_is_possible_depth ==> forall|m: int|
                    0 <= m < p ==> contains_square_spec(#[trigger] orig[m], sqs),
                target == search_spec(orig, depth as int, *cat),
                target == search_spec(heatmaps_of(state_queue@), current_depth as int, *cat),
            decreases queue.len(),
        {
            let ghost pre_queue = queue@;
            let current_state = queue.remove(0);
            proof {
                assert(pre_queue.len() > 0);
                assert(heatmaps_of(pre_queue) == orig.subrange(p, orig.len() as int));
                assert(heatmaps_of(pre_queue).len() == pre_queue.len());
                assert(p < orig.len());
                assert(heatmaps_of(pre_queue)[0] == pre_queue[0].heatmap@);
                assert(orig.subrange(p, orig.len() as int)[0] == orig[p]);
                assert(current_state == pre_queue[0]);
                assert(current_state.heatmap@ == orig[p]);
                assert(queue@ == pre_queue.remove(0));
                pre_queue.remove_ensures(0);
                assert(queue@.len() == pre_queue.len() - 1);
                assert forall|m: int|
                    0 <= m < queue@.len() implies #[trigger] heatmaps_of(queue@)[m] == orig[p + 1
                    + m] by {
                    assert(pre_queue.remove(0)[m] == pre_queue[m + 1]);
                    assert(queue@[m] == pre_queue[m + 1]);
                    assert(heatmaps_of(pre_queue)[m + 1] == pre_queue[m + 1].heatmap@);
                    assert(heatmaps_of(pre_queue)[m + 1] == orig.subrange(p, orig.len() as int)[m
                        + 1]);
                    assert(orig.subrange(p, orig.len() as int)[m + 1] == orig[p + 1 + m]);
                    assert(heatmaps_of(queue@)[m] == queue@[m].heatmap@);
                }
                assert(heatmaps_of(queue@) =~= orig.subrange(p + 1, orig.len() as int));
            }
            if depth <= solution_is_possible_depth && !current_state.contains_squares(cat) {
                proof {
                    lemma_square_free_population_bound(current_state.heatmap@, *cat);
                    let suffix = orig.subrange(p, orig.len() as int);
                    assert(suffix[0] == orig[p]);
                    assert(first_square_free(suffix, sqs) == 0);
                    lemma_first_free_offset(orig, p, sqs);
                    assert(first_square_free(orig, sqs) == p);
                    assert(search_spec(orig, depth as int, *cat) == orig[p]);
                }
                return current_state;
            }
            proof {
                if depth <= solution_is_possible_depth {
                    assert(contains_square_spec(orig[p], sqs));
                }
            }
            let mut children = current_state.get_children(cat);
            let ghost peaks = current_state.heatmap_peaks@;
            let ghost mut c: int = 0;
            proof {
                lemma_peaks_of_is(current_state.heatmap@, peaks);
                assert(children_of(current_state.heatmap@, *cat).subrange(0, 0)
                    =~= Seq::<Seq<i32>>::empty());
                assert(expand_level(orig.subrange(0, p), *cat) + Seq::<Seq<i32>>::empty()
                    =~= expand_level(orig.subrange(0, p), *cat));
                assert(heatmaps_of(next_state_queue@) == expand_level(orig.subrange(0, p), *cat)
                    + children_of(current_state.heatmap@, *cat).subrange(0, 0));
            }
            while children.len() > 0
                invariant
                    cat.wf(),
                    depth >= 0,
                    sqs == cat.squares_as_bitlist.deep_view(),
                    0 <= c,
                    0 <= p < orig.len(),
                    c + children@.len() == peaks.len(),
                    forall|m: int|
                        0 <= m < children@.len() ==> {
                            &&& (#[trigger] children@[m]).wf(*cat)
                            &&& children@[m].depth == depth - 1
                            &&& children@[m].heatmap@ == apply_dep_spec(
                                current_state.heatmap@,
                                cat.dependency_maps@[peaks[c + m] as int]@,
                                peaks[c + m] as int,
                            )
                        },
                    crate::state::wf_peaks(current_state.heatmap@, peaks),
                    peaks_of(current_state.heatmap@) == peaks,
                    population(current_state.heatmap@) <= depth as int || seq_max(
                        current_state.heatmap@,
                    ) == -1,
                    wf_level(next_state_queue@, *cat, depth as int - 1),
                    heatmaps_of(next_state_queue@) == expand_level(orig.subrange(0, p), *cat)
                        + children_of(current_state.heatmap@, *cat).subrange(0, c),
                decreases children@.len(),
            {
                let ghost pre_next = next_state_queue@;
                let child_state = children.remove(0);
                proof {
                    lemma_child_search_invariant(
                        current_state.heatmap@,
                        peaks,
                        cat.dependency_maps@[peaks[c] as int]@,
                        c,
                        depth as int,
                    );
                    assert(child_state.heatmap@ == children_of(current_state.heatmap@, *cat)[c]);
                }
                next_state_queue.push(child_state);
                proof {
                    let ch = children_of(current_state.heatmap@, *cat);
                    let a = expand_level(orig.subrange(0, p), *cat);
                    assert(ch.len() == peaks.len());
                    assert(0 <= c && c < ch.len());
                    assert(next_state_queue@ == pre_next.push(child_state));
                    assert(heatmaps_of(pre_next) == a + ch.subrange(0, c));
                    assert(heatmaps_of(pre_next).len() == pre_next.len());
                    assert((a + ch.subrange(0, c)).len() == a.len() + c);
                    assert(pre_next.len() == a.len() + c);
                    assert forall|m: int|
                        0 <= m < next_state_queue@.len() implies #[trigger] heatmaps_of(
                        next_state_queue@,
                    )[m] == (a + ch.subrange(0, c + 1))[m] by {
                        assert(heatmaps_of(next_state_queue@)[m] == next_state_queue@[m].heatmap@);
                        if m < a.len() {
                            assert(next_state_queue@[m] == pre_next[m]);
                            assert(heatmaps_of(pre_next)[m] == pre_next[m].heatmap@);
                            assert((a + ch.subrange(0, c))[m] == a[m]);
                            assert((a + ch.subrange(0, c + 1))[m] == a[m]);
                        } else if m < pre_next.len() {
                            assert(next_state_queue@[m] == pre_next[m]);
                            assert(heatmaps_of(pre_next)[m] == pre_next[m].heatmap@);
                            assert((a + ch.subrange(0, c))[m] == ch.subrange(0, c)[m - a.len()]);
                            assert(ch.subrange(0, c)[m - a.len()] == ch[m - a.len()]);
                            assert((a + ch.subrange(0, c + 1))[m] == ch.subrange(0, c + 1)[m
                                - a.len()]);
                            assert(ch.subrange(0, c + 1)[m - a.len()] == ch[m - a.len()]);
                        } else {
                            assert(m == a.len() + c);
                            assert(next_state_queue@[m] == child_state);
                            assert((a + ch.subrange(0, c + 1))[m] == ch.subrange(0, c + 1)[c]);
                            assert(ch.subrange(0, c + 1)[c] == ch[c]);
                        }
                    }
                    assert(heatmaps_of(next_state_queue@) =~= a + ch.subrange(0, c + 1));
                    c = c + 1;
                }
            }
            proof {
                let ch = children_of(current_state.heatmap@, *cat);
                assert(ch.subrange(0, c) =~= ch);
                lemma_expand_level_step(orig, p, *cat);
                assert(heatmaps_of(next_state_queue@) == expand_level(
                    orig.subrange(0, p + 1),
                    *cat,
                ));
                p = p + 1;
            }
        }
        proof {
            assert(orig.subrange(p, orig.len() as int).len() == 0);
            assert(p == orig.len());
            assert(orig.subrange(0, p) =~= orig);
            if depth <= solution_is_possible_depth {
                lemma_first_free_offset(orig, p, sqs);
                assert(first_square_free(orig.subrange(p, orig.len() as int), sqs) == -1);
                assert(first_square_free(orig, sqs) == -1);
            }
        }
        if depth == 0 {
            // No state at depth 0 was square-free: fall back to the empty
            // grid, which trivially contains no square.
            proof {
                assert(search_spec(orig, 0, *cat) == eliminated_heatmap(cat.grid_size as int));
            }
            return empty_grid_state(cat);
        }
        proof {
            assert(search_spec(orig, depth as int, *cat) == search_spec(
                expand_level(orig, *cat),
                depth as int - 1,
                *cat,
            ));
        }
        queue = next_state_queue;
        depth = depth - 1;
    }
}

/// The state of the all-zero grid: every cell carries the `-1` sentinel.
fn empty_grid_state(cat: &SquareCatalog) -> (r: State)
    requires
        cat.wf(),
    ensures
        valid_answer(r, *cat),
        r.heatmap@ == eliminated_heatmap(cat.grid_size as int),
{
    proof {
        assert(cat.grid_size >= 4 && cat.grid_size >= cat.grid_length) by (nonlinear_arith)
            requires
                cat.grid_size == cat.grid_length * cat.grid_length,
                cat.grid_length >= 2,
        ;
    }
    let heatmap: Vec<i32> = vec![-1i32; cat.grid_size];
    let heatmap_peaks = get_peaks(&heatmap);
    let state = State::new(heatmap, heatmap_peaks, 0);
    proof {
        assert(state.heatmap@ =~= eliminated_heatmap(cat.grid_size as int));
        lemma_population_all_eliminated(state.heatmap@);
        let dv = cat.squares_as_bitlist.deep_view();
        assert forall|k: int|
            0 <= k < dv.len() implies !crate::square_utils::square_in_grid_spec(
            crate::state::grid_of(state.heatmap@),
            dv[k],
        ) by {
            lemma_square_has_corner(*cat, k);
            let i = choose|i: int|
                0 <= i < cat.grid_size && #[trigger] cat.squares_as_bitlist@[k]@[i] == 1;
            assert(dv[k] == cat.squares_as_bitlist@[k]@);
            assert(crate::state::grid_of(state.heatmap@)[i] == 0);
        }
    }
    state
}

/// Run the whole search for the catalog's grid: build the root state from
/// the initial heatmap and walk the levels from the full grid downward.
///
/// The contract pins the returned heatmap exactly: it equals `solve_spec`,
/// the level walk evaluated on the catalog, so every run of one catalog
/// returns the same grid, square-free and within the population bound.
/// The search is a heuristic: it returns the first square-free grid the
/// peak-guided branching reaches in level order. On the smallest grids
/// that is the densest one, and the end-to-end tests check those values;
/// on larger grids the peak policy, with its algebraic bookkeeping, can
/// prune denser square-free grids, so maximality is not part of the
/// contract.
pub fn solve(cat: &SquareCatalog) -> (r: State)
    requires
        cat.wf(),
    ensures
        valid_answer(r, *cat),
        r.heatmap@ == solve_spec(*cat),
{
    let heatmap = get_heatmap(&cat.squares_as_bitlist, cat.grid_size);
    proof {
        let dv = cat.squares_as_bitlist.deep_view();
        assert forall|i: int| 0 <= i < cat.grid_size implies 0 <= #[trigger] heatmap@[i]
            <= cat.squares@.len() by {
            lemma_col_sum_bounds(dv, cat.grid_size as int, i);
        }
        assert(cat.grid_size >= 4) by (nonlinear_arith)
            requires
                cat.grid_size == cat.grid_length * cat.grid_length,
                cat.grid_length >= 2,
        ;
        lemma_population_le_len(heatmap@);
        assert forall|i: int|
            0 <= i < cat.grid_size implies #[trigger] heatmap@[i] == Seq::new(
            cat.grid_size as nat,
            |i: int| crate::hca_utils::col_sum(dv, i) as i32,
        )[i] by {
            assert(heatmap@[i] == crate::hca_utils::col_sum(dv, i));
        }
        assert(heatmap@ =~= Seq::new(
            cat.grid_size as nat,
            |i: int| crate::hca_utils::col_sum(dv, i) as i32,
        ));
    }
    let heatmap_peaks = get_peaks(&heatmap);
    let depth: i32 = cat.grid_size as i32;
    let root = State::new(heatmap, heatmap_peaks, depth);
    let mut state_queue: Vec<State> = Vec::new();
    state_queue.push(root);
    proof {
        assert(heatmaps_of(state_queue@) =~= seq![root.heatmap@]);
    }
    search(state_queue, depth, cat)
}

} // verus!
