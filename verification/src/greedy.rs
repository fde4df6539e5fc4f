use vstd::prelude::*;
use crate::assign::{cells_in_range, fill_all, fill_all_ok, fill_in_order, fill_ok, nonneg_qty, try_fill_in_order};
use crate::conservation::{conserves, exhausted_at, lemma_fill_all_conserves, lemma_fill_all_exhausts, lemma_permutation_keeps_cells, unassigned};
use crate::feasibility::{all_shipped, balanced, covers, lemma_fill_all_ships_everything, lemma_permutation_covers};
use crate::fogel::consistent;
use crate::grid::{Grid, grid_dims, grid_view, is_rect};
use crate::node::Node;
use crate::sorting::{Keyed, hits, is_permutation, sort_by_cost, sorted_by_key, stable_sorted};

verus! {

/// Filling the cells in an order sorted from `t0` conserves supply and
/// demand, and ships everything when every cell is named and supply and
/// demand balance, as filling them in any order does.
proof fn lemma_sorted_order_laws(g: Seq<Seq<Node>>, nrows: nat, ncols: nat, t0: Seq<Node>, t1: Seq<Node>)
    requires
        is_rect(g, nrows, ncols),
        nrows <= usize::MAX,
        ncols <= usize::MAX,
        stable_sorted(t0, t1),
    ensures
        unassigned(g) && consistent(g) && nonneg_qty(g) && cells_in_range(t0, nrows, ncols) ==> conserves(
            g,
            fill_all(g, t1),
            nrows,
            ncols,
        ),
        unassigned(g) && consistent(g) && nonneg_qty(g) && cells_in_range(t0, nrows, ncols) && covers(t0, nrows, ncols)
            && balanced(g, ncols) ==> all_shipped(fill_all(g, t1), nrows, ncols),
        consistent(g) && nonneg_qty(g) && cells_in_range(t0, nrows, ncols) ==> exhausted_at(fill_all(g, t1), t1),
{
    if consistent(g) && nonneg_qty(g) && cells_in_range(t0, nrows, ncols) {
        let p = choose|p: Seq<int>| #[trigger] is_permutation(t0, t1, p);
        lemma_permutation_keeps_cells(t0, t1, p, nrows, ncols);
        lemma_fill_all_exhausts(g, nrows, ncols, t1);
        if unassigned(g) {
            lemma_fill_all_conserves(g, nrows, ncols, t1);
        }
        if unassigned(g) && covers(t0, nrows, ncols) && balanced(g, ncols) {
            lemma_permutation_covers(t0, t1, p, nrows, ncols);
            lemma_fill_all_ships_everything(g, nrows, ncols, t1);
        }
    }
}

/// The greedy (cheapest cell first) assignment.
///
/// The cells of `task_vec` are sorted by cost, ties kept in their order;
/// then each is filled in turn in `task_array2d`, as much as its row's
/// supply and its column's demand allow.  On a grid where nothing is
/// assigned yet, nothing is negative and rows and columns agree, supply
/// and demand are conserved; when every cell is named and supply and
/// demand balance, everything is shipped.
pub fn greedy(task_vec: &mut Vec<Node>, task_array2d: &mut Grid)
    requires
        forall|order: Seq<Node>|
            stable_sorted(old(task_vec)@, order) ==> fill_all_ok(
                grid_view(*old(task_array2d)),
                grid_dims(*old(task_array2d)).0,
                grid_dims(*old(task_array2d)).1,
                order,
            ),
    ensures
        stable_sorted(old(task_vec)@, final(task_vec)@),
        grid_dims(*final(task_array2d)) == grid_dims(*old(task_array2d)),
        grid_view(*final(task_array2d)) == fill_all(grid_view(*old(task_array2d)), final(task_vec)@),
        ({
            let g = grid_view(*old(task_array2d));
            let (nrows, ncols) = grid_dims(*old(task_array2d));
            unassigned(g) && consistent(g) && nonneg_qty(g) && cells_in_range(old(task_vec)@, nrows, ncols)
                ==> conserves(g, grid_view(*final(task_array2d)), nrows, ncols)
        }),
        ({
            let g = grid_view(*old(task_array2d));
            let (nrows, ncols) = grid_dims(*old(task_array2d));
            unassigned(g) && consistent(g) && nonneg_qty(g) && cells_in_range(old(task_vec)@, nrows, ncols)
                && covers(old(task_vec)@, nrows, ncols) && balanced(g, ncols)
                ==> all_shipped(grid_view(*final(task_array2d)), nrows, ncols)
        }),
        ({
            let g = grid_view(*old(task_array2d));
            let (nrows, ncols) = grid_dims(*old(task_array2d));
            consistent(g) && nonneg_qty(g) && cells_in_range(old(task_vec)@, nrows, ncols)
                ==> exhausted_at(grid_view(*final(task_array2d)), final(task_vec)@)
        }),
{
    let ghost g = grid_view(*task_array2d);
    let ghost t0 = task_vec@;
    let nrows = task_array2d.nrows();
    let ncols = task_array2d.ncols();
    sort_by_cost(task_vec);
    proof {
        lemma_sorted_order_laws(g, nrows as nat, ncols as nat, t0, task_vec@);
    }
    fill_in_order(task_array2d, task_vec);
}

/// The greedy assignment with each fill checked first: the cells are
/// sorted by cost as in `greedy`, then filled in that order; `false` at the
/// first cell whose fill is not defined (it names no cell of the grid, or a
/// quantity left over leaves `i32`), the cells before it filled.
pub fn try_greedy(task_vec: &mut Vec<Node>, task_array2d: &mut Grid) -> (r: bool)
    ensures
        stable_sorted(old(task_vec)@, final(task_vec)@),
        grid_dims(*final(task_array2d)) == grid_dims(*old(task_array2d)),
        r == fill_all_ok(
            grid_view(*old(task_array2d)),
            grid_dims(*old(task_array2d)).0,
            grid_dims(*old(task_array2d)).1,
            final(task_vec)@,
        ),
        r ==> grid_view(*final(task_array2d)) == fill_all(grid_view(*old(task_array2d)), final(task_vec)@),
        !r ==> exists|k: int|
            0 <= k < final(task_vec)@.len() && fill_all_ok(
                grid_view(*old(task_array2d)),
                grid_dims(*old(task_array2d)).0,
                grid_dims(*old(task_array2d)).1,
                final(task_vec)@.take(k),
            ) && !fill_ok(
                fill_all(grid_view(*old(task_array2d)), final(task_vec)@.take(k)),
                grid_dims(*old(task_array2d)).0,
                grid_dims(*old(task_array2d)).1,
                final(task_vec)@[k].s_node_id as int,
                final(task_vec)@[k].d_node_id as int,
            ) && grid_view(*final(task_array2d)) == fill_all(grid_view(*old(task_array2d)), final(task_vec)@.take(k)),
        ({
            let g = grid_view(*old(task_array2d));
            let (nrows, ncols) = grid_dims(*old(task_array2d));
            r && unassigned(g) && consistent(g) && nonneg_qty(g) && cells_in_range(old(task_vec)@, nrows, ncols)
                ==> conserves(g, grid_view(*final(task_array2d)), nrows, ncols)
        }),
        ({
            let g = grid_view(*old(task_array2d));
            let (nrows, ncols) = grid_dims(*old(task_array2d));
            r && unassigned(g) && consistent(g) && nonneg_qty(g) && cells_in_range(old(task_vec)@, nrows, ncols)
                && covers(old(task_vec)@, nrows, ncols) && balanced(g, ncols)
                ==> all_shipped(grid_view(*final(task_array2d)), nrows, ncols)
        }),
{
    let ghost g = grid_view(*task_array2d);
    let ghost t0 = task_vec@;
    let nrows = task_array2d.nrows();
    let ncols = task_array2d.ncols();
    sort_by_cost(task_vec);
    proof {
        lemma_sorted_order_laws(g, nrows as nat, ncols as nat, t0, task_vec@);
    }
    try_fill_in_order(task_array2d, task_vec)
}

/// The costs of `t` are pairwise distinct.
pub open spec fn distinct_costs(t: Seq<Node>) -> bool {
    forall|i: int, j: int| 0 <= i < t.len() && 0 <= j < t.len() && i != j ==> (#[trigger] t[i]).node_cost != (#[trigger] t[j]).node_cost
}

/// `x` stands somewhere in `s`.
pub open spec fn found_in(x: Node, s: Seq<Node>) -> bool {
    exists|j: int| 0 <= j < s.len() && s[j] == x
}

/// Two sorted sequences, each element of one found in the other, with
/// costs pairwise distinct in both, agree on their first `i` elements.
proof fn lemma_sorted_prefix_agree(t1: Seq<Node>, u1: Seq<Node>, i: int)
    requires
        t1.len() == u1.len(),
        0 <= i <= t1.len(),
        sorted_by_key(t1),
        sorted_by_key(u1),
        distinct_costs(t1),
        distinct_costs(u1),
        forall|k: int| 0 <= k < t1.len() ==> found_in(#[trigger] t1[k], u1),
        forall|k: int| 0 <= k < u1.len() ==> found_in(#[trigger] u1[k], t1),
    ensures
        forall|k: int| 0 <= k < i ==> #[trigger] t1[k] == u1[k],
    decreases i,
{
    if i > 0 {
        lemma_sorted_prefix_agree(t1, u1, i - 1);
        let m = i - 1;
        let x = t1[m];
        let y = u1[m];
        assert(found_in(x, u1));
        assert(found_in(y, t1));
        let j = choose|j: int| 0 <= j < u1.len() && u1[j] == x;
        let j2 = choose|j2: int| 0 <= j2 < t1.len() && t1[j2] == y;
        if j < m {
            assert(t1[j] == u1[j]);
            assert(t1[j].node_cost == t1[m].node_cost);
        }
        if j2 < m {
            assert(t1[j2] == u1[j2]);
            assert(u1[j2].node_cost == u1[m].node_cost);
        }
        if j > m && j2 > m {
            assert(u1[m].key_of() <= u1[j].key_of());
            assert(t1[m].key_of() <= t1[j2].key_of());
            assert(u1[m].node_cost == u1[j].node_cost);
        }
        assert(j == m || j2 == m);
        assert forall|k: int| 0 <= k < i implies #[trigger] t1[k] == u1[k] by {
            if k < m {
                assert(t1[k] == u1[k]);
            }
        }
    }
}

/// With costs pairwise distinct, the greedy result does not depend on the
/// order in which the cells come: two cell lists that are permutations of
/// each other sort into the same order, and so fill any grid alike.
pub proof fn lemma_greedy_order_free(g: Seq<Seq<Node>>, t0: Seq<Node>, u0: Seq<Node>, p: Seq<int>, t1: Seq<Node>, u1: Seq<Node>)
    requires
        is_permutation(t0, u0, p),
        distinct_costs(t0),
        stable_sorted(t0, t1),
        stable_sorted(u0, u1),
    ensures
        t1 == u1,
        fill_all(g, t1) == fill_all(g, u1),
{
    let n = t0.len();
    let p1 = choose|p1: Seq<int>| #[trigger] is_permutation(t0, t1, p1) && forall|i: int, j: int|
        0 <= i < j < t1.len() && (#[trigger] t1[i]).key_of() == (#[trigger] t1[j]).key_of() ==> p1[i] < p1[j];
    let q1 = choose|q1: Seq<int>| #[trigger] is_permutation(u0, u1, q1) && forall|i: int, j: int|
        0 <= i < j < u1.len() && (#[trigger] u1[i]).key_of() == (#[trigger] u1[j]).key_of() ==> q1[i] < q1[j];
    assert(distinct_costs(t1)) by {
        assert forall|i: int, j: int| 0 <= i < t1.len() && 0 <= j < t1.len() && i != j implies (#[trigger] t1[i]).node_cost
            != (#[trigger] t1[j]).node_cost by {
            assert(p1[i] != p1[j]);
            assert(t1[i] == t0[p1[i]] && t1[j] == t0[p1[j]]);
        }
    }
    assert(distinct_costs(u1)) by {
        assert forall|i: int, j: int| 0 <= i < u1.len() && 0 <= j < u1.len() && i != j implies (#[trigger] u1[i]).node_cost
            != (#[trigger] u1[j]).node_cost by {
            assert(q1[i] != q1[j]);
            assert(p[q1[i]] != p[q1[j]]);
            assert(u1[i] == t0[p[q1[i]]] && u1[j] == t0[p[q1[j]]]);
        }
    }
    assert forall|k: int| 0 <= k < t1.len() implies found_in(#[trigger] t1[k], u1) by {
        let c = p1[k];
        assert(hits(p, n as int, c));
        let a = choose|a: int| 0 <= a < n && p[a] == c;
        assert(hits(q1, n as int, a));
        let j = choose|j: int| 0 <= j < n && q1[j] == a;
        assert(u1[j] == u0[a]);
    }
    assert forall|k: int| 0 <= k < u1.len() implies found_in(#[trigger] u1[k], t1) by {
        let a = q1[k];
        let c = p[a];
        assert(hits(p1, n as int, c));
        let j = choose|j: int| 0 <= j < n && p1[j] == c;
        assert(t1[j] == t0[c]);
    }
    lemma_sorted_prefix_agree(t1, u1, t1.len() as int);
    assert(t1 =~= u1);
}

} // verus!
