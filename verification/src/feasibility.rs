use vstd::prelude::*;
use crate::assign::{cells_in_range, fill, fill_all, nonneg_qty};
use crate::balance::{col_sums, lemma_cols_rows, lemma_seq_sum_add, row_sums};
use crate::conservation::{
    assigned, conserves, exhausted_at, lemma_fill_all_conserves, lemma_fill_all_exhausts, named, unassigned,
};
use crate::fogel::{consistent, ids};
use crate::grid::{column_of, is_rect};
use crate::node::Node;
use crate::sorting::{hits, is_permutation};
use crate::totals::{demand_terms, seq_sum, supply_terms};

verus! {

/// The total supply equals the total demand.
pub open spec fn balanced(g: Seq<Seq<Node>>, ncols: nat) -> bool {
    seq_sum(supply_terms(g)) == seq_sum(demand_terms(g, ncols))
}

/// No supply and no demand is left anywhere.
pub open spec fn all_shipped(h: Seq<Seq<Node>>, nrows: nat, ncols: nat) -> bool {
    forall|i: int, j: int| 0 <= i < nrows && 0 <= j < ncols ==> (#[trigger] h[i][j]).s_qty == 0 && h[i][j].d_qty == 0
}

/// Every cell of an `nrows` by `ncols` grid is named in `order`.
pub open spec fn covers(order: Seq<Node>, nrows: nat, ncols: nat) -> bool {
    forall|i: int, j: int| 0 <= i < nrows && 0 <= j < ncols ==> #[trigger] named(order, i, j)
}

/// A permutation of cells that name every cell names every cell.
pub proof fn lemma_permutation_covers(t0: Seq<Node>, t1: Seq<Node>, p: Seq<int>, nrows: nat, ncols: nat)
    requires
        is_permutation(t0, t1, p),
        covers(t0, nrows, ncols),
    ensures
        covers(t1, nrows, ncols),
{
    assert forall|i: int, j: int| 0 <= i < nrows && 0 <= j < ncols implies #[trigger] named(t1, i, j) by {
        assert(named(t0, i, j));
        let k = choose|k: int| 0 <= k < t0.len() && #[trigger] ids(t0[k]) == (i as usize, j as usize);
        assert(hits(p, t1.len() as int, k));
        let t = choose|t: int| 0 <= t < t1.len() && p[t] == k;
        assert(t1[t] == t0[k]);
        assert(ids(t1[t]) == (i as usize, j as usize));
    }
}

/// A sum of terms that are not negative is at least each of them.
pub proof fn lemma_sum_nonneg_at_least(xs: Seq<int>, k: int)
    requires
        forall|t: int| 0 <= t < xs.len() ==> #[trigger] xs[t] >= 0,
        0 <= k < xs.len(),
    ensures
        seq_sum(xs) >= xs[k],
    decreases xs.len(),
{
    lemma_sum_nonneg(xs.drop_last());
    if k < xs.len() - 1 {
        assert forall|t: int| 0 <= t < xs.drop_last().len() implies #[trigger] xs.drop_last()[t] >= 0 by {
            assert(xs.drop_last()[t] == xs[t]);
        }
        lemma_sum_nonneg_at_least(xs.drop_last(), k);
        assert(xs.drop_last()[k] == xs[k]);
        assert(xs[xs.len() - 1] >= 0);
    }
}

/// A sum of terms that are not negative is not negative.
pub proof fn lemma_sum_nonneg(xs: Seq<int>)
    requires
        forall|t: int| 0 <= t < xs.len() ==> #[trigger] xs[t] >= 0,
    ensures
        seq_sum(xs) >= 0,
    decreases xs.len(),
{
    if xs.len() > 0 {
        assert forall|t: int| 0 <= t < xs.drop_last().len() implies #[trigger] xs.drop_last()[t] >= 0 by {
            assert(xs.drop_last()[t] == xs[t]);
        }
        lemma_sum_nonneg(xs.drop_last());
        assert(xs[xs.len() - 1] >= 0);
    }
}

/// A sum of zeros is zero.
pub proof fn lemma_sum_zero(xs: Seq<int>)
    requires
        forall|t: int| 0 <= t < xs.len() ==> #[trigger] xs[t] == 0,
    ensures
        seq_sum(xs) == 0,
    decreases xs.len(),
{
    if xs.len() > 0 {
        assert forall|t: int| 0 <= t < xs.drop_last().len() implies #[trigger] xs.drop_last()[t] == 0 by {
            assert(xs.drop_last()[t] == xs[t]);
        }
        lemma_sum_zero(xs.drop_last());
        assert(xs[xs.len() - 1] == 0);
    }
}

/// With supply and demand conserved, the supply left and the demand left
/// differ by what the supply and the demand differed by at the start.
pub proof fn lemma_left_difference(g: Seq<Seq<Node>>, h: Seq<Seq<Node>>, nrows: nat, ncols: nat)
    requires
        is_rect(g, nrows, ncols),
        conserves(g, h, nrows, ncols),
        nrows > 0,
        ncols > 0,
    ensures
        seq_sum(supply_terms(h)) - seq_sum(demand_terms(h, ncols)) == seq_sum(supply_terms(g)) - seq_sum(
            demand_terms(g, ncols),
        ),
{
    assert(supply_terms(h).len() == nrows);
    assert(supply_terms(g).len() == nrows);
    assert forall|i: int| 0 <= i < nrows implies #[trigger] supply_terms(g)[i] == supply_terms(h)[i] + row_sums(h)[i] by {
        assert(h[i][0].s_qty + assigned(h[i]) == g[i][0].s_qty);
    }
    lemma_seq_sum_add(supply_terms(h), row_sums(h), supply_terms(g));
    assert forall|j: int| 0 <= j < ncols implies #[trigger] demand_terms(g, ncols)[j] == demand_terms(h, ncols)[j]
        + col_sums(h, ncols)[j] by {
        assert(h[0][j].d_qty + assigned(column_of(h, j)) == g[0][j].d_qty);
    }
    lemma_seq_sum_add(demand_terms(h, ncols), col_sums(h, ncols), demand_terms(g, ncols));
    lemma_cols_rows(h, nrows, ncols, nrows as int);
    assert(h.take(nrows as int) =~= h);
}

/// Filling every cell, in any order, in a balanced grid (as much
/// supply as demand) where nothing is assigned yet, nothing is negative and
/// rows and columns agree, ships everything: no supply and no demand is
/// left.
pub proof fn lemma_fill_all_ships_everything(g: Seq<Seq<Node>>, nrows: nat, ncols: nat, order: Seq<Node>)
    requires
        is_rect(g, nrows, ncols),
        nrows <= usize::MAX,
        ncols <= usize::MAX,
        consistent(g),
        nonneg_qty(g),
        unassigned(g),
        balanced(g, ncols),
        cells_in_range(order, nrows, ncols),
        covers(order, nrows, ncols),
    ensures
        all_shipped(fill_all(g, order), nrows, ncols),
{
    let h = fill_all(g, order);
    lemma_fill_all_conserves(g, nrows, ncols, order);
    lemma_fill_all_exhausts(g, nrows, ncols, order);
    if nrows > 0 && ncols > 0 {
        lemma_left_difference(g, h, nrows, ncols);
        let st = supply_terms(h);
        let dt = demand_terms(h, ncols);
        assert forall|t: int| 0 <= t < st.len() implies #[trigger] st[t] >= 0 by {
            assert(h[t][0].s_qty >= 0);
        }
        assert forall|t: int| 0 <= t < dt.len() implies #[trigger] dt[t] >= 0 by {
            assert(h[0][t].d_qty >= 0);
        }
        assert forall|i: int, j: int| 0 <= i < nrows && 0 <= j < ncols implies (#[trigger] h[i][j]).s_qty == 0
            && h[i][j].d_qty == 0 by {
            if h[i][j].s_qty != 0 {
                assert forall|j2: int| 0 <= j2 < ncols implies #[trigger] dt[j2] == 0 by {
                    assert(named(order, i, j2));
                    let k = choose|k: int| 0 <= k < order.len() && #[trigger] ids(order[k]) == (i as usize, j2 as usize);
                    assert(order[k].s_node_id as int == i && order[k].d_node_id as int == j2);
                    assert(h[order[k].s_node_id as int][order[k].d_node_id as int].s_qty == 0
                        || h[order[k].s_node_id as int][order[k].d_node_id as int].d_qty == 0);
                    assert(h[i][j2].s_qty == h[i][j].s_qty);
                    assert(h[i][j2].d_qty == 0);
                    assert(h[0][j2].d_qty == h[i][j2].d_qty);
                }
                lemma_sum_zero(dt);
                assert(st[i] == h[i][j].s_qty);
                lemma_sum_nonneg_at_least(st, i);
            }
            if h[i][j].d_qty != 0 {
                assert forall|i2: int| 0 <= i2 < nrows implies #[trigger] st[i2] == 0 by {
                    assert(named(order, i2, j));
                    let k = choose|k: int| 0 <= k < order.len() && #[trigger] ids(order[k]) == (i2 as usize, j as usize);
                    assert(order[k].s_node_id as int == i2 && order[k].d_node_id as int == j);
                    assert(h[order[k].s_node_id as int][order[k].d_node_id as int].s_qty == 0
                        || h[order[k].s_node_id as int][order[k].d_node_id as int].d_qty == 0);
                    assert(h[i2][j].d_qty == h[i][j].d_qty);
                    assert(h[i2][j].s_qty == 0);
                    assert(h[i2][0].s_qty == h[i2][j].s_qty);
                }
                lemma_sum_zero(st);
                assert(dt[j] == h[0][j].d_qty);
                assert(h[0][j].d_qty == h[i][j].d_qty);
                lemma_sum_nonneg_at_least(dt, j);
            }
        }
    }
}

} // verus!
