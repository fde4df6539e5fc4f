use vstd::prelude::*;
use crate::assign::{
    cells_in_range, demand_fits, fill, fill_all, lemma_fill_nonneg, lemma_fill_shape, nonneg_qty, supply_fits,
};
use crate::fogel::{consistent, ids};
use crate::grid::{column_of, is_rect};
use crate::node::Node;
use crate::sorting::is_permutation;

verus! {

/// The quantity assigned to the cells of `line`.
pub open spec fn assigned(line: Seq<Node>) -> int
    decreases line.len(),
{
    if line.len() == 0 {
        0
    } else {
        assigned(line.drop_last()) + line.last().node_qty
    }
}

/// Nothing is assigned to any cell yet.
pub open spec fn unassigned(g: Seq<Seq<Node>>) -> bool {
    forall|i: int, j: int| 0 <= i < g.len() && 0 <= j < g[i].len() ==> (#[trigger] g[i][j]).node_qty == 0
}

/// The cell `(i, j)` is named in `order`.
pub open spec fn named(order: Seq<Node>, i: int, j: int) -> bool {
    exists|k: int| 0 <= k < order.len() && #[trigger] ids(order[k]) == (i as usize, j as usize)
}

/// The smaller of two quantities.
pub open spec fn min_qty(a: int, b: int) -> int {
    if a <= b { a } else { b }
}

/// `h` is what is left of the grid `g` (`nrows` by `ncols`) once some
/// cells have been filled, supply and demand conserved: rows and columns
/// agree, nothing is negative, and in every row the supply left plus the
/// quantity assigned in the row is the row's supply in `g`, as in every
/// column the demand left plus the quantity assigned in the column is the
/// column's demand in `g`.
pub open spec fn conserves(g: Seq<Seq<Node>>, h: Seq<Seq<Node>>, nrows: nat, ncols: nat) -> bool {
    &&& is_rect(h, nrows, ncols)
    &&& consistent(h)
    &&& nonneg_qty(h)
    &&& forall|i: int, j: int|
        0 <= i < nrows && 0 <= j < ncols ==> (#[trigger] h[i][j]).s_qty + assigned(h[i]) == g[i][j].s_qty
    &&& forall|i: int, j: int|
        0 <= i < nrows && 0 <= j < ncols ==> (#[trigger] h[i][j]).d_qty + assigned(column_of(h, j)) == g[i][j].d_qty
}

/// Two lines that differ in what is assigned at position `d` at most.
proof fn lemma_assigned_diff(r: Seq<Node>, r2: Seq<Node>, d: int)
    requires
        r.len() == r2.len(),
        forall|j: int| 0 <= j < r.len() && j != d ==> (#[trigger] r2[j]).node_qty == r[j].node_qty,
    ensures
        assigned(r2) == assigned(r) + (if 0 <= d < r.len() { r2[d].node_qty - r[d].node_qty } else { 0 }),
    decreases r.len(),
{
    if r.len() > 0 {
        let n = r.len() - 1;
        assert forall|j: int| 0 <= j < r.drop_last().len() && j != d implies (#[trigger] r2.drop_last()[j]).node_qty
            == r.drop_last()[j].node_qty by {
            assert(r2.drop_last()[j] == r2[j]);
            assert(r.drop_last()[j] == r[j]);
        }
        lemma_assigned_diff(r.drop_last(), r2.drop_last(), d);
        if d != n {
            assert(r2[n].node_qty == r[n].node_qty);
        }
        if 0 <= d < n {
            assert(r2.drop_last()[d] == r2[d]);
            assert(r.drop_last()[d] == r[d]);
        }
    }
}

/// Filling cell `(s, d)` of a grid whose rows and columns agree, and where
/// nothing is negative, ships the smaller of the supply and the demand of
/// the cell: that much leaves the supply of row `s` and the demand of
/// column `d`, and the cell gets it (a cell whose supply or demand is zero
/// keeps what it had).  Nothing else changes, and rows and columns still
/// agree.
pub proof fn lemma_fill_ships_min(g: Seq<Seq<Node>>, nrows: nat, ncols: nat, s: int, d: int)
    requires
        is_rect(g, nrows, ncols),
        consistent(g),
        nonneg_qty(g),
        0 <= s < nrows,
        0 <= d < ncols,
    ensures
        ({
            let h = fill(g, s, d);
            let q = min_qty(g[s][d].s_qty as int, g[s][d].d_qty as int);
            &&& is_rect(h, nrows, ncols)
            &&& consistent(h)
            &&& nonneg_qty(h)
            &&& q >= 0
            &&& h[s][d].node_qty == (if q > 0 { q } else { g[s][d].node_qty as int })
            &&& forall|j: int| 0 <= j < ncols ==> (#[trigger] h[s][j]).s_qty == g[s][j].s_qty - q
            &&& forall|i: int| 0 <= i < nrows ==> (#[trigger] h[i][d]).d_qty == g[i][d].d_qty - q
            &&& forall|i: int, j: int|
                0 <= i < nrows && 0 <= j < ncols && i != s ==> (#[trigger] h[i][j]).s_qty == g[i][j].s_qty
            &&& forall|i: int, j: int|
                0 <= i < nrows && 0 <= j < ncols && j != d ==> (#[trigger] h[i][j]).d_qty == g[i][j].d_qty
            &&& forall|i: int, j: int|
                0 <= i < nrows && 0 <= j < ncols && !(i == s && j == d) ==> (#[trigger] h[i][j]).node_qty
                    == g[i][j].node_qty
            &&& forall|i: int, j: int|
                0 <= i < nrows && 0 <= j < ncols ==> ids(#[trigger] h[i][j]) == ids(g[i][j])
        }),
{
    lemma_fill_shape(g, nrows, ncols, s, d);
    lemma_fill_nonneg(g, nrows, ncols, s, d);
    let h = fill(g, s, d);
    let sq = g[s][d].s_qty;
    let dq = g[s][d].d_qty;
    assert(sq >= 0 && dq >= 0);
    assert forall|j: int| 0 <= j < ncols implies g[s][j].s_qty == sq by {
        assert(g[s][j].s_qty == g[s][d].s_qty);
    }
    assert forall|i: int| 0 <= i < nrows implies g[i][d].d_qty == dq by {
        assert(g[i][d].d_qty == g[s][d].d_qty);
    }
    assert(consistent(h)) by {
        assert forall|i: int, j: int, j2: int|
            0 <= i < h.len() && 0 <= j < h[i].len() && 0 <= j2 < h[i].len() implies (#[trigger] h[i][j]).s_qty
                == (#[trigger] h[i][j2]).s_qty by {
            assert(g[i][j].s_qty == g[i][j2].s_qty);
        }
        assert forall|i: int, i2: int, j: int|
            0 <= i < h.len() && 0 <= i2 < h.len() && 0 <= j < h[i].len() && j < h[i2].len() implies (
            #[trigger] h[i][j]).d_qty == (#[trigger] h[i2][j]).d_qty by {
            assert(g[i][j].d_qty == g[i2][j].d_qty);
        }
    }
    if !demand_fits(sq, dq) && !supply_fits(sq, dq) {
        assert(sq == 0 || dq == 0);
    }
}

/// At every cell named in `order`, the row's supply or the column's demand is used up.
pub open spec fn exhausted_at(h: Seq<Seq<Node>>, order: Seq<Node>) -> bool {
    forall|k: int|
        0 <= k < order.len() ==> (#[trigger] h[order[k].s_node_id as int][order[k].d_node_id as int]).s_qty == 0
            || h[order[k].s_node_id as int][order[k].d_node_id as int].d_qty == 0
}

/// Filling cells keeps the grid rectangular, rows and columns in
/// agreement, and nothing negative; and at each cell filled, the row's
/// supply or the column's demand is used up for good.
pub proof fn lemma_fill_all_exhausts(g: Seq<Seq<Node>>, nrows: nat, ncols: nat, order: Seq<Node>)
    requires
        is_rect(g, nrows, ncols),
        consistent(g),
        nonneg_qty(g),
        cells_in_range(order, nrows, ncols),
    ensures
        is_rect(fill_all(g, order), nrows, ncols),
        consistent(fill_all(g, order)),
        nonneg_qty(fill_all(g, order)),
        exhausted_at(fill_all(g, order), order),
    decreases order.len(),
{
    if order.len() > 0 {
        let init = order.drop_last();
        let x = order.last();
        let s = x.s_node_id as int;
        let d = x.d_node_id as int;
        assert(order[order.len() - 1] == x);
        assert(cells_in_range(init, nrows, ncols)) by {
            assert forall|k: int| 0 <= k < init.len() implies (#[trigger] init[k]).s_node_id < nrows
                && init[k].d_node_id < ncols by {
                assert(init[k] == order[k]);
            }
        }
        lemma_fill_all_exhausts(g, nrows, ncols, init);
        let h0 = fill_all(g, init);
        lemma_fill_ships_min(h0, nrows, ncols, s, d);
        let h = fill(h0, s, d);
        let q = min_qty(h0[s][d].s_qty as int, h0[s][d].d_qty as int);
        assert(h == fill_all(g, order));
        assert forall|k: int| 0 <= k < order.len() implies (#[trigger] h[order[k].s_node_id as int][order[k].d_node_id as int]).s_qty
            == 0 || h[order[k].s_node_id as int][order[k].d_node_id as int].d_qty == 0 by {
            let i = order[k].s_node_id as int;
            let j = order[k].d_node_id as int;
            if k < init.len() {
                assert(init[k] == order[k]);
                assert(h0[i][j].s_qty == 0 || h0[i][j].d_qty == 0);
                assert(h[i][j].s_qty >= 0 && h[i][j].d_qty >= 0);
                if h0[i][j].s_qty == 0 {
                    if i == s {
                        assert(h[s][j].s_qty == h0[s][j].s_qty - q);
                    }
                } else {
                    if j == d {
                        assert(h[i][d].d_qty == h0[i][d].d_qty - q);
                    }
                }
            } else {
                assert(k == order.len() - 1);
                assert(h[s][d].s_qty == h0[s][d].s_qty - q);
                assert(h[s][d].d_qty == h0[s][d].d_qty - q);
            }
        }
    }
}

/// Filling, one after the other, the cells named by `order` in a grid where
/// nothing is assigned yet, nothing is negative, and rows and columns
/// agree, conserves supply and demand (see `conserves`), and the cells not
/// named keep nothing assigned.  A cell named again changes nothing: its
/// row's supply or its column's demand is used up.
pub proof fn lemma_fill_all_conserves(g: Seq<Seq<Node>>, nrows: nat, ncols: nat, order: Seq<Node>)
    requires
        is_rect(g, nrows, ncols),
        consistent(g),
        nonneg_qty(g),
        unassigned(g),
        cells_in_range(order, nrows, ncols),
    ensures
        ({
            let h = fill_all(g, order);
            &&& conserves(g, h, nrows, ncols)
            &&& forall|i: int, j: int|
                0 <= i < nrows && 0 <= j < ncols && !named(order, i, j) ==> (#[trigger] h[i][j]).node_qty == 0
            &&& forall|i: int, j: int|
                0 <= i < nrows && 0 <= j < ncols ==> ids(#[trigger] h[i][j]) == ids(g[i][j])
        }),
    decreases order.len(),
{
    let h = fill_all(g, order);
    if order.len() == 0 {
        assert forall|i: int| 0 <= i < nrows implies assigned(#[trigger] g[i]) == 0 by {
            lemma_assigned_zero(g[i]);
        }
        assert forall|j: int| 0 <= j < ncols implies assigned(#[trigger] column_of(g, j)) == 0 by {
            lemma_assigned_zero(column_of(g, j));
        }
        assert forall|i: int, j: int|
            0 <= i < nrows && 0 <= j < ncols implies (#[trigger] h[i][j]).s_qty + assigned(h[i]) == g[i][j].s_qty by {
            assert(assigned(g[i]) == 0);
        }
        assert forall|i: int, j: int|
            0 <= i < nrows && 0 <= j < ncols implies (#[trigger] h[i][j]).d_qty + assigned(column_of(h, j))
                == g[i][j].d_qty by {
            assert(assigned(column_of(g, j)) == 0);
        }
        assert(conserves(g, h, nrows, ncols));
    } else {
        let init = order.drop_last();
        let x = order.last();
        let s = x.s_node_id as int;
        let d = x.d_node_id as int;
        assert(order[order.len() - 1] == x);
        assert(cells_in_range(init, nrows, ncols)) by {
            assert forall|k: int| 0 <= k < init.len() implies (#[trigger] init[k]).s_node_id < nrows
                && init[k].d_node_id < ncols by {
                assert(init[k] == order[k]);
            }
        }
        lemma_fill_all_conserves(g, nrows, ncols, init);
        let h0 = fill_all(g, init);
        assert(conserves(g, h0, nrows, ncols));
        if named(init, s, d) {
            let k = choose|k: int| 0 <= k < init.len() && #[trigger] ids(init[k]) == (s as usize, d as usize);
            lemma_fill_all_exhausts(g, nrows, ncols, init);
            assert(init[k].s_node_id as int == s && init[k].d_node_id as int == d);
            assert(h0[init[k].s_node_id as int][init[k].d_node_id as int].s_qty == 0
                || h0[init[k].s_node_id as int][init[k].d_node_id as int].d_qty == 0);
        } else {
            assert(h0[s][d].node_qty == 0);
        }
        lemma_fill_step_conserves(g, h0, nrows, ncols, s, d);
        lemma_fill_ships_min(h0, nrows, ncols, s, d);
        assert(h == fill(h0, s, d));
        assert forall|i: int, j: int|
            0 <= i < nrows && 0 <= j < ncols && !named(order, i, j) implies (#[trigger] h[i][j]).node_qty == 0 by {
            if named(init, i, j) {
                let k = choose|k: int| 0 <= k < init.len() && #[trigger] ids(init[k]) == (i as usize, j as usize);
                assert(init[k] == order[k]);
            }
            assert(ids(order[order.len() - 1]) == (s as usize, d as usize));
        }
        assert(conserves(g, h, nrows, ncols));
    }
}

/// Filling a cell where nothing is assigned yet, or whose row's supply or
/// column's demand is used up, keeps supply and demand conserved.
pub proof fn lemma_fill_step_conserves(g: Seq<Seq<Node>>, h0: Seq<Seq<Node>>, nrows: nat, ncols: nat, s: int, d: int)
    requires
        conserves(g, h0, nrows, ncols),
        0 <= s < nrows,
        0 <= d < ncols,
        h0[s][d].node_qty == 0 || h0[s][d].s_qty == 0 || h0[s][d].d_qty == 0,
    ensures
        conserves(g, fill(h0, s, d), nrows, ncols),
{
    lemma_fill_ships_min(h0, nrows, ncols, s, d);
    let h = fill(h0, s, d);
    let q = min_qty(h0[s][d].s_qty as int, h0[s][d].d_qty as int);
    assert(h[s][d].node_qty - h0[s][d].node_qty == q);
    assert forall|i: int| 0 <= i < nrows implies assigned(#[trigger] h[i]) == assigned(h0[i]) + (if i == s {
        q
    } else {
        0
    }) by {
        lemma_assigned_diff(h0[i], h[i], if i == s { d } else { -1 });
    }
    assert forall|j: int| 0 <= j < ncols implies assigned(#[trigger] column_of(h, j)) == assigned(
        column_of(h0, j),
    ) + (if j == d { q } else { 0 }) by {
        lemma_assigned_diff(column_of(h0, j), column_of(h, j), if j == d { s } else { -1 });
    }
    assert forall|i: int, j: int|
        0 <= i < nrows && 0 <= j < ncols implies (#[trigger] h[i][j]).s_qty + assigned(h[i]) == g[i][j].s_qty by {
        assert(h0[i][j].s_qty + assigned(h0[i]) == g[i][j].s_qty);
        assert(assigned(h[i]) == assigned(h0[i]) + (if i == s { q } else { 0 }));
    }
    assert forall|i: int, j: int|
        0 <= i < nrows && 0 <= j < ncols implies (#[trigger] h[i][j]).d_qty + assigned(column_of(h, j))
            == g[i][j].d_qty by {
        assert(h0[i][j].d_qty + assigned(column_of(h0, j)) == g[i][j].d_qty);
        assert(assigned(column_of(h, j)) == assigned(column_of(h0, j)) + (if j == d { q } else { 0 }));
    }
}

/// A permutation of cells that lie in the grid lie in the grid.
pub proof fn lemma_permutation_keeps_cells(t0: Seq<Node>, t1: Seq<Node>, p: Seq<int>, nrows: nat, ncols: nat)
    requires
        is_permutation(t0, t1, p),
        cells_in_range(t0, nrows, ncols),
    ensures
        cells_in_range(t1, nrows, ncols),
{
    assert forall|k: int| 0 <= k < t1.len() implies (#[trigger] t1[k]).s_node_id < nrows && t1[k].d_node_id < ncols by {
        assert(t1[k] == t0[p[k]]);
    }
}

/// A line where nothing is assigned has nothing assigned in total.
proof fn lemma_assigned_zero(line: Seq<Node>)
    requires
        forall|j: int| 0 <= j < line.len() ==> (#[trigger] line[j]).node_qty == 0,
    ensures
        assigned(line) == 0,
    decreases line.len(),
{
    if line.len() > 0 {
        assert forall|j: int| 0 <= j < line.drop_last().len() implies (#[trigger] line.drop_last()[j]).node_qty == 0 by {
            assert(line.drop_last()[j] == line[j]);
        }
        lemma_assigned_zero(line.drop_last());
        assert(line[line.len() - 1].node_qty == 0);
    }
}

} // verus!
