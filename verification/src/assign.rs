use vstd::prelude::*;
use crate::grid::{Grid, grid_dims, grid_view, is_rect};
use crate::node::Node;

verus! {

/// `x` with the supply left set to `v`.
pub open spec fn with_s_qty(x: Node, v: i32) -> Node {
    Node { s_qty: v, ..x }
}

/// `x` with the demand left set to `v`.
pub open spec fn with_d_qty(x: Node, v: i32) -> Node {
    Node { d_qty: v, ..x }
}

/// `x` with the quantity assigned set to `v`.
pub open spec fn with_node_qty(x: Node, v: i32) -> Node {
    Node { node_qty: v, ..x }
}

/// The demand of the cell can be met in full from the supply.
pub open spec fn demand_fits(sq: i32, dq: i32) -> bool {
    sq >= dq && dq != 0
}

/// The supply of the cell is all used up by part of the demand.
pub open spec fn supply_fits(sq: i32, dq: i32) -> bool {
    dq > sq && sq != 0
}

/// Assigning as much as possible to cell `(s, d)`.
///
/// With `sq` the supply left in row `s` and `dq` the demand left in column
/// `d`: when `sq >= dq` and `dq != 0`, the cell gets `dq`, every cell of row
/// `s` has `sq - dq` supply left and every cell of column `d` no demand left;
/// when `dq > sq` and `sq != 0`, the cell gets `sq`, row `s` has no supply left
/// and column `d` has `dq - sq` demand left; otherwise nothing changes.
pub open spec fn fill(g: Seq<Seq<Node>>, s: int, d: int) -> Seq<Seq<Node>> {
    let sq = g[s][d].s_qty;
    let dq = g[s][d].d_qty;
    if demand_fits(sq, dq) {
        Seq::new(
            g.len(),
            |i: int|
                Seq::new(
                    g[i].len(),
                    |j: int|
                        {
                            let x = g[i][j];
                            let x1 = if i == s { with_s_qty(x, (sq - dq) as i32) } else { x };
                            let x2 = if j == d { with_d_qty(x1, 0) } else { x1 };
                            if i == s && j == d { with_node_qty(x2, dq) } else { x2 }
                        },
                ),
        )
    } else if supply_fits(sq, dq) {
        Seq::new(
            g.len(),
            |i: int|
                Seq::new(
                    g[i].len(),
                    |j: int|
                        {
                            let x = g[i][j];
                            let x1 = if i == s { with_s_qty(x, 0) } else { x };
                            let x2 = if j == d { with_d_qty(x1, (dq - sq) as i32) } else { x1 };
                            if i == s && j == d { with_node_qty(x2, sq) } else { x2 }
                        },
                ),
        )
    } else {
        g
    }
}

/// Filling cell `(s, d)` of `g` is defined: the cell lies in the grid and the
/// quantity left over fits in an `i32`.
pub open spec fn fill_ok(g: Seq<Seq<Node>>, nrows: nat, ncols: nat, s: int, d: int) -> bool {
    &&& 0 <= s < nrows
    &&& 0 <= d < ncols
    &&& demand_fits(g[s][d].s_qty, g[s][d].d_qty) ==> i32::MIN <= g[s][d].s_qty - g[s][d].d_qty
        <= i32::MAX
    &&& supply_fits(g[s][d].s_qty, g[s][d].d_qty) ==> i32::MIN <= g[s][d].d_qty - g[s][d].s_qty
        <= i32::MAX
}

/// Row `s` with its supply set to `v` in the columns before `upto`.
spec fn row_set_s(g: Seq<Seq<Node>>, s: int, v: i32, upto: int) -> Seq<Seq<Node>> {
    Seq::new(
        g.len(),
        |i: int|
            Seq::new(
                g[i].len(),
                |j: int| if i == s && j < upto { with_s_qty(g[i][j], v) } else { g[i][j] },
            ),
    )
}

/// Column `d` with its demand set to `v` in the rows before `upto`.
spec fn col_set_d(g: Seq<Seq<Node>>, d: int, v: i32, upto: int) -> Seq<Seq<Node>> {
    Seq::new(
        g.len(),
        |i: int|
            Seq::new(
                g[i].len(),
                |j: int| if j == d && i < upto { with_d_qty(g[i][j], v) } else { g[i][j] },
            ),
    )
}

/// Set the supply left in row `s` to `v`.
fn set_row_supply(a: &mut Grid, s: usize, v: i32)
    requires
        s < grid_dims(*old(a)).0,
    ensures
        grid_dims(*final(a)) == grid_dims(*old(a)),
        grid_view(*final(a)) == row_set_s(grid_view(*old(a)), s as int, v, grid_dims(*old(a)).1 as int),
{
    let ncols = a.ncols();
    let nrows = a.nrows();
    let ghost g0 = grid_view(*a);
    let mut j: usize = 0;
    assert(grid_view(*a) =~~= row_set_s(g0, s as int, v, 0));
    while j < ncols
        invariant
            0 <= j <= ncols,
            s < nrows,
            nrows == grid_dims(*a).0,
            ncols == grid_dims(*a).1,
            grid_dims(*a) == grid_dims(*old(a)),
            g0 == grid_view(*old(a)),
            is_rect(g0, nrows as nat, ncols as nat),
            grid_view(*a) == row_set_s(g0, s as int, v, j as int),
        decreases ncols - j,
    {
        let mut x = a.get(s, j);
        x.s_qty = v;
        a.set(s, j, x);
        assert(grid_view(*a) =~~= row_set_s(g0, s as int, v, j + 1));
        j = j + 1;
    }
}

/// Set the demand left in column `d` to `v`.
fn set_col_demand(a: &mut Grid, d: usize, v: i32)
    requires
        d < grid_dims(*old(a)).1,
    ensures
        grid_dims(*final(a)) == grid_dims(*old(a)),
        grid_view(*final(a)) == col_set_d(grid_view(*old(a)), d as int, v, grid_dims(*old(a)).0 as int),
{
    let ncols = a.ncols();
    let nrows = a.nrows();
    let ghost g0 = grid_view(*a);
    let mut i: usize = 0;
    assert(grid_view(*a) =~~= col_set_d(g0, d as int, v, 0));
    while i < nrows
        invariant
            0 <= i <= nrows,
            d < ncols,
            nrows == grid_dims(*a).0,
            ncols == grid_dims(*a).1,
            grid_dims(*a) == grid_dims(*old(a)),
            g0 == grid_view(*old(a)),
            is_rect(g0, nrows as nat, ncols as nat),
            grid_view(*a) == col_set_d(g0, d as int, v, i as int),
        decreases nrows - i,
    {
        let mut x = a.get(i, d);
        x.d_qty = v;
        a.set(i, d, x);
        assert(grid_view(*a) =~~= col_set_d(g0, d as int, v, i + 1));
        i = i + 1;
    }
}

/// Assign as much as possible to cell `(s, d)` and take it from the supply
/// of row `s` and the demand of column `d`.
pub fn fill_cell(a: &mut Grid, s: usize, d: usize)
    requires
        fill_ok(grid_view(*old(a)), grid_dims(*old(a)).0, grid_dims(*old(a)).1, s as int, d as int),
    ensures
        grid_dims(*final(a)) == grid_dims(*old(a)),
        grid_view(*final(a)) == fill(grid_view(*old(a)), s as int, d as int),
{
    let nrows = a.nrows();
    let ncols = a.ncols();
    let ghost g0 = grid_view(*a);
    let c = a.get(s, d);
    let s_qty = c.s_qty;
    let d_qty = c.d_qty;
    if s_qty >= d_qty && d_qty != 0 {
        set_row_supply(a, s, s_qty - d_qty);
        set_col_demand(a, d, 0);
        let mut x = a.get(s, d);
        x.node_qty = d_qty;
        a.set(s, d, x);
        assert(grid_view(*a) =~~= fill(g0, s as int, d as int));
    } else if d_qty > s_qty && s_qty != 0 {
        set_row_supply(a, s, 0);
        set_col_demand(a, d, d_qty - s_qty);
        let mut x = a.get(s, d);
        x.node_qty = s_qty;
        a.set(s, d, x);
        assert(grid_view(*a) =~~= fill(g0, s as int, d as int));
    }
}

} // verus!

verus! {

/// Fill the cells named by `order`, one after the other.
pub open spec fn fill_all(g: Seq<Seq<Node>>, order: Seq<Node>) -> Seq<Seq<Node>>
    decreases order.len(),
{
    if order.len() == 0 {
        g
    } else {
        let x = order.last();
        fill(fill_all(g, order.drop_last()), x.s_node_id as int, x.d_node_id as int)
    }
}

/// Every fill of `fill_all(g, order)` is defined.
pub open spec fn fill_all_ok(g: Seq<Seq<Node>>, nrows: nat, ncols: nat, order: Seq<Node>) -> bool
    decreases order.len(),
{
    if order.len() == 0 {
        true
    } else {
        let x = order.last();
        fill_all_ok(g, nrows, ncols, order.drop_last()) && fill_ok(
            fill_all(g, order.drop_last()),
            nrows,
            ncols,
            x.s_node_id as int,
            x.d_node_id as int,
        )
    }
}

/// No supply and no demand is negative.
pub open spec fn nonneg_qty(g: Seq<Seq<Node>>) -> bool {
    forall|i: int, j: int|
        0 <= i < g.len() && 0 <= j < g[i].len() ==> (#[trigger] g[i][j]).s_qty >= 0 && g[i][j].d_qty
            >= 0
}

/// Every cell named by `order` lies in an `nrows` by `ncols` grid.
pub open spec fn cells_in_range(order: Seq<Node>, nrows: nat, ncols: nat) -> bool {
    forall|k: int|
        0 <= k < order.len() ==> (#[trigger] order[k]).s_node_id < nrows && order[k].d_node_id < ncols
}

/// Filling a cell changes quantities only: the shape, the ids and the costs stay.
pub proof fn lemma_fill_shape(g: Seq<Seq<Node>>, nrows: nat, ncols: nat, s: int, d: int)
    requires
        is_rect(g, nrows, ncols),
        0 <= s < nrows,
        0 <= d < ncols,
    ensures
        is_rect(fill(g, s, d), nrows, ncols),
        forall|i: int, j: int|
            0 <= i < nrows && 0 <= j < ncols ==> (#[trigger] fill(g, s, d)[i][j]).s_node_id
                == g[i][j].s_node_id && fill(g, s, d)[i][j].d_node_id == g[i][j].d_node_id
                && fill(g, s, d)[i][j].node_cost == g[i][j].node_cost,
{
}

/// Filling a cell of a grid without negative quantities is always defined
/// and leaves no negative quantity.
pub proof fn lemma_fill_nonneg(g: Seq<Seq<Node>>, nrows: nat, ncols: nat, s: int, d: int)
    requires
        is_rect(g, nrows, ncols),
        nonneg_qty(g),
        0 <= s < nrows,
        0 <= d < ncols,
    ensures
        fill_ok(g, nrows, ncols, s, d),
        nonneg_qty(fill(g, s, d)),
{
    assert(g[s][d].s_qty >= 0 && g[s][d].d_qty >= 0);
}

/// Filling, in any order, cells of a grid without negative quantities is
/// always defined and leaves no negative quantity.
pub proof fn lemma_fill_all_nonneg(g: Seq<Seq<Node>>, nrows: nat, ncols: nat, order: Seq<Node>)
    requires
        is_rect(g, nrows, ncols),
        nonneg_qty(g),
        cells_in_range(order, nrows, ncols),
    ensures
        fill_all_ok(g, nrows, ncols, order),
        nonneg_qty(fill_all(g, order)),
        is_rect(fill_all(g, order), nrows, ncols),
    decreases order.len(),
{
    if order.len() > 0 {
        let x = order.last();
        assert(order.drop_last().len() == order.len() - 1);
        assert(cells_in_range(order.drop_last(), nrows, ncols)) by {
            assert forall|k: int| 0 <= k < order.drop_last().len() implies (#[trigger] order.drop_last()[k]).s_node_id
                < nrows && order.drop_last()[k].d_node_id < ncols by {
                assert(order.drop_last()[k] == order[k]);
            }
        }
        lemma_fill_all_nonneg(g, nrows, ncols, order.drop_last());
        assert(order[order.len() - 1] == x);
        lemma_fill_nonneg(fill_all(g, order.drop_last()), nrows, ncols, x.s_node_id as int, x.d_node_id as int);
        lemma_fill_shape(fill_all(g, order.drop_last()), nrows, ncols, x.s_node_id as int, x.d_node_id as int);
    }
}

/// Fill the cells named by `order`, one after the other.
pub fn fill_in_order(a: &mut Grid, order: &Vec<Node>)
    requires
        fill_all_ok(grid_view(*old(a)), grid_dims(*old(a)).0, grid_dims(*old(a)).1, order@),
    ensures
        grid_dims(*final(a)) == grid_dims(*old(a)),
        grid_view(*final(a)) == fill_all(grid_view(*old(a)), order@),
{
    let ghost g0 = grid_view(*a);
    let ghost dims = grid_dims(*a);
    let mut k: usize = 0;
    assert(order@.take(0) =~= Seq::<Node>::empty());
    while k < order.len()
        invariant
            0 <= k <= order.len(),
            grid_dims(*a) == dims,
            dims == grid_dims(*old(a)),
            g0 == grid_view(*old(a)),
            fill_all_ok(g0, dims.0, dims.1, order@),
            grid_view(*a) == fill_all(g0, order@.take(k as int)),
        decreases order.len() - k,
    {
        let x = order[k];
        proof {
            lemma_fill_all_ok_prefix(g0, dims.0, dims.1, order@, k as int + 1);
            assert(order@.take(k as int + 1).drop_last() =~= order@.take(k as int));
            assert(order@.take(k as int + 1).last() == x);
        }
        fill_cell(a, x.s_node_id, x.d_node_id);
        k = k + 1;
    }
    assert(order@.take(order.len() as int) =~= order@);
}

/// Filling cell `(s, d)` is defined (see `fill_ok`).
pub fn fill_defined(a: &Grid, s: usize, d: usize) -> (r: bool)
    ensures
        r == fill_ok(grid_view(*a), grid_dims(*a).0, grid_dims(*a).1, s as int, d as int),
{
    let nrows = a.nrows();
    let ncols = a.ncols();
    if s >= nrows || d >= ncols {
        return false;
    }
    let c = a.get(s, d);
    let sq = c.s_qty as i64;
    let dq = c.d_qty as i64;
    if c.s_qty >= c.d_qty && c.d_qty != 0 && (sq - dq > 2147483647 || sq - dq < -2147483648) {
        return false;
    }
    if c.d_qty > c.s_qty && c.s_qty != 0 && (dq - sq > 2147483647 || dq - sq < -2147483648) {
        return false;
    }
    true
}

/// Fill the cells named by `order`, one after the other, each checked
/// first: `false` at the first whose fill is not defined, the cells before
/// it filled; `true` when all are filled.
pub fn try_fill_in_order(a: &mut Grid, order: &Vec<Node>) -> (r: bool)
    ensures
        grid_dims(*final(a)) == grid_dims(*old(a)),
        r == fill_all_ok(grid_view(*old(a)), grid_dims(*old(a)).0, grid_dims(*old(a)).1, order@),
        r ==> grid_view(*final(a)) == fill_all(grid_view(*old(a)), order@),
        !r ==> exists|k: int|
            0 <= k < order@.len() && fill_all_ok(
                grid_view(*old(a)),
                grid_dims(*old(a)).0,
                grid_dims(*old(a)).1,
                order@.take(k),
            ) && !fill_ok(
                fill_all(grid_view(*old(a)), order@.take(k)),
                grid_dims(*old(a)).0,
                grid_dims(*old(a)).1,
                order@[k].s_node_id as int,
                order@[k].d_node_id as int,
            ) && grid_view(*final(a)) == fill_all(grid_view(*old(a)), order@.take(k)),
{
    let ghost g0 = grid_view(*a);
    let ghost dims = grid_dims(*a);
    let mut k: usize = 0;
    assert(order@.take(0) =~= Seq::<Node>::empty());
    while k < order.len()
        invariant
            0 <= k <= order.len(),
            grid_dims(*a) == dims,
            dims == grid_dims(*old(a)),
            g0 == grid_view(*old(a)),
            fill_all_ok(g0, dims.0, dims.1, order@.take(k as int)),
            grid_view(*a) == fill_all(g0, order@.take(k as int)),
        decreases order.len() - k,
    {
        let x = order[k];
        proof {
            assert(order@.take(k as int + 1).drop_last() =~= order@.take(k as int));
            assert(order@.take(k as int + 1).last() == x);
        }
        if !fill_defined(a, x.s_node_id, x.d_node_id) {
            proof {
                if fill_all_ok(g0, dims.0, dims.1, order@) {
                    lemma_fill_all_ok_prefix(g0, dims.0, dims.1, order@, k as int + 1);
                }
                assert(order@[k as int] == x);
            }
            return false;
        }
        fill_cell(a, x.s_node_id, x.d_node_id);
        k = k + 1;
    }
    assert(order@.take(order.len() as int) =~= order@);
    true
}

/// What holds of a whole order holds of each of its prefixes.
pub proof fn lemma_fill_all_ok_prefix(g: Seq<Seq<Node>>, nrows: nat, ncols: nat, order: Seq<Node>, n: int)
    requires
        fill_all_ok(g, nrows, ncols, order),
        0 <= n <= order.len(),
    ensures
        fill_all_ok(g, nrows, ncols, order.take(n)),
    decreases order.len(),
{
    if n < order.len() {
        assert(order.drop_last().take(n) =~= order.take(n));
        lemma_fill_all_ok_prefix(g, nrows, ncols, order.drop_last(), n);
    } else {
        assert(order.take(n) =~= order);
    }
}

} // verus!
