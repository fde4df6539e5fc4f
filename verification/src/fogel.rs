use vstd::prelude::*;
use crate::assign::{demand_fits, fill, fill_all, fill_cell, fill_ok, lemma_fill_nonneg, lemma_fill_shape, nonneg_qty, supply_fits};
use crate::dpreference::ids_in_range;
use crate::grid::{Grid, column_of, grid_dims, grid_view, ids_match, is_rect};
use crate::node::Node;
use crate::conservation::{conserves, lemma_fill_all_conserves, lemma_fill_ships_min, lemma_fill_step_conserves, min_qty, unassigned};
use crate::feasibility::{all_shipped, balanced, lemma_left_difference, lemma_sum_nonneg_at_least, lemma_sum_zero};
use crate::totals::{demand_terms, supply_terms};
use crate::sorting::{
    Keyed, first_min, is_first_min, is_runner_up_key, last_max, is_last_max, lemma_last_max_unique, lemma_stable_sorted_back,
    lemma_stable_sorted_front, par_sort_stable, runner_up_key,
};

verus! {

/// What Vogel's approximation has done so far: the grid, the rows whose
/// supply and the columns whose demand ran out, and the cells already taken.
pub struct VogelState {
    pub grid: Seq<Seq<Node>>,
    pub rows_done: Seq<usize>,
    pub cols_done: Seq<usize>,
    pub used: Seq<(usize, usize)>,
}

/// The cell `x` has been taken.
pub open spec fn is_used(used: Seq<(usize, usize)>, x: Node) -> bool {
    used.contains((x.s_node_id, x.d_node_id))
}

/// The cells of `line` not yet taken, in their order.
pub open spec fn available(used: Seq<(usize, usize)>, line: Seq<Node>) -> Seq<Node>
    decreases line.len(),
{
    if line.len() == 0 {
        Seq::empty()
    } else {
        let rest = available(used, line.drop_last());
        if is_used(used, line.last()) {
            rest
        } else {
            rest.push(line.last())
        }
    }
}

/// The penalty of a row or column: the two cheapest costs apart, or the
/// only cost when one cell is left.
pub open spec fn penalty(avail: Seq<Node>) -> int {
    if avail.len() > 1 {
        runner_up_key(avail) - avail[first_min(avail)].node_cost
    } else {
        avail[0].node_cost as int
    }
}

/// The entry of row `r`: its penalty and the supply node of its first
/// cheapest cell left, unless the supply node of its first cell is done or
/// the row has no cell left.
pub open spec fn row_entry(st: VogelState, r: int) -> Seq<(i32, i32)> {
    let av = available(st.used, st.grid[r]);
    if st.rows_done.contains(st.grid[r][0].s_node_id) || av.len() == 0 {
        Seq::empty()
    } else {
        seq![(penalty(av) as i32, cheapest(av).s_node_id as i32)]
    }
}

/// The entry of column `c`: its penalty and the demand node of its first
/// cheapest cell left, unless the demand node of its first cell is done or
/// the column has no cell left.
pub open spec fn col_entry(st: VogelState, c: int) -> Seq<(i32, i32)> {
    let av = available(st.used, column_of(st.grid, c));
    if st.cols_done.contains(st.grid[0][c].d_node_id) || av.len() == 0 {
        Seq::empty()
    } else {
        seq![(penalty(av) as i32, cheapest(av).d_node_id as i32)]
    }
}

/// The penalties of the rows before `k`, in row order.
pub open spec fn row_penalties(st: VogelState, k: int) -> Seq<(i32, i32)>
    decreases k,
{
    if k <= 0 {
        Seq::empty()
    } else {
        row_penalties(st, k - 1) + row_entry(st, k - 1)
    }
}

/// The penalties of the columns before `k`, in column order.
pub open spec fn col_penalties(st: VogelState, k: int) -> Seq<(i32, i32)>
    decreases k,
{
    if k <= 0 {
        Seq::empty()
    } else {
        col_penalties(st, k - 1) + col_entry(st, k - 1)
    }
}

/// The last of the largest penalties, or `(-1, -1)` when there is none.
pub open spec fn top_penalty(pens: Seq<(i32, i32)>) -> (i32, i32) {
    if pens.len() > 0 {
        pens[last_max(pens)]
    } else {
        (-1i32, -1i32)
    }
}

/// The first of the cheapest cells.
pub open spec fn cheapest(avail: Seq<Node>) -> Node {
    avail[first_min(avail)]
}

/// The cell Vogel's approximation takes next, if any: the cheapest cell of
/// the row or column with the largest penalty, rows winning ties.
pub open spec fn pick(st: VogelState, nrows: nat, ncols: nat) -> Option<(int, int)> {
    let rmax = top_penalty(row_penalties(st, nrows as int));
    let cmax = top_penalty(col_penalties(st, ncols as int));
    if rmax.0 == -1 && cmax.0 == -1 {
        None
    } else if rmax.0 != -1 && rmax.0 >= cmax.0 {
        let s = rmax.1 as int;
        Some((s, cheapest(available(st.used, st.grid[s])).d_node_id as int))
    } else if cmax.0 != -1 && cmax.0 > rmax.0 {
        let d = cmax.1 as int;
        Some((cheapest(available(st.used, column_of(st.grid, d))).s_node_id as int, d))
    } else {
        Some((0, 0))
    }
}

/// The supply left in the rows before `k`, read in their first cell.
pub open spec fn supply_left(g: Seq<Seq<Node>>, k: int) -> int
    decreases k,
{
    if k <= 0 {
        0
    } else {
        supply_left(g, k - 1) + g[k - 1][0].s_qty
    }
}

/// The demand left in the columns before `k`, read in their first cell.
pub open spec fn demand_left(g: Seq<Seq<Node>>, k: int) -> int
    decreases k,
{
    if k <= 0 {
        0
    } else {
        demand_left(g, k - 1) + g[0][k - 1].d_qty
    }
}

/// One round of Vogel's approximation: take the picked cell and fill it;
/// the flag tells that the method stops here.
pub open spec fn vogel_step(st: VogelState, nrows: nat, ncols: nat) -> (VogelState, bool) {
    match pick(st, nrows, ncols) {
        None => (st, true),
        Some((s, d)) => {
            let sq = st.grid[s][d].s_qty;
            let dq = st.grid[s][d].d_qty;
            let g2 = fill(st.grid, s, d);
            (
                VogelState {
                    grid: g2,
                    rows_done: if supply_fits(sq, dq) { st.rows_done.push(s as usize) } else { st.rows_done },
                    cols_done: if demand_fits(sq, dq) { st.cols_done.push(d as usize) } else { st.cols_done },
                    used: st.used.push((s as usize, d as usize)),
                },
                supply_left(g2, nrows as int) == 0 && demand_left(g2, ncols as int) == 0,
            )
        },
    }
}

/// At most `fuel` rounds of Vogel's approximation.
pub open spec fn vogel_run(st: VogelState, nrows: nat, ncols: nat, fuel: nat) -> VogelState
    decreases fuel,
{
    if fuel == 0 {
        st
    } else {
        let (st2, stop) = vogel_step(st, nrows, ncols);
        if stop {
            st2
        } else {
            vogel_run(st2, nrows, ncols, (fuel - 1) as nat)
        }
    }
}

/// The state before the first round: nothing done, nothing taken.
pub open spec fn vogel_start(g: Seq<Seq<Node>>) -> VogelState {
    VogelState { grid: g, rows_done: Seq::empty(), cols_done: Seq::empty(), used: Seq::empty() }
}

/// Every partial sum of the supply left (row by row) and of the demand left
/// (column by column) fits in an `i32`.
pub open spec fn sums_fit(g: Seq<Seq<Node>>, nrows: nat, ncols: nat) -> bool {
    &&& forall|k: int| 0 <= k <= nrows ==> i32::MIN <= #[trigger] supply_left(g, k) <= i32::MAX
    &&& forall|k: int| 0 <= k <= ncols ==> i32::MIN <= #[trigger] demand_left(g, k) <= i32::MAX
}

/// The round from `st` is defined: the row or column with the largest
/// penalty still has a cell left, the cell picked lies in the grid, its fill
/// stays within `i32`, and so do the totals read after it.
pub open spec fn step_ok(st: VogelState, nrows: nat, ncols: nat) -> bool {
    let rmax = top_penalty(row_penalties(st, nrows as int));
    let cmax = top_penalty(col_penalties(st, ncols as int));
    match pick(st, nrows, ncols) {
        None => true,
        Some((s, d)) => {
            &&& (rmax.0 != -1 && rmax.0 >= cmax.0) ==> 0 <= s < nrows && available(st.used, st.grid[s]).len() > 0
            &&& (!(rmax.0 != -1 && rmax.0 >= cmax.0) && cmax.0 != -1 && cmax.0 > rmax.0) ==> 0 <= d < ncols
                && available(st.used, column_of(st.grid, d)).len() > 0
            &&& fill_ok(st.grid, nrows, ncols, s, d)
            &&& sums_fit(fill(st.grid, s, d), nrows, ncols)
        },
    }
}

/// Every round from `st` is defined and the rounds stop within `fuel`.
pub open spec fn run_ok(st: VogelState, nrows: nat, ncols: nat, fuel: nat) -> bool
    decreases fuel,
{
    if fuel == 0 {
        false
    } else {
        step_ok(st, nrows, ncols) && {
            let (st2, stop) = vogel_step(st, nrows, ncols);
            stop || run_ok(st2, nrows, ncols, (fuel - 1) as nat)
        }
    }
}

/// Vogel's approximation on `g` stops, and every round of it is defined.
pub open spec fn vogel_ends(g: Seq<Seq<Node>>, nrows: nat, ncols: nat) -> bool {
    exists|fuel: nat| run_ok(vogel_start(g), nrows, ncols, fuel)
}

/// The grid Vogel's approximation leaves where it stops.
pub open spec fn vogel(g: Seq<Seq<Node>>, nrows: nat, ncols: nat) -> Seq<Seq<Node>> {
    vogel_run(vogel_start(g), nrows, ncols, choose|fuel: nat| run_ok(vogel_start(g), nrows, ncols, fuel)).grid
}

// ---------------------------------------------------------------------------
// Facts about the cells left.
// ---------------------------------------------------------------------------

/// What is left of a line is no longer than the line, and holds cells of
/// the line that are not taken.
pub proof fn lemma_available_elems(used: Seq<(usize, usize)>, line: Seq<Node>)
    ensures
        available(used, line).len() <= line.len(),
        forall|k: int|
            0 <= k < available(used, line).len() ==> line.contains(#[trigger] available(used, line)[k])
                && !is_used(used, available(used, line)[k]),
    decreases line.len(),
{
    if line.len() > 0 {
        lemma_available_elems(used, line.drop_last());
        let rest = available(used, line.drop_last());
        assert forall|k: int| 0 <= k < rest.len() implies line.contains(#[trigger] rest[k]) by {
            let t = choose|t: int| 0 <= t < line.drop_last().len() && line.drop_last()[t] == rest[k];
            assert(line[t] == rest[k]);
        }
        assert(line[line.len() - 1] == line.last());
    }
}

/// The ids of a cell: its row and its column.
pub open spec fn ids(x: Node) -> (usize, usize) {
    (x.s_node_id, x.d_node_id)
}

/// Taking one more cell never lengthens what is left of a line; it shortens
/// it when the line holds that cell untaken, and leaves it when the line
/// does not hold it.
pub proof fn lemma_available_push(used: Seq<(usize, usize)>, line: Seq<Node>, y: (usize, usize))
    ensures
        available(used.push(y), line).len() <= available(used, line).len(),
        (exists|k: int| 0 <= k < line.len() && ids(#[trigger] line[k]) == y && !is_used(used, line[k]))
            ==> available(used.push(y), line).len() < available(used, line).len(),
        (forall|k: int| 0 <= k < line.len() ==> ids(#[trigger] line[k]) != y)
            ==> available(used.push(y), line).len() == available(used, line).len(),
    decreases line.len(),
{
    if line.len() > 0 {
        let init = line.drop_last();
        lemma_available_push(used, init, y);
        let x = line.last();
        assert(used.push(y).contains(ids(x)) <==> used.contains(ids(x)) || ids(x) == y) by {
            if used.push(y).contains(ids(x)) {
                let t = choose|t: int| 0 <= t < used.push(y).len() && used.push(y)[t] == ids(x);
                if t < used.len() {
                    assert(used[t] == ids(x));
                }
            }
            if used.contains(ids(x)) {
                let t = choose|t: int| 0 <= t < used.len() && used[t] == ids(x);
                assert(used.push(y)[t] == ids(x));
            }
            if ids(x) == y {
                assert(used.push(y)[used.len() as int] == y);
            }
        }
        if exists|k: int| 0 <= k < line.len() && ids(#[trigger] line[k]) == y && !is_used(used, line[k]) {
            let k = choose|k: int| 0 <= k < line.len() && ids(#[trigger] line[k]) == y && !is_used(used, line[k]);
            if k < init.len() {
                assert(init[k] == line[k]);
            } else {
                assert(line[k] == x);
            }
        }
        if forall|k: int| 0 <= k < line.len() ==> ids(#[trigger] line[k]) != y {
            assert forall|k: int| 0 <= k < init.len() implies ids(#[trigger] init[k]) != y by {
                assert(init[k] == line[k]);
            }
            assert(line[line.len() - 1] == x);
        }
    }
}

/// What is left of a line depends on the ids of its cells only.
pub proof fn lemma_available_same_ids(used: Seq<(usize, usize)>, l1: Seq<Node>, l2: Seq<Node>)
    requires
        l1.len() == l2.len(),
        forall|k: int| 0 <= k < l1.len() ==> ids(#[trigger] l1[k]) == ids(l2[k]),
    ensures
        available(used, l1).len() == available(used, l2).len(),
    decreases l1.len(),
{
    if l1.len() > 0 {
        let i1 = l1.drop_last();
        let i2 = l2.drop_last();
        assert forall|k: int| 0 <= k < i1.len() implies ids(#[trigger] i1[k]) == ids(i2[k]) by {
            assert(i1[k] == l1[k]);
            assert(i2[k] == l2[k]);
        }
        lemma_available_same_ids(used, i1, i2);
        assert(ids(l1[l1.len() - 1]) == ids(l2[l2.len() - 1]));
    }
}

/// The number of cells left in the rows before `k`.
pub open spec fn avail_count(st: VogelState, k: int) -> int
    decreases k,
{
    if k <= 0 {
        0
    } else {
        avail_count(st, k - 1) + available(st.used, st.grid[k - 1]).len()
    }
}

proof fn lemma_avail_count_decreases(st: VogelState, st2: VogelState, k: int, s: int)
    requires
        forall|r: int| 0 <= r < k ==> available(st2.used, #[trigger] st2.grid[r]).len() <= available(
            st.used,
            st.grid[r],
        ).len(),
        0 <= s < k ==> available(st2.used, st2.grid[s]).len() < available(st.used, st.grid[s]).len(),
    ensures
        avail_count(st2, k) <= avail_count(st, k),
        0 <= s < k ==> avail_count(st2, k) < avail_count(st, k),
    decreases k,
{
    if k > 0 {
        lemma_avail_count_decreases(st, st2, k - 1, s);
        assert(available(st2.used, st2.grid[k - 1]).len() <= available(st.used, st.grid[k - 1]).len());
    }
}

proof fn lemma_avail_count_bound(st: VogelState, k: int, ncols: nat)
    requires
        0 <= k <= st.grid.len(),
        forall|r: int| 0 <= r < st.grid.len() ==> (#[trigger] st.grid[r]).len() == ncols,
    ensures
        0 <= avail_count(st, k) <= k * ncols,
    decreases k,
{
    if k > 0 {
        lemma_avail_count_bound(st, k - 1, ncols);
        lemma_available_elems(st.used, st.grid[k - 1]);
        assert(k * ncols == (k - 1) * ncols + ncols) by (nonlinear_arith);
    }
}

/// No cell costs less than nothing.
pub open spec fn costs_nonneg(g: Seq<Seq<Node>>) -> bool {
    forall|i: int, j: int| 0 <= i < g.len() && 0 <= j < g[i].len() ==> (#[trigger] g[i][j]).node_cost >= 0
}

/// The cells of a row agree on the supply left, the cells of a column on
/// the demand left.
pub open spec fn consistent(g: Seq<Seq<Node>>) -> bool {
    &&& forall|i: int, j: int, j2: int|
        0 <= i < g.len() && 0 <= j < g[i].len() && 0 <= j2 < g[i].len() ==> (#[trigger] g[i][j]).s_qty
            == (#[trigger] g[i][j2]).s_qty
    &&& forall|i: int, i2: int, j: int|
        0 <= i < g.len() && 0 <= i2 < g.len() && 0 <= j < g[i].len() && j < g[i2].len() ==> (
        #[trigger] g[i][j]).d_qty == (#[trigger] g[i2][j]).d_qty
}

/// What every round of Vogel's approximation keeps.
pub open spec fn vogel_inv(g: Seq<Seq<Node>>, nrows: nat, ncols: nat) -> bool {
    &&& is_rect(g, nrows, ncols)
    &&& ids_match(g)
    &&& nonneg_qty(g)
    &&& costs_nonneg(g)
    &&& consistent(g)
    &&& supply_left(g, nrows as int) <= i32::MAX
    &&& demand_left(g, ncols as int) <= i32::MAX
    &&& (nrows == 0) == (ncols == 0)
    &&& nrows <= i32::MAX
    &&& ncols <= i32::MAX
}

/// What every round of Vogel's approximation needs of the grid: every cell
/// names a cell of the grid, no cost is negative, rows exist exactly when
/// columns do, and the ids fit in an `i32`.
pub open spec fn vogel_grid_ok(g: Seq<Seq<Node>>, nrows: nat, ncols: nat) -> bool {
    &&& is_rect(g, nrows, ncols)
    &&& ids_in_range(g, nrows, ncols)
    &&& costs_nonneg(g)
    &&& (nrows == 0) == (ncols == 0)
    &&& nrows <= i32::MAX
    &&& ncols <= i32::MAX
}

/// A grid kept by the rounds is fit for them.
proof fn lemma_inv_grid_ok(g: Seq<Seq<Node>>, nrows: nat, ncols: nat)
    requires
        vogel_inv(g, nrows, ncols),
    ensures
        vogel_grid_ok(g, nrows, ncols),
{
    assert forall|i: int, j: int| 0 <= i < nrows && 0 <= j < ncols implies (#[trigger] g[i][j]).s_node_id < nrows
        && g[i][j].d_node_id < ncols by {
        assert(g[i][j].s_node_id == i && g[i][j].d_node_id == j);
    }
}

/// Filling a cell keeps the grid fit for the rounds.
proof fn lemma_fill_keeps_grid_ok(g: Seq<Seq<Node>>, nrows: nat, ncols: nat, s: int, d: int)
    requires
        vogel_grid_ok(g, nrows, ncols),
        0 <= s < nrows,
        0 <= d < ncols,
    ensures
        vogel_grid_ok(fill(g, s, d), nrows, ncols),
{
    lemma_fill_shape(g, nrows, ncols, s, d);
    let h = fill(g, s, d);
    assert forall|i: int, j: int| 0 <= i < nrows && 0 <= j < ncols implies (#[trigger] h[i][j]).s_node_id < nrows
        && h[i][j].d_node_id < ncols by {
        assert(g[i][j].s_node_id < nrows && g[i][j].d_node_id < ncols);
    }
    assert forall|i: int, j: int| 0 <= i < h.len() && 0 <= j < h[i].len() implies (#[trigger] h[i][j]).node_cost >= 0 by {
        assert(g[i][j].node_cost >= 0);
    }
}

proof fn lemma_supply_monotone(g: Seq<Seq<Node>>, g2: Seq<Seq<Node>>, k: int)
    requires
        forall|r: int| 0 <= r < k ==> (#[trigger] g2[r])[0].s_qty <= g[r][0].s_qty,
        forall|r: int| 0 <= r < k ==> (#[trigger] g2[r])[0].s_qty >= 0,
    ensures
        0 <= supply_left(g2, k) <= supply_left(g, k),
    decreases k,
{
    if k > 0 {
        lemma_supply_monotone(g, g2, k - 1);
        assert(g2[k - 1][0].s_qty <= g[k - 1][0].s_qty);
    }
}

proof fn lemma_demand_monotone(g: Seq<Seq<Node>>, g2: Seq<Seq<Node>>, k: int)
    requires
        forall|c: int| 0 <= c < k ==> (#[trigger] g2[0][c]).d_qty <= g[0][c].d_qty,
        forall|c: int| 0 <= c < k ==> (#[trigger] g2[0][c]).d_qty >= 0,
    ensures
        0 <= demand_left(g2, k) <= demand_left(g, k),
    decreases k,
{
    if k > 0 {
        lemma_demand_monotone(g, g2, k - 1);
        assert(g2[0][k - 1].d_qty <= g[0][k - 1].d_qty);
    }
}

/// The partial sums of the supply left grow with the number of rows summed.
proof fn lemma_supply_prefix(g: Seq<Seq<Node>>, k: int, n: int)
    requires
        0 <= k <= n,
        forall|r: int| 0 <= r < n ==> (#[trigger] g[r])[0].s_qty >= 0,
    ensures
        0 <= supply_left(g, k) <= supply_left(g, n),
    decreases n,
{
    if k < n {
        lemma_supply_prefix(g, k, n - 1);
        assert(g[n - 1][0].s_qty >= 0);
    } else if n > 0 {
        lemma_supply_prefix(g, k - 1, n - 1);
        assert(g[n - 1][0].s_qty >= 0);
    }
}

proof fn lemma_demand_prefix(g: Seq<Seq<Node>>, k: int, n: int)
    requires
        0 <= k <= n,
        forall|c: int| 0 <= c < n ==> (#[trigger] g[0][c]).d_qty >= 0,
    ensures
        0 <= demand_left(g, k) <= demand_left(g, n),
    decreases n,
{
    if k < n {
        lemma_demand_prefix(g, k, n - 1);
        assert(g[0][n - 1].d_qty >= 0);
    } else if n > 0 {
        lemma_demand_prefix(g, k - 1, n - 1);
        assert(g[0][n - 1].d_qty >= 0);
    }
}

/// Filling a cell keeps every fact of `vogel_inv`: rows and columns stay in
/// agreement, and no supply or demand grows.
pub proof fn lemma_fill_keeps_inv(g: Seq<Seq<Node>>, nrows: nat, ncols: nat, s: int, d: int)
    requires
        vogel_inv(g, nrows, ncols),
        0 <= s < nrows,
        0 <= d < ncols,
    ensures
        vogel_inv(fill(g, s, d), nrows, ncols),
        fill_ok(g, nrows, ncols, s, d),
{
    lemma_fill_shape(g, nrows, ncols, s, d);
    lemma_fill_nonneg(g, nrows, ncols, s, d);
    let g2 = fill(g, s, d);
    let sq = g[s][d].s_qty;
    let dq = g[s][d].d_qty;
    assert(ids_match(g2));
    assert(costs_nonneg(g2));
    assert(consistent(g2)) by {
        assert forall|i: int, j: int, j2: int|
            0 <= i < g2.len() && 0 <= j < g2[i].len() && 0 <= j2 < g2[i].len() implies (#[trigger] g2[i][j]).s_qty
                == (#[trigger] g2[i][j2]).s_qty by {
            assert(g[i][j].s_qty == g[i][j2].s_qty);
        }
        assert forall|i: int, i2: int, j: int|
            0 <= i < g2.len() && 0 <= i2 < g2.len() && 0 <= j < g2[i].len() && j < g2[i2].len() implies (
            #[trigger] g2[i][j]).d_qty == (#[trigger] g2[i2][j]).d_qty by {
            assert(g[i][j].d_qty == g[i2][j].d_qty);
        }
    }
    if nrows > 0 {
        assert forall|r: int| 0 <= r < nrows implies (#[trigger] g2[r])[0].s_qty <= g[r][0].s_qty by {
            assert(g[r][0].s_qty == g[r][d].s_qty);
            assert(g2[r][0].s_qty >= 0);
        }
        assert forall|r: int| 0 <= r < nrows implies (#[trigger] g2[r])[0].s_qty >= 0 by {
            assert(g2[r][0].s_qty >= 0);
        }
        lemma_supply_monotone(g, g2, nrows as int);
        assert forall|c: int| 0 <= c < ncols implies (#[trigger] g2[0][c]).d_qty <= g[0][c].d_qty by {
            assert(g[0][c].d_qty == g[s][c].d_qty);
            assert(g2[0][c].d_qty >= 0);
        }
        assert forall|c: int| 0 <= c < ncols implies (#[trigger] g2[0][c]).d_qty >= 0 by {
            assert(g2[0][c].d_qty >= 0);
        }
        lemma_demand_monotone(g, g2, ncols as int);
    }
}

/// Filling and taking a cell that was not taken leaves fewer cells to take.
pub proof fn lemma_take_decreases(st: VogelState, nrows: nat, ncols: nat, s: int, d: int, rd2: Seq<usize>, cd2: Seq<usize>)
    requires
        vogel_inv(st.grid, nrows, ncols),
        0 <= s < nrows,
        0 <= d < ncols,
        !st.used.contains((s as usize, d as usize)),
    ensures
        ({
            let st2 = VogelState {
                grid: fill(st.grid, s, d),
                rows_done: rd2,
                cols_done: cd2,
                used: st.used.push((s as usize, d as usize)),
            };
            avail_count(st2, nrows as int) < avail_count(st, nrows as int)
        }),
{
    let g = st.grid;
    let g2 = fill(g, s, d);
    let y = (s as usize, d as usize);
    let st2 = VogelState { grid: g2, rows_done: rd2, cols_done: cd2, used: st.used.push(y) };
    lemma_fill_shape(g, nrows, ncols, s, d);
    assert forall|r: int| 0 <= r < nrows implies available(st2.used, #[trigger] st2.grid[r]).len() <= available(
        st.used,
        st.grid[r],
    ).len() && (r == s ==> available(st2.used, st2.grid[r]).len() < available(st.used, st.grid[r]).len()) by {
        assert forall|k: int| 0 <= k < g[r].len() implies ids(#[trigger] g2[r][k]) == ids(g[r][k]) by {
        }
        lemma_available_same_ids(st2.used, g2[r], g[r]);
        lemma_available_push(st.used, g[r], y);
        if r == s {
            assert(ids(g[r][d]) == y);
            assert(!is_used(st.used, g[r][d]));
        }
    }
    lemma_avail_count_decreases(st, st2, nrows as int, s);
}

// ---------------------------------------------------------------------------
// Where a run stops.
// ---------------------------------------------------------------------------

/// The books of a run: the rows marked done have no supply left, the
/// columns marked done no demand, and at every cell taken the row's supply
/// or the column's demand is used up.
pub open spec fn vogel_books(st: VogelState, nrows: nat, ncols: nat) -> bool {
    &&& forall|r: usize| (r as int) < nrows && #[trigger] st.rows_done.contains(r) ==> st.grid[r as int][0].s_qty == 0
    &&& forall|c: usize| (c as int) < ncols && #[trigger] st.cols_done.contains(c) ==> st.grid[0][c as int].d_qty == 0
    &&& forall|t: int|
        0 <= t < st.used.len() ==> (#[trigger] st.used[t]).0 < nrows && st.used[t].1 < ncols && (st.grid[st.used[t].0 as int][st.used[t].1 as int].s_qty
            == 0 || st.grid[st.used[t].0 as int][st.used[t].1 as int].d_qty == 0)
}

/// A run stops here: no supply and no demand is left, or no row and no
/// column has a penalty.
pub open spec fn vogel_stopped(st: VogelState, nrows: nat, ncols: nat) -> bool {
    ||| supply_left(st.grid, nrows as int) == 0 && demand_left(st.grid, ncols as int) == 0
    ||| row_penalties(st, nrows as int).len() == 0 && col_penalties(st, ncols as int).len() == 0
}

/// Taking cell `(s, d)` keeps the books.
proof fn lemma_take_keeps_books(st: VogelState, nrows: nat, ncols: nat, s: int, d: int, rd2: Seq<usize>, cd2: Seq<usize>)
    requires
        is_rect(st.grid, nrows, ncols),
        consistent(st.grid),
        nonneg_qty(st.grid),
        nrows <= usize::MAX,
        ncols <= usize::MAX,
        vogel_books(st, nrows, ncols),
        0 <= s < nrows,
        0 <= d < ncols,
        rd2 == (if supply_fits(st.grid[s][d].s_qty, st.grid[s][d].d_qty) { st.rows_done.push(s as usize) } else { st.rows_done }),
        cd2 == (if demand_fits(st.grid[s][d].s_qty, st.grid[s][d].d_qty) { st.cols_done.push(d as usize) } else { st.cols_done }),
    ensures
        vogel_books(
            VogelState { grid: fill(st.grid, s, d), rows_done: rd2, cols_done: cd2, used: st.used.push((s as usize, d as usize)) },
            nrows,
            ncols,
        ),
{
    let g = st.grid;
    lemma_fill_ships_min(g, nrows, ncols, s, d);
    let h = fill(g, s, d);
    let q = min_qty(g[s][d].s_qty as int, g[s][d].d_qty as int);
    let used2 = st.used.push((s as usize, d as usize));
    assert(g[s][0].s_qty == g[s][d].s_qty);
    assert(g[0][d].d_qty == g[s][d].d_qty);
    assert forall|r: usize| (r as int) < nrows && #[trigger] rd2.contains(r) implies h[r as int][0].s_qty == 0 by {
        assert(h[r as int][0].s_qty >= 0);
        if st.rows_done.contains(r) {
            if r as int == s {
                assert(h[s][0].s_qty == g[s][0].s_qty - q);
            }
        } else {
            let k = choose|k: int| 0 <= k < rd2.len() && rd2[k] == r;
            assert(k == st.rows_done.len());
            assert(r as int == s);
            assert(h[s][0].s_qty == g[s][0].s_qty - q);
        }
    }
    assert forall|c: usize| (c as int) < ncols && #[trigger] cd2.contains(c) implies h[0][c as int].d_qty == 0 by {
        assert(h[0][c as int].d_qty >= 0);
        if st.cols_done.contains(c) {
            if c as int == d {
                assert(h[0][d].d_qty == g[0][d].d_qty - q);
            }
        } else {
            let k = choose|k: int| 0 <= k < cd2.len() && cd2[k] == c;
            assert(k == st.cols_done.len());
            assert(c as int == d);
            assert(h[0][d].d_qty == g[0][d].d_qty - q);
        }
    }
    assert forall|t: int| 0 <= t < used2.len() implies (#[trigger] used2[t]).0 < nrows && used2[t].1 < ncols && (h[used2[t].0 as int][used2[t].1 as int].s_qty
        == 0 || h[used2[t].0 as int][used2[t].1 as int].d_qty == 0) by {
        if t < st.used.len() {
            assert(used2[t] == st.used[t]);
            let i = st.used[t].0 as int;
            let j = st.used[t].1 as int;
            assert(g[i][j].s_qty == 0 || g[i][j].d_qty == 0);
            assert(h[i][j].s_qty >= 0 && h[i][j].d_qty >= 0);
            if g[i][j].s_qty == 0 {
                if i == s {
                    assert(h[s][j].s_qty == g[s][j].s_qty - q);
                }
            } else {
                if j == d {
                    assert(h[i][d].d_qty == g[i][d].d_qty - q);
                }
            }
        } else {
            assert(used2[t] == (s as usize, d as usize));
            assert(h[s][d].s_qty == g[s][d].s_qty - q);
            assert(h[s][d].d_qty == g[s][d].d_qty - q);
        }
    }
}

proof fn lemma_available_none(used: Seq<(usize, usize)>, line: Seq<Node>)
    requires
        available(used, line).len() == 0,
    ensures
        forall|k: int| 0 <= k < line.len() ==> is_used(used, #[trigger] line[k]),
    decreases line.len(),
{
    if line.len() > 0 {
        lemma_available_elems(used, line.drop_last());
        let rest = available(used, line.drop_last());
        assert(is_used(used, line.last()));
        assert(rest.len() == 0);
        lemma_available_none(used, line.drop_last());
        assert forall|k: int| 0 <= k < line.len() implies is_used(used, #[trigger] line[k]) by {
            if k < line.len() - 1 {
                assert(line.drop_last()[k] == line[k]);
            }
        }
    }
}

proof fn lemma_row_penalties_none(st: VogelState, k: int)
    requires
        row_penalties(st, k).len() == 0,
    ensures
        forall|r: int| 0 <= r < k ==> (#[trigger] row_entry(st, r)).len() == 0,
    decreases k,
{
    if k > 0 {
        lemma_row_penalties_none(st, k - 1);
    }
}

proof fn lemma_col_penalties_none(st: VogelState, k: int)
    requires
        col_penalties(st, k).len() == 0,
    ensures
        forall|c: int| 0 <= c < k ==> (#[trigger] col_entry(st, c)).len() == 0,
    decreases k,
{
    if k > 0 {
        lemma_col_penalties_none(st, k - 1);
    }
}

proof fn lemma_supply_none(g: Seq<Seq<Node>>, k: int)
    requires
        supply_left(g, k) == 0,
        forall|r: int| 0 <= r < k ==> (#[trigger] g[r])[0].s_qty >= 0,
    ensures
        forall|r: int| 0 <= r < k ==> (#[trigger] g[r])[0].s_qty == 0,
    decreases k,
{
    if k > 0 {
        lemma_supply_prefix(g, k - 1, k - 1);
        assert(g[k - 1][0].s_qty >= 0);
        lemma_supply_none(g, k - 1);
    }
}

proof fn lemma_demand_none(g: Seq<Seq<Node>>, k: int)
    requires
        demand_left(g, k) == 0,
        forall|c: int| 0 <= c < k ==> (#[trigger] g[0][c]).d_qty >= 0,
    ensures
        forall|c: int| 0 <= c < k ==> (#[trigger] g[0][c]).d_qty == 0,
    decreases k,
{
    if k > 0 {
        lemma_demand_prefix(g, k - 1, k - 1);
        assert(g[0][k - 1].d_qty >= 0);
        lemma_demand_none(g, k - 1);
    }
}

/// Where a run of Vogel's approximation stops on a balanced grid, with
/// supply and demand conserved and the books kept, everything is shipped.
proof fn lemma_vogel_stop_ships(g0: Seq<Seq<Node>>, st: VogelState, nrows: nat, ncols: nat)
    requires
        is_rect(g0, nrows, ncols),
        is_rect(st.grid, nrows, ncols),
        ids_match(st.grid),
        consistent(st.grid),
        nonneg_qty(st.grid),
        (nrows == 0) == (ncols == 0),
        vogel_books(st, nrows, ncols),
        conserves(g0, st.grid, nrows, ncols),
        balanced(g0, ncols),
        vogel_stopped(st, nrows, ncols),
    ensures
        all_shipped(st.grid, nrows, ncols),
{
    let h = st.grid;
    if nrows > 0 {
        assert forall|r: int| 0 <= r < nrows implies (#[trigger] h[r])[0].s_qty >= 0 by {
            assert(h[r][0].s_qty >= 0);
        }
        assert forall|c: int| 0 <= c < ncols implies (#[trigger] h[0][c]).d_qty >= 0 by {
            assert(h[0][c].d_qty >= 0);
        }
        if supply_left(h, nrows as int) == 0 && demand_left(h, ncols as int) == 0 {
            lemma_supply_none(h, nrows as int);
            lemma_demand_none(h, ncols as int);
            assert forall|i: int, j: int| 0 <= i < nrows && 0 <= j < ncols implies (#[trigger] h[i][j]).s_qty == 0
                && h[i][j].d_qty == 0 by {
                assert(h[i][j].s_qty == h[i][0].s_qty);
                assert(h[i][j].d_qty == h[0][j].d_qty);
            }
        } else {
            lemma_row_penalties_none(st, nrows as int);
            lemma_col_penalties_none(st, ncols as int);
            lemma_left_difference(g0, h, nrows, ncols);
            let sts = supply_terms(h);
            let dts = demand_terms(h, ncols);
            assert forall|t: int| 0 <= t < sts.len() implies #[trigger] sts[t] >= 0 by {
                assert(h[t][0].s_qty >= 0);
            }
            assert forall|t: int| 0 <= t < dts.len() implies #[trigger] dts[t] >= 0 by {
                assert(h[0][t].d_qty >= 0);
            }
            assert forall|i: int, j: int| 0 <= i < nrows && 0 <= j < ncols implies (#[trigger] h[i][j]).s_qty == 0
                && h[i][j].d_qty == 0 by {
                if h[i][j].s_qty != 0 {
                    assert(h[i][0].s_qty == h[i][j].s_qty);
                    assert(h[i][0].s_node_id == i);
                    assert(!st.rows_done.contains(i as usize));
                    assert(row_entry(st, i).len() == 0);
                    lemma_available_none(st.used, h[i]);
                    assert forall|j2: int| 0 <= j2 < ncols implies #[trigger] dts[j2] == 0 by {
                        assert(is_used(st.used, h[i][j2]));
                        assert(h[i][j2].s_node_id == i && h[i][j2].d_node_id == j2);
                        let t = choose|t: int| 0 <= t < st.used.len() && st.used[t] == (h[i][j2].s_node_id, h[i][j2].d_node_id);
                        assert(st.used[t].0 as int == i && st.used[t].1 as int == j2);
                        assert(h[i][j2].s_qty == h[i][j].s_qty);
                        assert(h[0][j2].d_qty == h[i][j2].d_qty);
                    }
                    lemma_sum_zero(dts);
                    assert(sts[i] == h[i][0].s_qty);
                    lemma_sum_nonneg_at_least(sts, i);
                }
                if h[i][j].d_qty != 0 {
                    assert(h[0][j].d_qty == h[i][j].d_qty);
                    assert(h[0][j].d_node_id == j);
                    assert(!st.cols_done.contains(j as usize));
                    assert(col_entry(st, j).len() == 0);
                    lemma_available_none(st.used, column_of(h, j));
                    assert forall|i2: int| 0 <= i2 < nrows implies #[trigger] sts[i2] == 0 by {
                        assert(column_of(h, j)[i2] == h[i2][j]);
                        assert(is_used(st.used, h[i2][j]));
                        assert(h[i2][j].s_node_id == i2 && h[i2][j].d_node_id == j);
                        let t = choose|t: int| 0 <= t < st.used.len() && st.used[t] == (h[i2][j].s_node_id, h[i2][j].d_node_id);
                        assert(st.used[t].0 as int == i2 && st.used[t].1 as int == j);
                        assert(h[i2][j].d_qty == h[i][j].d_qty);
                        assert(h[i2][0].s_qty == h[i2][j].s_qty);
                    }
                    lemma_sum_zero(sts);
                    assert(dts[j] == h[0][j].d_qty);
                    lemma_sum_nonneg_at_least(dts, j);
                }
            }
        }
    }
}

// ---------------------------------------------------------------------------
// The pieces of one round.
// ---------------------------------------------------------------------------

fn contains_index(v: &Vec<usize>, x: usize) -> (b: bool)
    ensures
        b == v@.contains(x),
{
    let mut k: usize = 0;
    while k < v.len()
        invariant
            0 <= k <= v.len(),
            forall|t: int| 0 <= t < k ==> v@[t] != x,
        decreases v.len() - k,
    {
        if v[k] == x {
            return true;
        }
        k = k + 1;
    }
    false
}

fn contains_cell(v: &Vec<(usize, usize)>, x: (usize, usize)) -> (b: bool)
    ensures
        b == v@.contains(x),
{
    let mut k: usize = 0;
    while k < v.len()
        invariant
            0 <= k <= v.len(),
            forall|t: int| 0 <= t < k ==> v@[t] != x,
        decreases v.len() - k,
    {
        let y = v[k];
        if y.0 == x.0 && y.1 == x.1 {
            return true;
        }
        k = k + 1;
    }
    false
}

/// The cells of `line` not yet taken, in their order.
fn available_cells(line: &Vec<Node>, used: &Vec<(usize, usize)>) -> (r: Vec<Node>)
    ensures
        r@ == available(used@, line@),
{
    let mut r: Vec<Node> = Vec::new();
    let mut k: usize = 0;
    assert(line@.take(0) =~= Seq::<Node>::empty());
    while k < line.len()
        invariant
            0 <= k <= line.len(),
            r@ == available(used@, line@.take(k as int)),
        decreases line.len() - k,
    {
        let x = line[k];
        assert(line@.take(k + 1).drop_last() =~= line@.take(k as int));
        assert(line@.take(k + 1).last() == x);
        if !contains_cell(used, (x.s_node_id, x.d_node_id)) {
            r.push(x);
        }
        k = k + 1;
    }
    assert(line@.take(k as int) =~= line@);
    r
}

/// The penalty of a line and its first cheapest cell, from the cells left
/// in it, read off the line sorted by cost.
fn line_summary(avail: Vec<Node>) -> (r: (i32, Node))
    requires
        avail@.len() > 0,
        forall|k: int| 0 <= k < avail@.len() ==> (#[trigger] avail@[k]).node_cost >= 0,
    ensures
        r.0 as int == penalty(avail@),
        r.0 >= 0,
        r.1 == cheapest(avail@),
{
    let ghost unsorted = avail@;
    let mut avail = avail;
    par_sort_stable(&mut avail);
    proof {
        lemma_stable_sorted_front(unsorted, avail@);
    }
    let x = avail[0];
    if avail.len() > 1 {
        assert(avail@[0].key_of() <= avail@[1].key_of());
        (avail[1].node_cost - avail[0].node_cost, x)
    } else {
        (avail[0].node_cost, x)
    }
}

/// The first of the cheapest cells left in a line, read off the line
/// sorted by cost.
fn cheapest_cell(avail: Vec<Node>) -> (r: Node)
    requires
        avail@.len() > 0,
    ensures
        r == cheapest(avail@),
{
    let ghost unsorted = avail@;
    let mut avail = avail;
    par_sort_stable(&mut avail);
    proof {
        lemma_stable_sorted_front(unsorted, avail@);
    }
    avail[0]
}

/// Every cell left in a line belongs to the line; in a grid whose cells
/// know their place and cost no less than nothing, so do they.
proof fn lemma_available_in_row(g: Seq<Seq<Node>>, nrows: nat, ncols: nat, used: Seq<(usize, usize)>, r: int)
    requires
        vogel_inv(g, nrows, ncols),
        0 <= r < nrows,
    ensures
        forall|k: int|
            0 <= k < available(used, g[r]).len() ==> ({
                let x = #[trigger] available(used, g[r])[k];
                &&& x.node_cost >= 0
                &&& x.s_node_id == r
                &&& x.d_node_id < ncols
                &&& g[r][x.d_node_id as int] == x
                &&& !used.contains((x.s_node_id, x.d_node_id))
            }),
{
    lemma_available_elems(used, g[r]);
    assert forall|k: int| 0 <= k < available(used, g[r]).len() implies ({
        let x = #[trigger] available(used, g[r])[k];
        &&& x.node_cost >= 0
        &&& x.s_node_id == r
        &&& x.d_node_id < ncols
        &&& g[r][x.d_node_id as int] == x
        &&& !used.contains((x.s_node_id, x.d_node_id))
    }) by {
        let x = available(used, g[r])[k];
        let j = choose|j: int| 0 <= j < g[r].len() && g[r][j] == x;
        assert(g[r][j].s_node_id == r && g[r][j].d_node_id == j);
    }
}

proof fn lemma_available_in_col(g: Seq<Seq<Node>>, nrows: nat, ncols: nat, used: Seq<(usize, usize)>, c: int)
    requires
        vogel_inv(g, nrows, ncols),
        0 <= c < ncols,
    ensures
        forall|k: int|
            0 <= k < available(used, column_of(g, c)).len() ==> ({
                let x = #[trigger] available(used, column_of(g, c))[k];
                &&& x.node_cost >= 0
                &&& x.d_node_id == c
                &&& x.s_node_id < nrows
                &&& g[x.s_node_id as int][c] == x
                &&& !used.contains((x.s_node_id, x.d_node_id))
            }),
{
    let col = column_of(g, c);
    lemma_available_elems(used, col);
    assert forall|k: int| 0 <= k < available(used, col).len() implies ({
        let x = #[trigger] available(used, col)[k];
        &&& x.node_cost >= 0
        &&& x.d_node_id == c
        &&& x.s_node_id < nrows
        &&& g[x.s_node_id as int][c] == x
        &&& !used.contains((x.s_node_id, x.d_node_id))
    }) by {
        let x = available(used, col)[k];
        let i = choose|i: int| 0 <= i < col.len() && col[i] == x;
        assert(g[i][c] == x);
        assert(g[i][c].s_node_id == i && g[i][c].d_node_id == c);
    }
}

/// The cells left in row `r` name cells of the grid and cost no less than
/// nothing; so does the first cheapest of them.
proof fn lemma_row_left(g: Seq<Seq<Node>>, nrows: nat, ncols: nat, used: Seq<(usize, usize)>, r: int)
    requires
        vogel_grid_ok(g, nrows, ncols),
        0 <= r < nrows,
    ensures
        forall|k: int|
            0 <= k < available(used, g[r]).len() ==> ({
                let x = #[trigger] available(used, g[r])[k];
                x.node_cost >= 0 && x.s_node_id < nrows && x.d_node_id < ncols
            }),
        available(used, g[r]).len() > 0 ==> ({
            let x = cheapest(available(used, g[r]));
            x.node_cost >= 0 && x.s_node_id < nrows && x.d_node_id < ncols
        }),
{
    let av = available(used, g[r]);
    lemma_available_elems(used, g[r]);
    assert forall|k: int| 0 <= k < av.len() implies ({
        let x = #[trigger] av[k];
        x.node_cost >= 0 && x.s_node_id < nrows && x.d_node_id < ncols
    }) by {
        let j = choose|j: int| 0 <= j < g[r].len() && g[r][j] == av[k];
        assert(g[r][j].node_cost >= 0);
    }
    if av.len() > 0 {
        lemma_first_min_exists(av);
        let k = first_min(av);
        assert(av[k].node_cost >= 0);
    }
}

/// The cells left in column `c` name cells of the grid and cost no less
/// than nothing; so does the first cheapest of them.
proof fn lemma_col_left(g: Seq<Seq<Node>>, nrows: nat, ncols: nat, used: Seq<(usize, usize)>, c: int)
    requires
        vogel_grid_ok(g, nrows, ncols),
        0 <= c < ncols,
    ensures
        forall|k: int|
            0 <= k < available(used, column_of(g, c)).len() ==> ({
                let x = #[trigger] available(used, column_of(g, c))[k];
                x.node_cost >= 0 && x.s_node_id < nrows && x.d_node_id < ncols
            }),
        available(used, column_of(g, c)).len() > 0 ==> ({
            let x = cheapest(available(used, column_of(g, c)));
            x.node_cost >= 0 && x.s_node_id < nrows && x.d_node_id < ncols
        }),
{
    let col = column_of(g, c);
    let av = available(used, col);
    lemma_available_elems(used, col);
    assert forall|k: int| 0 <= k < av.len() implies ({
        let x = #[trigger] av[k];
        x.node_cost >= 0 && x.s_node_id < nrows && x.d_node_id < ncols
    }) by {
        let i = choose|i: int| 0 <= i < col.len() && col[i] == av[k];
        assert(g[i][c] == av[k]);
        assert(g[i][c].node_cost >= 0);
    }
    if av.len() > 0 {
        lemma_first_min_exists(av);
        let k = first_min(av);
        assert(av[k].node_cost >= 0);
    }
}

/// The entries of a penalty list: a penalty no less than nothing, and a
/// line of the grid.
pub open spec fn entries_ok(pens: Seq<(i32, i32)>, n: nat) -> bool {
    forall|t: int|
        0 <= t < pens.len() ==> {
            let e = #[trigger] pens[t];
            &&& 0 <= e.1 < n
            &&& e.0 >= 0
        }
}

/// The entries of the rows that are not done and still have cells left.
fn row_penalty_list(a: &Grid, rows_done: &Vec<usize>, used: &Vec<(usize, usize)>, Ghost(st): Ghost<VogelState>) -> (v: Vec<(i32, i32)>)
    requires
        vogel_grid_ok(grid_view(*a), grid_dims(*a).0, grid_dims(*a).1),
        st.grid == grid_view(*a),
        st.rows_done == rows_done@,
        st.used == used@,
    ensures
        v@ == row_penalties(st, grid_dims(*a).0 as int),
        entries_ok(v@, grid_dims(*a).0),
{
    let nrows = a.nrows();
    let ncols = a.ncols();
    let mut v: Vec<(i32, i32)> = Vec::new();
    let mut r: usize = 0;
    while r < nrows
        invariant
            vogel_grid_ok(grid_view(*a), nrows as nat, ncols as nat),
            nrows == grid_dims(*a).0,
            ncols == grid_dims(*a).1,
            st.grid == grid_view(*a),
            st.rows_done == rows_done@,
            st.used == used@,
            0 <= r <= nrows,
            v@ == row_penalties(st, r as int),
            entries_ok(v@, nrows as nat),
        decreases nrows - r,
    {
        let row_vec = a.row(r);
        let first = row_vec[0];
        proof {
            lemma_row_left(st.grid, nrows as nat, ncols as nat, st.used, r as int);
        }
        if !contains_index(rows_done, first.s_node_id) {
            let avail = available_cells(&row_vec, used);
            if avail.len() != 0 {
                let (diff, x) = line_summary(avail);
                v.push((diff, x.s_node_id as i32));
            }
        }
        r = r + 1;
        assert(v@ =~= row_penalties(st, r as int));
    }
    v
}

/// The entries of the columns that are not done and still have cells left.
fn col_penalty_list(a: &Grid, cols_done: &Vec<usize>, used: &Vec<(usize, usize)>, Ghost(st): Ghost<VogelState>) -> (v: Vec<(i32, i32)>)
    requires
        vogel_grid_ok(grid_view(*a), grid_dims(*a).0, grid_dims(*a).1),
        st.grid == grid_view(*a),
        st.cols_done == cols_done@,
        st.used == used@,
    ensures
        v@ == col_penalties(st, grid_dims(*a).1 as int),
        entries_ok(v@, grid_dims(*a).1),
{
    let nrows = a.nrows();
    let ncols = a.ncols();
    let mut v: Vec<(i32, i32)> = Vec::new();
    let mut c: usize = 0;
    while c < ncols
        invariant
            vogel_grid_ok(grid_view(*a), nrows as nat, ncols as nat),
            nrows == grid_dims(*a).0,
            ncols == grid_dims(*a).1,
            st.grid == grid_view(*a),
            st.cols_done == cols_done@,
            st.used == used@,
            0 <= c <= ncols,
            v@ == col_penalties(st, c as int),
            entries_ok(v@, ncols as nat),
        decreases ncols - c,
    {
        let col_vec = a.column(c);
        let first = col_vec[0];
        proof {
            lemma_col_left(st.grid, nrows as nat, ncols as nat, st.used, c as int);
        }
        if !contains_index(cols_done, first.d_node_id) {
            let avail = available_cells(&col_vec, used);
            if avail.len() != 0 {
                let (diff, x) = line_summary(avail);
                v.push((diff, x.d_node_id as i32));
            }
        }
        c = c + 1;
        assert(v@ =~= col_penalties(st, c as int));
    }
    v
}

/// The supply left in all rows, read in their first cell.
fn supply_total(a: &Grid) -> (t: i32)
    requires
        sums_fit(grid_view(*a), grid_dims(*a).0, grid_dims(*a).1),
        grid_dims(*a).0 > 0 ==> grid_dims(*a).1 > 0,
    ensures
        t == supply_left(grid_view(*a), grid_dims(*a).0 as int),
{
    let nrows = a.nrows();
    let ghost g = grid_view(*a);
    let mut t: i32 = 0;
    let mut r: usize = 0;
    while r < nrows
        invariant
            sums_fit(g, nrows as nat, grid_dims(*a).1),
            nrows > 0 ==> grid_dims(*a).1 > 0,
            g == grid_view(*a),
            nrows == grid_dims(*a).0,
            0 <= r <= nrows,
            t == supply_left(g, r as int),
        decreases nrows - r,
    {
        assert(i32::MIN <= supply_left(g, r + 1) <= i32::MAX);
        let x = a.get(r, 0);
        t = t + x.s_qty;
        r = r + 1;
    }
    t
}

/// The demand left in all columns, read in their first cell.
fn demand_total(a: &Grid) -> (t: i32)
    requires
        sums_fit(grid_view(*a), grid_dims(*a).0, grid_dims(*a).1),
        grid_dims(*a).1 > 0 ==> grid_dims(*a).0 > 0,
    ensures
        t == demand_left(grid_view(*a), grid_dims(*a).1 as int),
{
    let ncols = a.ncols();
    let ghost g = grid_view(*a);
    let mut t: i32 = 0;
    let mut c: usize = 0;
    while c < ncols
        invariant
            sums_fit(g, grid_dims(*a).0, ncols as nat),
            ncols > 0 ==> grid_dims(*a).0 > 0,
            g == grid_view(*a),
            ncols == grid_dims(*a).1,
            0 <= c <= ncols,
            t == demand_left(g, c as int),
        decreases ncols - c,
    {
        assert(i32::MIN <= demand_left(g, c + 1) <= i32::MAX);
        let x = a.get(0, c);
        t = t + x.d_qty;
        c = c + 1;
    }
    t
}

/// The state of a run in the loop of `fogel`.
spec fn state_of(g: Seq<Seq<Node>>, rows_done: Seq<usize>, cols_done: Seq<usize>, used: Seq<(usize, usize)>) -> VogelState {
    VogelState { grid: g, rows_done, cols_done, used }
}

/// Vogel's approximation.
///
/// Round after round: every row whose first cell's supply node is not done
/// and every column whose first cell's demand node is not done, and that
/// still has untaken cells, gets an entry: its penalty, the difference
/// between its two cheapest untaken cells (or the cost of its only one), and
/// the node of its first cheapest untaken cell.  The entry with the largest
/// penalty (the last of the largest, rows before columns on a tie) names the
/// row or column that gives up its first cheapest untaken cell, which is
/// taken and filled as much as its row's supply and its column's demand
/// allow.  The rounds stop when no entry is left, or when neither supply
/// nor demand is left.  The rounds are to stop, each of them defined (see
/// `vogel_ends`; `lemma_vogel_ends` shows it of every grid that `vogel_ready`
/// accepts).  On a grid with nothing assigned yet, no negative quantity and
/// rows and columns in agreement: supply and demand are conserved, and at
/// every cell given a quantity its row's supply or its column's demand is
/// used up; when, besides, every cell knows its place and supply and demand
/// balance, everything is shipped.
#[verifier::rlimit(60)]
#[verifier::spinoff_prover]
pub fn fogel(task_array2d: &mut Grid)
    requires
        vogel_grid_ok(grid_view(*old(task_array2d)), grid_dims(*old(task_array2d)).0, grid_dims(*old(task_array2d)).1),
        vogel_ends(grid_view(*old(task_array2d)), grid_dims(*old(task_array2d)).0, grid_dims(*old(task_array2d)).1),
    ensures
        grid_dims(*final(task_array2d)) == grid_dims(*old(task_array2d)),
        grid_view(*final(task_array2d)) == vogel(
            grid_view(*old(task_array2d)),
            grid_dims(*old(task_array2d)).0,
            grid_dims(*old(task_array2d)).1,
        ),
        unassigned(grid_view(*old(task_array2d))) && consistent(grid_view(*old(task_array2d))) && nonneg_qty(
            grid_view(*old(task_array2d)),
        ) ==> conserves(
            grid_view(*old(task_array2d)),
            grid_view(*final(task_array2d)),
            grid_dims(*old(task_array2d)).0,
            grid_dims(*old(task_array2d)).1,
        ),
        unassigned(grid_view(*old(task_array2d))) && consistent(grid_view(*old(task_array2d))) && nonneg_qty(
            grid_view(*old(task_array2d)),
        ) ==> forall|i: int, j: int|
            0 <= i < grid_dims(*old(task_array2d)).0 && 0 <= j < grid_dims(*old(task_array2d)).1
                && (#[trigger] grid_view(*final(task_array2d))[i][j]).node_qty != 0 ==> grid_view(
                *final(task_array2d),
            )[i][j].s_qty == 0 || grid_view(*final(task_array2d))[i][j].d_qty == 0,
        unassigned(grid_view(*old(task_array2d))) && consistent(grid_view(*old(task_array2d))) && nonneg_qty(
            grid_view(*old(task_array2d)),
        ) && ids_match(grid_view(*old(task_array2d))) && balanced(
            grid_view(*old(task_array2d)),
            grid_dims(*old(task_array2d)).1,
        ) ==> all_shipped(
            grid_view(*final(task_array2d)),
            grid_dims(*old(task_array2d)).0,
            grid_dims(*old(task_array2d)).1,
        ),
{
    let s_size = task_array2d.nrows();
    let d_size = task_array2d.ncols();
    let mut row_excld: Vec<usize> = Vec::new();
    let mut col_excld: Vec<usize> = Vec::new();
    let mut nodes_excld: Vec<(usize, usize)> = Vec::new();
    let ghost dims = grid_dims(*task_array2d);
    let ghost init = vogel_start(grid_view(*task_array2d));
    let ghost cw = unassigned(init.grid) && consistent(init.grid) && nonneg_qty(init.grid);
    let ghost n: nat = choose|fuel: nat| run_ok(init, s_size as nat, d_size as nat, fuel);
    let ghost mut fuel: nat = n;
    proof {
        if cw {
            lemma_fill_all_conserves(init.grid, s_size as nat, d_size as nat, Seq::<Node>::empty());
            assert(fill_all(init.grid, Seq::<Node>::empty()) == init.grid);
        }
        assert(row_excld@ =~= Seq::<usize>::empty());
        assert(col_excld@ =~= Seq::<usize>::empty());
        assert(nodes_excld@ =~= Seq::<(usize, usize)>::empty());
    }
    loop
        invariant_except_break
            run_ok(state_of(grid_view(*task_array2d), row_excld@, col_excld@, nodes_excld@), s_size as nat, d_size as nat, fuel),
            vogel_run(state_of(grid_view(*task_array2d), row_excld@, col_excld@, nodes_excld@), s_size as nat, d_size as nat, fuel)
                == vogel_run(init, s_size as nat, d_size as nat, n),
        invariant
            grid_dims(*task_array2d) == dims,
            s_size == dims.0,
            d_size == dims.1,
            vogel_grid_ok(grid_view(*task_array2d), s_size as nat, d_size as nat),
            ids_match(init.grid) ==> ids_match(grid_view(*task_array2d)),
            cw == (unassigned(init.grid) && consistent(init.grid) && nonneg_qty(init.grid)),
            cw ==> vogel_books(state_of(grid_view(*task_array2d), row_excld@, col_excld@, nodes_excld@), s_size as nat, d_size as nat),
            cw ==> conserves(init.grid, grid_view(*task_array2d), s_size as nat, d_size as nat),
            cw ==> forall|i: int, j: int|
                0 <= i < s_size && 0 <= j < d_size && !nodes_excld@.contains((i as usize, j as usize))
                    ==> (#[trigger] grid_view(*task_array2d)[i][j]).node_qty == 0,
        ensures
            grid_dims(*task_array2d) == dims,
            grid_view(*task_array2d) == vogel_run(init, s_size as nat, d_size as nat, n).grid,
            vogel_stopped(state_of(grid_view(*task_array2d), row_excld@, col_excld@, nodes_excld@), s_size as nat, d_size as nat),
        decreases fuel,
    {
        let ghost st = state_of(grid_view(*task_array2d), row_excld@, col_excld@, nodes_excld@);
        let mut row_diffs = row_penalty_list(task_array2d, &row_excld, &nodes_excld, Ghost(st));
        let mut col_diffs = col_penalty_list(task_array2d, &col_excld, &nodes_excld, Ghost(st));
        let ghost rd = row_diffs@;
        let ghost cd = col_diffs@;
        let mut max_row_diff: (i32, i32) = (-1, -1);
        let mut max_col_diff: (i32, i32) = (-1, -1);
        if row_diffs.len() >= 1 {
            par_sort_stable(&mut row_diffs);
            max_row_diff = row_diffs[row_diffs.len() - 1];
            proof {
                lemma_stable_sorted_back(rd, row_diffs@);
            }
        }
        if col_diffs.len() >= 1 {
            par_sort_stable(&mut col_diffs);
            max_col_diff = col_diffs[col_diffs.len() - 1];
            proof {
                lemma_stable_sorted_back(cd, col_diffs@);
            }
        }
        assert(max_row_diff == top_penalty(rd));
        assert(max_col_diff == top_penalty(cd));
        assert(rd.len() > 0 ==> max_row_diff.0 >= 0 && 0 <= max_row_diff.1 < s_size) by {
            if rd.len() > 0 {
                let t = last_max(rd);
                assert(rd[t] == max_row_diff);
            }
        }
        assert(cd.len() > 0 ==> max_col_diff.0 >= 0 && 0 <= max_col_diff.1 < d_size) by {
            if cd.len() > 0 {
                let t = last_max(cd);
                assert(cd[t] == max_col_diff);
            }
        }
        if max_row_diff.0 == -1 && max_col_diff.0 == -1 {
            assert(vogel_stopped(st, s_size as nat, d_size as nat));
            break;
        }
        assert(step_ok(st, s_size as nat, d_size as nat));
        let mut s_idx: usize = 0;
        let mut d_idx: usize = 0;
        if max_row_diff.0 != -1 && max_row_diff.0 >= max_col_diff.0 {
            s_idx = max_row_diff.1 as usize;
            let row_slice = available_cells(&task_array2d.row(s_idx), &nodes_excld);
            let x = cheapest_cell(row_slice);
            proof {
                lemma_row_left(st.grid, s_size as nat, d_size as nat, st.used, s_idx as int);
            }
            d_idx = x.d_node_id;
        } else if max_col_diff.0 != -1 && max_col_diff.0 > max_row_diff.0 {
            d_idx = max_col_diff.1 as usize;
            let col_slice = available_cells(&task_array2d.column(d_idx), &nodes_excld);
            let x = cheapest_cell(col_slice);
            proof {
                lemma_col_left(st.grid, s_size as nat, d_size as nat, st.used, d_idx as int);
            }
            s_idx = x.s_node_id;
        } else {
            assert(false);
        }
        assert(pick(st, s_size as nat, d_size as nat) == Some((s_idx as int, d_idx as int)));
        nodes_excld.push((s_idx, d_idx));
        let c = task_array2d.get(s_idx, d_idx);
        let s_qty = c.s_qty;
        let d_qty = c.d_qty;
        proof {
            lemma_fill_keeps_grid_ok(st.grid, s_size as nat, d_size as nat, s_idx as int, d_idx as int);
            lemma_fill_shape(st.grid, s_size as nat, d_size as nat, s_idx as int, d_idx as int);
            if ids_match(init.grid) {
                let h = fill(st.grid, s_idx as int, d_idx as int);
                assert forall|i: int, j: int| 0 <= i < h.len() && 0 <= j < h[i].len() implies (#[trigger] h[i][j]).s_node_id == i
                    && h[i][j].d_node_id == j by {
                    assert(st.grid[i][j].s_node_id == i && st.grid[i][j].d_node_id == j);
                }
            }
            if cw {
                if st.used.contains((s_idx, d_idx)) {
                    let t = choose|t: int| 0 <= t < st.used.len() && st.used[t] == (s_idx, d_idx);
                    assert(st.used[t] == (s_idx, d_idx));
                } else {
                    assert(st.grid[s_idx as int][d_idx as int].node_qty == 0);
                }
                lemma_fill_step_conserves(init.grid, st.grid, s_size as nat, d_size as nat, s_idx as int, d_idx as int);
            }
        }
        fill_cell(task_array2d, s_idx, d_idx);
        proof {
            if cw {
                assert forall|i: int, j: int|
                    0 <= i < s_size && 0 <= j < d_size && !nodes_excld@.contains((i as usize, j as usize))
                        implies (#[trigger] grid_view(*task_array2d)[i][j]).node_qty == 0 by {
                    assert(nodes_excld@.last() == (s_idx, d_idx));
                    assert(nodes_excld@[nodes_excld@.len() - 1] == (s_idx, d_idx));
                    if !st.used.contains((i as usize, j as usize)) {
                        assert(st.grid[i][j].node_qty == 0);
                    } else {
                        let t = choose|t: int| 0 <= t < st.used.len() && st.used[t] == (i as usize, j as usize);
                        assert(nodes_excld@[t] == (i as usize, j as usize));
                    }
                }
            }
        }
        if s_qty >= d_qty && d_qty != 0 {
            col_excld.push(d_idx);
        } else if d_qty > s_qty && s_qty != 0 {
            row_excld.push(s_idx);
        }
        let ghost st2 = state_of(grid_view(*task_array2d), row_excld@, col_excld@, nodes_excld@);
        proof {
            if cw {
                lemma_take_keeps_books(st, s_size as nat, d_size as nat, s_idx as int, d_idx as int, row_excld@, col_excld@);
            }
        }
        let s_total = supply_total(task_array2d);
        let d_total = demand_total(task_array2d);
        assert(vogel_step(st, s_size as nat, d_size as nat) == (st2, s_total == 0 && d_total == 0));
        if s_total == 0 && d_total == 0 {
            break;
        }
        proof {
            fuel = (fuel - 1) as nat;
        }
    }
    proof {
        let last = state_of(grid_view(*task_array2d), row_excld@, col_excld@, nodes_excld@);
        if cw {
            let h = grid_view(*task_array2d);
            assert forall|i: int, j: int|
                0 <= i < s_size && 0 <= j < d_size && (#[trigger] h[i][j]).node_qty != 0 implies h[i][j].s_qty == 0
                    || h[i][j].d_qty == 0 by {
                let t = choose|t: int| 0 <= t < nodes_excld@.len() && nodes_excld@[t] == (i as usize, j as usize);
                assert(last.used[t] == (i as usize, j as usize));
            }
            if ids_match(init.grid) && balanced(init.grid, d_size as nat) {
                lemma_vogel_stop_ships(init.grid, last, s_size as nat, d_size as nat);
            }
        }
    }
}

/// Cell `(i, j)` knows its place, holds no negative quantity or cost, and
/// agrees with the head of its row on supply and of its column on demand.
pub open spec fn cell_ready(g: Seq<Seq<Node>>, i: int, j: int) -> bool {
    &&& g[i][j].s_node_id == i
    &&& g[i][j].d_node_id == j
    &&& g[i][j].s_qty >= 0
    &&& g[i][j].d_qty >= 0
    &&& g[i][j].node_cost >= 0
    &&& g[i][j].s_qty == g[i][0].s_qty
    &&& g[i][j].d_qty == g[0][j].d_qty
}

/// Ready cells, with the shape and totals within `i32`, make a grid kept by
/// the rounds; a grid kept by the rounds has only ready cells.
proof fn lemma_ready_cells(g: Seq<Seq<Node>>, nrows: nat, ncols: nat)
    requires
        is_rect(g, nrows, ncols),
    ensures
        vogel_inv(g, nrows, ncols) <==> ({
            &&& forall|i: int, j: int| 0 <= i < nrows && 0 <= j < ncols ==> #[trigger] cell_ready(g, i, j)
            &&& supply_left(g, nrows as int) <= i32::MAX
            &&& demand_left(g, ncols as int) <= i32::MAX
            &&& (nrows == 0) == (ncols == 0)
            &&& nrows <= i32::MAX
            &&& ncols <= i32::MAX
        }),
{
    if forall|i: int, j: int| 0 <= i < nrows && 0 <= j < ncols ==> #[trigger] cell_ready(g, i, j) {
        assert(ids_match(g)) by {
            assert forall|i: int, j: int| 0 <= i < g.len() && 0 <= j < g[i].len() implies (#[trigger] g[i][j]).s_node_id == i
                && g[i][j].d_node_id == j by {
                assert(cell_ready(g, i, j));
            }
        }
        assert(nonneg_qty(g)) by {
            assert forall|i: int, j: int| 0 <= i < g.len() && 0 <= j < g[i].len() implies (#[trigger] g[i][j]).s_qty >= 0
                && g[i][j].d_qty >= 0 by {
                assert(cell_ready(g, i, j));
            }
        }
        assert(costs_nonneg(g)) by {
            assert forall|i: int, j: int| 0 <= i < g.len() && 0 <= j < g[i].len() implies (#[trigger] g[i][j]).node_cost >= 0 by {
                assert(cell_ready(g, i, j));
            }
        }
        assert(consistent(g)) by {
            assert forall|i: int, j: int, j2: int|
                0 <= i < g.len() && 0 <= j < g[i].len() && 0 <= j2 < g[i].len() implies (#[trigger] g[i][j]).s_qty
                    == (#[trigger] g[i][j2]).s_qty by {
                assert(cell_ready(g, i, j));
                assert(cell_ready(g, i, j2));
            }
            assert forall|i: int, i2: int, j: int|
                0 <= i < g.len() && 0 <= i2 < g.len() && 0 <= j < g[i].len() && j < g[i2].len() implies (
                #[trigger] g[i][j]).d_qty == (#[trigger] g[i2][j]).d_qty by {
                assert(cell_ready(g, i, j));
                assert(cell_ready(g, i2, j));
            }
        }
    }
    if vogel_inv(g, nrows, ncols) {
        assert forall|i: int, j: int| 0 <= i < nrows && 0 <= j < ncols implies #[trigger] cell_ready(g, i, j) by {
            assert(g[i][j].s_node_id == i && g[i][j].d_node_id == j);
            assert(g[i][j].s_qty >= 0 && g[i][j].d_qty >= 0);
            assert(g[i][j].node_cost >= 0);
            assert(g[i][j].s_qty == g[i][0].s_qty);
            assert(g[i][j].d_qty == g[0][j].d_qty);
        }
    }
}

/// Tells whether a grid is kept by the rounds of Vogel's approximation:
/// every cell knows its place, holds no negative quantity or cost, and
/// agrees along its row and column; rows exist exactly when columns do; and
/// the shape and the totals fit in an `i32`.
pub fn vogel_ready(a: &Grid) -> (r: bool)
    ensures
        r == vogel_inv(grid_view(*a), grid_dims(*a).0, grid_dims(*a).1),
{
    let nrows = a.nrows();
    let ncols = a.ncols();
    let ghost g = grid_view(*a);
    proof {
        lemma_ready_cells(g, nrows as nat, ncols as nat);
    }
    if (nrows == 0) != (ncols == 0) || nrows > 2147483647 || ncols > 2147483647 {
        return false;
    }
    let mut i: usize = 0;
    while i < nrows
        invariant
            g == grid_view(*a),
            nrows == grid_dims(*a).0,
            ncols == grid_dims(*a).1,
            (nrows == 0) == (ncols == 0),
            0 <= i <= nrows,
            forall|i2: int, j: int| 0 <= i2 < i && 0 <= j < ncols ==> #[trigger] cell_ready(g, i2, j),
        decreases nrows - i,
    {
        let mut j: usize = 0;
        while j < ncols
            invariant
                g == grid_view(*a),
                nrows == grid_dims(*a).0,
                ncols == grid_dims(*a).1,
                0 <= i < nrows,
                ncols > 0,
                0 <= j <= ncols,
                forall|i2: int, j2: int| 0 <= i2 < i && 0 <= j2 < ncols ==> #[trigger] cell_ready(g, i2, j2),
                forall|j2: int| 0 <= j2 < j ==> #[trigger] cell_ready(g, i as int, j2),
            decreases ncols - j,
        {
            let x = a.get(i, j);
            let head_row = a.get(i, 0);
            let head_col = a.get(0, j);
            if x.s_node_id != i || x.d_node_id != j || x.s_qty < 0 || x.d_qty < 0 || x.node_cost < 0
                || x.s_qty != head_row.s_qty || x.d_qty != head_col.d_qty {
                assert(!cell_ready(g, i as int, j as int));
                return false;
            }
            assert(cell_ready(g, i as int, j as int));
            j = j + 1;
        }
        i = i + 1;
    }
    if nrows > 0 {
        assert forall|r: int| 0 <= r < nrows implies (#[trigger] g[r])[0].s_qty >= 0 by {
            assert(cell_ready(g, r, 0));
        }
        assert forall|c: int| 0 <= c < ncols implies (#[trigger] g[0][c]).d_qty >= 0 by {
            assert(cell_ready(g, 0, c));
        }
    }
    let mut t: i64 = 0;
    let mut r: usize = 0;
    while r < nrows
        invariant
            g == grid_view(*a),
            nrows == grid_dims(*a).0,
            ncols == grid_dims(*a).1,
            nrows > 0 ==> ncols > 0,
            forall|r2: int| 0 <= r2 < nrows ==> (#[trigger] g[r2])[0].s_qty >= 0,
            0 <= r <= nrows,
            t == supply_left(g, r as int),
            t <= i32::MAX,
        decreases nrows - r,
    {
        let x = a.get(r, 0);
        t = t + x.s_qty as i64;
        if t > 2147483647 {
            proof {
                lemma_supply_prefix(g, r + 1, nrows as int);
            }
            return false;
        }
        r = r + 1;
    }
    let mut u: i64 = 0;
    let mut c: usize = 0;
    while c < ncols
        invariant
            g == grid_view(*a),
            nrows == grid_dims(*a).0,
            ncols == grid_dims(*a).1,
            ncols > 0 ==> nrows > 0,
            forall|c2: int| 0 <= c2 < ncols ==> (#[trigger] g[0][c2]).d_qty >= 0,
            0 <= c <= ncols,
            u == demand_left(g, c as int),
            u <= i32::MAX,
        decreases ncols - c,
    {
        let x = a.get(0, c);
        u = u + x.d_qty as i64;
        if u > 2147483647 {
            proof {
                lemma_demand_prefix(g, c + 1, ncols as int);
            }
            return false;
        }
        c = c + 1;
    }
    true
}

/// Vogel's approximation on a grid kept by its rounds (see `vogel_ready`):
/// true, with the grid that `fogel` leaves; false, with the grid unchanged,
/// on any other grid.
pub fn try_fogel(task_array2d: &mut Grid) -> (r: bool)
    ensures
        r == vogel_inv(grid_view(*old(task_array2d)), grid_dims(*old(task_array2d)).0, grid_dims(*old(task_array2d)).1),
        grid_dims(*final(task_array2d)) == grid_dims(*old(task_array2d)),
        r ==> grid_view(*final(task_array2d)) == vogel(
            grid_view(*old(task_array2d)),
            grid_dims(*old(task_array2d)).0,
            grid_dims(*old(task_array2d)).1,
        ),
        !r ==> *final(task_array2d) == *old(task_array2d),
{
    if vogel_ready(task_array2d) {
        proof {
            lemma_vogel_ends(grid_view(*task_array2d), grid_dims(*task_array2d).0, grid_dims(*task_array2d).1);
        }
        fogel(task_array2d);
        true
    } else {
        false
    }
}

// ---------------------------------------------------------------------------
// Where every round is defined.
// ---------------------------------------------------------------------------

/// A non-empty sequence has a last largest element.
pub proof fn lemma_last_max_exists<T: Keyed>(s: Seq<T>)
    requires
        s.len() > 0,
    ensures
        is_last_max(s, last_max(s)),
    decreases s.len(),
{
    if s.len() == 1 {
        assert(is_last_max(s, 0));
    } else {
        let init = s.drop_last();
        lemma_last_max_exists(init);
        let k = last_max(init);
        let last = s.len() - 1;
        if s[last].key_of() >= s[k].key_of() {
            assert forall|j: int| 0 <= j < s.len() implies (#[trigger] s[j]).key_of() <= s[last].key_of() by {
                if j < last {
                    assert(init[j] == s[j]);
                }
            }
            assert(is_last_max(s, last));
        } else {
            assert forall|j: int| 0 <= j < s.len() implies (#[trigger] s[j]).key_of() <= s[k].key_of() by {
                if j < last {
                    assert(init[j] == s[j]);
                }
            }
            assert forall|j: int| k < j < s.len() implies (#[trigger] s[j]).key_of() < s[k].key_of() by {
                if j < last {
                    assert(init[j] == s[j]);
                    assert(init[j].key_of() < init[k].key_of());
                }
            }
            assert(is_last_max(s, k));
        }
    }
}

/// The penalty of a line whose costs are no less than nothing lies between
/// nothing and the largest `i32`.
proof fn lemma_penalty_range(av: Seq<Node>)
    requires
        av.len() > 0,
        forall|k: int| 0 <= k < av.len() ==> (#[trigger] av[k]).node_cost >= 0,
    ensures
        0 <= penalty(av) <= i32::MAX,
{
    lemma_first_min_exists(av);
    let k = first_min(av);
    assert(av[k].node_cost >= 0);
    if av.len() > 1 {
        let t = Seq::new((av.len() - 1) as nat, |i: int| if i < k { av[i] } else { av[i + 1] });
        lemma_first_min_exists(t);
        let k2 = first_min(t);
        let j = if k2 < k { k2 } else { k2 + 1 };
        assert(t[k2] == av[j]);
        assert forall|j2: int| 0 <= j2 < av.len() && j2 != k implies t[k2].key_of() <= (#[trigger] av[j2]).key_of() by {
            let i2 = if j2 < k { j2 } else { j2 - 1 };
            assert(t[i2] == av[j2]);
        }
        assert(is_runner_up_key(av, k, t[k2].key_of()));
        let c = runner_up_key(av);
        assert(is_runner_up_key(av, k, c));
        let jj = choose|jj: int| 0 <= jj < av.len() && jj != k && (#[trigger] av[jj]).key_of() == c;
        assert(av[k].key_of() <= av[jj].key_of());
    }
}

/// On a grid kept by the rounds, every row entry holds a penalty no less
/// than nothing and its own row, which still has a cell left.
proof fn lemma_row_penalties_wf(st: VogelState, k: int, nrows: nat, ncols: nat)
    requires
        vogel_inv(st.grid, nrows, ncols),
        0 <= k <= nrows,
    ensures
        forall|t: int|
            0 <= t < row_penalties(st, k).len() ==> {
                let e = #[trigger] row_penalties(st, k)[t];
                &&& 0 <= e.1 < nrows
                &&& e.0 >= 0
                &&& available(st.used, st.grid[e.1 as int]).len() > 0
            },
    decreases k,
{
    if k > 0 {
        lemma_row_penalties_wf(st, k - 1, nrows, ncols);
        let r = k - 1;
        let av = available(st.used, st.grid[r]);
        let prev = row_penalties(st, k - 1);
        let ent = row_entry(st, r);
        if ent.len() > 0 {
            lemma_available_in_row(st.grid, nrows, ncols, st.used, r);
            lemma_first_min_exists(av);
            assert(cheapest(av) == av[first_min(av)]);
            assert(cheapest(av).s_node_id == r);
            assert forall|t: int| 0 <= t < av.len() implies (#[trigger] av[t]).node_cost >= 0 by {
            }
            lemma_penalty_range(av);
        }
        assert forall|t: int| 0 <= t < row_penalties(st, k).len() implies {
            let e = #[trigger] row_penalties(st, k)[t];
            &&& 0 <= e.1 < nrows
            &&& e.0 >= 0
            &&& available(st.used, st.grid[e.1 as int]).len() > 0
        } by {
            if t < prev.len() {
                assert(row_penalties(st, k)[t] == prev[t]);
            } else {
                assert(row_penalties(st, k)[t] == ent[t - prev.len()]);
            }
        }
    }
}

/// On a grid kept by the rounds, every column entry holds a penalty no less
/// than nothing and its own column, which still has a cell left.
proof fn lemma_col_penalties_wf(st: VogelState, k: int, nrows: nat, ncols: nat)
    requires
        vogel_inv(st.grid, nrows, ncols),
        0 <= k <= ncols,
    ensures
        forall|t: int|
            0 <= t < col_penalties(st, k).len() ==> {
                let e = #[trigger] col_penalties(st, k)[t];
                &&& 0 <= e.1 < ncols
                &&& e.0 >= 0
                &&& available(st.used, column_of(st.grid, e.1 as int)).len() > 0
            },
    decreases k,
{
    if k > 0 {
        lemma_col_penalties_wf(st, k - 1, nrows, ncols);
        let c = k - 1;
        let av = available(st.used, column_of(st.grid, c));
        let prev = col_penalties(st, k - 1);
        let ent = col_entry(st, c);
        if ent.len() > 0 {
            lemma_available_in_col(st.grid, nrows, ncols, st.used, c);
            lemma_first_min_exists(av);
            assert(cheapest(av) == av[first_min(av)]);
            assert(cheapest(av).d_node_id == c);
            assert forall|t: int| 0 <= t < av.len() implies (#[trigger] av[t]).node_cost >= 0 by {
            }
            lemma_penalty_range(av);
        }
        assert forall|t: int| 0 <= t < col_penalties(st, k).len() implies {
            let e = #[trigger] col_penalties(st, k)[t];
            &&& 0 <= e.1 < ncols
            &&& e.0 >= 0
            &&& available(st.used, column_of(st.grid, e.1 as int)).len() > 0
        } by {
            if t < prev.len() {
                assert(col_penalties(st, k)[t] == prev[t]);
            } else {
                assert(col_penalties(st, k)[t] == ent[t - prev.len()]);
            }
        }
    }
}

/// A grid kept by the rounds has every partial sum of its supply and demand
/// left within `i32`.
proof fn lemma_inv_sums_fit(g: Seq<Seq<Node>>, nrows: nat, ncols: nat)
    requires
        vogel_inv(g, nrows, ncols),
    ensures
        sums_fit(g, nrows, ncols),
{
    if nrows > 0 {
        assert forall|r: int| 0 <= r < nrows implies (#[trigger] g[r])[0].s_qty >= 0 by {
            assert(g[r][0].s_qty >= 0);
        }
        assert forall|c: int| 0 <= c < ncols implies (#[trigger] g[0][c]).d_qty >= 0 by {
            assert(g[0][c].d_qty >= 0);
        }
    }
    assert forall|k: int| 0 <= k <= nrows implies i32::MIN <= #[trigger] supply_left(g, k) <= i32::MAX by {
        lemma_supply_prefix(g, k, nrows as int);
    }
    assert forall|k: int| 0 <= k <= ncols implies i32::MIN <= #[trigger] demand_left(g, k) <= i32::MAX by {
        lemma_demand_prefix(g, k, ncols as int);
    }
}

/// On a grid kept by the rounds, the next round is defined and takes a cell
/// of the grid not taken before.
proof fn lemma_step_ok(st: VogelState, nrows: nat, ncols: nat)
    requires
        vogel_inv(st.grid, nrows, ncols),
    ensures
        step_ok(st, nrows, ncols),
        pick(st, nrows, ncols) matches Some((s, d)) ==> 0 <= s < nrows && 0 <= d < ncols
            && !st.used.contains((s as usize, d as usize)),
{
    let rp = row_penalties(st, nrows as int);
    let cp = col_penalties(st, ncols as int);
    let rmax = top_penalty(rp);
    let cmax = top_penalty(cp);
    lemma_row_penalties_wf(st, nrows as int, nrows, ncols);
    lemma_col_penalties_wf(st, ncols as int, nrows, ncols);
    if rp.len() > 0 {
        lemma_last_max_exists(rp);
        assert(rmax == rp[last_max(rp)]);
    }
    if cp.len() > 0 {
        lemma_last_max_exists(cp);
        assert(cmax == cp[last_max(cp)]);
    }
    if rmax.0 == -1 && cmax.0 == -1 {
    } else if rmax.0 != -1 && rmax.0 >= cmax.0 {
        let s = rmax.1 as int;
        let av = available(st.used, st.grid[s]);
        lemma_available_in_row(st.grid, nrows, ncols, st.used, s);
        lemma_first_min_exists(av);
        let x = av[first_min(av)];
        let d = x.d_node_id as int;
        lemma_fill_keeps_inv(st.grid, nrows, ncols, s, d);
        lemma_inv_sums_fit(fill(st.grid, s, d), nrows, ncols);
    } else {
        let d = cmax.1 as int;
        let av = available(st.used, column_of(st.grid, d));
        lemma_available_in_col(st.grid, nrows, ncols, st.used, d);
        lemma_first_min_exists(av);
        let x = av[first_min(av)];
        let s = x.s_node_id as int;
        lemma_fill_keeps_inv(st.grid, nrows, ncols, s, d);
        lemma_inv_sums_fit(fill(st.grid, s, d), nrows, ncols);
    }
}

/// On a grid kept by the rounds, with fewer cells left than `fuel`, every
/// round is defined and the rounds stop within `fuel`.
proof fn lemma_run_ok_within(st: VogelState, nrows: nat, ncols: nat, fuel: nat)
    requires
        vogel_inv(st.grid, nrows, ncols),
        fuel > avail_count(st, nrows as int),
        avail_count(st, nrows as int) >= 0,
    ensures
        run_ok(st, nrows, ncols, fuel),
    decreases fuel,
{
    lemma_step_ok(st, nrows, ncols);
    match pick(st, nrows, ncols) {
        None => {},
        Some((s, d)) => {
            let (st2, stop) = vogel_step(st, nrows, ncols);
            lemma_fill_keeps_inv(st.grid, nrows, ncols, s, d);
            lemma_take_decreases(st, nrows, ncols, s, d, st2.rows_done, st2.cols_done);
            lemma_avail_count_bound(st2, nrows as int, ncols);
            if !stop {
                lemma_run_ok_within(st2, nrows, ncols, (fuel - 1) as nat);
            }
        },
    }
}

/// On a grid whose cells know their place, hold no negative quantity and
/// agree along rows and columns, with its totals and shape within `i32`,
/// Vogel's approximation stops, every round of it defined.
pub proof fn lemma_vogel_ends(g: Seq<Seq<Node>>, nrows: nat, ncols: nat)
    requires
        vogel_inv(g, nrows, ncols),
    ensures
        vogel_grid_ok(g, nrows, ncols),
        vogel_ends(g, nrows, ncols),
{
    lemma_inv_grid_ok(g, nrows, ncols);
    let st = vogel_start(g);
    lemma_avail_count_bound(st, nrows as int, ncols);
    lemma_run_ok_within(st, nrows, ncols, nrows * ncols + 1);
}


/// Places `i` and `j` of a line hold its cheapest cost and its next
/// cheapest one: the cheapest cost once place `i` is set aside.
pub open spec fn cheapest_two(av: Seq<Node>, i: int, j: int) -> bool {
    &&& 0 <= i < av.len()
    &&& 0 <= j < av.len()
    &&& i != j
    &&& forall|k: int| 0 <= k < av.len() ==> av[i].node_cost <= #[trigger] av[k].node_cost
    &&& forall|k: int| 0 <= k < av.len() && k != i ==> av[j].node_cost <= #[trigger] av[k].node_cost
}

/// The penalty of a line of one cell is its cost; of a line of two cells or
/// more, the gap between its two cheapest costs (zero when they tie).
pub proof fn lemma_penalty_is_gap(av: Seq<Node>)
    requires
        av.len() >= 1,
    ensures
        av.len() == 1 ==> penalty(av) == av[0].node_cost,
        av.len() >= 2 ==> exists|i: int, j: int| #[trigger] cheapest_two(av, i, j),
        forall|i: int, j: int| #[trigger] cheapest_two(av, i, j) ==> penalty(av) == av[j].node_cost - av[i].node_cost,
{
    lemma_first_min_exists(av);
    let k = first_min(av);
    if av.len() >= 2 {
        let t = Seq::new((av.len() - 1) as nat, |i: int| if i < k { av[i] } else { av[i + 1] });
        lemma_first_min_exists(t);
        let k2 = first_min(t);
        let j0 = if k2 < k { k2 } else { k2 + 1 };
        assert(t[k2] == av[j0]);
        assert forall|j2: int| 0 <= j2 < av.len() && j2 != k implies t[k2].key_of() <= (#[trigger] av[j2]).key_of() by {
            let i2 = if j2 < k { j2 } else { j2 - 1 };
            assert(t[i2] == av[j2]);
        }
        assert(is_runner_up_key(av, k, t[k2].key_of()));
        let c = runner_up_key(av);
        assert(is_runner_up_key(av, k, c));
        assert(cheapest_two(av, k, j0)) by {
            assert forall|q: int| 0 <= q < av.len() && q != k implies av[j0].node_cost <= #[trigger] av[q].node_cost by {
                assert(t[k2].key_of() <= av[q].key_of());
            }
        }
        assert forall|i: int, j: int| #[trigger] cheapest_two(av, i, j) implies penalty(av) == av[j].node_cost
            - av[i].node_cost by {
            assert(av[i].node_cost <= av[k].node_cost);
            assert(av[k].key_of() <= av[i].key_of());
            let jc = choose|jc: int| 0 <= jc < av.len() && jc != k && (#[trigger] av[jc]).key_of() == c;
            if i == k {
                assert(av[j].node_cost <= av[jc].node_cost);
                assert(c <= av[j].key_of());
            } else {
                assert(c <= av[i].key_of());
                assert(av[k].key_of() <= c);
                assert(av[j].node_cost <= av[k].node_cost);
                if j != k {
                    assert(c <= av[j].key_of());
                }
                assert(av[j].key_of() >= av[k].key_of());
            }
        }
    } else {
        assert(k == 0);
    }
}

/// A row whose first cell's supply node is done, or that has no cell left,
/// has no entry; any other row has one entry, which holds the penalty of its
/// cells left and the supply node of the first of the cheapest of them: no
/// cell before it costs as little, none after it costs less.
pub proof fn lemma_row_entry_law(st: VogelState, r: int)
    ensures
        st.rows_done.contains(st.grid[r][0].s_node_id) || available(st.used, st.grid[r]).len() == 0
            ==> row_entry(st, r).len() == 0,
        !st.rows_done.contains(st.grid[r][0].s_node_id) && available(st.used, st.grid[r]).len() > 0 ==> ({
            let av = available(st.used, st.grid[r]);
            let e = row_entry(st, r)[0];
            &&& row_entry(st, r).len() == 1
            &&& 0 <= penalty(av) <= i32::MAX ==> e.0 == penalty(av)
            &&& exists|i: int|
                0 <= i < av.len() && e.1 == av[i].s_node_id as i32 && (forall|q: int| 0 <= q < av.len() ==> av[i].node_cost
                    <= #[trigger] av[q].node_cost) && (forall|q: int| 0 <= q < i ==> av[i].node_cost < #[trigger] av[q].node_cost)
        }),
{
    let av = available(st.used, st.grid[r]);
    if av.len() > 0 {
        lemma_first_min_exists(av);
        let i = first_min(av);
        assert(cheapest(av) == av[i]);
        assert(av[i].node_cost == av[i].key_of());
        assert forall|q: int| 0 <= q < av.len() implies av[i].node_cost <= #[trigger] av[q].node_cost by {
            assert(av[i].key_of() <= av[q].key_of());
        }
        assert forall|q: int| 0 <= q < i implies av[i].node_cost < #[trigger] av[q].node_cost by {
            assert(av[q].key_of() > av[i].key_of());
        }
    }
}

/// A column whose first cell's demand node is done, or that has no cell
/// left, has no entry; any other column has one entry, which holds the
/// penalty of its cells left and the demand node of the first of the
/// cheapest of them.
pub proof fn lemma_col_entry_law(st: VogelState, c: int)
    ensures
        st.cols_done.contains(st.grid[0][c].d_node_id) || available(st.used, column_of(st.grid, c)).len() == 0
            ==> col_entry(st, c).len() == 0,
        !st.cols_done.contains(st.grid[0][c].d_node_id) && available(st.used, column_of(st.grid, c)).len() > 0 ==> ({
            let av = available(st.used, column_of(st.grid, c));
            let e = col_entry(st, c)[0];
            &&& col_entry(st, c).len() == 1
            &&& 0 <= penalty(av) <= i32::MAX ==> e.0 == penalty(av)
            &&& exists|i: int|
                0 <= i < av.len() && e.1 == av[i].d_node_id as i32 && (forall|q: int| 0 <= q < av.len() ==> av[i].node_cost
                    <= #[trigger] av[q].node_cost) && (forall|q: int| 0 <= q < i ==> av[i].node_cost < #[trigger] av[q].node_cost)
        }),
{
    let av = available(st.used, column_of(st.grid, c));
    if av.len() > 0 {
        lemma_first_min_exists(av);
        let i = first_min(av);
        assert(cheapest(av) == av[i]);
        assert forall|q: int| 0 <= q < av.len() implies av[i].node_cost <= #[trigger] av[q].node_cost by {
            assert(av[i].key_of() <= av[q].key_of());
        }
        assert forall|q: int| 0 <= q < i implies av[i].node_cost < #[trigger] av[q].node_cost by {
            assert(av[q].key_of() > av[i].key_of());
        }
    }
}

/// On a grid fit for the rounds, no row or column entry has a negative penalty.
proof fn lemma_entries_nonneg(st: VogelState, nrows: nat, ncols: nat)
    requires
        vogel_grid_ok(st.grid, nrows, ncols),
    ensures
        forall|t: int| 0 <= t < row_penalties(st, nrows as int).len() ==> (#[trigger] row_penalties(st, nrows as int)[t]).0 >= 0,
        forall|t: int| 0 <= t < col_penalties(st, ncols as int).len() ==> (#[trigger] col_penalties(st, ncols as int)[t]).0 >= 0,
{
    lemma_row_entries_nonneg(st, nrows as int, nrows, ncols);
    lemma_col_entries_nonneg(st, ncols as int, nrows, ncols);
}

proof fn lemma_row_entries_nonneg(st: VogelState, k: int, nrows: nat, ncols: nat)
    requires
        vogel_grid_ok(st.grid, nrows, ncols),
        0 <= k <= nrows,
    ensures
        forall|t: int| 0 <= t < row_penalties(st, k).len() ==> (#[trigger] row_penalties(st, k)[t]).0 >= 0,
    decreases k,
{
    if k > 0 {
        lemma_row_entries_nonneg(st, k - 1, nrows, ncols);
        let prev = row_penalties(st, k - 1);
        let ent = row_entry(st, k - 1);
        let av = available(st.used, st.grid[k - 1]);
        if ent.len() > 0 {
            lemma_row_left(st.grid, nrows, ncols, st.used, k - 1);
            assert forall|t: int| 0 <= t < av.len() implies (#[trigger] av[t]).node_cost >= 0 by {
            }
            lemma_penalty_range(av);
        }
        assert forall|t: int| 0 <= t < row_penalties(st, k).len() implies (#[trigger] row_penalties(st, k)[t]).0 >= 0 by {
            if t < prev.len() {
                assert(row_penalties(st, k)[t] == prev[t]);
            } else {
                assert(row_penalties(st, k)[t] == ent[t - prev.len()]);
            }
        }
    }
}

proof fn lemma_col_entries_nonneg(st: VogelState, k: int, nrows: nat, ncols: nat)
    requires
        vogel_grid_ok(st.grid, nrows, ncols),
        0 <= k <= ncols,
    ensures
        forall|t: int| 0 <= t < col_penalties(st, k).len() ==> (#[trigger] col_penalties(st, k)[t]).0 >= 0,
    decreases k,
{
    if k > 0 {
        lemma_col_entries_nonneg(st, k - 1, nrows, ncols);
        let prev = col_penalties(st, k - 1);
        let ent = col_entry(st, k - 1);
        let av = available(st.used, column_of(st.grid, k - 1));
        if ent.len() > 0 {
            lemma_col_left(st.grid, nrows, ncols, st.used, k - 1);
            assert forall|t: int| 0 <= t < av.len() implies (#[trigger] av[t]).node_cost >= 0 by {
            }
            lemma_penalty_range(av);
        }
        assert forall|t: int| 0 <= t < col_penalties(st, k).len() implies (#[trigger] col_penalties(st, k)[t]).0 >= 0 by {
            if t < prev.len() {
                assert(col_penalties(st, k)[t] == prev[t]);
            } else {
                assert(col_penalties(st, k)[t] == ent[t - prev.len()]);
            }
        }
    }
}

/// `k` is the last place of a largest penalty in `pens`.
pub open spec fn last_largest(pens: Seq<(i32, i32)>, k: int) -> bool {
    &&& 0 <= k < pens.len()
    &&& forall|t: int| 0 <= t < pens.len() ==> (#[trigger] pens[t]).0 <= pens[k].0
    &&& forall|t: int| k < t < pens.len() ==> (#[trigger] pens[t]).0 < pens[k].0
}

/// `x` is the first of the cheapest cells of `av`.
pub open spec fn first_cheapest(av: Seq<Node>, x: Node) -> bool {
    exists|i: int|
        0 <= i < av.len() && av[i] == x && (forall|q: int| 0 <= q < av.len() ==> x.node_cost <= #[trigger] av[q].node_cost)
            && (forall|q: int| 0 <= q < i ==> x.node_cost < #[trigger] av[q].node_cost)
}

/// The cell a round picks, on a grid fit for the rounds: none when no row
/// and no column has an entry.  Otherwise the last largest row entry and the
/// last largest column entry compete, the row winning a tie: a winning row
/// entry names the row whose first cheapest cell left is taken, a winning
/// column entry the column whose first cheapest cell left is taken.
pub proof fn lemma_pick_law(st: VogelState, nrows: nat, ncols: nat)
    requires
        vogel_grid_ok(st.grid, nrows, ncols),
    ensures
        ({
            let rp = row_penalties(st, nrows as int);
            let cp = col_penalties(st, ncols as int);
            &&& rp.len() == 0 && cp.len() == 0 ==> pick(st, nrows, ncols) is None
            &&& forall|k: int|
                #[trigger] last_largest(rp, k) && (forall|t: int| 0 <= t < cp.len() ==> (#[trigger] cp[t]).0 <= rp[k].0)
                    ==> pick(st, nrows, ncols) is Some && pick(st, nrows, ncols).unwrap().0 == rp[k].1 as int && (available(
                    st.used,
                    st.grid[rp[k].1 as int],
                ).len() > 0 ==> exists|x: Node|
                    first_cheapest(available(st.used, st.grid[rp[k].1 as int]), x) && pick(st, nrows, ncols).unwrap().1
                        == x.d_node_id as int)
            &&& forall|k: int|
                #[trigger] last_largest(cp, k) && (forall|t: int| 0 <= t < rp.len() ==> (#[trigger] rp[t]).0 < cp[k].0)
                    ==> pick(st, nrows, ncols) is Some && pick(st, nrows, ncols).unwrap().1 == cp[k].1 as int && (available(
                    st.used,
                    column_of(st.grid, cp[k].1 as int),
                ).len() > 0 ==> exists|x: Node|
                    first_cheapest(available(st.used, column_of(st.grid, cp[k].1 as int)), x) && pick(st, nrows, ncols).unwrap().0
                        == x.s_node_id as int)
        }),
{
    let rp = row_penalties(st, nrows as int);
    let cp = col_penalties(st, ncols as int);
    lemma_entries_nonneg(st, nrows, ncols);
    if rp.len() > 0 {
        lemma_last_max_exists(rp);
    }
    if cp.len() > 0 {
        lemma_last_max_exists(cp);
    }
    assert forall|k: int|
        #[trigger] last_largest(rp, k) && (forall|t: int| 0 <= t < cp.len() ==> (#[trigger] cp[t]).0 <= rp[k].0) implies pick(st, nrows, ncols) is Some
        && pick(st, nrows, ncols).unwrap().0 == rp[k].1 as int && (available(st.used, st.grid[rp[k].1 as int]).len() > 0
        ==> exists|x: Node|
        first_cheapest(available(st.used, st.grid[rp[k].1 as int]), x) && pick(st, nrows, ncols).unwrap().1
            == x.d_node_id as int) by {
        assert(is_last_max(rp, k));
        lemma_last_max_unique(rp, k);
        assert(top_penalty(rp) == rp[k]);
        if cp.len() > 0 {
            assert(top_penalty(cp) == cp[last_max(cp)]);
            assert(cp[last_max(cp)].0 <= rp[k].0);
        }
        let av = available(st.used, st.grid[rp[k].1 as int]);
        if av.len() > 0 {
            lemma_first_min_exists(av);
            let i = first_min(av);
            let x = av[i];
            assert(first_cheapest(av, x)) by {
                assert forall|q: int| 0 <= q < av.len() implies x.node_cost <= #[trigger] av[q].node_cost by {
                    assert(av[i].key_of() <= av[q].key_of());
                }
                assert forall|q: int| 0 <= q < i implies x.node_cost < #[trigger] av[q].node_cost by {
                    assert(av[q].key_of() > av[i].key_of());
                }
            }
            assert(cheapest(av) == x);
        }
    }
    assert forall|k: int|
        #[trigger] last_largest(cp, k) && (forall|t: int| 0 <= t < rp.len() ==> (#[trigger] rp[t]).0 < cp[k].0) implies pick(st, nrows, ncols) is Some
        && pick(st, nrows, ncols).unwrap().1 == cp[k].1 as int && (available(st.used, column_of(st.grid, cp[k].1 as int)).len() > 0
        ==> exists|x: Node|
        first_cheapest(available(st.used, column_of(st.grid, cp[k].1 as int)), x) && pick(st, nrows, ncols).unwrap().0
            == x.s_node_id as int) by {
        assert(is_last_max(cp, k));
        lemma_last_max_unique(cp, k);
        assert(top_penalty(cp) == cp[k]);
        if rp.len() > 0 {
            assert(top_penalty(rp) == rp[last_max(rp)]);
            assert(rp[last_max(rp)].0 < cp[k].0);
        }
        let av = available(st.used, column_of(st.grid, cp[k].1 as int));
        if av.len() > 0 {
            lemma_first_min_exists(av);
            let i = first_min(av);
            let x = av[i];
            assert(first_cheapest(av, x)) by {
                assert forall|q: int| 0 <= q < av.len() implies x.node_cost <= #[trigger] av[q].node_cost by {
                    assert(av[i].key_of() <= av[q].key_of());
                }
                assert forall|q: int| 0 <= q < i implies x.node_cost < #[trigger] av[q].node_cost by {
                    assert(av[q].key_of() > av[i].key_of());
                }
            }
            assert(cheapest(av) == x);
        }
    }
}

/// A non-empty sequence has a first smallest element.
pub proof fn lemma_first_min_exists<T: Keyed>(s: Seq<T>)
    requires
        s.len() > 0,
    ensures
        is_first_min(s, first_min(s)),
    decreases s.len(),
{
    if s.len() == 1 {
        assert(is_first_min(s, 0));
    } else {
        let init = s.drop_last();
        lemma_first_min_exists(init);
        let k = first_min(init);
        let last = s.len() - 1;
        if s[last].key_of() < s[k].key_of() {
            assert forall|j: int| 0 <= j < s.len() implies s[last].key_of() <= (#[trigger] s[j]).key_of() by {
                if j < last {
                    assert(init[j] == s[j]);
                    assert(init[k].key_of() <= init[j].key_of());
                }
            }
            assert forall|j: int| 0 <= j < last implies (#[trigger] s[j]).key_of() > s[last].key_of() by {
                assert(init[j] == s[j]);
                assert(init[k].key_of() <= init[j].key_of());
            }
            assert(is_first_min(s, last));
        } else {
            assert forall|j: int| 0 <= j < s.len() implies s[k].key_of() <= (#[trigger] s[j]).key_of() by {
                if j < last {
                    assert(init[j] == s[j]);
                }
            }
            assert forall|j: int| 0 <= j < k implies (#[trigger] s[j]).key_of() > s[k].key_of() by {
                assert(init[j] == s[j]);
            }
            assert(is_first_min(s, k));
        }
    }
}

} // verus!
