use vstd::prelude::*;
use crate::grid::{Grid, grid_cells, grid_dims, grid_view, lemma_index_in_range};
use crate::node::Node;

verus! {

/// The sums reported after a run: the quantity assigned, its cost, the
/// supply left (summed over the first cell of each row) and the demand left
/// (summed over the first cell of each column).
#[derive(Debug, Clone, Copy, PartialEq, Eq, Structural)]
pub struct Totals {
    pub assigned: i32,
    pub cost: i32,
    pub supply_left: i32,
    pub demand_left: i32,
}

/// The sum of `xs`.
pub open spec fn seq_sum(xs: Seq<int>) -> int
    decreases xs.len(),
{
    if xs.len() == 0 {
        0
    } else {
        seq_sum(xs.drop_last()) + xs.last()
    }
}

/// `x` fits in an `i32`.
pub open spec fn in_i32(x: int) -> bool {
    i32::MIN <= x <= i32::MAX
}

/// Every running total of `xs`, from the first term on, fits in an `i32`.
pub open spec fn running_fits(xs: Seq<int>) -> bool {
    forall|k: int| 0 <= k <= xs.len() ==> in_i32(seq_sum(#[trigger] xs.take(k)))
}

/// The quantities assigned to the cells, in row-major order.
pub open spec fn qty_terms(cells: Seq<Node>) -> Seq<int> {
    cells.map_values(|n: Node| n.node_qty as int)
}

/// The costs of the quantities assigned to the cells, in row-major order.
pub open spec fn cost_terms(cells: Seq<Node>) -> Seq<int> {
    cells.map_values(|n: Node| n.node_qty as int * n.node_cost as int)
}

/// The supply left of each row, read from its first cell.
pub open spec fn supply_terms(g: Seq<Seq<Node>>) -> Seq<int> {
    Seq::new(g.len(), |i: int| g[i][0].s_qty as int)
}

/// The demand left of each of the `ncols` columns, read from its first cell.
pub open spec fn demand_terms(g: Seq<Seq<Node>>, ncols: nat) -> Seq<int> {
    Seq::new(ncols, |j: int| g[0][j].d_qty as int)
}

/// The totals of a grid can be reported: a grid with rows has columns and
/// the other way round, and every running total fits in an `i32`, as does
/// the cost of each cell.
pub open spec fn totals_ok(a: Grid) -> bool {
    let g = grid_view(a);
    let cells = grid_cells(a);
    &&& (grid_dims(a).0 == 0 <==> grid_dims(a).1 == 0)
    &&& running_fits(supply_terms(g))
    &&& running_fits(demand_terms(g, grid_dims(a).1))
    &&& running_fits(qty_terms(cells))
    &&& running_fits(cost_terms(cells))
    &&& forall|p: int| 0 <= p < cells.len() ==> in_i32(#[trigger] cost_terms(cells)[p])
}

proof fn lemma_next_index(i: int, j: int, c: int)
    requires
        j + 1 == c,
    ensures
        i * c + j + 1 == (i + 1) * c,
{
    assert(i * c + c == (i + 1) * c) by (nonlinear_arith);
}

/// Add the next term to a running total, or `None` when it leaves `i32`.
fn add_term(acc: i32, x: i32, xs: Ghost<Seq<int>>, k: Ghost<int>) -> (r: Option<i32>)
    requires
        0 <= k@ < xs@.len(),
        acc == seq_sum(xs@.take(k@)),
        x == xs@[k@],
    ensures
        xs@.take(k@ + 1).drop_last() == xs@.take(k@),
        r is Some <==> in_i32(seq_sum(xs@.take(k@ + 1))),
        r matches Some(v) ==> v == seq_sum(xs@.take(k@ + 1)),
{
    proof {
        assert(xs@.take(k@ + 1).drop_last() =~= xs@.take(k@));
    }
    acc.checked_add(x)
}

/// The totals reported after a run on the grid `a`: the sum of the assigned
/// quantities, the sum of their costs, and the supply and demand left;
/// `None` when they cannot be reported (see `totals_ok`).
pub fn grid_totals(a: &Grid) -> (r: Option<Totals>)
    ensures
        r is Some <==> totals_ok(*a),
        r matches Some(t) ==> {
            &&& t.assigned == seq_sum(qty_terms(grid_cells(*a)))
            &&& t.cost == seq_sum(cost_terms(grid_cells(*a)))
            &&& t.supply_left == seq_sum(supply_terms(grid_view(*a)))
            &&& t.demand_left == seq_sum(demand_terms(grid_view(*a), grid_dims(*a).1))
        },
{
    let nrows = a.nrows();
    let ncols = a.ncols();
    let ghost g = grid_view(*a);
    let ghost cells = grid_cells(*a);
    if (nrows == 0) != (ncols == 0) {
        return None;
    }
    proof {
        assert(cells.len() == nrows * ncols);
    }
    let ghost st = supply_terms(g);
    let mut s_total: i32 = 0;
    let mut i: usize = 0;
    while i < nrows
        invariant
            g == grid_view(*a),
            nrows == grid_dims(*a).0,
            ncols == grid_dims(*a).1,
            nrows > 0 ==> ncols > 0,
            st == supply_terms(g),
            0 <= i <= nrows,
            s_total == seq_sum(st.take(i as int)),
            forall|k: int| 0 <= k <= i ==> in_i32(seq_sum(#[trigger] st.take(k))),
        decreases nrows - i,
    {
        let x = a.get(i, 0).s_qty;
        s_total = match add_term(s_total, x, Ghost(st), Ghost(i as int)) {
            Some(v) => v,
            None => {
                return None;
            },
        };
        i = i + 1;
    }
    assert(st.take(nrows as int) =~= st);
    let ghost dt = demand_terms(g, ncols as nat);
    let mut d_total: i32 = 0;
    let mut j: usize = 0;
    while j < ncols
        invariant
            g == grid_view(*a),
            nrows == grid_dims(*a).0,
            ncols == grid_dims(*a).1,
            ncols > 0 ==> nrows > 0,
            dt == demand_terms(g, ncols as nat),
            0 <= j <= ncols,
            d_total == seq_sum(dt.take(j as int)),
            forall|k: int| 0 <= k <= j ==> in_i32(seq_sum(#[trigger] dt.take(k))),
        decreases ncols - j,
    {
        let x = a.get(0, j).d_qty;
        d_total = match add_term(d_total, x, Ghost(dt), Ghost(j as int)) {
            Some(v) => v,
            None => {
                return None;
            },
        };
        j = j + 1;
    }
    assert(dt.take(ncols as int) =~= dt);
    let ghost qt = qty_terms(cells);
    let ghost ct = cost_terms(cells);
    let mut assigned: i32 = 0;
    let mut cost: i32 = 0;
    let total = nrows * ncols;
    let mut p: usize = 0;
    let mut i: usize = 0;
    let mut j: usize = 0;
    while p < total
        invariant
            g == grid_view(*a),
            cells == grid_cells(*a),
            nrows == grid_dims(*a).0,
            ncols == grid_dims(*a).1,
            total == nrows * ncols,
            cells.len() == total,
            qt == qty_terms(cells),
            ct == cost_terms(cells),
            0 <= p <= total,
            p < total ==> i < nrows && j < ncols,
            p == i * ncols + j,
            assigned == seq_sum(qt.take(p as int)),
            cost == seq_sum(ct.take(p as int)),
            forall|k: int| 0 <= k <= p ==> in_i32(seq_sum(#[trigger] qt.take(k))),
            forall|k: int| 0 <= k <= p ==> in_i32(seq_sum(#[trigger] ct.take(k))),
            forall|k: int| 0 <= k < p ==> in_i32(#[trigger] ct[k]),
        decreases total - p,
    {
        let n = a.get(i, j);
        proof {
            lemma_index_in_range(i as int, j as int, nrows as int, ncols as int);
            assert(n == cells[p as int]);
        }
        assigned = match add_term(assigned, n.node_qty, Ghost(qt), Ghost(p as int)) {
            Some(v) => v,
            None => {
                return None;
            },
        };
        let c = match n.node_qty.checked_mul(n.node_cost) {
            Some(v) => v,
            None => {
                assert(!in_i32(ct[p as int]));
                return None;
            },
        };
        cost = match add_term(cost, c, Ghost(ct), Ghost(p as int)) {
            Some(v) => v,
            None => {
                return None;
            },
        };
        p = p + 1;
        if j + 1 < ncols {
            j = j + 1;
        } else {
            proof {
                lemma_next_index(i as int, j as int, ncols as int);
            }
            i = i + 1;
            j = 0;
            proof {
                if p < total {
                    assert(i < nrows) by (nonlinear_arith)
                        requires
                            p == i * ncols,
                            p < nrows * ncols,
                            ncols > 0,
                    ;
                }
            }
        }
    }
    assert(qt.take(total as int) =~= qt);
    assert(ct.take(total as int) =~= ct);
    Some(Totals { assigned, cost, supply_left: s_total, demand_left: d_total })
}

} // verus!
