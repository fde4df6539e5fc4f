use vstd::prelude::*;
use crate::conservation::{assigned, conserves};
use crate::grid::{Grid, column_of, grid_cells, grid_dims, grid_view, is_rect, lemma_index_in_range, rows_of};
use crate::node::Node;
use crate::totals::{demand_terms, qty_terms, seq_sum, supply_terms};

verus! {

/// The quantity assigned in each row.
pub open spec fn row_sums(h: Seq<Seq<Node>>) -> Seq<int> {
    Seq::new(h.len(), |i: int| assigned(h[i]))
}

/// The quantity assigned in each of the `ncols` columns.
pub open spec fn col_sums(h: Seq<Seq<Node>>, ncols: nat) -> Seq<int> {
    Seq::new(ncols, |j: int| assigned(column_of(h, j)))
}

/// The quantities assigned to the cells of `line`, one by one.
pub open spec fn line_terms(line: Seq<Node>) -> Seq<int> {
    Seq::new(line.len(), |j: int| line[j].node_qty as int)
}

/// Summing two sequences term by term sums their sums.
pub proof fn lemma_seq_sum_add(a: Seq<int>, b: Seq<int>, c: Seq<int>)
    requires
        a.len() == b.len(),
        b.len() == c.len(),
        forall|k: int| 0 <= k < c.len() ==> #[trigger] c[k] == a[k] + b[k],
    ensures
        seq_sum(c) == seq_sum(a) + seq_sum(b),
    decreases c.len(),
{
    if c.len() > 0 {
        assert forall|k: int| 0 <= k < c.drop_last().len() implies #[trigger] c.drop_last()[k] == a.drop_last()[k]
            + b.drop_last()[k] by {
            assert(c[k] == a[k] + b[k]);
        }
        lemma_seq_sum_add(a.drop_last(), b.drop_last(), c.drop_last());
        assert(c[c.len() - 1] == a[a.len() - 1] + b[b.len() - 1]);
    }
}

proof fn lemma_line_terms(line: Seq<Node>)
    ensures
        seq_sum(line_terms(line)) == assigned(line),
    decreases line.len(),
{
    if line.len() > 0 {
        lemma_line_terms(line.drop_last());
        assert(line_terms(line).drop_last() =~= line_terms(line.drop_last()));
    }
}

/// Summing the row-major terms of the first `i` rows and `j` more cells.
proof fn lemma_row_segment(cells: Seq<Node>, r: nat, c: nat, i: int, j: int)
    requires
        cells.len() == r * c,
        0 <= i < r,
        0 <= j <= c,
    ensures
        0 <= i * c + j <= cells.len(),
        seq_sum(qty_terms(cells).take(i * c + j)) == seq_sum(qty_terms(cells).take(i * c)) + assigned(
            rows_of(cells, r, c)[i].take(j),
        ),
    decreases j,
{
    let t = qty_terms(cells);
    let row = rows_of(cells, r, c)[i];
    if j == 0 {
        assert(0 <= i * c <= r * c) by (nonlinear_arith)
            requires
                0 <= i < r,
                0 <= c,
        ;
        assert(row.take(0) =~= Seq::<Node>::empty());
    } else {
        lemma_row_segment(cells, r, c, i, j - 1);
        lemma_index_in_range(i, j - 1, r as int, c as int);
        assert(t.take(i * c + j).drop_last() =~= t.take(i * c + j - 1));
        assert(row.take(j).drop_last() =~= row.take(j - 1));
        assert(row[j - 1] == cells[i * c + j - 1]);
    }
}

/// The sum of the row-major terms of the first `i` rows is the sum of what
/// those rows have assigned.
proof fn lemma_flat_prefix(cells: Seq<Node>, r: nat, c: nat, i: int)
    requires
        cells.len() == r * c,
        0 <= i <= r,
    ensures
        0 <= i * c <= cells.len(),
        seq_sum(qty_terms(cells).take(i * c)) == seq_sum(row_sums(rows_of(cells, r, c)).take(i)),
    decreases i,
{
    let rs = row_sums(rows_of(cells, r, c));
    if i == 0 {
        assert(qty_terms(cells).take(0) =~= Seq::<int>::empty());
        assert(rs.take(0) =~= Seq::<int>::empty());
    } else {
        lemma_flat_prefix(cells, r, c, i - 1);
        lemma_row_segment(cells, r, c, i - 1, c as int);
        assert((i - 1) * c + c == i * c) by (nonlinear_arith);
        assert(rows_of(cells, r, c)[i - 1].take(c as int) =~= rows_of(cells, r, c)[i - 1]);
        assert(rs.take(i).drop_last() =~= rs.take(i - 1));
    }
}

/// Summing column by column what is assigned gives what summing row by row gives.
pub proof fn lemma_cols_rows(h: Seq<Seq<Node>>, r: nat, c: nat, k: int)
    requires
        is_rect(h, r, c),
        0 <= k <= r,
    ensures
        seq_sum(col_sums(h.take(k), c)) == seq_sum(row_sums(h.take(k))),
    decreases k,
{
    if k == 0 {
        assert forall|j: int| 0 <= j < c implies #[trigger] col_sums(h.take(0), c)[j] == 0 by {
            assert(column_of(h.take(0), j) =~= Seq::<Node>::empty());
        }
        lemma_seq_sum_add(col_sums(h.take(0), c), col_sums(h.take(0), c), col_sums(h.take(0), c));
        assert(row_sums(h.take(0)) =~= Seq::<int>::empty());
    } else {
        lemma_cols_rows(h, r, c, k - 1);
        let prev = col_sums(h.take(k - 1), c);
        let cur = col_sums(h.take(k), c);
        let line = line_terms(h[k - 1]);
        assert(h[k - 1].len() == c);
        assert forall|j: int| 0 <= j < c implies #[trigger] cur[j] == prev[j] + line[j] by {
            assert(column_of(h.take(k), j).drop_last() =~= column_of(h.take(k - 1), j));
        }
        lemma_seq_sum_add(prev, line, cur);
        lemma_line_terms(h[k - 1]);
        assert(row_sums(h.take(k)).drop_last() =~= row_sums(h.take(k - 1)));
    }
}

/// Once cells have been filled with supply and demand conserved (see
/// `conserves`), the total quantity assigned plus the total supply left is
/// the total supply the grid started with, in a grid with columns; the
/// totals are those `grid_totals` reports.
pub proof fn lemma_supply_balance(a0: Grid, a1: Grid)
    requires
        grid_dims(a1) == grid_dims(a0),
        grid_dims(a0).1 > 0,
        grid_cells(a1).len() == grid_dims(a1).0 * grid_dims(a1).1,
        conserves(grid_view(a0), grid_view(a1), grid_dims(a0).0, grid_dims(a0).1),
    ensures
        seq_sum(qty_terms(grid_cells(a1))) + seq_sum(supply_terms(grid_view(a1))) == seq_sum(
            supply_terms(grid_view(a0)),
        ),
{
    let (r, c) = grid_dims(a0);
    let g = grid_view(a0);
    let h = grid_view(a1);
    lemma_flat_prefix(grid_cells(a1), r, c, r as int);
    assert(qty_terms(grid_cells(a1)).take((r * c) as int) =~= qty_terms(grid_cells(a1)));
    assert(row_sums(h).take(r as int) =~= row_sums(h));
    assert forall|i: int| 0 <= i < r implies #[trigger] supply_terms(g)[i] == supply_terms(h)[i] + row_sums(h)[i] by {
        assert(h[i][0].s_qty + assigned(h[i]) == g[i][0].s_qty);
    }
    lemma_seq_sum_add(supply_terms(h), row_sums(h), supply_terms(g));
}

/// Once cells have been filled with supply and demand conserved (see
/// `conserves`), the total quantity assigned plus the total demand left is
/// the total demand the grid started with, in a grid with rows; the totals
/// are those `grid_totals` reports.
pub proof fn lemma_demand_balance(a0: Grid, a1: Grid)
    requires
        grid_dims(a1) == grid_dims(a0),
        grid_dims(a0).0 > 0,
        grid_cells(a1).len() == grid_dims(a1).0 * grid_dims(a1).1,
        conserves(grid_view(a0), grid_view(a1), grid_dims(a0).0, grid_dims(a0).1),
    ensures
        seq_sum(qty_terms(grid_cells(a1))) + seq_sum(demand_terms(grid_view(a1), grid_dims(a1).1)) == seq_sum(
            demand_terms(grid_view(a0), grid_dims(a0).1),
        ),
{
    let (r, c) = grid_dims(a0);
    let g = grid_view(a0);
    let h = grid_view(a1);
    lemma_flat_prefix(grid_cells(a1), r, c, r as int);
    assert(qty_terms(grid_cells(a1)).take((r * c) as int) =~= qty_terms(grid_cells(a1)));
    assert(row_sums(h).take(r as int) =~= row_sums(h));
    lemma_cols_rows(h, r, c, r as int);
    assert(h.take(r as int) =~= h);
    assert forall|j: int| 0 <= j < c implies #[trigger] demand_terms(g, c)[j] == demand_terms(h, c)[j] + col_sums(
        h,
        c,
    )[j] by {
        assert(h[0][j].d_qty + assigned(column_of(h, j)) == g[0][j].d_qty);
    }
    lemma_seq_sum_add(demand_terms(h, c), col_sums(h, c), demand_terms(g, c));
}

} // verus!
