use vstd::prelude::*;
use ndarray::Array2;
use crate::node::Node;

verus! {

/// A two-dimensional `ndarray` array of nodes: row `i`, column `j` holds the
/// cell between supply node `i` and demand node `j`.
#[verifier::external_body]
pub struct Grid {
    cells: Array2<Node>,
}

/// The cells of a grid, in row-major order.
pub uninterp spec fn grid_cells(a: Grid) -> Seq<Node>;

/// The shape `(nrows, ncols)` that a grid was made with.
pub uninterp spec fn grid_dims(a: Grid) -> (nat, nat);

// ---------------------------------------------------------------------------
// The grid seen as rows of cells.
// ---------------------------------------------------------------------------

/// Row-major cells, cut into `nrows` rows of `ncols` cells.
pub open spec fn rows_of(cells: Seq<Node>, nrows: nat, ncols: nat) -> Seq<Seq<Node>> {
    Seq::new(nrows, |i: int| Seq::new(ncols, |j: int| cells[i * ncols + j]))
}

/// The rows of a grid.
pub open spec fn grid_view(a: Grid) -> Seq<Seq<Node>> {
    rows_of(grid_cells(a), grid_dims(a).0, grid_dims(a).1)
}

/// Column `j` of `g`, in row order.
pub open spec fn column_of(g: Seq<Seq<Node>>, j: int) -> Seq<Node> {
    Seq::new(g.len(), |i: int| g[i][j])
}

/// `g` has `nrows` rows of `ncols` cells each.
pub open spec fn is_rect(g: Seq<Seq<Node>>, nrows: nat, ncols: nat) -> bool {
    &&& g.len() == nrows
    &&& forall|i: int| 0 <= i < nrows ==> #[trigger] g[i].len() == ncols
}

/// Every cell knows where it stands: cell `(i, j)` links supply node `i`
/// with demand node `j`.
pub open spec fn ids_match(g: Seq<Seq<Node>>) -> bool {
    forall|i: int, j: int|
        0 <= i < g.len() && 0 <= j < g[i].len() ==> (#[trigger] g[i][j]).s_node_id == i
            && g[i][j].d_node_id == j
}

/// The row-major index of a cell lies in the grid.
pub proof fn lemma_index_in_range(i: int, j: int, nrows: int, ncols: int)
    requires
        0 <= i < nrows,
        0 <= j < ncols,
    ensures
        0 <= i * ncols + j < nrows * ncols,
{
    assert(0 <= i * ncols + j < nrows * ncols) by (nonlinear_arith)
        requires
            0 <= i < nrows,
            0 <= j < ncols,
    ;
}

/// Two cells with the same row-major index are the same cell.
pub proof fn lemma_index_unique(i: int, j: int, i2: int, j2: int, ncols: int)
    requires
        0 <= i,
        0 <= i2,
        0 <= j < ncols,
        0 <= j2 < ncols,
        i * ncols + j == i2 * ncols + j2,
    ensures
        i == i2 && j == j2,
{
    vstd::arithmetic::div_mod::lemma_fundamental_div_mod_converse(i * ncols + j, ncols, i, j);
    vstd::arithmetic::div_mod::lemma_fundamental_div_mod_converse(i2 * ncols + j2, ncols, i2, j2);
}

/// Writing one cell of the row-major sequence writes one cell of one row.
pub proof fn lemma_rows_of_update(cells: Seq<Node>, nrows: nat, ncols: nat, i: int, j: int, x: Node)
    requires
        cells.len() == nrows * ncols,
        0 <= i < nrows,
        0 <= j < ncols,
    ensures
        rows_of(cells.update(i * ncols + j, x), nrows, ncols) == rows_of(cells, nrows, ncols).update(
            i,
            rows_of(cells, nrows, ncols)[i].update(j, x),
        ),
{
    lemma_index_in_range(i, j, nrows as int, ncols as int);
    let lhs = rows_of(cells.update(i * ncols + j, x), nrows, ncols);
    let rhs = rows_of(cells, nrows, ncols).update(i, rows_of(cells, nrows, ncols)[i].update(j, x));
    assert forall|i2: int| 0 <= i2 < nrows implies #[trigger] lhs[i2] =~= rhs[i2] by {
        assert forall|j2: int| 0 <= j2 < ncols implies lhs[i2][j2] == rhs[i2][j2] by {
            lemma_index_in_range(i2, j2, nrows as int, ncols as int);
            if i2 * ncols + j2 == i * ncols + j {
                lemma_index_unique(i2, j2, i, j, ncols as int);
            }
        }
    }
    assert(lhs =~= rhs);
}

// ---------------------------------------------------------------------------
// Trusted access to the ndarray array.
// ---------------------------------------------------------------------------

/// `ArrayBase::nrows`: the length of the first axis.  Every array holds
/// exactly `nrows * ncols` cells, and ndarray's constructors refuse shapes
/// whose non-zero axis lengths multiply to more than `isize::MAX`.
#[verifier::external_body]
fn grid_nrows(a: &Grid) -> (r: usize)
    ensures
        r == grid_dims(*a).0,
        grid_cells(*a).len() == r * grid_dims(*a).1,
        nonzero_extent(r as nat, grid_dims(*a).1) <= isize::MAX,
{
    a.cells.nrows()
}

/// `ArrayBase::ncols`: the length of the second axis.
#[verifier::external_body]
fn grid_ncols(a: &Grid) -> (r: usize)
    ensures
        r == grid_dims(*a).1,
        grid_cells(*a).len() == grid_dims(*a).0 * r,
{
    a.cells.ncols()
}

/// `Index<(usize, usize)>` of `ArrayBase`: the cell at row `i`, column `j`
/// (panics out of bounds, hence the `requires`).
#[verifier::external_body]
fn grid_get(a: &Grid, i: usize, j: usize) -> (r: Node)
    requires
        i < grid_dims(*a).0,
        j < grid_dims(*a).1,
    ensures
        r == grid_cells(*a)[i * grid_dims(*a).1 + j],
{
    a.cells[(i, j)]
}

/// `IndexMut<(usize, usize)>` of `ArrayBase`: overwrite the cell at row `i`,
/// column `j`; the shape and every other cell stay as they were.
#[verifier::external_body]
fn grid_set(a: &mut Grid, i: usize, j: usize, x: Node)
    requires
        i < grid_dims(*old(a)).0,
        j < grid_dims(*old(a)).1,
    ensures
        grid_dims(*final(a)) == grid_dims(*old(a)),
        grid_cells(*final(a)) == grid_cells(*old(a)).update(i * grid_dims(*old(a)).1 + j, x),
{
    a.cells[(i, j)] = x;
}

/// The product of the lengths of the axes that are not zero.
pub open spec fn nonzero_extent(nrows: nat, ncols: nat) -> int {
    (if nrows == 0 { 1int } else { nrows as int }) * (if ncols == 0 { 1int } else { ncols as int })
}

/// `ArrayBase::from_shape_vec((nrows, ncols), v)`: a row-major array over the
/// vector; it fails when the vector's length is not `nrows * ncols` or when
/// the product of the non-zero axis lengths exceeds `isize::MAX`.
#[verifier::external_body]
fn grid_from_shape_vec(v: Vec<Node>, nrows: usize, ncols: usize) -> (r: Option<Grid>)
    ensures
        r is Some <==> (v.len() == nrows * ncols && nonzero_extent(nrows as nat, ncols as nat)
            <= isize::MAX),
        r matches Some(g) ==> grid_cells(g) == v@ && grid_dims(g) == (nrows as nat, ncols as nat),
{
    Array2::from_shape_vec((nrows, ncols), v).ok().map(|cells| Grid { cells })
}

// ---------------------------------------------------------------------------
// Verified access in terms of rows.
// ---------------------------------------------------------------------------

impl Grid {
    /// Build a grid of `nrows` rows and `ncols` columns from the row-major
    /// vector of its cells; `None` when the vector does not hold exactly
    /// `nrows * ncols` cells or the shape is too large for an array.
    pub fn from_vec(v: Vec<Node>, nrows: usize, ncols: usize) -> (r: Option<Grid>)
        ensures
            r is Some <==> (v.len() == nrows * ncols && nonzero_extent(nrows as nat, ncols as nat)
                <= isize::MAX),
            r matches Some(g) ==> grid_view(g) == rows_of(v@, nrows as nat, ncols as nat)
                && grid_dims(g) == (nrows as nat, ncols as nat),
    {
        grid_from_shape_vec(v, nrows, ncols)
    }

    /// The number of rows.
    pub fn nrows(&self) -> (r: usize)
        ensures
            r == grid_dims(*self).0,
            r * grid_dims(*self).1 <= usize::MAX,
            grid_cells(*self).len() == r * grid_dims(*self).1,
            grid_view(*self).len() == r,
            is_rect(grid_view(*self), r as nat, grid_dims(*self).1),
    {
        let r = grid_nrows(self);
        proof {
            let c = grid_dims(*self).1;
            assert(r * c <= nonzero_extent(r as nat, c)) by (nonlinear_arith)
                requires
                    r >= 0,
                    c >= 0,
                    nonzero_extent(r as nat, c) == (if r == 0 { 1int } else { r as int }) * (if c
                        == 0 { 1int } else { c as int }),
            ;
        }
        r
    }

    /// The number of columns.
    pub fn ncols(&self) -> (r: usize)
        ensures
            r == grid_dims(*self).1,
            is_rect(grid_view(*self), grid_dims(*self).0, r as nat),
    {
        grid_ncols(self)
    }

    /// The cell at row `i`, column `j`.
    pub fn get(&self, i: usize, j: usize) -> (r: Node)
        requires
            i < grid_dims(*self).0,
            j < grid_dims(*self).1,
        ensures
            r == grid_view(*self)[i as int][j as int],
    {
        grid_get(self, i, j)
    }

    /// The cells of row `i`, in column order.
    pub fn row(&self, i: usize) -> (r: Vec<Node>)
        requires
            i < grid_dims(*self).0,
        ensures
            r@ == grid_view(*self)[i as int],
    {
        let ncols = self.ncols();
        let mut r: Vec<Node> = Vec::new();
        let mut j: usize = 0;
        while j < ncols
            invariant
                i < grid_dims(*self).0,
                ncols == grid_dims(*self).1,
                is_rect(grid_view(*self), grid_dims(*self).0, ncols as nat),
                0 <= j <= ncols,
                r@ == grid_view(*self)[i as int].take(j as int),
            decreases ncols - j,
        {
            r.push(self.get(i, j));
            j = j + 1;
            assert(r@ =~= grid_view(*self)[i as int].take(j as int));
        }
        assert(r@ =~= grid_view(*self)[i as int]);
        r
    }

    /// The cells of column `j`, in row order.
    pub fn column(&self, j: usize) -> (r: Vec<Node>)
        requires
            j < grid_dims(*self).1,
        ensures
            r@ == column_of(grid_view(*self), j as int),
    {
        let nrows = self.nrows();
        let mut r: Vec<Node> = Vec::new();
        let mut i: usize = 0;
        while i < nrows
            invariant
                j < grid_dims(*self).1,
                nrows == grid_dims(*self).0,
                is_rect(grid_view(*self), nrows as nat, grid_dims(*self).1),
                0 <= i <= nrows,
                r@ == column_of(grid_view(*self), j as int).take(i as int),
            decreases nrows - i,
        {
            r.push(self.get(i, j));
            i = i + 1;
            assert(r@ =~= column_of(grid_view(*self), j as int).take(i as int));
        }
        assert(r@ =~= column_of(grid_view(*self), j as int));
        r
    }

    /// Overwrite the cell at row `i`, column `j`.
    pub fn set(&mut self, i: usize, j: usize, x: Node)
        requires
            i < grid_dims(*old(self)).0,
            j < grid_dims(*old(self)).1,
        ensures
            grid_dims(*final(self)) == grid_dims(*old(self)),
            grid_view(*final(self)) == grid_view(*old(self)).update(
                i as int,
                grid_view(*old(self))[i as int].update(j as int, x),
            ),
    {
        let ghost cells = grid_cells(*self);
        let ghost dims = grid_dims(*self);
        let nr = grid_nrows(self);
        grid_set(self, i, j, x);
        proof {
            lemma_rows_of_update(cells, dims.0, dims.1, i as int, j as int, x);
        }
    }
}

} // verus!
