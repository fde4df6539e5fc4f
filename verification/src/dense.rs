use vstd::prelude::*;
use ndarray::Array2;

verus! {

/// A two-dimensional `ndarray` array of `i32`.
#[verifier::external_body]
pub struct DenseTable {
    cells: Array2<i32>,
}

/// The cells of a dense table, in row-major order.
pub uninterp spec fn dense_cells(t: DenseTable) -> Seq<i32>;

/// The shape `(nrows, ncols)` a dense table was made with.
pub uninterp spec fn dense_dims(t: DenseTable) -> (nat, nat);

/// The product of the lengths of the axes that are not zero.
pub open spec fn extent(nrows: nat, ncols: nat) -> int {
    (if nrows == 0 { 1int } else { nrows as int }) * (if ncols == 0 { 1int } else { ncols as int })
}

/// `ArrayBase::from_shape_vec((nrows, ncols), v)`: a row-major array over the
/// vector; it fails when the vector's length is not `nrows * ncols` or when
/// the product of the non-zero axis lengths exceeds `isize::MAX`.
#[verifier::external_body]
pub(crate) fn dense_from_shape_vec(v: Vec<i32>, nrows: usize, ncols: usize) -> (r: Option<DenseTable>)
    ensures
        r is Some <==> (v.len() == nrows * ncols && extent(nrows as nat, ncols as nat) <= isize::MAX),
        r matches Some(t) ==> dense_cells(t) == v@ && dense_dims(t) == (nrows as nat, ncols as nat),
{
    Array2::from_shape_vec((nrows, ncols), v).ok().map(|cells| DenseTable { cells })
}

/// `Index<(usize, usize)>` of `ArrayBase`: the cell at row `i`, column `j`.
#[verifier::external_body]
pub(crate) fn dense_get(t: &DenseTable, i: usize, j: usize) -> (r: i32)
    requires
        i < dense_dims(*t).0,
        j < dense_dims(*t).1,
    ensures
        r == dense_cells(*t)[i * dense_dims(*t).1 + j],
{
    t.cells[(i, j)]
}

} // verus!
