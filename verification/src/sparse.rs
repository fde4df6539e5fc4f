use vstd::prelude::*;
use sprs::{CsMat, TriMat};

verus! {

#[verifier::external_type_specification]
#[verifier::external_body]
#[verifier::reject_recursive_types(IStorage)]
#[verifier::reject_recursive_types(DStorage)]
pub struct ExTriMatBase<IStorage, DStorage>(sprs::TriMatBase<IStorage, DStorage>);

/// A compressed sparse row matrix of `sprs`.  Every value of this type is
/// made by `TriMatBase::to_csr` and changed by `CsMatBase::insert` only, so
/// its storage is by rows.
#[verifier::external_body]
pub struct SparseTable {
    inner: CsMat<i32>,
}

/// The triplets `(row, column, value)` added to a triplet matrix, in order.
pub uninterp spec fn triplets(t: TriMat<i32>) -> Seq<(usize, usize, i32)>;

/// The shape `(nrows, ncols)` a triplet matrix was made with.
pub uninterp spec fn triplet_shape(t: TriMat<i32>) -> (nat, nat);

/// The stored entries `(column, value)` of each row of a sparse matrix, in storage order.
pub uninterp spec fn sparse_rows(m: SparseTable) -> Seq<Seq<(usize, i32)>>;

/// The shape `(nrows, ncols)` of a sparse matrix.
pub uninterp spec fn sparse_shape(m: SparseTable) -> (nat, nat);

/// The columns of `row` increase strictly.
pub open spec fn cols_increasing(row: Seq<(usize, i32)>) -> bool {
    forall|a: int, b: int| 0 <= a < b < row.len() ==> (#[trigger] row[a]).0 < (#[trigger] row[b]).0
}

/// No two triplets share a position.
pub open spec fn no_dup_positions(ts: Seq<(usize, usize, i32)>) -> bool {
    forall|a: int, b: int|
        0 <= a < b < ts.len() ==> !((#[trigger] ts[a]).0 == (#[trigger] ts[b]).0 && ts[a].1 == ts[b].1)
}

/// The entry `(j, v)` put into a row whose columns increase: it replaces the
/// entry of column `j`, or goes where column `j` belongs.
pub open spec fn sorted_insert(row: Seq<(usize, i32)>, j: usize, v: i32) -> Seq<(usize, i32)>
    decreases row.len(),
{
    if row.len() == 0 {
        seq![(j, v)]
    } else if row[0].0 == j {
        row.update(0, (j, v))
    } else if row[0].0 > j {
        seq![(j, v)] + row
    } else {
        seq![row[0]] + sorted_insert(row.drop_first(), j, v)
    }
}

/// `TriMatBase::new`: an empty triplet matrix of the given shape.
#[verifier::external_body]
pub(crate) fn tri_new(nrows: usize, ncols: usize) -> (t: TriMat<i32>)
    ensures
        triplets(t) == Seq::<(usize, usize, i32)>::empty(),
        triplet_shape(t) == (nrows as nat, ncols as nat),
{
    TriMat::new((nrows, ncols))
}

/// `TriMatBase::add_triplet`: append a triplet (it asserts that the position
/// lies in the shape).
#[verifier::external_body]
pub(crate) fn tri_add(t: &mut TriMat<i32>, row: usize, col: usize, val: i32)
    requires
        row < triplet_shape(*old(t)).0,
        col < triplet_shape(*old(t)).1,
    ensures
        triplets(*final(t)) == triplets(*old(t)).push((row, col, val)),
        triplet_shape(*final(t)) == triplet_shape(*old(t)),
{
    t.add_triplet(row, col, val)
}

/// `TriMatBase::to_csr`: the compressed sparse row matrix of the triplets.
/// It sorts them by position and adds up those at the same position (which
/// could overflow), hence the `requires`: no two share a position, and each
/// row holds, in increasing column order, exactly the entries of the
/// triplets of that row.
#[verifier::external_body]
pub(crate) fn tri_to_csr(t: &TriMat<i32>) -> (m: SparseTable)
    requires
        no_dup_positions(triplets(*t)),
    ensures
        sparse_shape(m) == triplet_shape(*t),
        sparse_rows(m).len() == triplet_shape(*t).0,
        forall|r: int|
            0 <= r < triplet_shape(*t).0 ==> cols_increasing(#[trigger] sparse_rows(m)[r])
                && forall|c: usize, v: i32|
                sparse_rows(m)[r].contains((c, v)) <==> triplets(*t).contains((r as usize, c, v)),
{
    SparseTable { inner: t.to_csr() }
}

/// `CsMatBase::rows`: the number of rows.
#[verifier::external_body]
pub(crate) fn sparse_nrows(m: &SparseTable) -> (r: usize)
    ensures
        r == sparse_shape(*m).0,
        sparse_rows(*m).len() == r,
{
    m.inner.rows()
}

/// `CsMatBase::cols`: the number of columns.
#[verifier::external_body]
pub(crate) fn sparse_ncols(m: &SparseTable) -> (r: usize)
    ensures
        r == sparse_shape(*m).1,
{
    m.inner.cols()
}

/// `CsMatBase::outer_view` of row `i`, read out as `(column, value)` pairs.
/// sprs keeps the columns of a row increasing and below the number of columns.
#[verifier::external_body]
pub(crate) fn sparse_row(m: &SparseTable, i: usize) -> (r: Vec<(usize, i32)>)
    requires
        i < sparse_shape(*m).0,
    ensures
        r@ == sparse_rows(*m)[i as int],
        cols_increasing(r@),
        forall|k: int| 0 <= k < r@.len() ==> (#[trigger] r@[k]).0 < sparse_shape(*m).1,
{
    m.inner.outer_view(i).unwrap().iter().map(|(c, v)| (c, *v)).collect()
}

/// `CsMatBase::insert` at row `i`, column `j` within the matrix: the entry
/// of column `j` is overwritten or added in its place.
#[verifier::external_body]
pub(crate) fn sparse_insert(m: &mut SparseTable, i: usize, j: usize, v: i32)
    requires
        i < sparse_shape(*old(m)).0,
        j < sparse_shape(*old(m)).1,
    ensures
        sparse_shape(*final(m)) == sparse_shape(*old(m)),
        sparse_rows(*final(m)) == sparse_rows(*old(m)).update(i as int, sorted_insert(sparse_rows(*old(m))[i as int], j, v)),
{
    m.inner.insert(i, j, v)
}

/// `Clone` of `CsMatBase`: an equal matrix.
#[verifier::external_body]
pub(crate) fn sparse_clone(m: &SparseTable) -> (r: SparseTable)
    ensures
        sparse_rows(r) == sparse_rows(*m),
        sparse_shape(r) == sparse_shape(*m),
{
    SparseTable { inner: m.inner.clone() }
}

/// The non-zero entries `(column, value)` of a dense row, in column order.
pub open spec fn sparse_of_row(row: Seq<i32>) -> Seq<(usize, i32)>
    decreases row.len(),
{
    if row.len() == 0 {
        Seq::empty()
    } else {
        let rest = sparse_of_row(row.drop_last());
        if row.last() != 0 {
            rest.push(((row.len() - 1) as usize, row.last()))
        } else {
            rest
        }
    }
}

/// The non-zero entries of a dense row have increasing columns inside
/// the row, and are exactly its non-zero cells.
pub proof fn lemma_sparse_of_row(row: Seq<i32>)
    requires
        row.len() <= usize::MAX + 1,
    ensures
        cols_increasing(sparse_of_row(row)),
        forall|k: int| 0 <= k < sparse_of_row(row).len() ==> (#[trigger] sparse_of_row(row)[k]).0 < row.len(),
        forall|c: usize, v: i32| sparse_of_row(row).contains((c, v)) <==> (c < row.len() && v == row[c as int] && v != 0),
    decreases row.len(),
{
    if row.len() > 0 {
        let init = row.drop_last();
        lemma_sparse_of_row(init);
        let rest = sparse_of_row(init);
        assert forall|c: usize, v: i32| sparse_of_row(row).contains((c, v)) <==> (c < row.len() && v == row[c as int] && v != 0) by {
            if row.last() != 0 {
                let last = ((row.len() - 1) as usize, row.last());
                if sparse_of_row(row).contains((c, v)) {
                    let k = choose|k: int| 0 <= k < sparse_of_row(row).len() && sparse_of_row(row)[k] == (c, v);
                    if k < rest.len() {
                        assert(rest.contains((c, v)));
                    }
                }
                if c < row.len() && v == row[c as int] && v != 0 {
                    if c < init.len() {
                        assert(init[c as int] == row[c as int]);
                        assert(rest.contains((c, v)));
                        let k = choose|k: int| 0 <= k < rest.len() && rest[k] == (c, v);
                        assert(sparse_of_row(row)[k] == (c, v));
                    } else {
                        assert(sparse_of_row(row)[rest.len() as int] == (c, v));
                    }
                }
            } else {
                if c < row.len() && v == row[c as int] && v != 0 {
                    assert(c < init.len());
                    assert(init[c as int] == row[c as int]);
                }
            }
        }
    }
}

/// Two rows whose columns increase and that hold the same entries are equal.
pub proof fn lemma_same_entries(a: Seq<(usize, i32)>, b: Seq<(usize, i32)>)
    requires
        cols_increasing(a),
        cols_increasing(b),
        forall|c: usize, v: i32| a.contains((c, v)) <==> b.contains((c, v)),
    ensures
        a == b,
    decreases a.len(),
{
    if a.len() == 0 {
        if b.len() > 0 {
            assert(b[0] == (b[0].0, b[0].1));
            assert(b.contains((b[0].0, b[0].1)));
            assert(a.contains((b[0].0, b[0].1)));
        }
        assert(a =~= b);
    } else {
        assert(a[0] == (a[0].0, a[0].1));
        assert(b[0] == (b[0].0, b[0].1));
        assert(a.contains((a[0].0, a[0].1)));
        assert(b.contains((a[0].0, a[0].1)));
        let k = choose|k: int| 0 <= k < b.len() && b[k] == a[0];
        assert(b.contains((b[0].0, b[0].1)));
        assert(a.contains((b[0].0, b[0].1)));
        let l = choose|l: int| 0 <= l < a.len() && a[l] == b[0];
        if l > 0 {
            assert(a[0].0 < a[l].0);
        }
        if k > 0 {
            assert(b[0].0 < b[k].0);
        }
        assert(a[0] == b[0]);
        let a1 = a.drop_first();
        let b1 = b.drop_first();
        assert forall|c: usize, v: i32| a1.contains((c, v)) <==> b1.contains((c, v)) by {
            if a1.contains((c, v)) {
                let t = choose|t: int| 0 <= t < a1.len() && a1[t] == (c, v);
                assert(a[t + 1] == (c, v));
                assert(a.contains((c, v)));
                let u = choose|u: int| 0 <= u < b.len() && b[u] == (c, v);
                assert(a[0].0 < a[t + 1].0);
                assert(u != 0);
                assert(b1[u - 1] == (c, v));
            }
            if b1.contains((c, v)) {
                let t = choose|t: int| 0 <= t < b1.len() && b1[t] == (c, v);
                assert(b[t + 1] == (c, v));
                assert(b.contains((c, v)));
                let u = choose|u: int| 0 <= u < a.len() && a[u] == (c, v);
                assert(b[0].0 < b[t + 1].0);
                assert(u != 0);
                assert(a1[u - 1] == (c, v));
            }
        }
        lemma_same_entries(a1, b1);
        assert(a =~= b) by {
            assert forall|t: int| 0 <= t < a.len() implies a[t] == b[t] by {
                if t > 0 {
                    assert(a[t] == a1[t - 1]);
                    assert(b[t] == b1[t - 1]);
                }
            }
        }
    }
}

/// Putting an entry into a row whose columns increase keeps them
/// increasing; the row then holds that entry and the entries of the other columns.
pub proof fn lemma_sorted_insert(row: Seq<(usize, i32)>, j: usize, v: i32)
    requires
        cols_increasing(row),
    ensures
        cols_increasing(sorted_insert(row, j, v)),
        forall|c: usize, w: i32|
            #![trigger sorted_insert(row, j, v).contains((c, w))]
            sorted_insert(row, j, v).contains((c, w)) <==> ((c == j && w == v) || (c != j && row.contains((c, w)))),
        forall|k: int| 0 <= k < sorted_insert(row, j, v).len() ==> ((#[trigger] sorted_insert(row, j, v)[k]).0 == j
            || exists|t: int| 0 <= t < row.len() && row[t].0 == sorted_insert(row, j, v)[k].0),
    decreases row.len(),
{
    let r = sorted_insert(row, j, v);
    if row.len() == 0 {
        assert forall|c: usize, w: i32| r.contains((c, w)) <==> ((c == j && w == v) || (c != j && row.contains((c, w)))) by {
            if c == j && w == v {
                assert(r[0] == (c, w));
            }
        }
    } else if row[0].0 == j {
        assert forall|c: usize, w: i32| r.contains((c, w)) <==> ((c == j && w == v) || (c != j && row.contains((c, w)))) by {
            if r.contains((c, w)) {
                let k = choose|k: int| 0 <= k < r.len() && r[k] == (c, w);
                if k > 0 {
                    assert(row[0].0 < row[k].0);
                    assert(row.contains((c, w)));
                }
            }
            if c != j && row.contains((c, w)) {
                let k = choose|k: int| 0 <= k < row.len() && row[k] == (c, w);
                assert(k != 0);
                assert(r[k] == (c, w));
            }
            if c == j && w == v {
                assert(r[0] == (c, w));
            }
        }
    } else if row[0].0 > j {
        assert forall|c: usize, w: i32| r.contains((c, w)) <==> ((c == j && w == v) || (c != j && row.contains((c, w)))) by {
            if r.contains((c, w)) {
                let k = choose|k: int| 0 <= k < r.len() && r[k] == (c, w);
                if k > 0 {
                    assert(r[k] == row[k - 1]);
                    assert(row.contains((c, w)));
                    assert(row[0].0 <= row[k - 1].0);
                }
            }
            if c != j && row.contains((c, w)) {
                let k = choose|k: int| 0 <= k < row.len() && row[k] == (c, w);
                assert(r[k + 1] == (c, w));
            }
            if c == j && w == v {
                assert(r[0] == (c, w));
            }
        }
        assert forall|a: int, b: int| 0 <= a < b < r.len() implies (#[trigger] r[a]).0 < (#[trigger] r[b]).0 by {
            if a > 0 {
                assert(r[a] == row[a - 1]);
            }
            assert(r[b] == row[b - 1]);
            assert(row[0].0 <= row[b - 1].0);
        }
    } else {
        let tail = row.drop_first();
        assert forall|a: int, b: int| 0 <= a < b < tail.len() implies (#[trigger] tail[a]).0 < (#[trigger] tail[b]).0 by {
            assert(tail[a] == row[a + 1]);
            assert(tail[b] == row[b + 1]);
        }
        lemma_sorted_insert(tail, j, v);
        let rt = sorted_insert(tail, j, v);
        assert(r == seq![row[0]] + rt);
        assert forall|a: int, b: int| 0 <= a < b < r.len() implies (#[trigger] r[a]).0 < (#[trigger] r[b]).0 by {
            if a > 0 {
                assert(r[a] == rt[a - 1]);
                assert(r[b] == rt[b - 1]);
            } else {
                assert(r[b] == rt[b - 1]);
                if rt[b - 1].0 != j {
                    let t = choose|t: int| 0 <= t < tail.len() && tail[t].0 == rt[b - 1].0;
                    assert(tail[t] == row[t + 1]);
                    assert(row[0].0 < row[t + 1].0);
                }
            }
        }
        assert forall|c: usize, w: i32| r.contains((c, w)) <==> ((c == j && w == v) || (c != j && row.contains((c, w)))) by {
            if r.contains((c, w)) {
                let k = choose|k: int| 0 <= k < r.len() && r[k] == (c, w);
                if k > 0 {
                    assert(rt[k - 1] == (c, w));
                    assert(rt.contains((c, w)));
                    if c != j {
                        assert(tail.contains((c, w)));
                        let t = choose|t: int| 0 <= t < tail.len() && tail[t] == (c, w);
                        assert(row[t + 1] == (c, w));
                    }
                } else {
                    assert(row[0] == (c, w));
                }
            }
            if c == j && w == v {
                assert(rt.contains((c, w)));
                let t = choose|t: int| 0 <= t < rt.len() && rt[t] == (c, w);
                assert(r[t + 1] == (c, w));
            }
            if c != j && row.contains((c, w)) {
                let k = choose|k: int| 0 <= k < row.len() && row[k] == (c, w);
                if k == 0 {
                    assert(r[0] == (c, w));
                } else {
                    assert(tail[k - 1] == (c, w));
                    assert(rt.contains((c, w)));
                    let t = choose|t: int| 0 <= t < rt.len() && rt[t] == (c, w);
                    assert(r[t + 1] == (c, w));
                }
            }
        }
        assert forall|k: int| 0 <= k < r.len() implies ((#[trigger] r[k]).0 == j || exists|t: int|
            0 <= t < row.len() && row[t].0 == r[k].0) by {
            if k == 0 {
                assert(row[0].0 == r[0].0);
            } else {
                assert(r[k] == rt[k - 1]);
                if rt[k - 1].0 != j {
                    let t = choose|t: int| 0 <= t < tail.len() && tail[t].0 == rt[k - 1].0;
                    assert(row[t + 1].0 == r[k].0);
                }
            }
        }
    }
}

/// Column `c` has a stored entry in `row`.
pub open spec fn row_has_col(row: Seq<(usize, i32)>, c: usize) -> bool {
    exists|k: int| 0 <= k < row.len() && row[k].0 == c
}

/// Where column `c` is stored in `row`.
pub open spec fn col_pos(row: Seq<(usize, i32)>, c: usize) -> int {
    choose|k: int| 0 <= k < row.len() && row[k].0 == c
}

/// The value stored for column `c` in `row`.
pub open spec fn value_at(row: Seq<(usize, i32)>, c: usize) -> i32 {
    row[col_pos(row, c)].1
}

/// In a row whose columns increase, the entry at position `k` is the one
/// stored for its column.
pub proof fn lemma_value_at(row: Seq<(usize, i32)>, k: int)
    requires
        cols_increasing(row),
        0 <= k < row.len(),
    ensures
        row_has_col(row, row[k].0),
        col_pos(row, row[k].0) == k,
        value_at(row, row[k].0) == row[k].1,
{
    let c = row[k].0;
    assert(row_has_col(row, c));
    let p = col_pos(row, c);
    if p < k {
        assert(row[p].0 < row[k].0);
    } else if p > k {
        assert(row[k].0 < row[p].0);
    }
}

/// `CsMatBase::to_dense`: the dense matrix, read out row by row; a cell
/// holds the entry stored for it, or zero.
#[verifier::external_body]
fn sparse_to_dense(m: &SparseTable) -> (r: Vec<Vec<i32>>)
    ensures
        r@.len() == sparse_shape(*m).0,
        forall|i: int|
            0 <= i < r@.len() ==> (#[trigger] r@[i])@.len() == sparse_shape(*m).1 && forall|c: int|
                0 <= c < sparse_shape(*m).1 ==> r@[i]@[c] == (if row_has_col(sparse_rows(*m)[i], c as usize) {
                    value_at(sparse_rows(*m)[i], c as usize)
                } else {
                    0
                }),
{
    m.inner.to_dense().outer_iter().map(|row| row.to_vec()).collect()
}

impl SparseTable {
    /// The dense matrix, row by row: each cell holds the entry stored for
    /// it, or zero.
    pub fn to_dense(&self) -> (r: Vec<Vec<i32>>)
        ensures
            r@.len() == sparse_shape(*self).0,
            forall|i: int|
                0 <= i < r@.len() ==> (#[trigger] r@[i])@.len() == sparse_shape(*self).1 && forall|c: int|
                    0 <= c < sparse_shape(*self).1 ==> r@[i]@[c] == (if row_has_col(sparse_rows(*self)[i], c as usize) {
                        value_at(sparse_rows(*self)[i], c as usize)
                    } else {
                        0
                    }),
    {
        sparse_to_dense(self)
    }
}

} // verus!
