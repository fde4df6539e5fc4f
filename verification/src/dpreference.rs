use vstd::prelude::*;
use crate::assign::{cells_in_range, fill_all, fill_all_ok, fill_in_order, nonneg_qty, try_fill_in_order};
use crate::conservation::{conserves, exhausted_at, lemma_fill_all_conserves, lemma_fill_all_exhausts, lemma_permutation_keeps_cells, unassigned};
use crate::feasibility::{all_shipped, balanced, covers, lemma_fill_all_ships_everything, lemma_permutation_covers};
use crate::fogel::{consistent, ids, lemma_first_min_exists};
use crate::grid::{Grid, grid_dims, grid_view, ids_match, is_rect, column_of, lemma_index_in_range};
use crate::node::Node;
use crate::sorting::{
    Keyed, first_min, is_permutation, hits, lemma_stable_sorted_front, par_sort_by_preference, par_sort_stable,
    preference_le, stable_sorted,
};

verus! {

/// Every cell names a cell of the grid: its ids lie within the shape.
pub open spec fn ids_in_range(g: Seq<Seq<Node>>, nrows: nat, ncols: nat) -> bool {
    forall|i: int, j: int|
        0 <= i < nrows && 0 <= j < ncols ==> (#[trigger] g[i][j]).s_node_id < nrows && g[i][j].d_node_id < ncols
}

/// The largest grid whose preference marks are kept: far beyond what memory holds.
pub open spec fn max_cells() -> int {
    4611686018427387903
}

/// The cheapest cost of a non-empty line.
pub open spec fn line_min(line: Seq<Node>) -> int {
    line[first_min(line)].node_cost as int
}

/// Cell `c` costs `m` and names cell `(a, b)`.
pub open spec fn votes_for(c: Node, m: int, a: int, b: int) -> bool {
    c.node_cost == m && c.s_node_id == a && c.d_node_id == b
}

/// How many cells of `line` cost `m` and name cell `(a, b)`.
pub open spec fn count_votes(line: Seq<Node>, m: int, a: int, b: int) -> int
    decreases line.len(),
{
    if line.len() == 0 {
        0
    } else {
        count_votes(line.drop_last(), m, a, b) + if votes_for(line.last(), m, a, b) { 1int } else { 0int }
    }
}

/// How many of the cheapest cells of `line` name cell `(a, b)`.
pub open spec fn line_votes(line: Seq<Node>, a: int, b: int) -> int {
    if line.len() == 0 {
        0
    } else {
        count_votes(line, line_min(line), a, b)
    }
}

/// How many of the cheapest cells of the rows before `r` name cell `(a, b)`.
pub open spec fn row_votes(g: Seq<Seq<Node>>, r: int, a: int, b: int) -> int
    decreases r,
{
    if r <= 0 {
        0
    } else {
        row_votes(g, r - 1, a, b) + line_votes(g[r - 1], a, b)
    }
}

/// How many of the cheapest cells of the columns before `c` name cell `(a, b)`.
pub open spec fn col_votes(g: Seq<Seq<Node>>, c: int, a: int, b: int) -> int
    decreases c,
{
    if c <= 0 {
        0
    } else {
        col_votes(g, c - 1, a, b) + line_votes(column_of(g, c - 1), a, b)
    }
}

/// The preference of cell `(a, b)`: one less for each cell, cheapest in its
/// row, that names it, and one less for each cell, cheapest in its column,
/// that names it.
pub open spec fn preference(g: Seq<Seq<Node>>, nrows: nat, ncols: nat, a: int, b: int) -> int {
    -(row_votes(g, nrows as int, a, b) + col_votes(g, ncols as int, a, b))
}

/// A line in which no cell names `(a, b)` gives it no vote.
proof fn lemma_count_votes_none(line: Seq<Node>, m: int, a: int, b: int)
    requires
        forall|j: int| 0 <= j < line.len() ==> !((#[trigger] line[j]).s_node_id == a && line[j].d_node_id == b),
    ensures
        count_votes(line, m, a, b) == 0,
    decreases line.len(),
{
    if line.len() > 0 {
        assert forall|j: int| 0 <= j < line.drop_last().len() implies !((#[trigger] line.drop_last()[j]).s_node_id == a
            && line.drop_last()[j].d_node_id == b) by {
            assert(line.drop_last()[j] == line[j]);
        }
        lemma_count_votes_none(line.drop_last(), m, a, b);
        assert(line.last() == line[line.len() - 1]);
    }
}

/// A line in which only place `j0` names `(a, b)` gives it one vote when
/// that cell costs `m`, none otherwise.
proof fn lemma_count_votes_single(line: Seq<Node>, m: int, a: int, b: int, j0: int)
    requires
        0 <= j0 < line.len(),
        forall|j: int| 0 <= j < line.len() ==> (((#[trigger] line[j]).s_node_id == a && line[j].d_node_id == b) <==> j == j0),
    ensures
        count_votes(line, m, a, b) == (if line[j0].node_cost == m { 1int } else { 0int }),
    decreases line.len(),
{
    let init = line.drop_last();
    assert(line.last() == line[line.len() - 1]);
    if j0 == line.len() - 1 {
        assert forall|j: int| 0 <= j < init.len() implies !((#[trigger] init[j]).s_node_id == a && init[j].d_node_id == b) by {
            assert(init[j] == line[j]);
        }
        lemma_count_votes_none(init, m, a, b);
    } else {
        assert forall|j: int| 0 <= j < init.len() implies (((#[trigger] init[j]).s_node_id == a && init[j].d_node_id == b)
            <==> j == j0) by {
            assert(init[j] == line[j]);
        }
        lemma_count_votes_single(init, m, a, b, j0);
        assert(init[j0] == line[j0]);
    }
}

/// Cell `j` of a non-empty line costs the line's cheapest cost exactly when
/// it costs no more than any cell of the line.
proof fn lemma_line_min_is_cheapest(line: Seq<Node>, j: int)
    requires
        0 <= j < line.len(),
    ensures
        (line[j].node_cost == line_min(line)) <==> (forall|q: int| 0 <= q < line.len() ==> line[j].node_cost <= #[trigger] line[q].node_cost),
{
    lemma_first_min_exists(line);
    let k = first_min(line);
    assert(line[k].key_of() <= line[j].key_of());
    if forall|q: int| 0 <= q < line.len() ==> line[j].node_cost <= #[trigger] line[q].node_cost {
        assert(line[j].node_cost <= line[k].node_cost);
    }
    if line[j].node_cost == line_min(line) {
        assert forall|q: int| 0 <= q < line.len() implies line[j].node_cost <= #[trigger] line[q].node_cost by {
            assert(line[k].key_of() <= line[q].key_of());
        }
    }
}

/// On a grid whose cells know their place, the rows before `r` vote for
/// `(a, b)` once when row `a` is among them and cell `(a, b)` is a cheapest
/// cell of its row.
proof fn lemma_row_votes_placed(g: Seq<Seq<Node>>, nrows: nat, ncols: nat, r: int, a: int, b: int)
    requires
        is_rect(g, nrows, ncols),
        ids_match(g),
        0 <= r <= nrows,
        0 <= a < nrows,
        0 <= b < ncols,
    ensures
        row_votes(g, r, a, b) == (if a < r && (forall|q: int| 0 <= q < ncols ==> g[a][b].node_cost <= #[trigger] g[a][q].node_cost) {
            1int
        } else {
            0int
        }),
    decreases r,
{
    if r > 0 {
        lemma_row_votes_placed(g, nrows, ncols, r - 1, a, b);
        let line = g[r - 1];
        if r - 1 == a {
            assert forall|j: int| 0 <= j < line.len() implies (((#[trigger] line[j]).s_node_id == a && line[j].d_node_id == b)
                <==> j == b) by {
                assert(g[a][j].s_node_id == a && g[a][j].d_node_id == j);
            }
            lemma_count_votes_single(line, line_min(line), a, b, b);
            lemma_line_min_is_cheapest(line, b);
        } else {
            assert forall|j: int| 0 <= j < line.len() implies !((#[trigger] line[j]).s_node_id == a && line[j].d_node_id == b) by {
                assert(g[r - 1][j].s_node_id == r - 1);
            }
            lemma_count_votes_none(line, line_min(line), a, b);
        }
    }
}

/// On a grid whose cells know their place, the columns before `c` vote for
/// `(a, b)` once when column `b` is among them and cell `(a, b)` is a
/// cheapest cell of its column.
proof fn lemma_col_votes_placed(g: Seq<Seq<Node>>, nrows: nat, ncols: nat, c: int, a: int, b: int)
    requires
        is_rect(g, nrows, ncols),
        ids_match(g),
        0 <= c <= ncols,
        0 <= a < nrows,
        0 <= b < ncols,
    ensures
        col_votes(g, c, a, b) == (if b < c && (forall|q: int| 0 <= q < nrows ==> g[a][b].node_cost <= #[trigger] g[q][b].node_cost) {
            1int
        } else {
            0int
        }),
    decreases c,
{
    if c > 0 {
        lemma_col_votes_placed(g, nrows, ncols, c - 1, a, b);
        let line = column_of(g, c - 1);
        if c - 1 == b {
            assert forall|i: int| 0 <= i < line.len() implies (((#[trigger] line[i]).s_node_id == a && line[i].d_node_id == b)
                <==> i == a) by {
                assert(g[i][b].s_node_id == i && g[i][b].d_node_id == b);
            }
            lemma_count_votes_single(line, line_min(line), a, b, a);
            lemma_line_min_is_cheapest(line, a);
            assert((forall|q: int| 0 <= q < line.len() ==> line[a].node_cost <= #[trigger] line[q].node_cost) <==> (forall|q: int|
                0 <= q < nrows ==> g[a][b].node_cost <= #[trigger] g[q][b].node_cost)) by {
                if forall|q: int| 0 <= q < line.len() ==> line[a].node_cost <= #[trigger] line[q].node_cost {
                    assert forall|q: int| 0 <= q < nrows implies g[a][b].node_cost <= #[trigger] g[q][b].node_cost by {
                        assert(line[q] == g[q][b]);
                    }
                }
                if forall|q: int| 0 <= q < nrows ==> g[a][b].node_cost <= #[trigger] g[q][b].node_cost {
                    assert forall|q: int| 0 <= q < line.len() implies line[a].node_cost <= #[trigger] line[q].node_cost by {
                        assert(line[q] == g[q][b]);
                    }
                }
            }
        } else {
            assert forall|i: int| 0 <= i < line.len() implies !((#[trigger] line[i]).s_node_id == a && line[i].d_node_id == b) by {
                assert(g[i][c - 1].d_node_id == c - 1);
            }
            lemma_count_votes_none(line, line_min(line), a, b);
        }
    }
}

/// On a grid whose cells know their place, the preference of a cell is minus
/// the number of its lines in which it is a cheapest cell: `-2` for a cell
/// cheapest in its row and in its column, `-1` for one cheapest in one of
/// them, `0` otherwise.
pub proof fn lemma_double_preference(g: Seq<Seq<Node>>, nrows: nat, ncols: nat, a: int, b: int)
    requires
        is_rect(g, nrows, ncols),
        ids_match(g),
        0 <= a < nrows,
        0 <= b < ncols,
    ensures
        preference(g, nrows, ncols, a, b) == -((if forall|q: int| 0 <= q < ncols ==> g[a][b].node_cost <= #[trigger] g[a][q].node_cost {
            1int
        } else {
            0int
        }) + (if forall|q: int| 0 <= q < nrows ==> g[a][b].node_cost <= #[trigger] g[q][b].node_cost {
            1int
        } else {
            0int
        })),
{
    lemma_row_votes_placed(g, nrows, ncols, nrows as int, a, b);
    lemma_col_votes_placed(g, nrows, ncols, ncols as int, a, b);
}

/// Every cell with the preference of its place, in row-major order.
pub open spec fn preference_pairs(g: Seq<Seq<Node>>, nrows: nat, ncols: nat) -> Seq<(i64, Node)> {
    Seq::new(
        nrows * ncols,
        |k: int|
            (
                preference(g, nrows, ncols, k / ncols as int, k % ncols as int) as i64,
                g[k / ncols as int][k % ncols as int],
            ),
    )
}

/// The nodes of preference-and-node pairs.
pub open spec fn nodes_of(s: Seq<(i64, Node)>) -> Seq<Node> {
    s.map_values(|x: (i64, Node)| x.1)
}

/// `o` holds the cells of `g` with their preferences, ordered by preference
/// and then by cost.
pub open spec fn preference_order(g: Seq<Seq<Node>>, nrows: nat, ncols: nat, o: Seq<(i64, Node)>) -> bool {
    &&& forall|i: int, j: int| 0 <= i <= j < o.len() ==> preference_le(#[trigger] o[i], #[trigger] o[j])
    &&& exists|p: Seq<int>| #[trigger] is_permutation(preference_pairs(g, nrows, ncols), o, p)
}

/// The marks of every place, flat row-major, once the rows before `r` and
/// the columns before `c` have voted.
spec fn pref_state(g: Seq<Seq<Node>>, ncols: nat, r: int, c: int, q: int) -> int {
    -(row_votes(g, r, q / ncols as int, q % ncols as int) + col_votes(g, c, q / ncols as int, q % ncols as int))
}

proof fn lemma_split_index(i: int, j: int, ncols: int)
    requires
        0 <= i,
        0 <= j < ncols,
    ensures
        (i * ncols + j) / ncols == i,
        (i * ncols + j) % ncols == j,
{
    vstd::arithmetic::div_mod::lemma_fundamental_div_mod_converse(i * ncols + j, ncols, i, j);
}

proof fn lemma_row_major_index(k: int, nrows: int, ncols: int)
    requires
        0 <= k < nrows * ncols,
        ncols > 0,
    ensures
        0 <= k / ncols < nrows,
        0 <= k % ncols < ncols,
        k == ncols * (k / ncols) + k % ncols,
{
    vstd::arithmetic::div_mod::lemma_fundamental_div_mod(k, ncols);
    let q = k / ncols;
    let r = k % ncols;
    assert(0 <= q < nrows) by (nonlinear_arith)
        requires
            k == ncols * q + r,
            0 <= r < ncols,
            0 <= k < nrows * ncols,
            ncols > 0,
    ;
}

// ---------------------------------------------------------------------------
// Counting votes.
// ---------------------------------------------------------------------------

proof fn lemma_count_bound(line: Seq<Node>, m: int, a: int, b: int)
    ensures
        0 <= count_votes(line, m, a, b) <= line.len(),
    decreases line.len(),
{
    if line.len() > 0 {
        lemma_count_bound(line.drop_last(), m, a, b);
    }
}

/// Taking one cell out of a line takes out its vote.
proof fn lemma_count_remove(s: Seq<Node>, j: int, m: int, a: int, b: int)
    requires
        0 <= j < s.len(),
    ensures
        count_votes(s, m, a, b) == count_votes(s.remove(j), m, a, b) + if votes_for(s[j], m, a, b) { 1int } else { 0int },
    decreases s.len(),
{
    if j == s.len() - 1 {
        assert(s.remove(j) =~= s.drop_last());
    } else {
        lemma_count_remove(s.drop_last(), j, m, a, b);
        assert(s.remove(j).drop_last() =~= s.drop_last().remove(j));
        assert(s.remove(j).last() == s.last());
    }
}

/// Reordering a line does not change its votes.
proof fn lemma_count_perm(s: Seq<Node>, t: Seq<Node>, p: Seq<int>, m: int, a: int, b: int)
    requires
        is_permutation(s, t, p),
    ensures
        count_votes(t, m, a, b) == count_votes(s, m, a, b),
    decreases t.len(),
{
    let n = t.len() as int;
    if n > 0 {
        let j0 = p[n - 1];
        let s2 = s.remove(j0);
        let t2 = t.drop_last();
        let p2 = Seq::new((n - 1) as nat, |i: int| if p[i] < j0 { p[i] } else { p[i] - 1 });
        assert forall|i: int| 0 <= i < t2.len() implies 0 <= #[trigger] p2[i] < s2.len() && t2[i] == s2[p2[i]] by {
            assert(p[i] != p[n - 1]);
            assert(t[i] == s[p[i]]);
        }
        assert forall|i: int, j: int| 0 <= i < j < t2.len() implies #[trigger] p2[i] != #[trigger] p2[j] by {
            assert(p[i] != p[j]);
            assert(p[i] != p[n - 1]);
            assert(p[j] != p[n - 1]);
        }
        assert forall|k: int| 0 <= k < s2.len() implies #[trigger] hits(p2, t2.len() as int, k) by {
            let k0 = if k < j0 { k } else { k + 1 };
            assert(hits(p, n, k0));
            let i = choose|i: int| 0 <= i < n && p[i] == k0;
            assert(i != n - 1);
            assert(p2[i] == k);
        }
        assert(is_permutation(s2, t2, p2));
        lemma_count_perm(s2, t2, p2, m, a, b);
        lemma_count_remove(s, j0, m, a, b);
        assert(t[n - 1] == s[j0]);
    }
}

proof fn lemma_row_votes_bound(g: Seq<Seq<Node>>, nrows: nat, ncols: nat, r: int, a: int, b: int)
    requires
        is_rect(g, nrows, ncols),
        0 <= r <= nrows,
    ensures
        0 <= row_votes(g, r, a, b) <= r * ncols,
    decreases r,
{
    if r > 0 {
        lemma_row_votes_bound(g, nrows, ncols, r - 1, a, b);
        if g[r - 1].len() > 0 {
            lemma_count_bound(g[r - 1], line_min(g[r - 1]), a, b);
        }
        assert(r * ncols == (r - 1) * ncols + ncols) by (nonlinear_arith);
    }
}

proof fn lemma_col_votes_bound(g: Seq<Seq<Node>>, nrows: nat, ncols: nat, c: int, a: int, b: int)
    requires
        is_rect(g, nrows, ncols),
        0 <= c <= ncols,
    ensures
        0 <= col_votes(g, c, a, b) <= c * nrows,
    decreases c,
{
    if c > 0 {
        lemma_col_votes_bound(g, nrows, ncols, c - 1, a, b);
        if column_of(g, c - 1).len() > 0 {
            lemma_count_bound(column_of(g, c - 1), line_min(column_of(g, c - 1)), a, b);
        }
        assert(c * nrows == (c - 1) * nrows + nrows) by (nonlinear_arith);
    }
}

/// Lower by one the mark of the place each cheapest cell of `line` names.
fn mark_minima(pref: &mut Vec<i64>, line: Vec<Node>, nrows: usize, ncols: usize, Ghost(done): Ghost<int>)
    requires
        old(pref)@.len() == nrows * ncols,
        nrows * ncols <= usize::MAX,
        forall|k: int| 0 <= k < line@.len() ==> (#[trigger] line@[k]).s_node_id < nrows && line@[k].d_node_id < ncols,
        forall|q: int| 0 <= q < old(pref)@.len() ==> #[trigger] old(pref)@[q] >= -done,
        0 <= done,
        done + line@.len() <= i64::MAX,
    ensures
        final(pref)@.len() == old(pref)@.len(),
        forall|q: int|
            0 <= q < final(pref)@.len() ==> #[trigger] final(pref)@[q] == old(pref)@[q] - line_votes(
                line@,
                q / ncols as int,
                q % ncols as int,
            ),
        forall|q: int| 0 <= q < final(pref)@.len() ==> #[trigger] final(pref)@[q] >= -(done + line@.len()),
{
    let ghost l0 = line@;
    let mut v = line;
    if v.len() == 0 {
        return;
    }
    par_sort_stable(&mut v);
    let ghost m = line_min(l0);
    let ghost before = pref@;
    proof {
        lemma_stable_sorted_front(l0, v@);
        let p = choose|p: Seq<int>|
            #[trigger] is_permutation(l0, v@, p) && forall|i: int, j: int|
                0 <= i < j < v@.len() && (#[trigger] v@[i]).key_of() == (#[trigger] v@[j]).key_of() ==> p[i] < p[j];
        assert forall|t: int| 0 <= t < v@.len() implies (#[trigger] v@[t]).s_node_id < nrows && v@[t].d_node_id < ncols by {
            assert(v@[t] == l0[p[t]]);
        }
        assert(v@.take(0) =~= Seq::<Node>::empty());
    }
    let mut k: usize = 0;
    while k < v.len()
        invariant
            v@.len() == l0.len(),
            v@.len() > 0,
            stable_sorted(l0, v@),
            v@[0].node_cost == m,
            forall|t: int| 0 <= t < v@.len() ==> (#[trigger] v@[t]).s_node_id < nrows && v@[t].d_node_id < ncols,
            before.len() == nrows * ncols,
            nrows * ncols <= usize::MAX,
            pref@.len() == before.len(),
            forall|q: int| 0 <= q < before.len() ==> #[trigger] before[q] >= -done,
            0 <= done,
            done + v@.len() <= i64::MAX,
            0 <= k <= v@.len(),
            forall|q: int|
                0 <= q < pref@.len() ==> #[trigger] pref@[q] == before[q] - count_votes(
                    v@.take(k as int),
                    m,
                    q / ncols as int,
                    q % ncols as int,
                ),
        decreases v.len() - k,
    {
        let ghost pk = pref@;
        proof {
            assert(v@.take(k + 1).drop_last() =~= v@.take(k as int));
            assert(v@.take(k + 1).last() == v@[k as int]);
        }
        if k == 0 || v[k].node_cost == v[0].node_cost {
            let x = v[k];
            proof {
                lemma_index_in_range(x.s_node_id as int, x.d_node_id as int, nrows as int, ncols as int);
                lemma_split_index(x.s_node_id as int, x.d_node_id as int, ncols as int);
            }
            let idx = x.s_node_id * ncols + x.d_node_id;
            proof {
                let qa = idx as int / ncols as int;
                let qb = idx as int % ncols as int;
                lemma_count_bound(v@.take(k as int), m, qa, qb);
            }
            let val = pref[idx] - 1;
            pref.set(idx, val);
            proof {
                assert forall|q: int| 0 <= q < pref@.len() implies #[trigger] pref@[q] == before[q] - count_votes(
                    v@.take(k + 1),
                    m,
                    q / ncols as int,
                    q % ncols as int,
                ) by {
                    if q != idx {
                        assert(pref@[q] == pk[q]);
                        vstd::arithmetic::div_mod::lemma_fundamental_div_mod(q, ncols as int);
                        if q / ncols as int == x.s_node_id && q % ncols as int == x.d_node_id {
                            assert(q == ncols * x.s_node_id + x.d_node_id);
                            assert(ncols * x.s_node_id == x.s_node_id * ncols) by (nonlinear_arith);
                        }
                    }
                }
            }
        } else {
            proof {
                assert forall|q: int| 0 <= q < pref@.len() implies #[trigger] pref@[q] == before[q] - count_votes(
                    v@.take(k + 1),
                    m,
                    q / ncols as int,
                    q % ncols as int,
                ) by {
                }
            }
        }
        k = k + 1;
    }
    proof {
        assert(v@.take(k as int) =~= v@);
        let p = choose|p: Seq<int>| #[trigger] is_permutation(l0, v@, p);
        assert forall|q: int| 0 <= q < pref@.len() implies #[trigger] pref@[q] == before[q] - line_votes(
            l0,
            q / ncols as int,
            q % ncols as int,
        ) && pref@[q] >= -(done + l0.len()) by {
            lemma_count_perm(l0, v@, p, m, q / ncols as int, q % ncols as int);
            lemma_count_bound(l0, m, q / ncols as int, q % ncols as int);
        }
    }
}

/// The marks of every place, row-major: one less for each cheapest cell of
/// a row, and one less for each cheapest cell of a column, that names it.
fn preferences(a: &Grid) -> (pref: Vec<i64>)
    requires
        ids_in_range(grid_view(*a), grid_dims(*a).0, grid_dims(*a).1),
        grid_dims(*a).0 * grid_dims(*a).1 <= max_cells(),
    ensures
        is_rect(grid_view(*a), grid_dims(*a).0, grid_dims(*a).1),
        grid_dims(*a).0 <= usize::MAX,
        grid_dims(*a).1 <= usize::MAX,
        pref@.len() == grid_dims(*a).0 * grid_dims(*a).1,
        forall|i: int, j: int|
            0 <= i < grid_dims(*a).0 && 0 <= j < grid_dims(*a).1 ==> pref@[i * grid_dims(*a).1 + j]
                == #[trigger] preference(grid_view(*a), grid_dims(*a).0, grid_dims(*a).1, i, j),
{
    let nrows = a.nrows();
    let ncols = a.ncols();
    let ghost g = grid_view(*a);
    let total = nrows * ncols;
    let mut pref: Vec<i64> = Vec::new();
    while pref.len() < total
        invariant
            pref@.len() <= total,
            forall|k: int| 0 <= k < pref@.len() ==> #[trigger] pref@[k] == 0,
        decreases total - pref@.len(),
    {
        pref.push(0);
    }
    let mut r: usize = 0;
    while r < nrows
        invariant
            g == grid_view(*a),
            ids_in_range(g, nrows as nat, ncols as nat),
            is_rect(g, nrows as nat, ncols as nat),
            nrows == grid_dims(*a).0,
            ncols == grid_dims(*a).1,
            total == nrows * ncols,
            total <= max_cells(),
            0 <= r <= nrows,
            pref@.len() == total,
            forall|q: int| 0 <= q < pref@.len() ==> #[trigger] pref@[q] == pref_state(g, ncols as nat, r as int, 0, q),
            forall|q: int| 0 <= q < pref@.len() ==> #[trigger] pref@[q] >= -(r * ncols),
        decreases nrows - r,
    {
        let row = a.row(r);
        proof {
            assert((r + 1) * ncols <= nrows * ncols) by (nonlinear_arith)
                requires
                    r < nrows,
            ;
            assert(r * ncols + ncols == (r + 1) * ncols) by (nonlinear_arith);
            assert forall|k: int| 0 <= k < row@.len() implies (#[trigger] row@[k]).s_node_id < nrows
                && row@[k].d_node_id < ncols by {
                assert(row@[k] == g[r as int][k]);
            }
        }
        let ghost pr = pref@;
        mark_minima(&mut pref, row, nrows, ncols, Ghost(r * ncols));
        r = r + 1;
        proof {
            assert forall|q: int| 0 <= q < pref@.len() implies #[trigger] pref@[q] == pref_state(
                g,
                ncols as nat,
                r as int,
                0,
                q,
            ) by {
                assert(pr[q] == pref_state(g, ncols as nat, r - 1, 0, q));
            }
        }
    }
    let mut c: usize = 0;
    while c < ncols
        invariant
            g == grid_view(*a),
            ids_in_range(g, nrows as nat, ncols as nat),
            is_rect(g, nrows as nat, ncols as nat),
            nrows == grid_dims(*a).0,
            ncols == grid_dims(*a).1,
            total == nrows * ncols,
            total <= max_cells(),
            0 <= c <= ncols,
            pref@.len() == total,
            forall|q: int|
                0 <= q < pref@.len() ==> #[trigger] pref@[q] == pref_state(g, ncols as nat, nrows as int, c as int, q),
            forall|q: int| 0 <= q < pref@.len() ==> #[trigger] pref@[q] >= -(total + c * nrows),
        decreases ncols - c,
    {
        let col = a.column(c);
        proof {
            assert((c + 1) * nrows <= ncols * nrows) by (nonlinear_arith)
                requires
                    c < ncols,
            ;
            assert(ncols * nrows == nrows * ncols) by (nonlinear_arith);
            assert(c * nrows + nrows == (c + 1) * nrows) by (nonlinear_arith);
            assert forall|k: int| 0 <= k < col@.len() implies (#[trigger] col@[k]).s_node_id < nrows
                && col@[k].d_node_id < ncols by {
                assert(col@[k] == g[k][c as int]);
            }
        }
        let ghost pr = pref@;
        mark_minima(&mut pref, col, nrows, ncols, Ghost(total + c * nrows));
        c = c + 1;
        proof {
            assert forall|q: int| 0 <= q < pref@.len() implies #[trigger] pref@[q] == pref_state(
                g,
                ncols as nat,
                nrows as int,
                c as int,
                q,
            ) by {
                assert(pr[q] == pref_state(g, ncols as nat, nrows as int, c - 1, q));
            }
        }
    }
    proof {
        assert forall|i: int, j: int| 0 <= i < nrows && 0 <= j < ncols implies pref@[i * ncols + j]
            == #[trigger] preference(g, nrows as nat, ncols as nat, i, j) by {
            lemma_index_in_range(i, j, nrows as int, ncols as int);
            lemma_split_index(i, j, ncols as int);
        }
    }
    pref
}

/// Every cell paired with the mark of its place, row-major.
fn preference_list(a: &Grid, pref: &Vec<i64>) -> (pairs: Vec<(i64, Node)>)
    requires
        pref@.len() == grid_dims(*a).0 * grid_dims(*a).1,
        forall|i: int, j: int|
            0 <= i < grid_dims(*a).0 && 0 <= j < grid_dims(*a).1 ==> pref@[i * grid_dims(*a).1 + j]
                == #[trigger] preference(grid_view(*a), grid_dims(*a).0, grid_dims(*a).1, i, j),
    ensures
        pairs@ == preference_pairs(grid_view(*a), grid_dims(*a).0, grid_dims(*a).1),
{
    let nrows = a.nrows();
    let ncols = a.ncols();
    let ghost g = grid_view(*a);
    let ghost all = preference_pairs(g, nrows as nat, ncols as nat);
    let mut pairs: Vec<(i64, Node)> = Vec::new();
    let mut i: usize = 0;
    while i < nrows
        invariant
            g == grid_view(*a),
            all == preference_pairs(g, nrows as nat, ncols as nat),
            nrows == grid_dims(*a).0,
            ncols == grid_dims(*a).1,
            nrows * ncols <= usize::MAX,
            0 <= i <= nrows,
            pref@.len() == nrows * ncols,
            forall|i2: int, j2: int|
                0 <= i2 < nrows && 0 <= j2 < ncols ==> pref@[i2 * ncols + j2] == #[trigger] preference(
                    g,
                    nrows as nat,
                    ncols as nat,
                    i2,
                    j2,
                ),
            pairs@ == all.take(i * ncols),
        decreases nrows - i,
    {
        let mut j: usize = 0;
        proof {
            lemma_index_in_range(i as int, 0, nrows as int, ncols as int + 1);
            assert(i * ncols <= nrows * ncols) by (nonlinear_arith)
                requires
                    i < nrows,
                    ncols >= 0,
            ;
        }
        while j < ncols
            invariant
                g == grid_view(*a),
                all == preference_pairs(g, nrows as nat, ncols as nat),
                nrows == grid_dims(*a).0,
                ncols == grid_dims(*a).1,
                nrows * ncols <= usize::MAX,
                i < nrows,
                0 <= j <= ncols,
                pref@.len() == nrows * ncols,
                forall|i2: int, j2: int|
                    0 <= i2 < nrows && 0 <= j2 < ncols ==> pref@[i2 * ncols + j2] == #[trigger] preference(
                        g,
                        nrows as nat,
                        ncols as nat,
                        i2,
                        j2,
                    ),
                pairs@ == all.take(i * ncols + j),
            decreases ncols - j,
        {
            proof {
                lemma_index_in_range(i as int, j as int, nrows as int, ncols as int);
                lemma_split_index(i as int, j as int, ncols as int);
            }
            let k = i * ncols + j;
            let x = a.get(i, j);
            let ghost _ = preference(g, nrows as nat, ncols as nat, i as int, j as int);
            pairs.push((pref[k], x));
            j = j + 1;
            assert(pairs@ =~= all.take(i * ncols + j));
        }
        i = i + 1;
        assert(i * ncols == (i - 1) * ncols + ncols) by (nonlinear_arith);
    }
    assert(pairs@ =~= all);
    pairs
}

/// The cells in the order the double-preference assignment fills them: by
/// preference, then by cost (the order of equal pairs is rayon's choice).
fn preference_fill_order(a: &Grid) -> (order: Vec<Node>)
    requires
        ids_in_range(grid_view(*a), grid_dims(*a).0, grid_dims(*a).1),
        grid_dims(*a).0 * grid_dims(*a).1 <= max_cells(),
    ensures
        is_rect(grid_view(*a), grid_dims(*a).0, grid_dims(*a).1),
        grid_dims(*a).0 <= usize::MAX,
        grid_dims(*a).1 <= usize::MAX,
        exists|o: Seq<(i64, Node)>|
            preference_order(grid_view(*a), grid_dims(*a).0, grid_dims(*a).1, o) && order@ == nodes_of(o),
{
    let pref = preferences(a);
    let mut task_vec = preference_list(a, &pref);
    par_sort_by_preference(&mut task_vec);
    let mut order: Vec<Node> = Vec::new();
    let mut k: usize = 0;
    while k < task_vec.len()
        invariant
            0 <= k <= task_vec.len(),
            order@ == nodes_of(task_vec@.take(k as int)),
        decreases task_vec.len() - k,
    {
        order.push(task_vec[k].1);
        k = k + 1;
        assert(order@ =~= nodes_of(task_vec@.take(k as int)));
    }
    assert(task_vec@.take(k as int) =~= task_vec@);
    proof {
        let g = grid_view(*a);
        let d = grid_dims(*a);
        assert(preference_order(g, d.0, d.1, task_vec@));
    }
    order
}

/// The preference list names every cell of the grid when every cell names
/// its own place.
proof fn lemma_pairs_cover(g: Seq<Seq<Node>>, nrows: nat, ncols: nat)
    requires
        is_rect(g, nrows, ncols),
        ids_match(g),
        nrows <= usize::MAX,
        ncols <= usize::MAX,
    ensures
        covers(nodes_of(preference_pairs(g, nrows, ncols)), nrows, ncols),
{
    let t = nodes_of(preference_pairs(g, nrows, ncols));
    assert forall|i: int, j: int| 0 <= i < nrows && 0 <= j < ncols implies #[trigger] crate::conservation::named(
        t,
        i,
        j,
    ) by {
        lemma_index_in_range(i, j, nrows as int, ncols as int);
        lemma_split_index(i, j, ncols as int);
        let k = i * ncols + j;
        assert(ids(t[k]) == (i as usize, j as usize));
    }
}

/// Filling the cells in a preference order conserves supply and demand, and
/// ships everything when every cell names its own place and supply and
/// demand balance.
proof fn lemma_preference_order_laws(g: Seq<Seq<Node>>, nrows: nat, ncols: nat, o: Seq<(i64, Node)>)
    requires
        is_rect(g, nrows, ncols),
        nrows <= usize::MAX,
        ncols <= usize::MAX,
        ids_in_range(g, nrows, ncols),
        preference_order(g, nrows, ncols, o),
    ensures
        unassigned(g) && consistent(g) && nonneg_qty(g) ==> conserves(g, fill_all(g, nodes_of(o)), nrows, ncols),
        unassigned(g) && consistent(g) && nonneg_qty(g) && ids_match(g) && balanced(g, ncols) ==> all_shipped(
            fill_all(g, nodes_of(o)),
            nrows,
            ncols,
        ),
        consistent(g) && nonneg_qty(g) ==> exhausted_at(fill_all(g, nodes_of(o)), nodes_of(o)),
{
    if consistent(g) && nonneg_qty(g) {
        let pairs = preference_pairs(g, nrows, ncols);
        let t = nodes_of(pairs);
        assert(cells_in_range(t, nrows, ncols)) by {
            assert forall|k: int| 0 <= k < t.len() implies (#[trigger] t[k]).s_node_id < nrows && t[k].d_node_id
                < ncols by {
                lemma_row_major_index(k, nrows as int, ncols as int);
            }
        }
        let p = choose|p: Seq<int>| #[trigger] is_permutation(pairs, o, p);
        assert(is_permutation(t, nodes_of(o), p)) by {
            assert forall|k: int| 0 <= k < t.len() implies #[trigger] hits(p, nodes_of(o).len() as int, k) by {
                assert(hits(p, o.len() as int, k));
            }
        }
        lemma_permutation_keeps_cells(t, nodes_of(o), p, nrows, ncols);
        lemma_fill_all_exhausts(g, nrows, ncols, nodes_of(o));
        if unassigned(g) {
            lemma_fill_all_conserves(g, nrows, ncols, nodes_of(o));
        }
        if unassigned(g) && ids_match(g) && balanced(g, ncols) {
            lemma_pairs_cover(g, nrows, ncols);
            lemma_permutation_covers(t, nodes_of(o), p, nrows, ncols);
            lemma_fill_all_ships_everything(g, nrows, ncols, nodes_of(o));
        }
    }
}

/// The double-preference assignment.
///
/// Each cheapest cell of a row lowers by one the preference of the place
/// its ids name, and so does each cheapest cell of a column.  The cells are
/// then sorted by the preference of their place and, within equal
/// preference, by cost (the order of equal pairs is rayon's choice), and
/// filled in that order, each as much as its row's supply and its column's
/// demand allow.  On a grid where nothing is assigned yet, nothing is
/// negative and rows and columns agree, supply and demand are conserved;
/// when, besides, every cell names its own place and supply and demand
/// balance, everything is shipped.
pub fn dpreference(task_array2d: &mut Grid)
    requires
        ids_in_range(grid_view(*old(task_array2d)), grid_dims(*old(task_array2d)).0, grid_dims(*old(task_array2d)).1),
        grid_dims(*old(task_array2d)).0 * grid_dims(*old(task_array2d)).1 <= max_cells(),
        forall|o: Seq<(i64, Node)>|
            preference_order(
                grid_view(*old(task_array2d)),
                grid_dims(*old(task_array2d)).0,
                grid_dims(*old(task_array2d)).1,
                o,
            ) ==> fill_all_ok(
                grid_view(*old(task_array2d)),
                grid_dims(*old(task_array2d)).0,
                grid_dims(*old(task_array2d)).1,
                nodes_of(o),
            ),
    ensures
        grid_dims(*final(task_array2d)) == grid_dims(*old(task_array2d)),
        exists|o: Seq<(i64, Node)>|
            preference_order(
                grid_view(*old(task_array2d)),
                grid_dims(*old(task_array2d)).0,
                grid_dims(*old(task_array2d)).1,
                o,
            ) && grid_view(*final(task_array2d)) == fill_all(grid_view(*old(task_array2d)), nodes_of(o)) && (consistent(
                grid_view(*old(task_array2d)),
            ) && nonneg_qty(grid_view(*old(task_array2d))) ==> exhausted_at(grid_view(*final(task_array2d)), nodes_of(o))),
        ({
            let g = grid_view(*old(task_array2d));
            let (nrows, ncols) = grid_dims(*old(task_array2d));
            unassigned(g) && consistent(g) && nonneg_qty(g) ==> conserves(g, grid_view(*final(task_array2d)), nrows, ncols)
        }),
        ({
            let g = grid_view(*old(task_array2d));
            let (nrows, ncols) = grid_dims(*old(task_array2d));
            unassigned(g) && consistent(g) && nonneg_qty(g) && ids_match(g) && balanced(g, ncols) ==> all_shipped(
                grid_view(*final(task_array2d)),
                nrows,
                ncols,
            )
        }),
{
    let ghost g = grid_view(*task_array2d);
    let ghost d = grid_dims(*task_array2d);
    let order = preference_fill_order(task_array2d);
    proof {
        let o = choose|o: Seq<(i64, Node)>| preference_order(g, d.0, d.1, o) && order@ == nodes_of(o);
        lemma_preference_order_laws(g, d.0, d.1, o);
    }
    fill_in_order(task_array2d, &order);
}

/// Every cell of `a` names a cell of the grid.
pub fn ids_within(a: &Grid) -> (r: bool)
    ensures
        r == ids_in_range(grid_view(*a), grid_dims(*a).0, grid_dims(*a).1),
{
    let nrows = a.nrows();
    let ncols = a.ncols();
    let ghost g = grid_view(*a);
    let mut i: usize = 0;
    while i < nrows
        invariant
            g == grid_view(*a),
            nrows == grid_dims(*a).0,
            ncols == grid_dims(*a).1,
            0 <= i <= nrows,
            forall|i2: int, j2: int|
                0 <= i2 < i && 0 <= j2 < ncols ==> (#[trigger] g[i2][j2]).s_node_id < nrows && g[i2][j2].d_node_id
                    < ncols,
        decreases nrows - i,
    {
        let mut j: usize = 0;
        while j < ncols
            invariant
                g == grid_view(*a),
                nrows == grid_dims(*a).0,
                ncols == grid_dims(*a).1,
                i < nrows,
                0 <= j <= ncols,
                forall|i2: int, j2: int|
                    0 <= i2 < i && 0 <= j2 < ncols ==> (#[trigger] g[i2][j2]).s_node_id < nrows
                        && g[i2][j2].d_node_id < ncols,
                forall|j2: int| 0 <= j2 < j ==> (#[trigger] g[i as int][j2]).s_node_id < nrows && g[i as int][j2].d_node_id < ncols,
            decreases ncols - j,
        {
            let x = a.get(i, j);
            if x.s_node_id >= nrows || x.d_node_id >= ncols {
                return false;
            }
            j = j + 1;
        }
        i = i + 1;
    }
    true
}

/// The double-preference assignment with every step checked first: `false`
/// when a cell names a place outside the grid, when the grid is too large
/// for its marks, or when, in the order chosen, a fill is not defined (the
/// cells before it filled); `true`, with the grid as `dpreference` leaves
/// it, otherwise.
pub fn try_dpreference(task_array2d: &mut Grid) -> (r: bool)
    ensures
        grid_dims(*final(task_array2d)) == grid_dims(*old(task_array2d)),
        r ==> exists|o: Seq<(i64, Node)>|
            preference_order(
                grid_view(*old(task_array2d)),
                grid_dims(*old(task_array2d)).0,
                grid_dims(*old(task_array2d)).1,
                o,
            ) && grid_view(*final(task_array2d)) == fill_all(grid_view(*old(task_array2d)), nodes_of(o)),
        !r ==> !ids_in_range(grid_view(*old(task_array2d)), grid_dims(*old(task_array2d)).0, grid_dims(*old(task_array2d)).1)
            || grid_dims(*old(task_array2d)).0 * grid_dims(*old(task_array2d)).1 > max_cells() || exists|o: Seq<(i64, Node)>|
            preference_order(
                grid_view(*old(task_array2d)),
                grid_dims(*old(task_array2d)).0,
                grid_dims(*old(task_array2d)).1,
                o,
            ) && !fill_all_ok(
                grid_view(*old(task_array2d)),
                grid_dims(*old(task_array2d)).0,
                grid_dims(*old(task_array2d)).1,
                nodes_of(o),
            ),
{
    let nrows = task_array2d.nrows();
    let ncols = task_array2d.ncols();
    if !ids_within(task_array2d) {
        return false;
    }
    let too_large = match (nrows as u128).checked_mul(ncols as u128) {
        Some(n) => n > 4611686018427387903u128,
        None => true,
    };
    if too_large {
        return false;
    }
    let order = preference_fill_order(task_array2d);
    try_fill_in_order(task_array2d, &order)
}

} // verus!
