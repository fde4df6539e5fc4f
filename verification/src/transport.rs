use vstd::prelude::*;
use crate::grid::{Grid, nonzero_extent, rows_of, lemma_index_in_range};
use crate::node::Node;
use crate::simplex::{Simplex, SimplexConstraint, SimplexTable, builder_ok, laid_out};

verus! {

/// The row-major cells `task` fill a grid of `s` rows and `d` columns that
/// has a cell in each of its lines, and whose shape an array can hold.
pub open spec fn task_shape_ok(task: Seq<Node>, s: nat, d: nat) -> bool {
    &&& task.len() == s * d
    &&& nonzero_extent(s, d) <= isize::MAX
    &&& (s > 0 <==> d > 0)
}

/// The unit costs of the cells, in row-major order: the objective.
pub open spec fn task_costs(task: Seq<Node>) -> Seq<i32> {
    task.map_values(|n: Node| n.node_cost)
}

/// The coefficients of the supply constraint of row `i`: one on the cells
/// of that row, zero elsewhere.
pub open spec fn supply_coeffs(i: int, s: int, d: int) -> Seq<i32> {
    Seq::new((s * d) as nat, |p: int| if i * d <= p < (i + 1) * d { 1i32 } else { 0i32 })
}

/// The coefficients of the demand constraint of column `j`: one on the cells
/// of that column, zero elsewhere.
pub open spec fn demand_coeffs(j: int, s: int, d: int) -> Seq<i32> {
    Seq::new((s * d) as nat, |p: int| if p >= j && (p - j) % d == 0 { 1i32 } else { 0i32 })
}

/// `cons` are the constraints of the transportation problem on the cells
/// `task`: first, for each supply row, its cells ship at most the row's
/// supply (read from the row's first cell); then, for each demand column,
/// its cells ship at least the column's demand (read from its first cell).
pub open spec fn task_constraints(cons: Seq<SimplexConstraint>, task: Seq<Node>, s: int, d: int) -> bool {
    &&& cons.len() == s + d
    &&& forall|i: int|
        0 <= i < s ==> (#[trigger] cons[i]) is LessThan && cons[i].vector_of() == supply_coeffs(i, s, d)
            && cons[i].b_of() == task[i * d].s_qty
    &&& forall|j: int|
        0 <= j < d ==> (#[trigger] cons[s + j]) is GreaterThan && cons[s + j].vector_of() == demand_coeffs(j, s, d)
            && cons[s + j].b_of() == task[j].d_qty
}

proof fn lemma_row_bounds(i: int, s: int, d: int)
    requires
        0 <= i < s,
        0 <= d,
    ensures
        0 <= i * d,
        (i + 1) * d <= s * d,
        i * d + d == (i + 1) * d,
{
    assert((i + 1) * d <= s * d) by (nonlinear_arith)
        requires
            0 <= i < s,
            0 <= d,
    ;
    assert(0 <= i * d) by (nonlinear_arith)
        requires
            0 <= i,
            0 <= d,
    ;
    assert(i * d + d == (i + 1) * d) by (nonlinear_arith);
}

/// The simplex table of the transportation problem on the `s_task_size`
/// by `d_task_size` cells of `task_vec` (row-major): minimize the total
/// cost under the supply and demand constraints.  `None` when the cells do
/// not fill such a grid, or when the table cannot be laid out.
pub fn transport_program(task_vec: &Vec<Node>, s_task_size: usize, d_task_size: usize) -> (r: Option<SimplexTable>)
    ensures
        !task_shape_ok(task_vec@, s_task_size as nat, d_task_size as nat) ==> r is None,
        r matches Some(t) ==> exists|cons: Seq<SimplexConstraint>|
            task_constraints(cons, task_vec@, s_task_size as int, d_task_size as int) && builder_ok(
                task_costs(task_vec@),
                cons,
            ) && laid_out(t, task_costs(task_vec@), cons),
        task_shape_ok(task_vec@, s_task_size as nat, d_task_size as nat) && r is None ==> exists|
            cons: Seq<SimplexConstraint>,
        |
            task_constraints(cons, task_vec@, s_task_size as int, d_task_size as int) && !builder_ok(
                task_costs(task_vec@),
                cons,
            ),
{
    let s = s_task_size;
    let d = d_task_size;
    let problem_size = match s.checked_mul(d) {
        Some(n) => n,
        None => {
            return None;
        },
    };
    if task_vec.len() != problem_size {
        return None;
    }
    if (s == 0) != (d == 0) {
        return None;
    }
    let cells = task_vec.clone();
    assert(cells@ =~= task_vec@);
    let grid = match Grid::from_vec(cells, s, d) {
        Some(g) => g,
        None => {
            return None;
        },
    };
    let ghost task = task_vec@;
    let mut costs_data: Vec<i32> = Vec::new();
    let mut p: usize = 0;
    while p < problem_size
        invariant
            problem_size == task_vec@.len(),
            task == task_vec@,
            0 <= p <= problem_size,
            costs_data@ == task_costs(task).take(p as int),
        decreases problem_size - p,
    {
        costs_data.push(task_vec[p].node_cost);
        p = p + 1;
        assert(costs_data@ =~= task_costs(task).take(p as int));
    }
    assert(costs_data@ =~= task_costs(task));
    let mut constraints: Vec<SimplexConstraint> = Vec::new();
    let mut i: usize = 0;
    while i < s
        invariant
            problem_size == s * d,
            task == task_vec@,
            task.len() == problem_size,
            grid_view_is(grid, task, s, d),
            s > 0 <==> d > 0,
            0 <= i <= s,
            constraints@.len() == i,
            forall|i2: int|
                0 <= i2 < i ==> (#[trigger] constraints@[i2]) is LessThan && constraints@[i2].vector_of()
                    == supply_coeffs(i2, s as int, d as int) && constraints@[i2].b_of() == task[i2 * d].s_qty,
        decreases s - i,
    {
        proof {
            lemma_row_bounds(i as int, s as int, d as int);
        }
        let s_qty = grid.get(i, 0).s_qty;
        let lo = i * d;
        let hi = lo + d;
        let mut s_constraint: Vec<i32> = Vec::new();
        let mut p: usize = 0;
        while p < problem_size
            invariant
                lo == i * d,
                hi == (i + 1) * d,
                0 <= p <= problem_size,
                problem_size == s * d,
                s_constraint@ == supply_coeffs(i as int, s as int, d as int).take(p as int),
            decreases problem_size - p,
        {
            if p >= lo && p < hi {
                s_constraint.push(1);
            } else {
                s_constraint.push(0);
            }
            p = p + 1;
            assert(s_constraint@ =~= supply_coeffs(i as int, s as int, d as int).take(p as int));
        }
        assert(s_constraint@ =~= supply_coeffs(i as int, s as int, d as int));
        proof {
            lemma_index_in_range(i as int, 0, s as int, d as int);
        }
        constraints.push(SimplexConstraint::LessThan(s_constraint, s_qty));
        i = i + 1;
    }
    let mut j: usize = 0;
    while j < d
        invariant
            problem_size == s * d,
            task == task_vec@,
            task.len() == problem_size,
            grid_view_is(grid, task, s, d),
            s > 0 <==> d > 0,
            0 <= j <= d,
            constraints@.len() == s + j,
            forall|i2: int|
                0 <= i2 < s ==> (#[trigger] constraints@[i2]) is LessThan && constraints@[i2].vector_of()
                    == supply_coeffs(i2, s as int, d as int) && constraints@[i2].b_of() == task[i2 * d].s_qty,
            forall|j2: int|
                0 <= j2 < j ==> (#[trigger] constraints@[s + j2]) is GreaterThan && constraints@[s
                    + j2].vector_of() == demand_coeffs(j2, s as int, d as int) && constraints@[s + j2].b_of()
                    == task[j2].d_qty,
        decreases d - j,
    {
        let d_qty = grid.get(0, j).d_qty;
        let mut d_constraint: Vec<i32> = Vec::new();
        let mut p: usize = 0;
        while p < problem_size
            invariant
                d > 0,
                0 <= p <= problem_size,
                problem_size == s * d,
                d_constraint@ == demand_coeffs(j as int, s as int, d as int).take(p as int),
            decreases problem_size - p,
        {
            if p < j {
                d_constraint.push(0);
            } else if (p - j) % d == 0 {
                d_constraint.push(1);
            } else {
                d_constraint.push(0);
            }
            p = p + 1;
            assert(d_constraint@ =~= demand_coeffs(j as int, s as int, d as int).take(p as int));
        }
        assert(d_constraint@ =~= demand_coeffs(j as int, s as int, d as int));
        proof {
            lemma_index_in_range(0, j as int, s as int, d as int);
        }
        constraints.push(SimplexConstraint::GreaterThan(d_constraint, d_qty));
        j = j + 1;
    }
    assert(task_constraints(constraints@, task, s as int, d as int));
    let ghost cons = constraints@;
    let r = Simplex::minimize(&costs_data).try_with(constraints);
    proof {
        if r is None {
            assert(task_constraints(cons, task, s as int, d as int) && !builder_ok(task_costs(task), cons));
        }
    }
    r
}

/// The rows of `g` are the row-major cells `task`, cut into `s` rows of `d`.
pub open spec fn grid_view_is(g: Grid, task: Seq<Node>, s: usize, d: usize) -> bool {
    &&& crate::grid::grid_view(g) == rows_of(task, s as nat, d as nat)
    &&& crate::grid::grid_dims(g) == (s as nat, d as nat)
}

} // verus!
