use vstd::prelude::*;
use crate::dense::{DenseTable, dense_cells, dense_dims, dense_from_shape_vec, dense_get, extent};
use crate::grid::{lemma_index_in_range, lemma_index_unique};
use crate::sparse::{
    SparseTable, cols_increasing, lemma_same_entries, lemma_sparse_of_row, no_dup_positions, sparse_of_row,
    sparse_rows, sparse_shape, tri_add, tri_new, tri_to_csr, triplet_shape, triplets, sparse_nrows,
    sparse_ncols, sparse_row, sparse_insert, sparse_clone, sorted_insert, lemma_sorted_insert, row_has_col,
    col_pos, value_at, lemma_value_at,
};

verus! {

/// A constraint `a . x <= b` or `a . x >= b` of a linear program.
#[derive(Debug, Clone)]
pub enum SimplexConstraint {
    LessThan(Vec<i32>, i32),
    GreaterThan(Vec<i32>, i32),
}

impl SimplexConstraint {
    /// The coefficients `a`.
    pub open spec fn vector_of(&self) -> Seq<i32> {
        match self {
            SimplexConstraint::LessThan(a, _b) => a@,
            SimplexConstraint::GreaterThan(a, _b) => a@,
        }
    }

    /// The bound `b`.
    pub open spec fn b_of(&self) -> i32 {
        match self {
            SimplexConstraint::LessThan(_a, b) => *b,
            SimplexConstraint::GreaterThan(_a, b) => *b,
        }
    }

    /// The coefficients of the constraint.
    pub fn get_vector(&self) -> (r: &Vec<i32>)
        ensures
            r@ == self.vector_of(),
    {
        match self {
            SimplexConstraint::LessThan(a, _b) => a,
            SimplexConstraint::GreaterThan(a, _b) => a,
        }
    }

    /// The bound of the constraint.
    pub fn get_b(&self) -> (r: i32)
        ensures
            r == self.b_of(),
    {
        match self {
            SimplexConstraint::LessThan(_a, b) => *b,
            SimplexConstraint::GreaterThan(_a, b) => *b,
        }
    }
}

/// A variable of the simplex table: one of the program's own, or the
/// slack, negative slack or artificial variable of a constraint.
#[derive(Clone, Debug, PartialEq, Eq, Structural)]
pub enum SimplexVar {
    Real,
    Slack(usize),
    NegativeSlack(usize),
    Artificial(usize),
}

impl SimplexVar {
    /// The variable is an artificial one.
    pub fn is_artificial(&self) -> (r: bool)
        ensures
            r == (*self is Artificial),
    {
        match self {
            SimplexVar::Artificial(_) => true,
            _ => false,
        }
    }

    /// The variable is a (positive) slack one.
    pub fn is_slack(&self) -> (r: bool)
        ensures
            r == (*self is Slack),
    {
        match self {
            SimplexVar::Slack(_) => true,
            _ => false,
        }
    }
}

/// What a simplex run ends with.
#[derive(Debug, PartialEq, Eq, Structural)]
pub enum SimplexOutput {
    UniqueOptimum(i32),
    MultipleOptimum(i32),
    InfiniteSolution,
}

/// A simplex table: the objective, the sparse table (the rows of the
/// constraints, then the row of the reduced costs with the objective's
/// value last), the basic variable of each constraint row and the variables.
pub struct SimplexTable {
    pub objective: Vec<i32>,
    pub table: SparseTable,
    pub base: Vec<usize>,
    pub vars: Vec<SimplexVar>,
}

/// A minimization problem waiting for its constraints.
pub struct SimplexMinimizerBuilder {
    objective: Vec<i32>,
}

impl View for SimplexMinimizerBuilder {
    type V = Seq<i32>;

    closed spec fn view(&self) -> Seq<i32> {
        self.objective@
    }
}

/// The entry point of the simplex method.
pub struct Simplex;

impl Simplex {
    /// Start a minimization of `objective . x`.
    pub fn minimize(objective: &Vec<i32>) -> (b: SimplexMinimizerBuilder)
        ensures
            b@ == objective@,
    {
        let v = objective.clone();
        assert(v@ =~= objective@);
        SimplexMinimizerBuilder { objective: v }
    }
}

// ---------------------------------------------------------------------------
// The table the builder lays out.
// ---------------------------------------------------------------------------

/// The big cost given to artificial variables.
pub open spec fn big_cost() -> i32 {
    1000
}

/// The extra variables of the constraints before `k`: a slack variable for
/// `<=`, a negative slack and an artificial variable for `>=`.
pub open spec fn slack_vars(cons: Seq<SimplexConstraint>, k: int) -> Seq<SimplexVar>
    decreases k,
{
    if k <= 0 {
        Seq::empty()
    } else {
        slack_vars(cons, k - 1) + match cons[k - 1] {
            SimplexConstraint::LessThan(_, _) => seq![SimplexVar::Slack((k - 1) as usize)],
            SimplexConstraint::GreaterThan(_, _) => seq![
                SimplexVar::NegativeSlack((k - 1) as usize),
                SimplexVar::Artificial((k - 1) as usize),
            ],
        }
    }
}

/// The costs of the extra variables of the constraints before `k`.
pub open spec fn slack_costs(cons: Seq<SimplexConstraint>, k: int) -> Seq<i32>
    decreases k,
{
    if k <= 0 {
        Seq::empty()
    } else {
        slack_costs(cons, k - 1) + match cons[k - 1] {
            SimplexConstraint::LessThan(_, _) => seq![0i32],
            SimplexConstraint::GreaterThan(_, _) => seq![0i32, big_cost()],
        }
    }
}

/// All the variables: the program's own, then the extra ones.
pub open spec fn var_list(n: nat, cons: Seq<SimplexConstraint>) -> Seq<SimplexVar> {
    Seq::new(n, |_i: int| SimplexVar::Real) + slack_vars(cons, cons.len() as int)
}

/// The coefficient of `var` in constraint `i`, none for a program variable.
pub open spec fn coeff(var: SimplexVar, i: int) -> Seq<i32> {
    match var {
        SimplexVar::Real => Seq::empty(),
        SimplexVar::Slack(j) => seq![if j == i { 1i32 } else { 0i32 }],
        SimplexVar::NegativeSlack(j) => seq![if j == i { -1i32 } else { 0i32 }],
        SimplexVar::Artificial(j) => seq![if j == i { 1i32 } else { 0i32 }],
    }
}

/// The coefficients in constraint `i` of the variables before `k`.
pub open spec fn coeffs(vars: Seq<SimplexVar>, i: int, k: int) -> Seq<i32>
    decreases k,
{
    if k <= 0 {
        Seq::empty()
    } else {
        coeffs(vars, i, k - 1) + coeff(vars[k - 1], i)
    }
}

/// The row of constraint `i`: its coefficients, the extra variables' coefficients, its bound.
pub open spec fn constraint_row(c: SimplexConstraint, vars: Seq<SimplexVar>, i: int) -> Seq<i32> {
    c.vector_of() + coeffs(vars, i, vars.len() as int) + seq![c.b_of()]
}

/// The rows of the constraints before `k`, one after the other.
pub open spec fn constraint_rows(cons: Seq<SimplexConstraint>, vars: Seq<SimplexVar>, k: int) -> Seq<i32>
    decreases k,
{
    if k <= 0 {
        Seq::empty()
    } else {
        constraint_rows(cons, vars, k - 1) + constraint_row(cons[k - 1], vars, k - 1)
    }
}

/// The positions, before `k`, of the slack and artificial variables.
pub open spec fn base_vars(vars: Seq<SimplexVar>, k: int) -> Seq<usize>
    decreases k,
{
    if k <= 0 {
        Seq::empty()
    } else {
        base_vars(vars, k - 1) + if vars[k - 1] is Artificial || vars[k - 1] is Slack {
            seq![(k - 1) as usize]
        } else {
            Seq::empty()
        }
    }
}

/// The cost row (costs, then a zero) followed by the constraint rows.
pub open spec fn upper_table(obj: Seq<i32>, cons: Seq<SimplexConstraint>) -> Seq<i32> {
    let vars = var_list(obj.len(), cons);
    obj + slack_costs(cons, cons.len() as int) + seq![0i32] + constraint_rows(cons, vars, cons.len() as int)
}

/// The cost row and the constraint rows, laid out one after the other, and
/// the list of variables.
fn lay_out(objective: &Vec<i32>, constraints: &Vec<SimplexConstraint>) -> (r: (Vec<i32>, Vec<SimplexVar>))
    ensures
        r.0@ == upper_table(objective@, constraints@),
        r.1@ == var_list(objective@.len(), constraints@),
{
    let ghost obj = objective@;
    let ghost cons = constraints@;
    let mut table: Vec<i32> = Vec::new();
    let mut vars: Vec<SimplexVar> = Vec::new();
    let m_big: i32 = 1000;
    let mut k: usize = 0;
    while k < objective.len()
        invariant
            0 <= k <= objective.len(),
            obj == objective@,
            table@ == obj.take(k as int),
            vars@ == Seq::new(k as nat, |_i: int| SimplexVar::Real),
        decreases objective.len() - k,
    {
        table.push(objective[k]);
        vars.push(SimplexVar::Real);
        k = k + 1;
        assert(table@ =~= obj.take(k as int));
        assert(vars@ =~= Seq::new(k as nat, |_i: int| SimplexVar::Real));
    }
    assert(obj.take(k as int) =~= obj);
    let ghost reals = vars@;
    let mut i: usize = 0;
    assert(table@ =~= obj + slack_costs(cons, 0));
    assert(vars@ =~= reals + slack_vars(cons, 0));
    while i < constraints.len()
        invariant
            0 <= i <= constraints.len(),
            cons == constraints@,
            reals == Seq::new(obj.len(), |_i: int| SimplexVar::Real),
            table@ == obj + slack_costs(cons, i as int),
            vars@ == reals + slack_vars(cons, i as int),
            m_big == big_cost(),
        decreases constraints.len() - i,
    {
        match &constraints[i] {
            SimplexConstraint::LessThan(_, _) => {
                table.push(0);
                vars.push(SimplexVar::Slack(i));
            },
            SimplexConstraint::GreaterThan(_, _) => {
                table.push(0);
                vars.push(SimplexVar::NegativeSlack(i));
                table.push(m_big);
                vars.push(SimplexVar::Artificial(i));
            },
        }
        i = i + 1;
        assert(table@ =~= obj + slack_costs(cons, i as int));
        assert(vars@ =~= reals + slack_vars(cons, i as int));
    }
    table.push(0);
    let ghost vs = vars@;
    let ghost head = table@;
    assert(vs == var_list(obj.len(), cons));
    let mut i: usize = 0;
    assert(table@ =~= head + constraint_rows(cons, vs, 0));
    while i < constraints.len()
        invariant
            0 <= i <= constraints.len(),
            cons == constraints@,
            vars@ == vs,
            table@ == head + constraint_rows(cons, vs, i as int),
        decreases constraints.len() - i,
    {
        let ghost before = table@;
        let a = constraints[i].get_vector();
        let mut t: usize = 0;
        while t < a.len()
            invariant
                0 <= t <= a.len(),
                table@ == before + a@.take(t as int),
            decreases a.len() - t,
        {
            table.push(a[t]);
            t = t + 1;
            assert(table@ =~= before + a@.take(t as int));
        }
        assert(a@.take(t as int) =~= a@);
        let ghost mid = table@;
        let mut t: usize = 0;
        assert(table@ =~= mid + coeffs(vs, i as int, 0));
        while t < vars.len()
            invariant
                0 <= t <= vars.len(),
                vars@ == vs,
                table@ == mid + coeffs(vs, i as int, t as int),
            decreases vars.len() - t,
        {
            match &vars[t] {
                SimplexVar::Slack(j) => {
                    if *j == i {
                        table.push(1);
                    } else {
                        table.push(0);
                    }
                },
                SimplexVar::NegativeSlack(j) => {
                    if *j == i {
                        table.push(-1);
                    } else {
                        table.push(0);
                    }
                },
                SimplexVar::Artificial(j) => {
                    if *j == i {
                        table.push(1);
                    } else {
                        table.push(0);
                    }
                },
                _ => {},
            }
            t = t + 1;
            assert(table@ =~= mid + coeffs(vs, i as int, t as int));
        }
        table.push(constraints[i].get_b());
        i = i + 1;
        assert(table@ =~= head + constraint_rows(cons, vs, i as int));
    }
    (table, vars)
}

/// The positions of the slack and artificial variables.
fn base_positions(vars: &Vec<SimplexVar>) -> (base: Vec<usize>)
    ensures
        base@ == base_vars(vars@, vars@.len() as int),
{
    let mut base: Vec<usize> = Vec::new();
    let mut k: usize = 0;
    while k < vars.len()
        invariant
            0 <= k <= vars.len(),
            base@ == base_vars(vars@, k as int),
        decreases vars.len() - k,
    {
        if vars[k].is_artificial() || vars[k].is_slack() {
            base.push(k);
        }
        k = k + 1;
        assert(base@ =~= base_vars(vars@, k as int));
    }
    base
}

proof fn lemma_base_vars_bound(vars: Seq<SimplexVar>, k: int)
    requires
        0 <= k <= vars.len(),
    ensures
        base_vars(vars, k).len() <= k,
        forall|j: int| 0 <= j < base_vars(vars, k).len() ==> (#[trigger] base_vars(vars, k)[j]) < k,
    decreases k,
{
    if k > 0 {
        lemma_base_vars_bound(vars, k - 1);
    }
}

proof fn lemma_base_vars_prefix(s1: Seq<SimplexVar>, s2: Seq<SimplexVar>, k: int)
    requires
        0 <= k <= s1.len(),
        k <= s2.len(),
        forall|t: int| 0 <= t < k ==> s1[t] == s2[t],
    ensures
        base_vars(s1, k) == base_vars(s2, k),
    decreases k,
{
    if k > 0 {
        lemma_base_vars_prefix(s1, s2, k - 1);
    }
}

proof fn lemma_base_vars_reals(vars: Seq<SimplexVar>, k: int)
    requires
        0 <= k <= vars.len(),
        forall|t: int| 0 <= t < k ==> vars[t] == SimplexVar::Real,
    ensures
        base_vars(vars, k).len() == 0,
    decreases k,
{
    if k > 0 {
        lemma_base_vars_reals(vars, k - 1);
    }
}

/// Every constraint has exactly one basic variable: its slack or artificial variable.
proof fn lemma_base_vars_count(n: nat, cons: Seq<SimplexConstraint>, i: int)
    requires
        0 <= i <= cons.len(),
    ensures
        ({
            let vars = Seq::new(n, |_t: int| SimplexVar::Real) + slack_vars(cons, i);
            base_vars(vars, vars.len() as int).len() == i
        }),
    decreases i,
{
    let reals = Seq::new(n, |_t: int| SimplexVar::Real);
    let vars = reals + slack_vars(cons, i);
    if i == 0 {
        assert forall|t: int| 0 <= t < vars.len() implies vars[t] == SimplexVar::Real by {
        }
        lemma_base_vars_reals(vars, vars.len() as int);
    } else {
        lemma_base_vars_count(n, cons, i - 1);
        let prev = reals + slack_vars(cons, i - 1);
        assert forall|t: int| 0 <= t < prev.len() implies prev[t] == vars[t] by {
        }
        lemma_base_vars_prefix(prev, vars, prev.len() as int);
        match cons[i - 1] {
            SimplexConstraint::LessThan(_, _) => {
                assert(vars.len() == prev.len() + 1);
                assert(vars[prev.len() as int] == SimplexVar::Slack((i - 1) as usize));
                assert(base_vars(vars, vars.len() as int) == base_vars(vars, prev.len() as int).push(
                    prev.len() as usize,
                ));
            },
            SimplexConstraint::GreaterThan(_, _) => {
                assert(vars.len() == prev.len() + 2);
                assert(vars[prev.len() as int] == SimplexVar::NegativeSlack((i - 1) as usize));
                assert(vars[prev.len() as int + 1] == SimplexVar::Artificial((i - 1) as usize));
                assert(base_vars(vars, prev.len() as int + 1) =~= base_vars(vars, prev.len() as int));
                assert(base_vars(vars, vars.len() as int) == base_vars(vars, prev.len() as int + 1).push(
                    (prev.len() + 1) as usize,
                ));
            },
        }
    }
}

/// The sum over the constraint rows before `j` of the entry of column `i`
/// times the cost of the row's basic variable.
pub open spec fn delta_sum(up: Seq<i32>, base: Seq<usize>, w: int, i: int, j: int) -> int
    decreases j,
{
    if j <= 0 {
        0
    } else {
        delta_sum(up, base, w, i, j - 1) + up[j * w + i] * up[base[j - 1] as int]
    }
}

/// The sum over the constraints before `j` of the bound times the cost of
/// the row's basic variable.
pub open spec fn target_sum(cons: Seq<SimplexConstraint>, up: Seq<i32>, base: Seq<usize>, j: int) -> int
    decreases j,
{
    if j <= 0 {
        0
    } else {
        target_sum(cons, up, base, j - 1) + cons[j - 1].b_of() * up[base[j - 1] as int]
    }
}

/// `x` fits in an `i32`.
pub open spec fn fits_i32(x: int) -> bool {
    i32::MIN <= x <= i32::MAX
}

/// The `j`-th term of the reduced cost of column `i`, and the sum up to it, fit in an `i32`.
pub open spec fn delta_term_fits(up: Seq<i32>, base: Seq<usize>, w: int, i: int, j: int) -> bool {
    fits_i32(up[(j + 1) * w + i] * up[base[j] as int]) && fits_i32(delta_sum(up, base, w, i, j + 1))
}

/// The `j`-th term of the objective's value, and the sum up to it, fit in an `i32`.
pub open spec fn target_term_fits(cons: Seq<SimplexConstraint>, up: Seq<i32>, base: Seq<usize>, j: int) -> bool {
    fits_i32(cons[j].b_of() * up[base[j] as int]) && fits_i32(target_sum(cons, up, base, j + 1))
}

/// The whole dense table: the cost row, the constraint rows, the row of
/// reduced costs `sum_j a[j][i] * c[base[j]] - c[i]`, and the objective's
/// value `sum_j b[j] * c[base[j]]` last.
pub open spec fn full_table(obj: Seq<i32>, cons: Seq<SimplexConstraint>) -> Seq<i32> {
    let vars = var_list(obj.len(), cons);
    let v = vars.len() as int;
    let w = v + 1;
    let m = cons.len() as int;
    let up = upper_table(obj, cons);
    let base = base_vars(vars, v);
    up + Seq::new(v as nat, |i: int| (delta_sum(up, base, w, i, m) - up[i]) as i32) + seq![
        target_sum(cons, up, base, m) as i32,
    ]
}

/// Laying out the table succeeds: the constraints' coefficients fill the
/// rows (there are as many in all as the objective has, times the number of
/// constraints), the table fits an array, and no sum overflows an `i32`.
pub open spec fn builder_ok(obj: Seq<i32>, cons: Seq<SimplexConstraint>) -> bool {
    let vars = var_list(obj.len(), cons);
    let v = vars.len() as int;
    let w = v + 1;
    let m = cons.len() as int;
    let up = upper_table(obj, cons);
    let base = base_vars(vars, v);
    &&& up.len() == (m + 1) * w
    &&& (m + 2) * w <= isize::MAX
    &&& sums_fit(cons, up, base, v, m)
}

/// No sum of the last row overflows an `i32`.
pub open spec fn sums_fit(cons: Seq<SimplexConstraint>, up: Seq<i32>, base: Seq<usize>, v: int, m: int) -> bool {
    let w = v + 1;
    &&& forall|i: int, j: int| 0 <= i < v && 0 <= j < m ==> #[trigger] delta_term_fits(up, base, w, i, j)
    &&& forall|i: int| 0 <= i < v ==> fits_i32(#[trigger] delta_sum(up, base, w, i, m) - up[i])
    &&& forall|j: int| 0 <= j < m ==> #[trigger] target_term_fits(cons, up, base, j)
}

/// The last row: the reduced costs, then the objective's value.
pub open spec fn last_row(cons: Seq<SimplexConstraint>, up: Seq<i32>, base: Seq<usize>, v: int, m: int) -> Seq<i32> {
    Seq::new(v as nat, |i: int| (delta_sum(up, base, v + 1, i, m) - up[i]) as i32) + seq![
        target_sum(cons, up, base, m) as i32,
    ]
}

/// Add the last row to the table, unless a sum overflows.
fn finish_rows(table: &mut Vec<i32>, base: &Vec<usize>, constraints: &Vec<SimplexConstraint>, nvars: usize) -> (ok: bool)
    requires
        base@.len() == constraints@.len(),
        forall|j: int| 0 <= j < base@.len() ==> #[trigger] base@[j] < nvars,
        old(table)@.len() == (constraints@.len() + 1) * (nvars + 1),
        nvars + 1 <= usize::MAX,
    ensures
        ok == sums_fit(constraints@, old(table)@, base@, nvars as int, constraints@.len() as int),
        ok ==> final(table)@ == old(table)@ + last_row(constraints@, old(table)@, base@, nvars as int, constraints@.len() as int),
{
    let ghost up = table@;
    let ghost cons = constraints@;
    let m = constraints.len();
    let w = nvars + 1;
    let ghost row = last_row(cons, up, base@, nvars as int, m as int);
    let tl = table.len();
    proof {
        assert(nvars < up.len()) by (nonlinear_arith)
            requires
                up.len() == (m + 1) * w,
                w == nvars + 1,
                m >= 0,
        ;
    }
    let mut i: usize = 0;
    while i < nvars
        invariant
            up.len() == (m + 1) * w,
            up == old(table)@,
            tl == up.len(),
            nvars < up.len(),
            w == nvars + 1,
            m == cons.len(),
            cons == constraints@,
            row == last_row(cons, up, base@, nvars as int, m as int),
            base@.len() == m,
            forall|j: int| 0 <= j < base@.len() ==> #[trigger] base@[j] < nvars,
            0 <= i <= nvars,
            table@ == up + row.take(i as int),
            forall|i2: int, j: int| 0 <= i2 < i && 0 <= j < m ==> #[trigger] delta_term_fits(up, base@, w as int, i2, j),
            forall|i2: int| 0 <= i2 < i ==> fits_i32(#[trigger] delta_sum(up, base@, w as int, i2, m as int) - up[i2]),
        decreases nvars - i,
    {
        let mut delta: i32 = 0;
        let mut j: usize = 0;
        while j < m
            invariant
                up.len() == (m + 1) * w,
                up == old(table)@,
                cons == constraints@,
                tl == up.len(),
                nvars < up.len(),
                w == nvars + 1,
                m == cons.len(),
                base@.len() == m,
                forall|j2: int| 0 <= j2 < base@.len() ==> #[trigger] base@[j2] < nvars,
                i < nvars,
                0 <= j <= m,
                table@ == up + row.take(i as int),
                delta == delta_sum(up, base@, w as int, i as int, j as int),
                forall|j2: int| 0 <= j2 < j ==> #[trigger] delta_term_fits(up, base@, w as int, i as int, j2),
            decreases m - j,
        {
            proof {
                assert((j + 1) * w + i < (m + 1) * w) by (nonlinear_arith)
                    requires
                        j < m,
                        i < w,
                ;
                assert(0 <= (j + 1) * w + i) by (nonlinear_arith)
                    requires
                        0 <= i,
                        0 <= w,
                ;
            }
            let idx = (j + 1) * w + i;
            let b = base[j];
            let product = match table[idx].checked_mul(table[b]) {
                Some(p) => p,
                None => {
                    assert(!delta_term_fits(up, base@, w as int, i as int, j as int));
                    assert(!sums_fit(cons, up, base@, nvars as int, m as int));
                    return false;
                },
            };
            delta = match delta.checked_add(product) {
                Some(d) => d,
                None => {
                    assert(!delta_term_fits(up, base@, w as int, i as int, j as int));
                    assert(!sums_fit(cons, up, base@, nvars as int, m as int));
                    return false;
                },
            };
            assert(delta_term_fits(up, base@, w as int, i as int, j as int));
            j = j + 1;
        }
        delta = match delta.checked_sub(table[i]) {
            Some(d) => d,
            None => {
                assert(!fits_i32(delta_sum(up, base@, w as int, i as int, m as int) - up[i as int]));
                assert(!sums_fit(cons, up, base@, nvars as int, m as int));
                return false;
            },
        };
        table.push(delta);
        i = i + 1;
        assert(table@ =~= up + row.take(i as int));
    }
    let mut target: i32 = 0;
    let mut j: usize = 0;
    while j < m
        invariant
            up.len() == (m + 1) * w,
            up == old(table)@,
            nvars < up.len(),
            w == nvars + 1,
            m == cons.len(),
            cons == constraints@,
            row == last_row(cons, up, base@, nvars as int, m as int),
            base@.len() == m,
            forall|j2: int| 0 <= j2 < base@.len() ==> #[trigger] base@[j2] < nvars,
            0 <= j <= m,
            table@ == up + row.take(nvars as int),
            target == target_sum(cons, up, base@, j as int),
            forall|i2: int, j2: int| 0 <= i2 < nvars && 0 <= j2 < m ==> #[trigger] delta_term_fits(up, base@, w as int, i2, j2),
            forall|i2: int| 0 <= i2 < nvars ==> fits_i32(#[trigger] delta_sum(up, base@, w as int, i2, m as int) - up[i2]),
            forall|j2: int| 0 <= j2 < j ==> #[trigger] target_term_fits(cons, up, base@, j2),
        decreases m - j,
    {
        let b = base[j];
        assert(table@[b as int] == up[b as int]);
        let product = match constraints[j].get_b().checked_mul(table[b]) {
            Some(p) => p,
            None => {
                assert(!target_term_fits(cons, up, base@, j as int));
                assert(!sums_fit(cons, up, base@, nvars as int, m as int));
                return false;
            },
        };
        target = match target.checked_add(product) {
            Some(t) => t,
            None => {
                assert(!target_term_fits(cons, up, base@, j as int));
                assert(!sums_fit(cons, up, base@, nvars as int, m as int));
                return false;
            },
        };
        assert(target_term_fits(cons, up, base@, j as int));
        j = j + 1;
    }
    table.push(target);
    assert(table@ =~= up + row);
    true
}

/// Row `r` of a row-major table `w` cells wide.
pub open spec fn dense_row(cells: Seq<i32>, w: int, r: int) -> Seq<i32> {
    cells.subrange(r * w, r * w + w)
}

/// The cell index in the dense table of a triplet of the sparse one, which
/// leaves out the dense table's first row.
spec fn cell_key(x: (usize, usize, i32), w: int) -> int {
    (x.0 + 1) * w + x.1
}

/// The sparse table of the rows after the first of a dense table: the
/// non-zero cells are added as triplets in row-major order, then compressed.
fn sparse_from_dense(d: &DenseTable, nrows: usize, ncols: usize) -> (m: SparseTable)
    requires
        dense_dims(*d) == (nrows as nat, ncols as nat),
        dense_cells(*d).len() == nrows * ncols,
        nrows >= 1,
    ensures
        sparse_shape(m) == ((nrows - 1) as nat, ncols as nat),
        sparse_rows(m).len() == nrows - 1,
        forall|r: int|
            0 <= r < nrows - 1 ==> #[trigger] sparse_rows(m)[r] == sparse_of_row(
                dense_row(dense_cells(*d), ncols as int, r + 1),
            ),
{
    let ghost cells = dense_cells(*d);
    let ghost w = ncols as int;
    let mut t = tri_new(nrows - 1, ncols);
    let mut r: usize = 1;
    assert forall|r2: int, c2: int|
        0 <= r2 < nrows - 1 && 0 <= c2 < ncols && (r2 + 1) * w + c2 < r * w && #[trigger] cells[(r2 + 1) * w + c2] != 0
            implies triplets(t).contains((r2 as usize, c2 as usize, cells[(r2 + 1) * w + c2])) by {
        assert((r2 + 1) * w + c2 >= w) by (nonlinear_arith)
            requires
                r2 >= 0,
                c2 >= 0,
                w >= 0,
        ;
    }
    while r < nrows
        invariant
            dense_dims(*d) == (nrows as nat, ncols as nat),
            cells == dense_cells(*d),
            cells.len() == nrows * ncols,
            w == ncols,
            1 <= r <= nrows,
            triplet_shape(t) == ((nrows - 1) as nat, ncols as nat),
            forall|a: int, b: int|
                0 <= a < b < triplets(t).len() ==> cell_key(#[trigger] triplets(t)[a], w) < cell_key(
                    #[trigger] triplets(t)[b],
                    w,
                ),
            forall|k: int|
                0 <= k < triplets(t).len() ==> {
                    let x = #[trigger] triplets(t)[k];
                    &&& x.0 < nrows - 1
                    &&& x.1 < ncols
                    &&& cell_key(x, w) < r * w
                    &&& x.2 == cells[cell_key(x, w)]
                    &&& x.2 != 0
                },
            forall|r2: int, c2: int|
                0 <= r2 < nrows - 1 && 0 <= c2 < ncols && (r2 + 1) * w + c2 < r * w && #[trigger] cells[(r2 + 1) * w + c2] != 0
                    ==> triplets(t).contains((r2 as usize, c2 as usize, cells[(r2 + 1) * w + c2])),
        decreases nrows - r,
    {
        let mut c: usize = 0;
        while c < ncols
            invariant
                dense_dims(*d) == (nrows as nat, ncols as nat),
                cells == dense_cells(*d),
                cells.len() == nrows * ncols,
                w == ncols,
                1 <= r < nrows,
                0 <= c <= ncols,
                triplet_shape(t) == ((nrows - 1) as nat, ncols as nat),
                forall|a: int, b: int|
                    0 <= a < b < triplets(t).len() ==> cell_key(#[trigger] triplets(t)[a], w) < cell_key(
                        #[trigger] triplets(t)[b],
                        w,
                    ),
                forall|k: int|
                    0 <= k < triplets(t).len() ==> {
                        let x = #[trigger] triplets(t)[k];
                        &&& x.0 < nrows - 1
                        &&& x.1 < ncols
                        &&& cell_key(x, w) < r * w + c
                        &&& x.2 == cells[cell_key(x, w)]
                        &&& x.2 != 0
                    },
                forall|r2: int, c2: int|
                    0 <= r2 < nrows - 1 && 0 <= c2 < ncols && (r2 + 1) * w + c2 < r * w + c && #[trigger] cells[(r2 + 1) * w + c2] != 0
                        ==> triplets(t).contains((r2 as usize, c2 as usize, cells[(r2 + 1) * w + c2])),
            decreases ncols - c,
        {
            let v = dense_get(d, r, c);
            proof {
                lemma_index_in_range(r as int, c as int, nrows as int, ncols as int);
            }
            let ghost before = triplets(t);
            if v != 0 {
                tri_add(&mut t, r - 1, c, v);
                proof {
                    let x = (((r - 1) as usize), c, v);
                    assert(cell_key(x, w) == r * w + c);
                    assert(triplets(t)[before.len() as int] == x);
                    assert forall|r2: int, c2: int|
                        0 <= r2 < nrows - 1 && 0 <= c2 < ncols && (r2 + 1) * w + c2 < r * w + c + 1 && #[trigger] cells[(r2 + 1) * w + c2] != 0
                        implies triplets(t).contains((r2 as usize, c2 as usize, cells[(r2 + 1) * w + c2])) by {
                        if (r2 + 1) * w + c2 < r * w + c {
                            assert(before.contains((r2 as usize, c2 as usize, cells[(r2 + 1) * w + c2])));
                            let k = choose|k: int| 0 <= k < before.len() && before[k] == (r2 as usize, c2 as usize, cells[(r2 + 1) * w + c2]);
                            assert(triplets(t)[k] == before[k]);
                        } else {
                            lemma_index_unique(r2 + 1, c2, r as int, c as int, w);
                            assert(triplets(t)[before.len() as int] == (r2 as usize, c2 as usize, cells[(r2 + 1) * w + c2]));
                        }
                    }
                    assert forall|k: int| 0 <= k < triplets(t).len() implies {
                        let x = #[trigger] triplets(t)[k];
                        &&& x.0 < nrows - 1
                        &&& x.1 < ncols
                        &&& cell_key(x, w) < r * w + c + 1
                        &&& x.2 == cells[cell_key(x, w)]
                        &&& x.2 != 0
                    } by {
                        if k < before.len() {
                            assert(triplets(t)[k] == before[k]);
                        }
                    }
                }
            } else {
                proof {
                    assert forall|r2: int, c2: int|
                        0 <= r2 < nrows - 1 && 0 <= c2 < ncols && (r2 + 1) * w + c2 < r * w + c + 1 && #[trigger] cells[(r2 + 1) * w + c2] != 0
                        implies triplets(t).contains((r2 as usize, c2 as usize, cells[(r2 + 1) * w + c2])) by {
                        if (r2 + 1) * w + c2 == r * w + c {
                            lemma_index_unique(r2 + 1, c2, r as int, c as int, w);
                        }
                    }
                }
            }
            c = c + 1;
        }
        proof {
            assert(r * w + w == (r + 1) * w) by (nonlinear_arith);
        }
        r = r + 1;
    }
    let ghost ts = triplets(t);
    proof {
        assert(no_dup_positions(ts)) by {
            assert forall|a: int, b: int| 0 <= a < b < ts.len() implies !((#[trigger] ts[a]).0 == (#[trigger] ts[b]).0
                && ts[a].1 == ts[b].1) by {
                assert(cell_key(ts[a], w) < cell_key(ts[b], w));
            }
        }
    }
    let m = tri_to_csr(&t);
    proof {
        assert forall|r: int| 0 <= r < nrows - 1 implies #[trigger] sparse_rows(m)[r] == sparse_of_row(
            dense_row(cells, w, r + 1),
        ) by {
            let row = dense_row(cells, w, r + 1);
            assert((r + 1) * w + w <= nrows * w) by (nonlinear_arith)
                requires
                    r + 1 < nrows,
                    w >= 0,
            ;
            assert(0 <= (r + 1) * w) by (nonlinear_arith)
                requires
                    r + 1 >= 0,
                    w >= 0,
            ;
            assert(row.len() == w);
            lemma_sparse_of_row(row);
            assert forall|c: usize, v: i32| sparse_rows(m)[r].contains((c, v)) <==> sparse_of_row(row).contains((c, v)) by {
                if ts.contains((r as usize, c, v)) {
                    let k = choose|k: int| 0 <= k < ts.len() && ts[k] == (r as usize, c, v);
                    assert(ts[k] == (r as usize, c, v));
                    assert(row[c as int] == cells[(r + 1) * w + c]);
                }
                if c < row.len() && v == row[c as int] && v != 0 {
                    assert(row[c as int] == cells[(r + 1) * w + c]);
                    lemma_index_in_range(r + 1, c as int, nrows as int, w);
                    assert(ts.contains(((r as usize), c, cells[(r + 1) * w + c])));
                }
            }
            lemma_same_entries(sparse_rows(m)[r], sparse_of_row(row));
        }
    }
    m
}

/// The table the builder lays out for the objective `obj` and the
/// constraints `cons`: the sparse table holds the non-zero cells of the
/// constraint rows and of the last row of `full_table`.
pub open spec fn laid_out(t: SimplexTable, obj: Seq<i32>, cons: Seq<SimplexConstraint>) -> bool {
    let vars = var_list(obj.len(), cons);
    let v = vars.len() as int;
    let w = v + 1;
    let m = cons.len() as int;
    let full = full_table(obj, cons);
    &&& t.objective@ == obj
    &&& t.vars@ == vars
    &&& t.base@ == base_vars(vars, v)
    &&& sparse_shape(t.table) == ((m + 1) as nat, w as nat)
    &&& sparse_rows(t.table).len() == m + 1
    &&& forall|r: int| 0 <= r <= m ==> #[trigger] sparse_rows(t.table)[r] == sparse_of_row(dense_row(full, w, r + 1))
}

impl SimplexMinimizerBuilder {
    /// Lay out the simplex table of the objective under `constraints`, or
    /// `None` where the layout is impossible: the constraints' coefficients
    /// do not fill the rows, the table is too large, or a sum overflows.
    pub fn try_with(self, constraints: Vec<SimplexConstraint>) -> (r: Option<SimplexTable>)
        ensures
            r is Some <==> builder_ok(self@, constraints@),
            r matches Some(t) ==> laid_out(t, self@, constraints@) && t.base@.len() == constraints@.len(),
    {
        let ghost obj = self@;
        let ghost cons = constraints@;
        let (mut table, vars) = lay_out(&self.objective, &constraints);
        let ghost up = table@;
        let base = base_positions(&vars);
        let nvars = vars.len();
        let m = constraints.len();
        proof {
            lemma_base_vars_count(obj.len(), cons, cons.len() as int);
            lemma_base_vars_bound(vars@, nvars as int);
        }
        let w = match nvars.checked_add(1) {
            Some(w) => w,
            None => {
                assert((m + 2) * (nvars + 1) > isize::MAX) by (nonlinear_arith)
                    requires
                        nvars + 1 > usize::MAX,
                        m >= 0,
                        usize::MAX >= isize::MAX,
                ;
                return None;
            },
        };
        let rows = match m.checked_add(1) {
            Some(x) => x,
            None => {
                assert((m + 2) * w > isize::MAX) by (nonlinear_arith)
                    requires
                        m + 1 > usize::MAX,
                        w >= 1,
                        usize::MAX >= isize::MAX,
                ;
                return None;
            },
        };
        let tl = table.len();
        let up_len = match rows.checked_mul(w) {
            Some(x) => x,
            None => {
                assert(up.len() == tl);
                return None;
            },
        };
        if table.len() != up_len {
            return None;
        }
        if !finish_rows(&mut table, &base, &constraints, nvars) {
            return None;
        }
        let nrows = match rows.checked_add(1) {
            Some(x) => x,
            None => {
                assert((m + 2) * w > isize::MAX) by (nonlinear_arith)
                    requires
                        m + 2 > usize::MAX,
                        w >= 1,
                        usize::MAX >= isize::MAX,
                ;
                return None;
            },
        };
        proof {
            assert(table@.len() == nrows * w) by (nonlinear_arith)
                requires
                    table@.len() == up.len() + w,
                    up.len() == (m + 1) * w,
                    nrows == m + 2,
            ;
            assert(extent(nrows as nat, w as nat) == nrows * w);
            assert(table@ == full_table(obj, cons));
        }
        let dense = match dense_from_shape_vec(table, nrows, w) {
            Some(d) => d,
            None => {
                return None;
            },
        };
        let csr = sparse_from_dense(&dense, nrows, w);
        Some(SimplexTable { objective: self.objective, table: csr, base, vars })
    }

    /// Lay out the simplex table of the objective under `constraints`.
    pub fn with(self, constraints: Vec<SimplexConstraint>) -> (t: SimplexTable)
        requires
            builder_ok(self@, constraints@),
        ensures
            laid_out(t, self@, constraints@),
            t.base@.len() == constraints@.len(),
    {
        self.try_with(constraints).unwrap()
    }
}

// ---------------------------------------------------------------------------
// The pivoting steps.
// ---------------------------------------------------------------------------

/// An entry of the last row that may enter: not the objective's value, and
/// above `-1`.
pub open spec fn entry_candidate(e: (usize, i32), last_col: int) -> bool {
    e.0 != last_col && e.1 > -1
}

/// Position `k` of `row` holds the first of the largest entry candidates.
pub open spec fn is_entry_pos(row: Seq<(usize, i32)>, last_col: int, k: int) -> bool {
    &&& 0 <= k < row.len()
    &&& entry_candidate(row[k], last_col)
    &&& forall|k2: int| 0 <= k2 < row.len() && entry_candidate(#[trigger] row[k2], last_col) ==> row[k2].1 <= row[k].1
    &&& forall|k2: int| 0 <= k2 < k && entry_candidate(#[trigger] row[k2], last_col) ==> row[k2].1 < row[k].1
}

/// The stored entries of the last row of a table.
pub open spec fn last_row_of(t: SimplexTable) -> Seq<(usize, i32)> {
    sparse_rows(t.table)[sparse_shape(t.table).0 - 1]
}

proof fn lemma_entry_pos_unique(row: Seq<(usize, i32)>, last: int, k1: int, k2: int)
    requires
        is_entry_pos(row, last, k1),
        is_entry_pos(row, last, k2),
    ensures
        k1 == k2,
{
    if k1 < k2 {
        assert(row[k1].1 < row[k2].1);
    } else if k2 < k1 {
        assert(row[k2].1 < row[k1].1);
    }
}

/// The entering column of a table: the column of the first largest entry
/// candidate of the last row, if there is one.
pub open spec fn entry_of(t: SimplexTable) -> Option<usize> {
    let row = last_row_of(t);
    let last = sparse_shape(t.table).1 - 1;
    if sparse_shape(t.table).0 > 0 && exists|k: int| is_entry_pos(row, last, k) {
        Some(row[choose|k: int| is_entry_pos(row, last, k)].0)
    } else {
        None
    }
}

/// A row with an entry candidate has a first largest one.
proof fn lemma_entry_pos_exists(row: Seq<(usize, i32)>, last: int)
    requires
        exists|k: int| 0 <= k < row.len() && #[trigger] entry_candidate(row[k], last),
    ensures
        exists|k: int| is_entry_pos(row, last, k),
    decreases row.len(),
{
    let n = row.len() - 1;
    let init = row.drop_last();
    if exists|k: int| 0 <= k < init.len() && #[trigger] entry_candidate(init[k], last) {
        let k0 = choose|k: int| 0 <= k < init.len() && #[trigger] entry_candidate(init[k], last);
        assert(entry_candidate(init[k0], last));
        lemma_entry_pos_exists(init, last);
        let k = choose|k: int| is_entry_pos(init, last, k);
        assert(init[k] == row[k]);
        if entry_candidate(row[n], last) && row[n].1 > row[k].1 {
            assert forall|k2: int| 0 <= k2 < row.len() && entry_candidate(#[trigger] row[k2], last) implies row[k2].1
                <= row[n].1 by {
                if k2 < n {
                    assert(init[k2] == row[k2]);
                }
            }
            assert forall|k2: int| 0 <= k2 < n && entry_candidate(#[trigger] row[k2], last) implies row[k2].1 < row[n].1 by {
                assert(init[k2] == row[k2]);
            }
            assert(is_entry_pos(row, last, n));
        } else {
            assert forall|k2: int| 0 <= k2 < row.len() && entry_candidate(#[trigger] row[k2], last) implies row[k2].1
                <= row[k].1 by {
                if k2 < n {
                    assert(init[k2] == row[k2]);
                }
            }
            assert forall|k2: int| 0 <= k2 < k && entry_candidate(#[trigger] row[k2], last) implies row[k2].1 < row[k].1 by {
                assert(init[k2] == row[k2]);
            }
            assert(is_entry_pos(row, last, k));
        }
    } else {
        let k0 = choose|k: int| 0 <= k < row.len() && #[trigger] entry_candidate(row[k], last);
        if k0 < n {
            assert(init[k0] == row[k0]);
        }
        assert(k0 == n);
        assert forall|k2: int| 0 <= k2 < n && entry_candidate(#[trigger] row[k2], last) implies false by {
            assert(init[k2] == row[k2]);
        }
        assert(is_entry_pos(row, last, n));
    }
}

/// The entering column is the column of the largest stored entry of the
/// last row that is above `-1`, the objective's column left out, the first
/// such entry on a tie; there is none exactly when the table has no row or
/// the last row stores no such entry.
pub proof fn lemma_entry_is_largest(t: SimplexTable)
    ensures
        ({
            let row = last_row_of(t);
            let last = sparse_shape(t.table).1 - 1;
            &&& entry_of(t) is None <==> (sparse_shape(t.table).0 == 0 || forall|k: int|
                0 <= k < row.len() ==> (#[trigger] row[k]).0 == last || row[k].1 <= -1)
            &&& entry_of(t) matches Some(c) ==> exists|k: int|
                0 <= k < row.len() && row[k].0 == c && row[k].0 != last && row[k].1 > -1 && (forall|k2: int|
                    0 <= k2 < row.len() && (#[trigger] row[k2]).0 != last && row[k2].1 > -1 ==> row[k2].1 <= row[k].1)
                    && (forall|k2: int| 0 <= k2 < k && (#[trigger] row[k2]).0 != last && row[k2].1 > -1 ==> row[k2].1 < row[k].1)
        }),
{
    let row = last_row_of(t);
    let last = sparse_shape(t.table).1 - 1;
    if exists|k: int| 0 <= k < row.len() && #[trigger] entry_candidate(row[k], last) {
        lemma_entry_pos_exists(row, last);
        let k = choose|k: int| is_entry_pos(row, last, k);
        assert(is_entry_pos(row, last, k));
        if sparse_shape(t.table).0 != 0 {
            assert(!(forall|k2: int| 0 <= k2 < row.len() ==> (#[trigger] row[k2]).0 == last || row[k2].1 <= -1)) by {
                assert(entry_candidate(row[k], last));
            }
        }
    } else {
        assert forall|k2: int| 0 <= k2 < row.len() implies (#[trigger] row[k2]).0 == last || row[k2].1 <= -1 by {
            assert(!entry_candidate(row[k2], last));
        }
        if exists|k: int| is_entry_pos(row, last, k) {
            let k = choose|k: int| is_entry_pos(row, last, k);
            assert(entry_candidate(row[k], last));
        }
    }
}

impl SimplexTable {
    /// The entering variable: the column of the first largest stored entry
    /// of the last row above `-1`, the objective's column left out.
    pub fn get_entry_var(&self) -> (r: Option<usize>)
        ensures
            r is None <==> (sparse_shape(self.table).0 == 0 || forall|k: int|
                0 <= k < last_row_of(*self).len() ==> !entry_candidate(
                    #[trigger] last_row_of(*self)[k],
                    sparse_shape(self.table).1 - 1,
                )),
            r matches Some(c) ==> sparse_shape(self.table).0 > 0 && exists|k: int|
                is_entry_pos(last_row_of(*self), sparse_shape(self.table).1 - 1, k) && last_row_of(*self)[k].0 == c,
            r == entry_of(*self),
            r matches Some(c) ==> exists|k: int|
                0 <= k < last_row_of(*self).len() && last_row_of(*self)[k].0 == c && last_row_of(*self)[k].0
                    != sparse_shape(self.table).1 - 1 && last_row_of(*self)[k].1 > -1 && forall|k2: int|
                    0 <= k2 < last_row_of(*self).len() && (#[trigger] last_row_of(*self)[k2]).0 != sparse_shape(self.table).1 - 1
                        && last_row_of(*self)[k2].1 > -1 ==> last_row_of(*self)[k2].1 <= last_row_of(*self)[k].1,
    {
        let nrows = sparse_nrows(&self.table);
        let ncols = sparse_ncols(&self.table);
        let mut entry_var: Option<usize> = None;
        let mut max_entry: i32 = -1;
        if nrows == 0 {
            return None;
        }
        let row = sparse_row(&self.table, nrows - 1);
        let ghost last = ncols - 1;
        let mut k: usize = 0;
        while k < row.len()
            invariant
                0 <= k <= row.len(),
                last == ncols - 1,
                forall|t: int| 0 <= t < row@.len() ==> (#[trigger] row@[t]).0 < ncols,
                entry_var is None ==> max_entry == -1 && forall|t: int|
                    0 <= t < k ==> !entry_candidate(#[trigger] row@[t], last),
                entry_var matches Some(c) ==> exists|kk: int|
                    0 <= kk < k && row@[kk].0 == c && row@[kk].1 == max_entry && entry_candidate(row@[kk], last)
                        && (forall|t: int| 0 <= t < k && entry_candidate(#[trigger] row@[t], last) ==> row@[t].1 <= max_entry)
                        && (forall|t: int| 0 <= t < kk && entry_candidate(#[trigger] row@[t], last) ==> row@[t].1 < max_entry),
            decreases row.len() - k,
        {
            let e = row[k];
            if e.0 != ncols - 1 && max_entry < e.1 {
                max_entry = e.1;
                entry_var = Some(e.0);
                assert(row@[k as int] == e);
            }
            k = k + 1;
        }
        proof {
            assert(row@ == last_row_of(*self));
            assert(last == sparse_shape(self.table).1 - 1);
            if let Some(c) = entry_var {
                let kk = choose|kk: int|
                    0 <= kk < k && row@[kk].0 == c && row@[kk].1 == max_entry && entry_candidate(row@[kk], last)
                        && (forall|t: int| 0 <= t < k && entry_candidate(#[trigger] row@[t], last) ==> row@[t].1 <= max_entry)
                        && (forall|t: int| 0 <= t < kk && entry_candidate(#[trigger] row@[t], last) ==> row@[t].1 < max_entry);
                assert(is_entry_pos(row@, last, kk));
                let k0 = choose|k0: int| is_entry_pos(row@, last, k0);
                lemma_entry_pos_unique(row@, last, kk, k0);
            } else {
                assert(!exists|k0: int| is_entry_pos(row@, last, k0));
            }
            lemma_entry_is_largest(*self);
        }
        entry_var
    }
}

/// The position where column `c` is stored in `row`, if it is.
fn find_col(row: &Vec<(usize, i32)>, c: usize) -> (r: Option<usize>)
    requires
        cols_increasing(row@),
    ensures
        r is None <==> !row_has_col(row@, c),
        r matches Some(k) ==> k < row@.len() && row@[k as int].0 == c && col_pos(row@, c) == k && value_at(row@, c) == row@[k as int].1,
{
    let mut k: usize = 0;
    while k < row.len()
        invariant
            0 <= k <= row.len(),
            cols_increasing(row@),
            forall|t: int| 0 <= t < k ==> row@[t].0 != c,
        decreases row.len() - k,
    {
        if row[k].0 == c {
            proof {
                lemma_value_at(row@, k as int);
            }
            return Some(k);
        }
        k = k + 1;
    }
    None
}

/// Rust's division of `i32`, which rounds toward zero.
pub open spec fn quotient(a: int, b: int) -> int {
    if b > 0 {
        if a >= 0 { a / b } else { -((-a) / b) }
    } else {
        if a >= 0 { -(a / (-b)) } else { (-a) / (-b) }
    }
}

/// Division rounds toward zero: the product of the quotient and the divisor
/// lies between zero and the dividend, less than one divisor away from it.
pub proof fn lemma_quotient_toward_zero(a: int, b: int)
    requires
        b != 0,
    ensures
        a >= 0 ==> 0 <= a - quotient(a, b) * b < (if b > 0 { b } else { -b }),
        a < 0 ==> -(if b > 0 { b } else { -b }) < a - quotient(a, b) * b <= 0,
        a >= 0 && b > 0 || a < 0 && b < 0 ==> quotient(a, b) >= 0,
        a > 0 && b < 0 || a < 0 && b > 0 ==> quotient(a, b) <= 0,
{
    let q = quotient(a, b);
    if b > 0 {
        if a >= 0 {
            vstd::arithmetic::div_mod::lemma_fundamental_div_mod(a, b);
            vstd::arithmetic::div_mod::lemma_mod_bound(a, b);
            vstd::arithmetic::div_mod::lemma_div_pos_is_pos(a, b);
            assert(a - (a / b) * b == a % b) by (nonlinear_arith)
                requires
                    a == b * (a / b) + a % b,
            ;
        } else {
            vstd::arithmetic::div_mod::lemma_fundamental_div_mod(-a, b);
            vstd::arithmetic::div_mod::lemma_mod_bound(-a, b);
            vstd::arithmetic::div_mod::lemma_div_pos_is_pos(-a, b);
            assert(a - (-((-a) / b)) * b == -((-a) % b)) by (nonlinear_arith)
                requires
                    -a == b * ((-a) / b) + (-a) % b,
            ;
        }
    } else {
        if a >= 0 {
            vstd::arithmetic::div_mod::lemma_fundamental_div_mod(a, -b);
            vstd::arithmetic::div_mod::lemma_mod_bound(a, -b);
            vstd::arithmetic::div_mod::lemma_div_pos_is_pos(a, -b);
            assert(a - (-(a / (-b))) * b == a % (-b)) by (nonlinear_arith)
                requires
                    a == (-b) * (a / (-b)) + a % (-b),
            ;
        } else {
            vstd::arithmetic::div_mod::lemma_fundamental_div_mod(-a, -b);
            vstd::arithmetic::div_mod::lemma_mod_bound(-a, -b);
            vstd::arithmetic::div_mod::lemma_div_pos_is_pos(-a, -b);
            assert(a - ((-a) / (-b)) * b == -((-a) % (-b))) by (nonlinear_arith)
                requires
                    -a == (-b) * ((-a) / (-b)) + (-a) % (-b),
            ;
        }
    }
}

/// Row `r` may leave: it stores column `e` with a positive entry.
pub open spec fn exit_candidate(rows: Seq<Seq<(usize, i32)>>, e: usize, r: int) -> bool {
    row_has_col(rows[r], e) && value_at(rows[r], e) > 0
}

/// The ratio of row `r`: its last stored entry over its entry in column `e`.
pub open spec fn exit_ratio(rows: Seq<Seq<(usize, i32)>>, e: usize, r: int) -> int {
    quotient(rows[r].last().1 as int, value_at(rows[r], e) as int)
}

/// Row `r`, among the rows before `n`, is the first candidate of smallest
/// ratio, and that ratio is below `100000`.
pub open spec fn is_exit_row(rows: Seq<Seq<(usize, i32)>>, e: usize, n: int, r: int) -> bool {
    &&& 0 <= r < n
    &&& exit_candidate(rows, e, r)
    &&& exit_ratio(rows, e, r) < 100000
    &&& forall|r2: int| 0 <= r2 < n && #[trigger] exit_candidate(rows, e, r2) ==> exit_ratio(rows, e, r) <= exit_ratio(rows, e, r2)
    &&& forall|r2: int| 0 <= r2 < r && #[trigger] exit_candidate(rows, e, r2) ==> exit_ratio(rows, e, r2) > exit_ratio(rows, e, r)
}

/// Row `k` of the table is the row whose basic variable leaves when
/// column `e` enters (the last two rows are not searched).
pub open spec fn exit_row_of(t: SimplexTable, e: usize, k: int) -> bool {
    is_exit_row(sparse_rows(t.table), e, sparse_shape(t.table).0 - 2, k)
}

/// Row `r` beats every candidate before it and `100000`.
pub open spec fn improves(rows: Seq<Seq<(usize, i32)>>, e: usize, r: int) -> bool {
    &&& exit_candidate(rows, e, r)
    &&& exit_ratio(rows, e, r) < 100000
    &&& forall|r2: int| 0 <= r2 < r && #[trigger] exit_candidate(rows, e, r2) ==> exit_ratio(rows, e, r2) > exit_ratio(rows, e, r)
}

/// Choosing the leaving variable is defined: the table has two rows or
/// more, and every row that the search keeps on the way has a basic variable.
pub open spec fn exit_ok(t: SimplexTable, e: usize) -> bool {
    &&& sparse_shape(t.table).0 >= 2
    &&& forall|r: int|
        0 <= r < sparse_shape(t.table).0 - 2 && #[trigger] improves(sparse_rows(t.table), e, r) ==> r < t.base@.len()
}

proof fn lemma_exit_row_unique(rows: Seq<Seq<(usize, i32)>>, e: usize, n: int, r1: int, r2: int)
    requires
        is_exit_row(rows, e, n, r1),
        is_exit_row(rows, e, n, r2),
    ensures
        r1 == r2,
{
    if r1 < r2 {
        assert(exit_ratio(rows, e, r1) > exit_ratio(rows, e, r2));
    } else if r2 < r1 {
        assert(exit_ratio(rows, e, r2) > exit_ratio(rows, e, r1));
    }
}

/// The leaving variable of a table for the entering column `e`: the basic
/// variable of its exit row, `1` when there is none.
pub open spec fn exit_of(t: SimplexTable, e: usize) -> usize {
    if exists|k: int| exit_row_of(t, e, k) {
        t.base@[choose|k: int| exit_row_of(t, e, k)]
    } else {
        1
    }
}

/// Among the rows before `n`, a candidate whose ratio is below `100000`
/// gives a first candidate of smallest ratio.
proof fn lemma_exit_row_exists(rows: Seq<Seq<(usize, i32)>>, e: usize, n: int)
    requires
        n >= 0,
        exists|r: int| 0 <= r < n && #[trigger] exit_candidate(rows, e, r) && exit_ratio(rows, e, r) < 100000,
    ensures
        exists|r: int| is_exit_row(rows, e, n, r),
    decreases n,
{
    let m = n - 1;
    if exists|r: int| 0 <= r < m && #[trigger] exit_candidate(rows, e, r) && exit_ratio(rows, e, r) < 100000 {
        lemma_exit_row_exists(rows, e, m);
        let r = choose|r: int| is_exit_row(rows, e, m, r);
        if exit_candidate(rows, e, m) && exit_ratio(rows, e, m) < exit_ratio(rows, e, r) {
            assert(is_exit_row(rows, e, n, m));
        } else {
            assert(is_exit_row(rows, e, n, r));
        }
    } else {
        assert(exit_candidate(rows, e, m) && exit_ratio(rows, e, m) < 100000);
        assert forall|r2: int| 0 <= r2 < n && #[trigger] exit_candidate(rows, e, r2) implies exit_ratio(rows, e, m)
            <= exit_ratio(rows, e, r2) by {
            if r2 < m {
                assert(!(exit_ratio(rows, e, r2) < 100000));
            }
        }
        assert forall|r2: int| 0 <= r2 < m && #[trigger] exit_candidate(rows, e, r2) implies exit_ratio(rows, e, r2)
            > exit_ratio(rows, e, m) by {
            assert(!(exit_ratio(rows, e, r2) < 100000));
        }
        assert(is_exit_row(rows, e, n, m));
    }
}

/// The leaving variable for the entering column `e` is the basic variable of
/// a searched row (every row but the last two) that stores a positive entry
/// in column `e` and whose ratio (last entry over that entry, rounded toward
/// zero) is below `100000` and no larger than the ratio of any searched row
/// with a positive entry in column `e`, the first such row on a tie; it is
/// `1` when no searched row has a positive entry with a ratio below `100000`.
pub proof fn lemma_exit_is_min_ratio(t: SimplexTable, e: usize)
    ensures
        ({
            let rows = sparse_rows(t.table);
            let n = sparse_shape(t.table).0 - 2;
            &&& (exists|r: int|
                0 <= r < n && row_has_col(#[trigger] rows[r], e) && value_at(rows[r], e) > 0 && quotient(
                    rows[r].last().1 as int,
                    value_at(rows[r], e) as int,
                ) < 100000) ==> exists|k: int|
                0 <= k < n && exit_of(t, e) == t.base@[k] && row_has_col(rows[k], e) && value_at(rows[k], e) > 0
                    && quotient(rows[k].last().1 as int, value_at(rows[k], e) as int) < 100000 && (forall|r2: int|
                    0 <= r2 < n && row_has_col(#[trigger] rows[r2], e) && value_at(rows[r2], e) > 0 ==> quotient(
                        rows[k].last().1 as int,
                        value_at(rows[k], e) as int,
                    ) <= quotient(rows[r2].last().1 as int, value_at(rows[r2], e) as int)) && (forall|r2: int|
                    0 <= r2 < k && row_has_col(#[trigger] rows[r2], e) && value_at(rows[r2], e) > 0 ==> quotient(
                        rows[k].last().1 as int,
                        value_at(rows[k], e) as int,
                    ) < quotient(rows[r2].last().1 as int, value_at(rows[r2], e) as int))
            &&& !(exists|r: int|
                0 <= r < n && row_has_col(#[trigger] rows[r], e) && value_at(rows[r], e) > 0 && quotient(
                    rows[r].last().1 as int,
                    value_at(rows[r], e) as int,
                ) < 100000) ==> exit_of(t, e) == 1
        }),
{
    let rows = sparse_rows(t.table);
    let n = sparse_shape(t.table).0 - 2;
    if exists|r: int|
        0 <= r < n && row_has_col(#[trigger] rows[r], e) && value_at(rows[r], e) > 0 && quotient(
            rows[r].last().1 as int,
            value_at(rows[r], e) as int,
        ) < 100000 {
        let r0 = choose|r: int|
            0 <= r < n && row_has_col(#[trigger] rows[r], e) && value_at(rows[r], e) > 0 && quotient(
                rows[r].last().1 as int,
                value_at(rows[r], e) as int,
            ) < 100000;
        assert(exit_candidate(rows, e, r0) && exit_ratio(rows, e, r0) < 100000);
        lemma_exit_row_exists(rows, e, n);
        let r1 = choose|r: int| is_exit_row(rows, e, n, r);
        assert(exit_row_of(t, e, r1));
        let k = choose|k: int| exit_row_of(t, e, k);
        assert(exit_row_of(t, e, k));
        assert(exit_of(t, e) == t.base@[k]);
        assert forall|r2: int| 0 <= r2 < n && row_has_col(#[trigger] rows[r2], e) && value_at(rows[r2], e) > 0 implies quotient(
            rows[k].last().1 as int,
            value_at(rows[k], e) as int,
        ) <= quotient(rows[r2].last().1 as int, value_at(rows[r2], e) as int) by {
            assert(exit_candidate(rows, e, r2));
        }
        assert forall|r2: int| 0 <= r2 < k && row_has_col(#[trigger] rows[r2], e) && value_at(rows[r2], e) > 0 implies quotient(
            rows[k].last().1 as int,
            value_at(rows[k], e) as int,
        ) < quotient(rows[r2].last().1 as int, value_at(rows[r2], e) as int) by {
            assert(exit_candidate(rows, e, r2));
        }
    } else {
        if exists|k: int| exit_row_of(t, e, k) {
            let k = choose|k: int| exit_row_of(t, e, k);
            assert(exit_row_of(t, e, k));
            assert(row_has_col(rows[k], e));
        }
    }
}

/// On a table the builder lays out with one constraint or more, the search
/// for the leaving variable is defined whatever column enters: every
/// searched row has a basic variable.
pub proof fn lemma_laid_out_exit_ok(t: SimplexTable, obj: Seq<i32>, cons: Seq<SimplexConstraint>, e: usize)
    requires
        laid_out(t, obj, cons),
        t.base@.len() == cons.len(),
        cons.len() >= 1,
    ensures
        exit_ok(t, e),
{
}

impl SimplexTable {
    /// The leaving variable for the entering column `entry_var`: the basic
    /// variable of the first row (the last two left out) that stores a
    /// positive entry in that column and has the smallest ratio of its last
    /// entry to it, below `100000`; `Some(1)` when there is no such row.
    pub fn get_exit_var(&self, entry_var: usize) -> (r: Option<usize>)
        requires
            exit_ok(*self, entry_var),
        ensures
            (exists|k: int| #[trigger] exit_row_of(*self, entry_var, k)) ==> exists|k: int|
                #[trigger] exit_row_of(*self, entry_var, k) && k < self.base@.len() && r == Some(self.base@[k]),
            !(exists|k: int| #[trigger] exit_row_of(*self, entry_var, k)) ==> r == Some(1usize),
            r == Some(exit_of(*self, entry_var)),
    {
        let ghost rows = sparse_rows(self.table);
        let mut exit_var: Option<usize> = Some(1);
        let mut min_entry: i32 = 100000;
        let nrows = sparse_nrows(&self.table);
        let _ncols = sparse_ncols(&self.table);
        let mut row_idx: usize = 0;
        while row_idx < nrows - 2
            invariant
                rows == sparse_rows(self.table),
                nrows == sparse_shape(self.table).0,
                exit_ok(*self, entry_var),
                0 <= row_idx <= nrows - 2,
                (forall|r2: int| 0 <= r2 < row_idx && #[trigger] exit_candidate(rows, entry_var, r2) ==> exit_ratio(rows, entry_var, r2) >= 100000)
                    ==> min_entry == 100000 && exit_var == Some(1usize),
                !(forall|r2: int| 0 <= r2 < row_idx && #[trigger] exit_candidate(rows, entry_var, r2) ==> exit_ratio(rows, entry_var, r2) >= 100000)
                    ==> exists|rr: int| is_exit_row(rows, entry_var, row_idx as int, rr) && rr < self.base@.len()
                        && min_entry == exit_ratio(rows, entry_var, rr) && exit_var == Some(self.base@[rr]),
            decreases nrows - 2 - row_idx,
        {
            let row = sparse_row(&self.table, row_idx);
            let ghost prev_all_big = forall|r2: int| 0 <= r2 < row_idx && #[trigger] exit_candidate(rows, entry_var, r2) ==> exit_ratio(rows, entry_var, r2) >= 100000;
            match find_col(&row, entry_var) {
                Some(k) => {
                    let b_i = row[row.len() - 1].1;
                    let pivot_i = row[k].1;
                    if pivot_i > 0 {
                        let ratio = b_i / pivot_i;
                        assert(ratio == exit_ratio(rows, entry_var, row_idx as int));
                        if min_entry > ratio {
                            proof {
                                assert(improves(rows, entry_var, row_idx as int));
                            }
                            min_entry = ratio;
                            exit_var = Some(self.base[row_idx]);
                            proof {
                                assert(is_exit_row(rows, entry_var, row_idx + 1, row_idx as int));
                            }
                        }
                    }
                },
                None => {},
            }
            row_idx = row_idx + 1;
        }
        proof {
            if forall|r2: int| 0 <= r2 < row_idx && #[trigger] exit_candidate(rows, entry_var, r2) ==> exit_ratio(rows, entry_var, r2) >= 100000 {
                assert forall|k: int| !#[trigger] exit_row_of(*self, entry_var, k) by {
                    if exit_row_of(*self, entry_var, k) {
                        assert(exit_candidate(rows, entry_var, k));
                    }
                }
            } else {
                let rr = choose|rr: int| is_exit_row(rows, entry_var, row_idx as int, rr) && rr < self.base@.len()
                    && min_entry == exit_ratio(rows, entry_var, rr) && exit_var == Some(self.base@[rr]);
                assert(exit_row_of(*self, entry_var, rr));
                let k0 = choose|k0: int| exit_row_of(*self, entry_var, k0);
                lemma_exit_row_unique(rows, entry_var, nrows - 2, rr, k0);
            }
        }
        exit_var
    }
}

/// Rust's division of `i32`: `a / b`, rounding toward zero.
pub fn quotient_i32(a: i32, b: i32) -> (q: i32)
    requires
        b != 0,
        !(a == i32::MIN && b == -1),
    ensures
        q == quotient(a as int, b as int),
{
    if b > 0 {
        a / b
    } else if b == -1 {
        -a
    } else if b == i32::MIN {
        if a == i32::MIN {
            1
        } else {
            0
        }
    } else {
        let nb = -b;
        let t = a / nb;
        proof {
            if a >= 0 {
                lemma_div_bound(a as int, nb as int);
            } else {
                lemma_div_bound(-a, nb as int);
            }
        }
        -t
    }
}

proof fn lemma_div_bound(x: int, d: int)
    by (nonlinear_arith)
    requires
        0 <= x <= 2147483648,
        d >= 2,
    ensures
        0 <= x / d <= 1073741824,
{
}

/// `p` is the first position of `x` in `base`.
pub open spec fn is_first_pos(base: Seq<usize>, x: usize, p: int) -> bool {
    &&& 0 <= p < base.len()
    &&& base[p] == x
    &&& forall|q: int| 0 <= q < p ==> base[q] != x
}

/// The first position of `x` in `base`.
pub open spec fn first_pos(base: Seq<usize>, x: usize) -> int {
    choose|p: int| is_first_pos(base, x, p)
}

/// The first position of `x` in `base`, if any.
fn position_of(base: &Vec<usize>, x: usize) -> (r: Option<usize>)
    ensures
        r is None <==> !base@.contains(x),
        r matches Some(p) ==> is_first_pos(base@, x, p as int) && first_pos(base@, x) == p,
{
    let mut k: usize = 0;
    while k < base.len()
        invariant
            0 <= k <= base.len(),
            forall|q: int| 0 <= q < k ==> base@[q] != x,
        decreases base.len() - k,
    {
        if base[k] == x {
            proof {
                assert(is_first_pos(base@, x, k as int));
                let p = first_pos(base@, x);
                assert(is_first_pos(base@, x, p));
                if p < k {
                } else if p > k {
                    assert(base@[k as int] != x);
                }
            }
            return Some(k);
        }
        k = k + 1;
    }
    None
}

/// The new value of column `c` in a row whose factor is `f`, the pivot row
/// holding `pv` in that column.
pub open spec fn new_value(row: Seq<(usize, i32)>, c: usize, pv: i32, f: int) -> int {
    if row_has_col(row, c) {
        value_at(row, c) - pv * f
    } else {
        (-pv) * f
    }
}

/// The new value of column `c` fits in an `i32`, and so does every step on the way to it.
pub open spec fn entry_fits(row: Seq<(usize, i32)>, c: usize, pv: i32, f: int) -> bool {
    if row_has_col(row, c) {
        fits_i32(pv * f) && fits_i32(value_at(row, c) - pv * f)
    } else {
        fits_i32(-pv) && fits_i32((-pv) * f)
    }
}

/// Row `row` can be reduced by the pivot row `prow` for column `e`.
pub open spec fn row_update_ok(row: Seq<(usize, i32)>, prow: Seq<(usize, i32)>, e: usize) -> bool {
    let pivot = value_at(prow, e);
    &&& !(value_at(row, e) == i32::MIN && pivot == -1)
    &&& forall|k: int|
        0 <= k < prow.len() ==> entry_fits(row, (#[trigger] prow[k]).0, prow[k].1, quotient(value_at(row, e) as int, pivot as int))
}

/// Pivoting on column `e` and the row of the basic variable `x` is defined:
/// `x` is basic, its row stores a non-zero entry in column `e`, and every
/// reduced row fits in `i32`.
pub open spec fn step_ok(t: SimplexTable, e: usize, x: usize) -> bool {
    let rows = sparse_rows(t.table);
    let p = first_pos(t.base@, x);
    &&& t.base@.contains(x)
    &&& p < sparse_shape(t.table).0
    &&& row_has_col(rows[p], e)
    &&& value_at(rows[p], e) != 0
    &&& forall|i: int|
        0 <= i < sparse_shape(t.table).0 && i != p && row_has_col(#[trigger] rows[i], e) ==> row_update_ok(rows[i], rows[p], e)
}

/// `new` is `row` reduced by the pivot row `prow` with factor `f`: each
/// column stored in the pivot row gets its new value, the others keep theirs.
pub open spec fn is_reduced_row(new: Seq<(usize, i32)>, row: Seq<(usize, i32)>, prow: Seq<(usize, i32)>, f: int) -> bool {
    &&& cols_increasing(new)
    &&& forall|c: usize, v: i32|
        #![trigger new.contains((c, v))]
        new.contains((c, v)) <==> ((row_has_col(prow, c) && v == new_value(row, c, value_at(prow, c), f))
            || (!row_has_col(prow, c) && row.contains((c, v))))
}

/// `base` with every `x` replaced by `e`.
pub open spec fn replaced(base: Seq<usize>, x: usize, e: usize) -> Seq<usize> {
    Seq::new(base.len(), |k: int| if base[k] == x { e } else { base[k] })
}

/// `u` is the table `t` after one pivoting step in which column `e`
/// enters and the basic variable `x` leaves: the pivot row and the rows
/// without an entry in column `e` are kept, every other row is reduced by
/// the pivot row, and `x` is replaced by `e` in the base.
pub open spec fn stepped(t: SimplexTable, u: SimplexTable, e: usize, x: usize) -> bool {
    let rows = sparse_rows(t.table);
    let p = first_pos(t.base@, x);
    let pivot = value_at(rows[p], e);
    &&& u.objective@ == t.objective@
    &&& u.vars@ == t.vars@
    &&& u.base@ == replaced(t.base@, x, e)
    &&& sparse_shape(u.table) == sparse_shape(t.table)
    &&& sparse_rows(u.table).len() == rows.len()
    &&& forall|i: int|
        0 <= i < rows.len() && (i == p || !row_has_col(rows[i], e)) ==> #[trigger] sparse_rows(u.table)[i] == rows[i]
    &&& forall|i: int|
        0 <= i < rows.len() && i != p && row_has_col(rows[i], e) ==> is_reduced_row(
            #[trigger] sparse_rows(u.table)[i],
            rows[i],
            rows[p],
            quotient(value_at(rows[i], e) as int, pivot as int),
        )
}

/// Rust's division of a multiple of `b` by `b` is exact.
pub proof fn lemma_quotient_exact(k: int, b: int)
    requires
        b != 0,
    ensures
        quotient(k * b, b) == k,
{
    if b > 0 {
        if k >= 0 {
            vstd::arithmetic::div_mod::lemma_div_multiples_vanish(k, b);
            assert(b * k == k * b) by (nonlinear_arith);
            assert(k * b >= 0) by (nonlinear_arith)
                requires
                    k >= 0,
                    b > 0,
            ;
        } else {
            vstd::arithmetic::div_mod::lemma_div_multiples_vanish(-k, b);
            assert(b * (-k) == -(k * b)) by (nonlinear_arith);
            assert(k * b < 0) by (nonlinear_arith)
                requires
                    k < 0,
                    b > 0,
            ;
        }
    } else {
        if k <= 0 {
            vstd::arithmetic::div_mod::lemma_div_multiples_vanish(-k, -b);
            assert((-b) * (-k) == k * b) by (nonlinear_arith);
            assert(k * b >= 0) by (nonlinear_arith)
                requires
                    k <= 0,
                    b < 0,
            ;
        } else {
            vstd::arithmetic::div_mod::lemma_div_multiples_vanish(k, -b);
            assert((-b) * k == -(k * b)) by (nonlinear_arith);
            assert(k * b < 0) by (nonlinear_arith)
                requires
                    k > 0,
                    b < 0,
            ;
        }
    }
}

/// A pivoting step clears the entering column `e` in every other row whose
/// entry there is a multiple of the pivot (every row, when the pivot is
/// one or minus one): the row then holds zero in column `e`.
pub proof fn lemma_step_clears_column(t: SimplexTable, u: SimplexTable, e: usize, x: usize, i: int, k: int)
    requires
        step_ok(t, e, x),
        stepped(t, u, e, x),
        0 <= i < sparse_rows(t.table).len(),
        i != first_pos(t.base@, x),
        row_has_col(sparse_rows(t.table)[i], e),
        value_at(sparse_rows(t.table)[i], e) == k * value_at(sparse_rows(t.table)[first_pos(t.base@, x)], e),
    ensures
        row_has_col(sparse_rows(u.table)[i], e),
        value_at(sparse_rows(u.table)[i], e) == 0,
{
    let rows = sparse_rows(t.table);
    let p = first_pos(t.base@, x);
    let pivot = value_at(rows[p], e);
    let f = quotient(value_at(rows[i], e) as int, pivot as int);
    lemma_quotient_exact(k, pivot as int);
    assert(f == k);
    assert(value_at(rows[i], e) - pivot * f == 0) by (nonlinear_arith)
        requires
            value_at(rows[i], e) == k * pivot,
            f == k,
    ;
    let nw = sparse_rows(u.table)[i];
    assert(is_reduced_row(nw, rows[i], rows[p], f));
    assert(nw.contains((e, 0i32)));
    let q = choose|q: int| 0 <= q < nw.len() && nw[q] == (e, 0i32);
    lemma_value_at(nw, q);
}

/// The value of column `c` in a sparse row: the value stored, or zero.
pub open spec fn entry(row: Seq<(usize, i32)>, c: usize) -> int {
    if row_has_col(row, c) {
        value_at(row, c) as int
    } else {
        0
    }
}

/// The column of each basic variable is a unit column: column `base[k]`
/// holds one in row `k` and zero in every other row, the last one included.
pub open spec fn unit_basis(t: SimplexTable) -> bool {
    let rows = sparse_rows(t.table);
    forall|k: int, i: int|
        0 <= k < t.base@.len() && 0 <= i < rows.len() ==> #[trigger] entry(rows[i], t.base@[k]) == (if i == k {
            1int
        } else {
            0int
        })
}

/// A row whose columns increase and that holds `(c, v)` stores `v` for column `c`.
proof fn lemma_contains_value(row: Seq<(usize, i32)>, c: usize, v: i32)
    requires
        cols_increasing(row),
        row.contains((c, v)),
    ensures
        row_has_col(row, c),
        value_at(row, c) == v,
{
    let q = choose|q: int| 0 <= q < row.len() && row[q] == (c, v);
    lemma_value_at(row, q);
}

/// A row that stores column `c` holds the pair of `c` and its value.
proof fn lemma_value_contained(row: Seq<(usize, i32)>, c: usize)
    requires
        row_has_col(row, c),
    ensures
        row.contains((c, value_at(row, c))),
{
    let k = col_pos(row, c);
    assert(row[k] == (c, value_at(row, c)));
}

/// After a pivoting step on an entry equal to one, in a table whose basic
/// columns are unit columns, the basic columns (the entering one in place
/// of the leaving one) are unit columns again.
pub proof fn lemma_step_keeps_unit_basis(t: SimplexTable, u: SimplexTable, e: usize, x: usize)
    requires
        step_ok(t, e, x),
        stepped(t, u, e, x),
        unit_basis(t),
        t.base@.len() < sparse_rows(t.table).len(),
        entry(sparse_rows(t.table)[first_pos(t.base@, x)], e) == 1,
    ensures
        unit_basis(u),
{
    let rows = sparse_rows(t.table);
    let urows = sparse_rows(u.table);
    let base = t.base@;
    let m = base.len();
    let p = first_pos(base, x);
    assert forall|k1: int, k2: int| 0 <= k1 < m && 0 <= k2 < m && k1 != k2 implies #[trigger] base[k1]
        != #[trigger] base[k2] by {
        assert(entry(rows[k1], base[k1]) == 1);
        assert(entry(rows[k1], base[k2]) == 0);
    }
    let k0 = choose|k0: int| 0 <= k0 < m && base[k0] == x;
    assert(is_first_pos(base, x, k0)) by {
        assert forall|q: int| 0 <= q < k0 implies base[q] != x by {
            assert(base[q] != base[k0]);
        }
    }
    assert(is_first_pos(base, x, p));
    let pivot = value_at(rows[p], e);
    assert(row_has_col(rows[p], e) && pivot == 1);
    assert forall|k: int, i: int| 0 <= k < u.base@.len() && 0 <= i < urows.len() implies #[trigger] entry(
        urows[i],
        u.base@[k],
    ) == (if i == k {
        1int
    } else {
        0int
    }) by {
        let target = if i == k { 1int } else { 0int };
        if base[k] == x {
            if k != p {
                assert(base[k] != base[p]);
            }
            assert(k == p);
            assert(u.base@[k] == e);
            if i == p {
                assert(urows[i] == rows[i]);
                assert(entry(urows[i], e) == 1);
            } else if !row_has_col(rows[i], e) {
                assert(urows[i] == rows[i]);
                assert(entry(urows[i], e) == 0);
            } else {
                let v = value_at(rows[i], e) as int;
                assert(value_at(rows[i], e) == v * value_at(rows[p], e)) by (nonlinear_arith)
                    requires
                        value_at(rows[p], e) == 1,
                        v == value_at(rows[i], e),
                ;
                lemma_step_clears_column(t, u, e, x, i, v);
                assert(entry(urows[i], e) == 0);
            }
            assert(entry(urows[i], u.base@[k]) == target);
        } else {
            let c = base[k];
            assert(u.base@[k] == c);
            assert(k != p);
            assert(entry(rows[p], c) == 0);
            assert(c != e);
            assert(entry(rows[i], c) == target);
            if i == p || !row_has_col(rows[i], e) {
                assert(urows[i] == rows[i]);
            } else {
                let f = quotient(value_at(rows[i], e) as int, pivot as int);
                let nw = urows[i];
                assert(is_reduced_row(nw, rows[i], rows[p], f));
                if row_has_col(rows[p], c) {
                    let pv = value_at(rows[p], c);
                    assert(pv == 0);
                    assert(pv * f == 0) by (nonlinear_arith)
                        requires
                            pv == 0,
                    ;
                    let nv = new_value(rows[i], c, pv, f);
                    if row_has_col(rows[i], c) {
                        assert(nv == value_at(rows[i], c));
                    } else {
                        assert(nv == 0);
                    }
                    assert(nw.contains((c, nv as i32)));
                    lemma_contains_value(nw, c, nv as i32);
                } else if row_has_col(rows[i], c) {
                    lemma_value_contained(rows[i], c);
                    assert(nw.contains((c, value_at(rows[i], c))));
                    lemma_contains_value(nw, c, value_at(rows[i], c));
                } else {
                    if row_has_col(nw, c) {
                        lemma_value_contained(nw, c);
                        assert(rows[i].contains((c, value_at(nw, c))));
                        let q = choose|q: int| 0 <= q < rows[i].len() && rows[i][q] == (c, value_at(nw, c));
                        assert(rows[i][q].0 == c);
                    }
                }
            }
            assert(entry(urows[i], u.base@[k]) == target);
        }
    }
}

impl SimplexTable {
    /// One pivoting step: column `entry_var` enters, the basic variable
    /// `exit_var` leaves.  Every other row that stores an entry in column
    /// `entry_var` is reduced by the pivot row, the factor being its entry
    /// over the pivot (rounded toward zero); the basic variable is replaced.
    pub fn step(&mut self, entry_var: usize, exit_var: usize)
        requires
            step_ok(*old(self), entry_var, exit_var),
        ensures
            stepped(*old(self), *final(self), entry_var, exit_var),
    {
        let ghost rows = sparse_rows(self.table);
        let ghost shape = sparse_shape(self.table);
        let exit_row_idx = position_of(&self.base, exit_var).unwrap();
        let pivot_row = sparse_row(&self.table, exit_row_idx);
        let p_index = find_col(&pivot_row, entry_var).unwrap();
        let pivot = pivot_row[p_index].1;
        let nrows = sparse_nrows(&self.table);
        let mut table_copy = sparse_clone(&self.table);
        let mut i: usize = 0;
        while i < nrows
            invariant
                rows == sparse_rows(self.table),
                shape == sparse_shape(self.table),
                nrows == shape.0,
                rows.len() == nrows,
                step_ok(*self, entry_var, exit_var),
                exit_row_idx == first_pos(self.base@, exit_var),
                pivot_row@ == rows[exit_row_idx as int],
                cols_increasing(pivot_row@),
                forall|k: int| 0 <= k < pivot_row@.len() ==> (#[trigger] pivot_row@[k]).0 < shape.1,
                pivot == value_at(pivot_row@, entry_var),
                0 <= i <= nrows,
                sparse_shape(table_copy) == shape,
                sparse_rows(table_copy).len() == rows.len(),
                forall|i2: int| i <= i2 < rows.len() ==> #[trigger] sparse_rows(table_copy)[i2] == rows[i2],
                forall|i2: int|
                    0 <= i2 < i && (i2 == exit_row_idx || !row_has_col(rows[i2], entry_var)) ==> #[trigger] sparse_rows(table_copy)[i2]
                        == rows[i2],
                forall|i2: int|
                    0 <= i2 < i && i2 != exit_row_idx && row_has_col(rows[i2], entry_var) ==> is_reduced_row(
                        #[trigger] sparse_rows(table_copy)[i2],
                        rows[i2],
                        rows[exit_row_idx as int],
                        quotient(value_at(rows[i2], entry_var) as int, pivot as int),
                    ),
            decreases nrows - i,
        {
            let row = sparse_row(&self.table, i);
            if i != exit_row_idx {
                match find_col(&row, entry_var) {
                    Some(r_index) => {
                        proof {
                            assert(row_update_ok(rows[i as int], rows[exit_row_idx as int], entry_var));
                        }
                        let factor = quotient_i32(row[r_index].1, pivot);
                        let ghost f = factor as int;
                        let ghost tc0 = sparse_rows(table_copy);
                        proof {
                            assert(sparse_rows(table_copy)[i as int] == rows[i as int]);
                        }
                        let mut k: usize = 0;
                        while k < pivot_row.len()
                            invariant
                                rows == sparse_rows(self.table),
                                shape == sparse_shape(self.table),
                                nrows == shape.0,
                                rows.len() == nrows,
                                i < nrows,
                                i != exit_row_idx,
                                row@ == rows[i as int],
                                cols_increasing(row@),
                                row_update_ok(row@, pivot_row@, entry_var),
                                f == quotient(value_at(row@, entry_var) as int, pivot as int),
                                f == factor as int,
                                pivot_row@ == rows[exit_row_idx as int],
                                cols_increasing(pivot_row@),
                                forall|k2: int| 0 <= k2 < pivot_row@.len() ==> (#[trigger] pivot_row@[k2]).0 < shape.1,
                                pivot == value_at(pivot_row@, entry_var),
                                0 <= k <= pivot_row@.len(),
                                sparse_shape(table_copy) == shape,
                                sparse_rows(table_copy).len() == rows.len(),
                                forall|i2: int| 0 <= i2 < rows.len() && i2 != i ==> #[trigger] sparse_rows(table_copy)[i2] == tc0[i2],
                                cols_increasing(sparse_rows(table_copy)[i as int]),
                                forall|c: usize, v: i32|
                                    #![trigger sparse_rows(table_copy)[i as int].contains((c, v))]
                                    sparse_rows(table_copy)[i as int].contains((c, v)) <==> (((exists|k2: int|
                                        0 <= k2 < k && #[trigger] pivot_row@[k2].0 == c) && v == new_value(
                                        row@,
                                        c,
                                        value_at(pivot_row@, c),
                                        f,
                                    )) || (!(exists|k2: int| 0 <= k2 < k && #[trigger] pivot_row@[k2].0 == c) && row@.contains((c, v)))),
                            decreases pivot_row.len() - k,
                        {
                            let col_idx = pivot_row[k].0;
                            let pv = pivot_row[k].1;
                            proof {
                                lemma_value_at(pivot_row@, k as int);
                                assert(entry_fits(row@, pivot_row@[k as int].0, pivot_row@[k as int].1, f));
                            }
                            let new_ele = match find_col(&row, col_idx) {
                                Some(ri) => {
                                    proof {
                                        assert(row_has_col(row@, col_idx));
                                        assert(fits_i32(pv * f));
                                        assert(fits_i32(row@[ri as int].1 - pv * f));
                                    }
                                    row[ri].1 - pv * factor
                                },
                                None => -pv * factor,
                            };
                            let ghost cur = sparse_rows(table_copy)[i as int];
                            proof {
                                lemma_sorted_insert(cur, col_idx, new_ele);
                            }
                            sparse_insert(&mut table_copy, i, col_idx, new_ele);
                            proof {
                                let nw = sparse_rows(table_copy)[i as int];
                                assert(nw == sorted_insert(cur, col_idx, new_ele));
                                assert forall|c: usize, v: i32| nw.contains((c, v)) <==> (((exists|k2: int|
                                    0 <= k2 < k + 1 && #[trigger] pivot_row@[k2].0 == c) && v == new_value(
                                    row@,
                                    c,
                                    value_at(pivot_row@, c),
                                    f,
                                )) || (!(exists|k2: int| 0 <= k2 < k + 1 && #[trigger] pivot_row@[k2].0 == c) && row@.contains((c, v)))) by {
                                    if c == col_idx {
                                        assert(pivot_row@[k as int].0 == c);
                                    } else {
                                        if exists|k2: int| 0 <= k2 < k + 1 && #[trigger] pivot_row@[k2].0 == c {
                                            let k2 = choose|k2: int| 0 <= k2 < k + 1 && #[trigger] pivot_row@[k2].0 == c;
                                            assert(k2 != k);
                                        }
                                    }
                                }
                            }
                            k = k + 1;
                        }
                        proof {
                            let nw = sparse_rows(table_copy)[i as int];
                            assert forall|c: usize| (exists|k2: int| 0 <= k2 < pivot_row@.len() && #[trigger] pivot_row@[k2].0 == c)
                                <==> row_has_col(pivot_row@, c) by {
                            }
                            assert(is_reduced_row(nw, rows[i as int], rows[exit_row_idx as int], f));
                        }
                    },
                    None => {},
                }
            }
            i = i + 1;
        }
        self.table = table_copy;
        let mut new_base: Vec<usize> = Vec::new();
        let mut k: usize = 0;
        while k < self.base.len()
            invariant
                0 <= k <= self.base@.len(),
                new_base@ == replaced(self.base@.take(k as int), exit_var, entry_var),
            decreases self.base.len() - k,
        {
            let b = self.base[k];
            if b == exit_var {
                new_base.push(entry_var);
            } else {
                new_base.push(b);
            }
            k = k + 1;
            assert(new_base@ =~= replaced(self.base@.take(k as int), exit_var, entry_var));
        }
        assert(self.base@.take(k as int) =~= self.base@);
        self.base = new_base;
        proof {
            assert(stepped(*old(self), *self, entry_var, exit_var));
        }
    }
}

// ---------------------------------------------------------------------------
// Checking that a pivoting round is defined, and running one.
// ---------------------------------------------------------------------------

/// `m` is the smallest ratio of the candidate rows before `n`, or `100000`
/// when none is smaller.
pub open spec fn running_min(rows: Seq<Seq<(usize, i32)>>, e: usize, n: int, m: int) -> bool {
    &&& m <= 100000
    &&& forall|r2: int| 0 <= r2 < n && #[trigger] exit_candidate(rows, e, r2) ==> exit_ratio(rows, e, r2) >= m
    &&& (m == 100000 || exists|r2: int| 0 <= r2 < n && #[trigger] exit_candidate(rows, e, r2) && exit_ratio(rows, e, r2) == m)
}

proof fn lemma_improves_min(rows: Seq<Seq<(usize, i32)>>, e: usize, r: int, m: int)
    requires
        running_min(rows, e, r, m),
    ensures
        improves(rows, e, r) <==> (exit_candidate(rows, e, r) && exit_ratio(rows, e, r) < m),
{
    if improves(rows, e, r) && m != 100000 {
        let r2 = choose|r2: int| 0 <= r2 < r && #[trigger] exit_candidate(rows, e, r2) && exit_ratio(rows, e, r2) == m;
        assert(exit_ratio(rows, e, r2) > exit_ratio(rows, e, r));
    }
}

proof fn lemma_mul_bound(a: int, b: int)
    by (nonlinear_arith)
    requires
        -2147483648 <= a <= 2147483648,
        -2147483648 <= b <= 2147483648,
    ensures
        -4611686018427387904 <= a * b <= 4611686018427387904,
{
}

/// `x` fits in an `i32`.
fn fits_in_i32(x: i64) -> (r: bool)
    ensures
        r == fits_i32(x as int),
{
    -2147483648i64 <= x && x <= 2147483647i64
}

/// Reducing `row` by the pivot row `prow` for column `e` stays within `i32`.
fn row_fits(row: &Vec<(usize, i32)>, prow: &Vec<(usize, i32)>, e: usize, pivot: i32) -> (r: bool)
    requires
        cols_increasing(row@),
        cols_increasing(prow@),
        row_has_col(row@, e),
        pivot == value_at(prow@, e),
        pivot != 0,
    ensures
        r == row_update_ok(row@, prow@, e),
{
    let a = match find_col(row, e) {
        Some(rk) => row[rk].1,
        None => {
            return false;
        },
    };
    if a == i32::MIN && pivot == -1 {
        return false;
    }
    let factor = quotient_i32(a, pivot);
    let ghost f = factor as int;
    let mut k: usize = 0;
    while k < prow.len()
        invariant
            cols_increasing(row@),
            row_has_col(row@, e),
            pivot == value_at(prow@, e),
            a == value_at(row@, e),
            !(a == i32::MIN && pivot == -1),
            0 <= k <= prow@.len(),
            f == factor as int,
            f == quotient(value_at(row@, e) as int, pivot as int),
            forall|k2: int| 0 <= k2 < k ==> entry_fits(row@, (#[trigger] prow@[k2]).0, prow@[k2].1, f),
        decreases prow.len() - k,
    {
        let c = prow[k].0;
        let pv = prow[k].1;
        proof {
            lemma_mul_bound(pv as int, f);
            lemma_mul_bound(-pv, f);
        }
        let ok = match find_col(row, c) {
            Some(ri) => {
                let prod: i64 = (pv as i64) * (factor as i64);
                let diff: i64 = (row[ri].1 as i64) - prod;
                fits_in_i32(prod) && fits_in_i32(diff)
            },
            None => {
                let neg: i64 = -(pv as i64);
                let prod: i64 = neg * (factor as i64);
                fits_in_i32(neg) && fits_in_i32(prod)
            },
        };
        if !ok {
            assert(!entry_fits(row@, prow@[k as int].0, prow@[k as int].1, f));
            return false;
        }
        k = k + 1;
    }
    true
}

impl SimplexTable {
    /// The search for the leaving variable of column `e` is defined: the
    /// table has two rows or more, and each row the search keeps on the
    /// way has a basic variable.
    pub fn exit_defined(&self, e: usize) -> (r: bool)
        ensures
            r == exit_ok(*self, e),
    {
        let ghost rows = sparse_rows(self.table);
        let nrows = sparse_nrows(&self.table);
        if nrows < 2 {
            return false;
        }
        let mut min_entry: i32 = 100000;
        let mut row_idx: usize = 0;
        while row_idx < nrows - 2
            invariant
                rows == sparse_rows(self.table),
                nrows == sparse_shape(self.table).0,
                nrows >= 2,
                0 <= row_idx <= nrows - 2,
                running_min(rows, e, row_idx as int, min_entry as int),
                forall|r: int| 0 <= r < row_idx && #[trigger] improves(rows, e, r) ==> r < self.base@.len(),
            decreases nrows - 2 - row_idx,
        {
            let row = sparse_row(&self.table, row_idx);
            let ghost m0 = min_entry as int;
            proof {
                lemma_improves_min(rows, e, row_idx as int, m0);
            }
            match find_col(&row, e) {
                Some(k) => {
                    let pivot_i = row[k].1;
                    if pivot_i > 0 {
                        let ratio = row[row.len() - 1].1 / pivot_i;
                        assert(ratio == exit_ratio(rows, e, row_idx as int));
                        if min_entry > ratio {
                            if row_idx >= self.base.len() {
                                assert(improves(rows, e, row_idx as int));
                                return false;
                            }
                            min_entry = ratio;
                        }
                    } else {
                        assert(!exit_candidate(rows, e, row_idx as int));
                    }
                },
                None => {
                    assert(!exit_candidate(rows, e, row_idx as int));
                },
            }
            proof {
                assert forall|r2: int| 0 <= r2 < row_idx + 1 && #[trigger] exit_candidate(rows, e, r2) implies exit_ratio(rows, e, r2) >= min_entry by {
                }
                if min_entry != 100000 {
                    if min_entry == m0 {
                        let r2 = choose|r2: int| 0 <= r2 < row_idx && #[trigger] exit_candidate(rows, e, r2) && exit_ratio(rows, e, r2) == m0;
                        assert(0 <= r2 < row_idx + 1 && exit_candidate(rows, e, r2) && exit_ratio(rows, e, r2) == min_entry);
                    } else {
                        assert(exit_candidate(rows, e, row_idx as int) && exit_ratio(rows, e, row_idx as int) == min_entry);
                    }
                }
            }
            row_idx = row_idx + 1;
        }
        true
    }

    /// Pivoting on column `entry_var` and the row of the basic variable
    /// `exit_var` is defined (see `step_ok`).
    pub fn can_step(&self, entry_var: usize, exit_var: usize) -> (r: bool)
        ensures
            r == step_ok(*self, entry_var, exit_var),
    {
        let ghost rows = sparse_rows(self.table);
        let p = match position_of(&self.base, exit_var) {
            Some(p) => p,
            None => {
                return false;
            },
        };
        let nrows = sparse_nrows(&self.table);
        if p >= nrows {
            return false;
        }
        let prow = sparse_row(&self.table, p);
        let pk = match find_col(&prow, entry_var) {
            Some(k) => k,
            None => {
                return false;
            },
        };
        let pivot = prow[pk].1;
        if pivot == 0 {
            return false;
        }
        let mut i: usize = 0;
        while i < nrows
            invariant
                rows == sparse_rows(self.table),
                nrows == sparse_shape(self.table).0,
                rows.len() == nrows,
                self.base@.contains(exit_var),
                p == first_pos(self.base@, exit_var),
                p < nrows,
                prow@ == rows[p as int],
                cols_increasing(prow@),
                row_has_col(prow@, entry_var),
                pivot == value_at(prow@, entry_var),
                pivot != 0,
                0 <= i <= nrows,
                forall|i2: int|
                    0 <= i2 < i && i2 != p && row_has_col(#[trigger] rows[i2], entry_var) ==> row_update_ok(
                        rows[i2],
                        rows[p as int],
                        entry_var,
                    ),
            decreases nrows - i,
        {
            if i != p {
                let row = sparse_row(&self.table, i);
                match find_col(&row, entry_var) {
                    Some(_) => {
                        if !row_fits(&row, &prow, entry_var, pivot) {
                            return false;
                        }
                    },
                    None => {},
                }
            }
            i = i + 1;
        }
        true
    }

    /// One round of the method: the entering variable, then the leaving
    /// one, then the pivoting step.  `None`, with the table unchanged, when
    /// no variable enters or a part of the round is not defined; else the
    /// entering and the leaving variable.
    pub fn pivot(&mut self) -> (r: Option<(usize, usize)>)
        ensures
            entry_of(*old(self)) is None ==> r is None && *final(self) == *old(self),
            entry_of(*old(self)) matches Some(e) ==> (if exit_ok(*old(self), e) && step_ok(
                *old(self),
                e,
                exit_of(*old(self), e),
            ) {
                r == Some((e, exit_of(*old(self), e))) && stepped(*old(self), *final(self), e, exit_of(*old(self), e))
            } else {
                r is None && *final(self) == *old(self)
            }),
    {
        let e = match self.get_entry_var() {
            Some(e) => e,
            None => {
                return None;
            },
        };
        if !self.exit_defined(e) {
            return None;
        }
        let x = self.get_exit_var(e).unwrap();
        if !self.can_step(e, x) {
            return None;
        }
        self.step(e, x);
        Some((e, x))
    }
}

} // verus!
