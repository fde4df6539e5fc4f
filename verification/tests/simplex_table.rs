use transopt::node::Node;
use transopt::simplex::{quotient_i32, Simplex, SimplexConstraint, SimplexOutput, SimplexVar};
use transopt::transport::transport_program;

fn one_cell() -> Vec<Node> {
    vec![Node { s_node_id: 0, s_qty: 10, d_node_id: 0, d_qty: 7, node_cost: 5, node_qty: 0 }]
}

fn one_cell_constraints() -> Vec<SimplexConstraint> {
    vec![SimplexConstraint::LessThan(vec![1], 10), SimplexConstraint::GreaterThan(vec![1], 7)]
}

#[test]
fn constraint_parts() {
    let c = SimplexConstraint::GreaterThan(vec![1, 0, 2], 9);
    assert_eq!(c.get_vector(), &vec![1, 0, 2]);
    assert_eq!(c.get_b(), 9);
    let c = SimplexConstraint::LessThan(vec![3], -1);
    assert_eq!(c.get_vector(), &vec![3]);
    assert_eq!(c.get_b(), -1);
}

#[test]
fn variable_kinds() {
    assert!(SimplexVar::Artificial(2).is_artificial());
    assert!(!SimplexVar::Slack(2).is_artificial());
    assert!(SimplexVar::Slack(0).is_slack());
    assert!(!SimplexVar::NegativeSlack(0).is_slack());
    assert!(!SimplexVar::Real.is_slack());
    assert_ne!(SimplexOutput::UniqueOptimum(1), SimplexOutput::MultipleOptimum(1));
}

#[test]
fn quotient_rounds_toward_zero() {
    assert_eq!(quotient_i32(7, 2), 3);
    assert_eq!(quotient_i32(-7, 2), -3);
    assert_eq!(quotient_i32(7, -2), -3);
    assert_eq!(quotient_i32(-7, -2), 3);
    assert_eq!(quotient_i32(i32::MIN, i32::MIN), 1);
    assert_eq!(quotient_i32(5, i32::MIN), 0);
    assert_eq!(quotient_i32(i32::MIN, 2), -1073741824);
    assert_eq!(quotient_i32(i32::MAX, -1), -i32::MAX);
}

#[test]
fn builder_lays_out_the_table() {
    let t = Simplex::minimize(&vec![5]).with(one_cell_constraints());
    assert_eq!(t.objective, vec![5]);
    assert_eq!(
        t.vars,
        vec![SimplexVar::Real, SimplexVar::Slack(0), SimplexVar::NegativeSlack(1), SimplexVar::Artificial(1)]
    );
    assert_eq!(t.base, vec![1, 3]);
    assert_eq!(t.table.to_dense(), vec![vec![1, 1, 0, 0, 10], vec![1, 0, -1, 1, 7], vec![995, 0, -1000, 0, 7000]]);
}

#[test]
fn builder_refuses_short_coefficients() {
    let cons = vec![SimplexConstraint::LessThan(vec![1], 10), SimplexConstraint::GreaterThan(vec![], 7)];
    assert!(Simplex::minimize(&vec![5]).try_with(cons).is_none());
    assert!(Simplex::minimize(&vec![5]).try_with(one_cell_constraints()).is_some());
}

#[test]
fn builder_refuses_an_overflowing_target() {
    let cons = vec![SimplexConstraint::GreaterThan(vec![1], 3000000)];
    assert!(Simplex::minimize(&vec![5]).try_with(cons).is_none());
}

#[test]
fn entering_and_leaving_variables() {
    let t = Simplex::minimize(&vec![5]).with(one_cell_constraints());
    assert_eq!(t.get_entry_var(), Some(0));
    assert!(t.exit_defined(0));
    assert_eq!(t.get_exit_var(0), Some(1));
    assert!(t.can_step(0, 1));
    assert!(!t.can_step(0, 2));
    assert!(!t.can_step(1, 3));
}

#[test]
fn one_step_reduces_the_other_rows() {
    let mut t = Simplex::minimize(&vec![5]).with(one_cell_constraints());
    t.step(0, 1);
    assert_eq!(t.base, vec![0, 3]);
    assert_eq!(t.table.to_dense(), vec![vec![1, 1, 0, 0, 10], vec![0, -1, -1, 1, -3], vec![0, -995, -1000, 0, -2950]]);
}

#[test]
fn pivot_rounds() {
    let mut t = Simplex::minimize(&vec![5]).with(one_cell_constraints());
    assert_eq!(t.pivot(), Some((0, 1)));
    assert_eq!(t.table.to_dense(), vec![vec![1, 1, 0, 0, 10], vec![0, -1, -1, 1, -3], vec![0, -995, -1000, 0, -2950]]);
    // The stored zero of column 0 in the last row enters again; the
    // reduction factors are zero, so the table stays.
    assert_eq!(t.pivot(), Some((0, 0)));
    assert_eq!(t.base, vec![0, 3]);
    assert_eq!(t.table.to_dense(), vec![vec![1, 1, 0, 0, 10], vec![0, -1, -1, 1, -3], vec![0, -995, -1000, 0, -2950]]);
}

#[test]
fn transport_program_of_one_cell() {
    let t = transport_program(&one_cell(), 1, 1).unwrap();
    assert_eq!(t.objective, vec![5]);
    assert_eq!(t.base, vec![1, 3]);
    assert_eq!(t.table.to_dense(), vec![vec![1, 1, 0, 0, 10], vec![1, 0, -1, 1, 7], vec![995, 0, -1000, 0, 7000]]);
}

#[test]
fn transport_program_of_two_by_two() {
    let task: Vec<Node> = (0..4)
        .map(|p| Node { s_node_id: p / 2, s_qty: 1, d_node_id: p % 2, d_qty: 1, node_cost: p as i32 + 1, node_qty: 0 })
        .collect();
    let t = transport_program(&task, 2, 2).unwrap();
    assert_eq!(t.objective, vec![1, 2, 3, 4]);
    assert_eq!(t.vars.len(), 4 + 2 + 2 * 2);
    let dense = t.table.to_dense();
    assert_eq!(dense.len(), 5);
    assert_eq!(&dense[0][0..4], &[1, 1, 0, 0]);
    assert_eq!(&dense[1][0..4], &[0, 0, 1, 1]);
    assert_eq!(&dense[2][0..4], &[1, 0, 1, 0]);
    assert_eq!(&dense[3][0..4], &[0, 1, 0, 1]);
}

#[test]
fn transport_program_refuses_a_bad_shape() {
    assert!(transport_program(&one_cell(), 1, 2).is_none());
    assert!(transport_program(&Vec::new(), 1, 0).is_none());
    assert!(transport_program(&Vec::new(), 0, 0).is_some());
}

#[test]
fn a_table_without_constraints_has_no_round() {
    let mut t = Simplex::minimize(&vec![5]).with(Vec::new());
    assert_eq!(t.base, Vec::<usize>::new());
    assert_eq!(t.table.to_dense(), vec![vec![-5, 0]]);
    assert_eq!(t.get_entry_var(), None);
    assert!(!t.exit_defined(0));
    assert_eq!(t.pivot(), None);
    assert_eq!(t.table.to_dense(), vec![vec![-5, 0]]);
}

#[test]
fn leaving_variable_defaults_to_one() {
    // The only searched row has no entry in columns 2 and 3.
    let t = Simplex::minimize(&vec![5]).with(one_cell_constraints());
    assert_eq!(t.get_exit_var(2), Some(1));
    assert_eq!(t.get_exit_var(3), Some(1));
    // Its entry in column 1 is positive: its basic variable leaves.
    assert_eq!(t.get_exit_var(1), Some(1));
}

#[test]
fn a_unit_pivot_keeps_the_basic_columns_unit() {
    let mut t = Simplex::minimize(&vec![5]).with(one_cell_constraints());
    let unit_columns = |dense: Vec<Vec<i32>>, base: &Vec<usize>| {
        for (k, &c) in base.iter().enumerate() {
            for (i, row) in dense.iter().enumerate() {
                assert_eq!(row[c], if i == k { 1 } else { 0 });
            }
        }
    };
    unit_columns(t.table.to_dense(), &t.base);
    t.step(0, 1);
    assert_eq!(t.base, vec![0, 3]);
    unit_columns(t.table.to_dense(), &t.base);
}
