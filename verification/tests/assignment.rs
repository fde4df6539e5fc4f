use transopt::assign::{fill_cell, fill_defined, fill_in_order, try_fill_in_order};
use transopt::dpreference::{dpreference, try_dpreference};
use transopt::fogel::{fogel, try_fogel, vogel_ready};
use transopt::greedy::{greedy, try_greedy};
use transopt::grid::Grid;
use transopt::node::Node;
use transopt::totals::{grid_totals, Totals};

fn cell(s: usize, d: usize, s_qty: i32, d_qty: i32, cost: i32) -> Node {
    Node { s_node_id: s, s_qty, d_node_id: d, d_qty, node_cost: cost, node_qty: 0 }
}

/// Two supplies (10, 20), two demands (15, 15), costs 4 6 / 5 3.
fn small_task() -> Vec<Node> {
    vec![cell(0, 0, 10, 15, 4), cell(0, 1, 10, 15, 6), cell(1, 0, 20, 15, 5), cell(1, 1, 20, 15, 3)]
}

fn qty(g: &Grid, i: usize, j: usize) -> i32 {
    g.get(i, j).node_qty
}

fn expect_filled(g: &Grid) {
    assert_eq!(qty(g, 0, 0), 10);
    assert_eq!(qty(g, 0, 1), 0);
    assert_eq!(qty(g, 1, 0), 5);
    assert_eq!(qty(g, 1, 1), 15);
    for i in 0..2 {
        for j in 0..2 {
            assert_eq!(g.get(i, j).s_qty, 0);
            assert_eq!(g.get(i, j).d_qty, 0);
        }
    }
}

#[test]
fn node_new_is_all_zero() {
    let n = Node::new();
    assert_eq!(n, Node { s_node_id: 0, s_qty: 0, d_node_id: 0, d_qty: 0, node_cost: 0, node_qty: 0 });
}

#[test]
fn node_new_with_data_reads_ids_and_cost() {
    let n = Node::new_with_data("3", "+4", 10, 20, "-7");
    assert_eq!(n, Node { s_node_id: 3, s_qty: 10, d_node_id: 4, d_qty: 20, node_cost: -7, node_qty: 0 });
}

#[test]
fn grid_from_vec_checks_the_shape() {
    assert!(Grid::from_vec(small_task(), 2, 2).is_some());
    assert!(Grid::from_vec(small_task(), 3, 2).is_none());
    assert!(Grid::from_vec(small_task(), 1, 3).is_none());
    let g = Grid::from_vec(small_task(), 2, 2).unwrap();
    assert_eq!(g.nrows(), 2);
    assert_eq!(g.ncols(), 2);
    assert_eq!(g.get(1, 0).node_cost, 5);
    assert_eq!(g.row(1).len(), 2);
    assert_eq!(g.column(1)[0].node_cost, 6);
}

#[test]
fn greedy_fills_cheapest_first() {
    let mut tv = small_task();
    let mut g = Grid::from_vec(small_task(), 2, 2).unwrap();
    greedy(&mut tv, &mut g);
    let costs: Vec<i32> = tv.iter().map(|n| n.node_cost).collect();
    assert_eq!(costs, vec![3, 4, 5, 6]);
    expect_filled(&g);
}

#[test]
fn greedy_keeps_ties_in_order() {
    let mut tv = vec![cell(0, 1, 5, 5, 2), cell(0, 0, 5, 5, 2), cell(1, 0, 5, 5, 1)];
    let mut g = Grid::from_vec(vec![cell(0, 0, 5, 5, 2), cell(0, 1, 5, 5, 2), cell(1, 0, 5, 5, 1), cell(1, 1, 5, 5, 9)], 2, 2)
        .unwrap();
    greedy(&mut tv, &mut g);
    let ids: Vec<(usize, usize)> = tv.iter().map(|n| (n.s_node_id, n.d_node_id)).collect();
    assert_eq!(ids, vec![(1, 0), (0, 1), (0, 0)]);
    assert_eq!(qty(&g, 1, 0), 5);
    assert_eq!(qty(&g, 0, 1), 5);
    assert_eq!(qty(&g, 0, 0), 0);
}

#[test]
fn greedy_conserves_supply_and_demand() {
    let start = Grid::from_vec(small_task(), 2, 2).unwrap();
    let mut tv = small_task();
    let mut g = Grid::from_vec(small_task(), 2, 2).unwrap();
    greedy(&mut tv, &mut g);
    for i in 0..2 {
        let assigned: i32 = (0..2).map(|j| qty(&g, i, j)).sum();
        assert_eq!(g.get(i, 0).s_qty + assigned, start.get(i, 0).s_qty);
    }
    for j in 0..2 {
        let assigned: i32 = (0..2).map(|i| qty(&g, i, j)).sum();
        assert_eq!(g.get(0, j).d_qty + assigned, start.get(0, j).d_qty);
    }
}

#[test]
fn try_greedy_refuses_a_cell_outside_the_grid() {
    let mut tv = vec![cell(0, 0, 10, 15, 4), cell(2, 0, 10, 15, 1)];
    let mut g = Grid::from_vec(small_task(), 2, 2).unwrap();
    assert!(!try_greedy(&mut tv, &mut g));
    let mut tv = small_task();
    let mut g = Grid::from_vec(small_task(), 2, 2).unwrap();
    assert!(try_greedy(&mut tv, &mut g));
    expect_filled(&g);
}

#[test]
fn try_greedy_refuses_an_overflow() {
    let big = vec![cell(0, 0, i32::MIN, 1, 1)];
    let mut tv = big.clone();
    let mut g = Grid::from_vec(big, 1, 1).unwrap();
    assert!(!try_greedy(&mut tv, &mut g));
}

#[test]
fn dpreference_fills_doubly_preferred_cells_first() {
    let mut g = Grid::from_vec(small_task(), 2, 2).unwrap();
    dpreference(&mut g);
    expect_filled(&g);
}

#[test]
fn dpreference_prefers_row_and_column_minimum() {
    // Cells (0, 1) and (1, 0) are each the cheapest of their row and of
    // their column.
    let task = vec![cell(0, 0, 10, 10, 5), cell(0, 1, 10, 10, 2), cell(1, 0, 10, 10, 1), cell(1, 1, 10, 10, 3)];
    let mut g = Grid::from_vec(task, 2, 2).unwrap();
    dpreference(&mut g);
    // preferences: (0,1) -1 -1 = -2, (1,0) -1 -1 = -2; (0,0) 0; (1,1) 0.
    // order: (1,0) cost 1, (0,1) cost 2, (1,1) cost 3, (0,0) cost 5.
    assert_eq!(qty(&g, 1, 0), 10);
    assert_eq!(qty(&g, 0, 1), 10);
    assert_eq!(qty(&g, 0, 0), 0);
    assert_eq!(qty(&g, 1, 1), 0);
}

#[test]
fn fogel_takes_largest_penalty_first() {
    let mut g = Grid::from_vec(small_task(), 2, 2).unwrap();
    fogel(&mut g);
    expect_filled(&g);
}

#[test]
fn fogel_on_an_empty_grid_does_nothing() {
    let mut g = Grid::from_vec(Vec::new(), 0, 0).unwrap();
    fogel(&mut g);
    assert_eq!(g.nrows(), 0);
}

#[test]
fn totals_of_a_fresh_grid() {
    let g = Grid::from_vec(small_task(), 2, 2).unwrap();
    assert_eq!(grid_totals(&g), Some(Totals { assigned: 0, cost: 0, supply_left: 30, demand_left: 30 }));
}

#[test]
fn totals_after_greedy() {
    let mut tv = small_task();
    let mut g = Grid::from_vec(small_task(), 2, 2).unwrap();
    greedy(&mut tv, &mut g);
    assert_eq!(grid_totals(&g), Some(Totals { assigned: 30, cost: 110, supply_left: 0, demand_left: 0 }));
}

#[test]
fn totals_refuse_an_overflow_and_a_grid_without_columns() {
    let task = vec![cell(0, 0, i32::MAX, 1, 1), cell(1, 0, 1, 1, 1)];
    let g = Grid::from_vec(task, 2, 1).unwrap();
    assert_eq!(grid_totals(&g), None);
    let g = Grid::from_vec(Vec::new(), 2, 0).unwrap();
    assert_eq!(grid_totals(&g), None);
    let mut n = cell(0, 0, 1, 1, 70000);
    n.node_qty = 70000;
    let g = Grid::from_vec(vec![n], 1, 1).unwrap();
    assert_eq!(grid_totals(&g), None);
}

#[test]
fn totals_balance_with_spare_supply() {
    let task = vec![cell(0, 0, 10, 15, 4), cell(0, 1, 10, 15, 6), cell(1, 0, 25, 15, 5), cell(1, 1, 25, 15, 3)];
    let start = Grid::from_vec(task.clone(), 2, 2).unwrap();
    let before = grid_totals(&start).unwrap();
    assert_eq!(before, Totals { assigned: 0, cost: 0, supply_left: 35, demand_left: 30 });
    let mut tv = task.clone();
    let mut g = Grid::from_vec(task, 2, 2).unwrap();
    greedy(&mut tv, &mut g);
    let after = grid_totals(&g).unwrap();
    assert_eq!(after, Totals { assigned: 30, cost: 110, supply_left: 5, demand_left: 0 });
    assert_eq!(after.assigned + after.supply_left, before.supply_left);
    assert_eq!(after.assigned + after.demand_left, before.demand_left);
}

#[test]
fn fogel_and_dpreference_conserve_supply_and_demand() {
    let task = vec![cell(0, 0, 10, 15, 4), cell(0, 1, 10, 15, 6), cell(1, 0, 25, 15, 5), cell(1, 1, 25, 15, 3)];
    let before = grid_totals(&Grid::from_vec(task.clone(), 2, 2).unwrap()).unwrap();
    let mut g = Grid::from_vec(task.clone(), 2, 2).unwrap();
    fogel(&mut g);
    let after = grid_totals(&g).unwrap();
    assert_eq!(after.assigned + after.supply_left, before.supply_left);
    assert_eq!(after.assigned + after.demand_left, before.demand_left);
    let mut g = Grid::from_vec(task, 2, 2).unwrap();
    dpreference(&mut g);
    let after = grid_totals(&g).unwrap();
    assert_eq!(after.assigned + after.supply_left, before.supply_left);
    assert_eq!(after.assigned + after.demand_left, before.demand_left);
}

#[test]
fn fill_one_cell_ships_the_smaller_quantity() {
    let mut g = Grid::from_vec(small_task(), 2, 2).unwrap();
    assert!(fill_defined(&g, 1, 1));
    fill_cell(&mut g, 1, 1);
    assert_eq!(qty(&g, 1, 1), 15);
    assert_eq!(g.get(1, 0).s_qty, 5);
    assert_eq!(g.get(1, 1).s_qty, 5);
    assert_eq!(g.get(0, 1).d_qty, 0);
    assert_eq!(g.get(1, 1).d_qty, 0);
    assert_eq!(g.get(0, 0).s_qty, 10);
    assert_eq!(g.get(0, 0).d_qty, 15);
    // Nothing is left for column 1: filling (0, 1) changes nothing.
    fill_cell(&mut g, 0, 1);
    assert_eq!(qty(&g, 0, 1), 0);
    assert_eq!(g.get(0, 1).s_qty, 10);
}

#[test]
fn fill_defined_refuses_cells_outside_the_grid() {
    let g = Grid::from_vec(small_task(), 2, 2).unwrap();
    assert!(!fill_defined(&g, 2, 0));
    assert!(!fill_defined(&g, 0, 2));
    assert!(fill_defined(&g, 0, 0));
}

#[test]
fn fill_in_order_and_its_checked_form_agree() {
    let order = vec![cell(1, 1, 0, 0, 0), cell(0, 0, 0, 0, 0), cell(1, 0, 0, 0, 0), cell(0, 1, 0, 0, 0)];
    let mut g1 = Grid::from_vec(small_task(), 2, 2).unwrap();
    fill_in_order(&mut g1, &order);
    expect_filled(&g1);
    let mut g2 = Grid::from_vec(small_task(), 2, 2).unwrap();
    assert!(try_fill_in_order(&mut g2, &order));
    expect_filled(&g2);
    let mut g3 = Grid::from_vec(small_task(), 2, 2).unwrap();
    assert!(!try_fill_in_order(&mut g3, &vec![cell(1, 1, 0, 0, 0), cell(5, 5, 0, 0, 0)]));
}

#[test]
fn greedy_with_a_cell_named_twice_still_conserves() {
    let mut tv = small_task();
    tv.push(cell(1, 1, 20, 15, 3));
    let mut g = Grid::from_vec(small_task(), 2, 2).unwrap();
    greedy(&mut tv, &mut g);
    expect_filled(&g);
    assert_eq!(grid_totals(&g), Some(Totals { assigned: 30, cost: 110, supply_left: 0, demand_left: 0 }));
}

#[test]
fn dpreference_marks_the_place_the_ids_name() {
    // The cells of row 0 carry each other's ids.
    let task = vec![cell(0, 1, 10, 10, 5), cell(0, 0, 10, 10, 2), cell(1, 0, 10, 10, 1), cell(1, 1, 10, 10, 3)];
    let mut g = Grid::from_vec(task.clone(), 2, 2).unwrap();
    dpreference(&mut g);
    // places (0, 0) and (1, 0) get -2; order: (1, 0) cost 1, the cell at
    // place (0, 0) (ids (0, 1), cost 5), then cost 2 and cost 3.
    assert_eq!(qty(&g, 1, 0), 10);
    assert_eq!(qty(&g, 0, 1), 10);
    assert_eq!(qty(&g, 0, 0), 0);
    assert_eq!(qty(&g, 1, 1), 0);
    let mut g2 = Grid::from_vec(task, 2, 2).unwrap();
    assert!(try_dpreference(&mut g2));
    assert_eq!(qty(&g2, 1, 0), 10);
    assert_eq!(qty(&g2, 0, 1), 10);
}

#[test]
fn try_dpreference_refuses_ids_outside_the_grid() {
    let task = vec![cell(0, 0, 10, 10, 5), cell(0, 2, 10, 10, 2)];
    let mut g = Grid::from_vec(task, 1, 2).unwrap();
    assert!(!try_dpreference(&mut g));
    let mut g = Grid::from_vec(small_task(), 2, 2).unwrap();
    assert!(try_dpreference(&mut g));
    expect_filled(&g);
}

#[test]
fn fogel_follows_the_ids_where_they_differ_from_the_places() {
    // The row at place 0 carries supply node 1, the row at place 1 supply node 0.
    let task = vec![cell(1, 0, 10, 10, 1), cell(1, 1, 10, 20, 4), cell(0, 0, 20, 10, 3), cell(0, 1, 20, 20, 2)];
    let mut g = Grid::from_vec(task, 2, 2).unwrap();
    fogel(&mut g);
    // Round 1: the row at place 0 has the largest penalty (3) and names
    // supply node 1, so the row at place 1 gives up its cheapest cell,
    // place (1, 1), which takes 20.  Round 2 picks place (1, 0), where
    // nothing is left to ship.  Round 3 takes place (0, 0) with 10.
    assert_eq!(qty(&g, 0, 0), 10);
    assert_eq!(qty(&g, 0, 1), 0);
    assert_eq!(qty(&g, 1, 0), 0);
    assert_eq!(qty(&g, 1, 1), 20);
    for i in 0..2 {
        for j in 0..2 {
            assert_eq!(g.get(i, j).s_qty, 0);
            assert_eq!(g.get(i, j).d_qty, 0);
        }
    }
}

#[test]
fn vogel_ready_tells_the_grids_kept_by_the_rounds() {
    assert!(vogel_ready(&Grid::from_vec(small_task(), 2, 2).unwrap()));
    let permuted = vec![cell(1, 0, 10, 10, 1), cell(1, 1, 10, 20, 4), cell(0, 0, 20, 10, 3), cell(0, 1, 20, 20, 2)];
    assert!(!vogel_ready(&Grid::from_vec(permuted, 2, 2).unwrap()));
    let disagreeing = vec![cell(0, 0, 10, 15, 4), cell(0, 1, 11, 15, 6), cell(1, 0, 20, 15, 5), cell(1, 1, 20, 15, 3)];
    assert!(!vogel_ready(&Grid::from_vec(disagreeing, 2, 2).unwrap()));
    let negative = vec![cell(0, 0, -1, 15, 4), cell(0, 1, -1, 15, 6), cell(1, 0, 20, 15, 5), cell(1, 1, 20, 15, 3)];
    assert!(!vogel_ready(&Grid::from_vec(negative, 2, 2).unwrap()));
    let too_much = vec![cell(0, 0, i32::MAX, 1, 4), cell(1, 0, 1, 1, 5)];
    assert!(!vogel_ready(&Grid::from_vec(too_much, 2, 1).unwrap()));
    assert!(!vogel_ready(&Grid::from_vec(Vec::new(), 2, 0).unwrap()));
    assert!(vogel_ready(&Grid::from_vec(Vec::new(), 0, 0).unwrap()));
}

#[test]
fn try_fogel_runs_on_ready_grids_and_leaves_the_others() {
    let mut g = Grid::from_vec(small_task(), 2, 2).unwrap();
    assert!(try_fogel(&mut g));
    expect_filled(&g);
    let permuted = vec![cell(1, 0, 10, 10, 1), cell(1, 1, 10, 20, 4), cell(0, 0, 20, 10, 3), cell(0, 1, 20, 20, 2)];
    let mut g = Grid::from_vec(permuted.clone(), 2, 2).unwrap();
    assert!(!try_fogel(&mut g));
    for i in 0..2 {
        for j in 0..2 {
            assert_eq!(g.get(i, j), permuted[i * 2 + j]);
        }
    }
}

#[test]
fn greedy_with_distinct_costs_ignores_the_order_of_the_cells() {
    let mut forward = small_task();
    let mut backward = small_task();
    backward.reverse();
    let mut g1 = Grid::from_vec(small_task(), 2, 2).unwrap();
    let mut g2 = Grid::from_vec(small_task(), 2, 2).unwrap();
    greedy(&mut forward, &mut g1);
    greedy(&mut backward, &mut g2);
    assert_eq!(forward, backward);
    for i in 0..2 {
        for j in 0..2 {
            assert_eq!(g1.get(i, j), g2.get(i, j));
        }
    }
    expect_filled(&g1);
}
