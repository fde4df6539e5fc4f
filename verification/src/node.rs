use vstd::prelude::*;
use crate::parse::{bytes_of, parse_i32, parse_i32_spec, parse_usize, parse_usize_spec};

verus! {

/// One cell of a transportation problem: the supply node `s_node_id`
/// with its remaining supply, the demand node `d_node_id` with its remaining
/// demand, the unit cost of shipping between them and the quantity assigned.
#[derive(Debug, PartialEq, Eq, Structural, Copy, Clone)]
pub struct Node {
    pub s_node_id: usize,
    pub s_qty: i32,
    pub d_node_id: usize,
    pub d_qty: i32,
    pub node_cost: i32,
    pub node_qty: i32,
}

impl Node {
    /// A cell with every field zero.
    pub fn new() -> (n: Node)
        ensures
            n == (Node { s_node_id: 0, s_qty: 0, d_node_id: 0, d_qty: 0, node_cost: 0, node_qty: 0 }),
    {
        Node { s_node_id: 0, s_qty: 0, d_node_id: 0, d_qty: 0, node_cost: 0, node_qty: 0 }
    }

    /// A cell read from its stored fields: the node ids and the cost as
    /// decimal strings (as `str::parse` reads them), the quantities as given;
    /// nothing assigned yet.
    pub fn new_with_data(s_id: &str, d_id: &str, s_qt: i32, d_qt: i32, cost: &str) -> (n: Node)
        requires
            parse_usize_spec(bytes_of(s_id)) is Some,
            parse_usize_spec(bytes_of(d_id)) is Some,
            parse_i32_spec(bytes_of(cost)) is Some,
        ensures
            n == (Node {
                s_node_id: parse_usize_spec(bytes_of(s_id)).unwrap(),
                s_qty: s_qt,
                d_node_id: parse_usize_spec(bytes_of(d_id)).unwrap(),
                d_qty: d_qt,
                node_cost: parse_i32_spec(bytes_of(cost)).unwrap(),
                node_qty: 0,
            }),
    {
        Node {
            s_node_id: parse_usize(s_id.as_bytes()).unwrap(),
            s_qty: s_qt,
            d_node_id: parse_usize(d_id.as_bytes()).unwrap(),
            d_qty: d_qt,
            node_cost: parse_i32(cost.as_bytes()).unwrap(),
            node_qty: 0,
        }
    }
}

} // verus!
