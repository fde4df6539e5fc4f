use vstd::prelude::*;

pub mod grid;
pub mod node;
pub mod parse;
pub mod assign;
pub mod sorting;
pub mod greedy;
pub mod dpreference;
pub mod fogel;
pub mod sparse;
pub mod dense;
pub mod simplex;
pub mod transport;
pub mod totals;
pub mod conservation;
pub mod balance;
pub mod feasibility;
