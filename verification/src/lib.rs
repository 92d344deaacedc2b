//! Mapping of and-inverter graphs onto boomerang-shaped processing elements,
//! and the simulators that run the result.
use vstd::prelude::*;

pub mod aig;
pub mod bits;
pub mod block;
pub mod flow;
pub mod index_order;
pub mod index_set;
pub mod naive;
pub mod netlist;
pub mod parallel;
pub mod paths;
pub mod pe;
pub mod scope;
pub mod sorting;
pub mod staging;
pub mod validity;

verus! {

} // verus!
