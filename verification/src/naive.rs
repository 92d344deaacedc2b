//! Simulating a netlist gate by gate.
pub mod edge;
pub mod events;
pub mod kinds;
pub mod order;
pub mod sim;
pub mod steps;
pub mod walk;
