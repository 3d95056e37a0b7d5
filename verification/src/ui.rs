//! What a front end asks of the graph and what it shows for it.

pub mod cli;
pub mod graph;
