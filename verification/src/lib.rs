//! Watches the set of attached display outputs: a backtracking text scanner,
//! a grammar for display-status text, a snapshot differ, and the polling
//! controller that decides how to reconfigure outputs when the topology
//! changes.

pub mod controller;
pub mod differ;
pub mod grammar;
pub mod scanner;
