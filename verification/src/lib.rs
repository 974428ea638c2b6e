//! Organizational-hierarchy resolution over flat employee records.
//!
//! The library takes a flat table of employees, each optionally naming a
//! manager, and reconstructs the implied forest: it identifies roots, repairs
//! dangling manager references, rejects cyclic manager relations, computes for
//! every employee the number of people transitively reporting to them, and
//! ranks the records by that count.

pub mod count;
pub mod employee;
pub mod forest;
pub mod laws;
pub mod model;
pub mod pipeline;
pub mod rank;
