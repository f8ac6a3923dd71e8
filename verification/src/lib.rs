//! A cube-and-conquer driver library for SAT instances.
//!
//! A *cube* is a conjunction of signed literals; the driver explores a tree
//! of cubes, invoking an external SAT solver on each extended instance and
//! selecting the extensions that best advance an evaluation metric.

pub mod clause;
pub mod cmd_line;
pub mod cnf;
pub mod config;
pub mod cube;
pub mod num;
pub mod reconstruct;
pub mod runners;
pub mod solver_log;
pub mod tree_gen;
pub mod wcnf;
pub mod strings;
pub mod text;

pub use cube::Cube;
