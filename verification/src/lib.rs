//! Minimum-cost test selection solved by LP-relaxation branch and bound.
//!
//! The library holds the verified core of the solver: the problem instance
//! and the derived pair-distinguishing table, the fixed-point model of LP
//! relaxation outcomes, the branching rule, the best-first frontier, and the
//! coordinator and worker state machines of the parallel search. The
//! continuous LP engine, the worker threads and the channels between them
//! live outside the library; they hand LP outcomes in as plain values and
//! carry work orders and responses between the verified step functions.

pub mod branch;
pub mod checker;
pub mod codec;
pub mod common;
pub mod frontier;
pub mod instance;
pub mod parse;
pub mod session;
pub mod solver;
pub mod table;
pub mod worker;
