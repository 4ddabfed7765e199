//! A linear/integer-programming modeling layer: an expression tree over
//! decision variables, a normalization pass into canonical linear form,
//! a writer for the LP model text format, and a reader for solver
//! solution files.

pub mod num;
pub mod expr;
pub mod text;
pub mod problem;
pub mod writer;
pub mod reader;
pub mod solver;
