//! The byte-level boundary of a small S-expression interpreter: an input
//! buffer with two bytes of pushback, and a printer for the cons-cell graph.
pub mod input;
pub mod printer;
