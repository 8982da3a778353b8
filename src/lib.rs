//! Static analysis tables for LR-family parser construction: nullability,
//! FIRST and FOLLOW sets of a context-free grammar, and LR(1) items with their
//! closure and goto operations.
pub mod symbol;
pub mod grammar;
pub mod tables;
pub mod solver;
pub mod first_seq;
pub mod lalr_1;
pub mod samples;
