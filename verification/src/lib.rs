//! A deterministic Sudoku solver based on pure constraint propagation.
//!
//! The solver fills a 9x9 grid by tracking, per cell, which digits remain
//! legal candidates, and repeatedly applying four deduction rules (naked
//! single, then hidden single in a row, a column, and a 3x3 box) until no
//! rule yields a further move. It never guesses or backtracks.

pub mod grid;
pub mod laws;
pub mod rudoku;
