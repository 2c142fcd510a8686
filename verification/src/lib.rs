//! A 9 x 9 constraint-board solver built for parallel backtracking search.
//!
//! The board model ([`sudoku`]) keeps per-group digit flags and a
//! most-constrained-first visit order, so legality checks cost a few flag
//! reads and the search resolves the tightest cells first.  The search
//! itself ([`worker`]) explores that order recursively and, every few nodes,
//! offers its current branch to an idle worker through a decentralized
//! work-donation pool ([`beggar_pool`]); branch isolation comes from cloning
//! the board, never from sharing it.  An alternative work-stealing pool
//! ([`stealer_pool`]) and a small error type ([`helpers`]) round the crate
//! out.

pub mod beggar_pool;
pub mod helpers;
pub mod stealer_pool;
pub mod sudoku;
pub mod worker;
