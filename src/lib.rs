//! Finds every dictionary word on a Boggle board: a word is spelled by a path
//! of distinct, 8-adjacent cells, and the search is pruned by a prefix tree.

pub mod board;
pub mod search;
pub mod solver;
pub mod trie;

pub use board::{Board, BoardError};
pub use search::{BoggleHelper, Entry};
pub use solver::{boggle, join_words, BoggleSolver};
pub use trie::Trie;
