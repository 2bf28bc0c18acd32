//! A verified diffing primitive built on the longest common subsequence
//! (LCS): a dynamic-programming table of LCS lengths over the prefixes of two
//! sequences, and a backtracking traversal that turns the table into an edit
//! script of `Copy`/`Insert`/`Remove` steps.

pub mod edit;
pub mod lcs;
pub mod put_back;
