//! The syntax tree of an expression with indexes: what a scope declares
//! (`header`) and what stands in its body (`lambda`).
pub mod faithful;
pub mod header;
pub mod lambda;
pub mod unplaced;
