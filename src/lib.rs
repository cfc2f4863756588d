//! Symbolic expressions stored as flat, topologically ordered node arenas,
//! with depth-first walking, structural hashing, commutativity-aware
//! equivalence, common-subexpression elimination, pruning, evaluation and
//! rewrite templates.

pub mod tree;
pub mod helper;
pub mod hash;
pub mod prune;
pub mod dedup;
pub mod eval;
pub mod template;
pub mod idempotence;
