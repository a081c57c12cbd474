//! A checker and elaborator core for proofs in the Alethe format: a hash-consed
//! term pool, the schedule iterator over nested subproofs, the shared rule
//! assertions, and the equality-chain rule family (`trans`, `eq_transitive`).
pub mod ast;
pub mod pool;
pub mod checker;
pub mod transitivity;
pub mod iter;
