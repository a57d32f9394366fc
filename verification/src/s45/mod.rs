//! Steiner systems `S(4,5,v)`: the independent verifier, the general
//! matching used to propagate block constraints, and the pieces of the
//! branch search that do not depend on the SAT solver.
pub mod blossom;
pub mod cdcl;
pub mod engine;
pub mod ipasir;
pub mod verify;
