//! Verified core of `odd835`, a finite search engine for Erdős Problem #835:
//! does the odd graph `O_k` admit a partition of its vertex set into `k+1`
//! perfect 1-codes?
use vstd::prelude::*;

pub mod bits;
pub mod check;
pub mod codesearch;
pub mod codesound;
pub mod combi;
pub mod designs;
pub mod interrupt;
pub mod lex;
pub mod s45;
pub mod solver;
pub mod stats;
pub mod text;
pub mod util;
pub mod witness;

verus! {
} // verus!
