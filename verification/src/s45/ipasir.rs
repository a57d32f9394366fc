//! The interface a theory propagator offers an incremental SAT solver.
use vstd::prelude::*;

verus! {

pub trait Propagator {
    /// Observed variables just assigned, in trail order. May be batched.
    fn notify_assignment(&mut self, lits: &[i32]);

    fn notify_new_decision_level(&mut self);

    /// Backtrack to `new_level`; the propagator must undo everything above it.
    fn notify_backtrack(&mut self, new_level: usize);

    /// Last line of defence on a complete assignment. Returning `false`
    /// obliges the propagator to supply a clause on the next callback.
    fn check_found_model(&mut self, model: &[i32]) -> bool;

    /// Next theory implication, or 0 to hand control back.
    fn propagate(&mut self) -> (r: i32)
        default_ensures
            r == 0,
    {
        0
    }

    /// Streams the reason clause for `propagated` one literal at a time,
    /// terminated by 0. The clause must contain `propagated`.
    fn add_reason_clause_lit(&mut self, propagated: i32) -> (r: i32)
        default_ensures
            r == 0,
    {
        0
    }

    /// Override the solver's decision, or 0 to let the solver choose.
    fn decide(&mut self) -> (r: i32)
        default_ensures
            r == 0,
    {
        0
    }

    /// `Some(forgettable)` if a clause is pending, else `None`.
    fn has_external_clause(&mut self) -> Option<bool>;

    /// Streams the pending clause, terminated by 0.
    fn add_external_clause_lit(&mut self) -> i32;

    /// Polled by the solver's terminator; `true` stops the search with
    /// UNKNOWN.
    fn terminated(&mut self) -> (r: bool)
        default_ensures
            !r,
    {
        false
    }
}

} // verus!
