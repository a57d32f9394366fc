//! The answer of a search branch, and the literal encoding of options:
//! option `o` is the solver variable `o + 1`, in or out of the design.
use vstd::prelude::*;

verus! {

/// What a branch search found.
#[derive(Debug, Clone)]
pub enum Answer {
    /// A design, as block masks.
    Sat(Vec<u32>),
    Unsat,
    Unknown,
}

/// The literal "option `o` is in the design".
pub fn lit_in(o: usize) -> (l: i32)
    requires
        o < 0x7FFF_FFFF,
    ensures
        l == o + 1,
{
    o as i32 + 1
}

/// The literal "option `o` is not in the design".
pub fn lit_out(o: usize) -> (l: i32)
    requires
        o < 0x7FFF_FFFF,
    ensures
        l == -(o + 1),
{
    -(o as i32 + 1)
}

/// The option a literal speaks of.
pub fn opt_of(lit: i32) -> (o: usize)
    requires
        lit != 0,
        lit != i32::MIN,
    ensures
        o == (if lit < 0 { -lit } else { lit as int }) - 1,
{
    let a: u32 = if lit < 0 { (-lit) as u32 } else { lit as u32 };
    (a - 1) as usize
}

} // verus!
