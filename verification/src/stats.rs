//! Telemetry vocabulary: the propagation rules, the stats output formats,
//! and the rung-check counters.
use vstd::prelude::*;

verus! {

/// The propagation rules, in the order of their counters.
#[derive(Clone, Copy, Debug, PartialEq, Eq)]
pub enum Rule {
    A,
    B,
    C,
    D,
    E,
    Matching,
}

impl Rule {
    /// The slot of this rule in the per-rule counters.
    pub fn index(&self) -> (i: usize)
        ensures
            i == match *self {
                Rule::A => 0usize,
                Rule::B => 1,
                Rule::C => 2,
                Rule::D => 3,
                Rule::E => 4,
                Rule::Matching => 5,
            },
    {
        match self {
            Rule::A => 0,
            Rule::B => 1,
            Rule::C => 2,
            Rule::D => 3,
            Rule::E => 4,
            Rule::Matching => 5,
        }
    }

    /// The rule's name in telemetry records.
    pub fn name(&self) -> (s: &'static str)
        ensures
            s@ == match *self {
                Rule::A => "a"@,
                Rule::B => "b"@,
                Rule::C => "c"@,
                Rule::D => "d"@,
                Rule::E => "e"@,
                Rule::Matching => "matching"@,
            },
    {
        match self {
            Rule::A => "a",
            Rule::B => "b",
            Rule::C => "c",
            Rule::D => "d",
            Rule::E => "e",
            Rule::Matching => "matching",
        }
    }
}

#[derive(Clone, Copy, Debug, PartialEq, Eq)]
pub enum StatsFormat {
    Human,
    Json,
    Jsonl,
}

/// Counters of the rung checks.
#[derive(Clone, Debug)]
pub struct RungStats {
    pub checked: u64,
    pub passed: u64,
    pub failed: u64,
    pub completed: u64,
}

impl Default for RungStats {
    fn default() -> (s: RungStats)
        ensures
            s.checked == 0 && s.passed == 0 && s.failed == 0 && s.completed == 0,
    {
        RungStats { checked: 0, passed: 0, failed: 0, completed: 0 }
    }
}

} // verus!
