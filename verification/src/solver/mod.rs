//! The partition solver's configuration and outcomes, and the verified
//! pieces of its propagation: link regions and the matching filter.
use vstd::prelude::*;
use crate::stats::StatsFormat;

pub mod engine;
pub mod link;
pub mod matching;
pub mod search;

verus! {

#[derive(Clone, Copy, Debug, PartialEq, Eq)]
pub enum SymmetryMode {
    Off,
    /// Consume the `(k+1)!` colour symmetry by fixing `N[v0]`.
    Color,
    /// `Color`, plus a root-level disjunction that consumes the `S(C_0)`
    /// factor of the residual vertex automorphism group.
    Orbit,
}

#[derive(Clone, Copy, Debug, PartialEq, Eq)]
pub enum PropagatorMode {
    Count,
    Matching,
}

#[derive(Clone, Copy, Debug, PartialEq, Eq)]
pub enum BranchOrder {
    Mrv,
    Link,
}

/// Solver settings. Durations are in milliseconds and paths are strings.
#[derive(Clone, Debug)]
pub struct Config {
    pub k: u32,
    pub timeout_ms: Option<u64>,
    pub max_conflicts: Option<u64>,
    pub seed: u64,
    pub symmetry: SymmetryMode,
    pub propagator: PropagatorMode,
    pub cardinality: bool,
    pub anchors: usize,
    pub anchor_reach: bool,
    pub branch_order: BranchOrder,
    pub link_level: u32,
    pub rung_check: Vec<u32>,
    pub rung_sample: usize,
    pub rung_interval_ms: u64,
    pub stats_interval_ms: u64,
    pub stats_format: StatsFormat,
    pub stats_file: Option<String>,
    pub checkpoint: Option<String>,
    pub checkpoint_interval_ms: Option<u64>,
    pub resume: Option<String>,
    pub witness_out: Option<String>,
    pub conflict_log: Option<String>,
    pub memory_limit: Option<u64>,
    pub verify_classes: bool,
    pub threads: usize,
    pub verbose: u8,
    /// Suppress the live display entirely.
    pub quiet: bool,
}

impl Config {
    /// The defaults for `k`.
    pub fn new(k: u32) -> (c: Config)
        ensures
            c.k == k,
            c.timeout_ms is None,
            c.max_conflicts is None,
            c.seed == 0,
            c.symmetry == SymmetryMode::Color,
            c.propagator == PropagatorMode::Count,
            c.cardinality,
            c.anchors == 16,
            !c.anchor_reach,
            c.branch_order == BranchOrder::Mrv,
            c.link_level == 3,
            c.rung_check@.len() == 0,
            c.rung_sample == 64,
            c.rung_interval_ms == 60_000,
            c.stats_interval_ms == 5_000,
            c.stats_format == StatsFormat::Human,
            c.stats_file is None,
            c.checkpoint is None,
            c.checkpoint_interval_ms is None,
            c.resume is None,
            c.witness_out is None,
            c.conflict_log is None,
            c.memory_limit is None,
            !c.verify_classes,
            c.threads == 1,
            c.verbose == 0,
            !c.quiet,
    {
        Config {
            k,
            timeout_ms: None,
            max_conflicts: None,
            seed: 0,
            symmetry: SymmetryMode::Color,
            propagator: PropagatorMode::Count,
            cardinality: true,
            anchors: 16,
            anchor_reach: false,
            branch_order: BranchOrder::Mrv,
            link_level: 3,
            rung_check: Vec::new(),
            rung_sample: 64,
            rung_interval_ms: 60_000,
            stats_interval_ms: 5_000,
            stats_format: StatsFormat::Human,
            stats_file: None,
            checkpoint: None,
            checkpoint_interval_ms: None,
            resume: None,
            witness_out: None,
            conflict_log: None,
            memory_limit: None,
            verify_classes: false,
            threads: 1,
            verbose: 0,
            quiet: false,
        }
    }
}

/// Three outcomes that must never be conflated.
#[derive(Clone, Debug, PartialEq, Eq)]
pub enum Outcome {
    Sat,
    Unsat,
    Unknown(String),
}

impl Outcome {
    pub fn label(&self) -> (s: &'static str)
        ensures
            s@ == match *self {
                Outcome::Sat => "SAT"@,
                Outcome::Unsat => "UNSAT"@,
                Outcome::Unknown(_) => "UNKNOWN"@,
            },
    {
        match self {
            Outcome::Sat => "SAT",
            Outcome::Unsat => "UNSAT",
            Outcome::Unknown(_) => "UNKNOWN",
        }
    }

    pub fn exit_code(&self) -> (c: i32)
        ensures
            c == match *self {
                Outcome::Sat => 0i32,
                Outcome::Unsat => 1,
                Outcome::Unknown(_) => 2,
            },
    {
        match self {
            Outcome::Sat => 0,
            Outcome::Unsat => 1,
            Outcome::Unknown(_) => 2,
        }
    }
}

} // verus!
