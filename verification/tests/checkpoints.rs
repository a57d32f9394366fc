use odd835::interrupt::Interrupt;
use odd835::solver::search::{Checkpoint, Solver, Step};
use odd835::solver::{BranchOrder, Config, Outcome, PropagatorMode, SymmetryMode};

fn config(k: u32, sym: SymmetryMode) -> Config {
    let mut cfg = Config::new(k);
    cfg.quiet = true;
    cfg.symmetry = sym;
    cfg
}

#[test]
fn the_fingerprint_names_every_setting_that_shapes_the_tree() {
    let cfg = Config::new(4);
    assert_eq!(
        Solver::fingerprint(&cfg),
        "k4 symColor propCount cardtrue anch16 reachfalse orderMrv link3 seed0"
    );
    let mut other = Config::new(6);
    other.symmetry = SymmetryMode::Off;
    other.propagator = PropagatorMode::Matching;
    other.cardinality = false;
    other.anchors = 0;
    other.anchor_reach = true;
    other.branch_order = BranchOrder::Link;
    other.link_level = 2;
    other.seed = 99;
    assert_eq!(
        Solver::fingerprint(&other),
        "k6 symNone propMatching cardfalse anch0 reachtrue orderLink link2 seed99"
    );
}

#[test]
fn a_fresh_checkpoint_validates_and_a_foreign_one_does_not() {
    let s = Solver::new(config(4, SymmetryMode::Color), Interrupt::new()).unwrap();
    let cp = s.checkpoint();
    assert_eq!(cp.schema, 1);
    assert_eq!(cp.k, 4);
    assert_eq!(cp.mode, "solve");
    assert!(cp.decisions.is_empty());
    assert!(s.validate(&cp).is_ok());

    let mut wrong_k = cp.clone();
    wrong_k.k = 6;
    assert_eq!(s.validate(&wrong_k).unwrap_err(), "checkpoint is for k = 6 but k = 4 was requested");

    let mut wrong_schema = cp.clone();
    wrong_schema.schema = 2;
    assert_eq!(s.validate(&wrong_schema).unwrap_err(), "checkpoint schema 2 is not supported");

    let other = Solver::new(config(4, SymmetryMode::Orbit), Interrupt::new()).unwrap();
    let e = other.validate(&cp).unwrap_err();
    assert!(e.starts_with("checkpoint was produced with a different configuration:"));
    assert!(e.contains("saved: k4 symColor"));
    assert!(e.contains("now:   k4 symOrbit"));
}

/// Pause at every periodic check, resume a second solver from each
/// checkpoint, and both runs reach the same answer.
fn pause_and_resume(sym: SymmetryMode) {
    let mut cfg = config(4, sym);
    cfg.checkpoint = Some("unused".to_string());
    cfg.checkpoint_interval_ms = Some(0);
    let mut s = Solver::new(cfg.clone(), Interrupt::new()).unwrap();
    let mut step = s.start(None).unwrap();
    let mut saved: Vec<Checkpoint> = Vec::new();
    while step == Step::Save {
        saved.push(s.checkpoint());
        step = s.proceed().unwrap();
    }
    assert_eq!(step, Step::Done(Outcome::Unsat));
    assert!(!saved.is_empty(), "a k = 4 search takes more than 256 steps");
    for cp in saved.iter().take(3) {
        let mut r = Solver::new(cfg.clone(), Interrupt::new()).unwrap();
        let mut step = r.start(Some(cp)).unwrap();
        while step == Step::Save {
            step = r.proceed().unwrap();
        }
        assert_eq!(step, Step::Done(Outcome::Unsat), "{sym:?}");
    }
}

#[test]
fn a_resumed_colour_search_reaches_the_same_answer() {
    pause_and_resume(SymmetryMode::Color);
}

/// An orbit-mode checkpoint resumes at the branch it names.
#[test]
fn a_resumed_orbit_search_starts_at_its_branch() {
    let cfg = config(4, SymmetryMode::Orbit);
    let s = Solver::new(cfg.clone(), Interrupt::new()).unwrap();
    let n = s.orbit_count();
    for b in 0..n {
        let mut cp = s.checkpoint();
        cp.orbit_branch = b;
        let mut r = Solver::new(cfg.clone(), Interrupt::new()).unwrap();
        assert_eq!(r.start(Some(&cp)).unwrap(), Step::Done(Outcome::Unsat));
    }
    let mut cp = s.checkpoint();
    cp.orbit_branch = n;
    let mut r = Solver::new(cfg, Interrupt::new()).unwrap();
    assert!(r.start(Some(&cp)).is_err());
}

#[test]
fn replay_refuses_a_path_that_does_not_fit() {
    let cfg = config(4, SymmetryMode::Color);
    let s = Solver::new(cfg.clone(), Interrupt::new()).unwrap();
    let mut cp = s.checkpoint();
    cp.decisions.push((1_000_000, 1, 0));
    let mut r = Solver::new(cfg, Interrupt::new()).unwrap();
    assert_eq!(r.start(Some(&cp)).unwrap_err(), "checkpoint decision 0 is out of range");
}
