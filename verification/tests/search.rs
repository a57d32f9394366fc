use odd835::check::check_witness;
use odd835::codesearch::CodeSolver;
use odd835::interrupt::Interrupt;
use odd835::solver::engine::{Engine, UNASSIGNED};
use odd835::solver::search::{limit_verdict, memory_verdict, record_text, LogRecord, Solver};
use odd835::stats::Rule;
use odd835::solver::{Config, Outcome, SymmetryMode};
use odd835::combi::Combi;
use odd835::witness::Witness;

fn solver(k: u32, sym: SymmetryMode) -> Solver {
    let mut cfg = Config::new(k);
    cfg.quiet = true;
    cfg.symmetry = sym;
    Solver::new(cfg, Interrupt::new()).unwrap()
}

/// The orbit reduction is only sound if `φ` is exactly the colour map that
/// colour-symmetry breaking produces on the neighbours of `v0`.
#[test]
fn phi_matches_what_root_breaking_assigns() {
    for k in [2u32, 4, 6, 8, 10] {
        let mut s = solver(k, SymmetryMode::Color);
        assert!(s.root_setup(), "root propagation must not conflict");
        let phi = s.phi();
        let c0: Vec<u32> = (k - 1..2 * k - 1).collect();
        let mut seen = std::collections::HashSet::new();
        for (pos, &z) in c0.iter().enumerate() {
            let mask = c0.iter().filter(|&&y| y != z).fold(0u32, |a, &y| a | (1u32 << y));
            let idx = s.e.c.rank(mask) as usize;
            assert_eq!(
                s.e.color[idx], phi[pos],
                "k={k}: phi({z}) = {} but u_z actually has colour {}",
                phi[pos], s.e.color[idx]
            );
            assert!(phi[pos] >= 1 && phi[pos] <= k as u8, "phi must land in 1..=k");
            assert!(seen.insert(phi[pos]), "phi must be injective");
        }
        assert_eq!(seen.len(), k as usize);
    }
}

/// Every orbit branch must assign exactly the `k` vertices `w_x`, and the
/// colours it assigns must be a permutation of `1..=k`.
#[test]
fn every_orbit_branch_assigns_a_permutation() {
    for k in [2u32, 4, 6] {
        let mut s = solver(k, SymmetryMode::Orbit);
        assert!(s.root_setup());
        let before = s.e.assigned;
        let nbranches = s.orbit_count();
        for b in 0..nbranches {
            s.e.push_level();
            assert!(s.apply_orbit_branch(b));
            let ok = s.e.propagate();
            if ok {
                let c0: Vec<u32> = (k - 1..2 * k - 1).collect();
                let lam: u32 = (0..k.saturating_sub(2)).fold(0u32, |a, x| a | (1u32 << x));
                let mut cols: Vec<u8> = c0
                    .iter()
                    .map(|&x| {
                        let idx = s.e.c.rank(lam | (1u32 << x)) as usize;
                        s.e.color[idx]
                    })
                    .collect();
                cols.sort_unstable();
                let want: Vec<u8> = (1..=k as u8).collect();
                assert_eq!(cols, want, "k={k} branch {b} must colour w_x with 1..=k");
            }
            s.e.pop_level();
            assert_eq!(s.e.assigned, before, "branch {b} must undo cleanly");
        }
    }
}

#[test]
fn k2_is_sat_and_the_colouring_checks() {
    for sym in [SymmetryMode::Off, SymmetryMode::Color, SymmetryMode::Orbit] {
        let mut s = solver(2, sym);
        assert_eq!(s.run().unwrap(), Outcome::Sat);
        let colors = s.e.colors_snapshot();
        assert!(colors.iter().all(|&c| c != UNASSIGNED));
        let rep = check_witness(&Witness::Partition { k: 2, colors }).unwrap();
        assert!(rep.ok());
    }
}

#[test]
fn k4_is_unsat_under_every_symmetry_mode() {
    for sym in [SymmetryMode::Color, SymmetryMode::Orbit, SymmetryMode::Off] {
        let mut s = solver(4, sym);
        assert_eq!(s.run().unwrap(), Outcome::Unsat, "{sym:?}");
    }
}

#[test]
fn k4_is_unsat_with_each_propagator_and_without_cardinality() {
    for matching in [false, true] {
        for card in [false, true] {
            let mut cfg = Config::new(4);
            cfg.quiet = true;
            cfg.cardinality = card;
            if matching {
                cfg.propagator = odd835::solver::PropagatorMode::Matching;
            }
            let mut s = Solver::new(cfg, Interrupt::new()).unwrap();
            assert_eq!(s.run().unwrap(), Outcome::Unsat, "matching={matching} card={card}");
        }
    }
}

#[test]
fn a_conflict_limit_never_reports_unsat() {
    let mut cfg = Config::new(6);
    cfg.quiet = true;
    cfg.max_conflicts = Some(0);
    let mut s = Solver::new(cfg, Interrupt::new()).unwrap();
    match s.run().unwrap() {
        Outcome::Unknown(m) => assert_eq!(m, "conflict limit 0"),
        other => assert_ne!(other, Outcome::Unsat),
    }
}

#[test]
fn a_stop_request_ends_the_search_as_unknown() {
    let mut cfg = Config::new(6);
    cfg.quiet = true;
    let stop = Interrupt::new();
    stop.request_stop();
    let mut s = Solver::new(cfg, stop).unwrap();
    match s.run().unwrap() {
        Outcome::Unknown(m) => assert_eq!(m, "interrupted"),
        other => assert_ne!(other, Outcome::Unsat),
    }
}

#[test]
fn odd_k_has_no_solver() {
    assert!(Solver::new(Config::new(5), Interrupt::new()).is_err());
    assert!(Solver::new(Config::new(18), Interrupt::new()).is_err());
}

#[test]
fn pop_level_restores_colours_and_domains() {
    let c = Combi::new(4).unwrap();
    let mut e = Engine::new(c, Config::new(4));
    let color0 = e.color.clone();
    let dom0 = e.dom.clone();
    e.push_level();
    let m = e.c.unrank(3);
    assert!(e.assign(3, m, 2));
    assert_eq!(e.color[3], 2);
    assert_eq!(e.dom[3], 1 << 2);
    let _ = e.propagate();
    e.pop_level();
    assert_eq!(e.color, color0);
    assert_eq!(e.dom, dom0);
    assert_eq!(e.assigned, 0);
    assert_eq!(e.size, vec![0u64; 5]);
}

#[test]
fn assign_strikes_the_colour_from_every_neighbour() {
    let c = Combi::new(6).unwrap();
    let mut e = Engine::new(c, Config::new(6));
    let m = e.c.unrank(10);
    assert!(e.assign(10, m, 4));
    let full = e.c.full;
    for q in 0..e.c.n {
        if (full & !m) >> q & 1 == 1 {
            let nm = full & !m & !(1u32 << q);
            let ni = e.c.rank(nm) as usize;
            assert_eq!(e.dom[ni] & (1 << 4), 0, "neighbour {ni}");
        }
    }
    assert_eq!(e.assigned, 1);
    assert_eq!(e.size[4], 1);
}

#[test]
fn mrv_picks_the_lowest_index_among_the_smallest_domains() {
    let c = Combi::new(4).unwrap();
    let mut e = Engine::new(c, Config::new(4));
    // nothing narrowed: every domain is full, vertex 0 comes first
    assert_eq!(e.select_mrv().map(|x| x.0), Some(0));
    let m = e.c.unrank(5);
    assert!(e.assign(5, m, 0));
    // the neighbours of 5 lost colour 0; the lowest of them is picked
    let full = e.c.full;
    let mut nbrs: Vec<u32> = (0..e.c.n)
        .filter(|q| (full & !m) >> q & 1 == 1)
        .map(|q| e.c.rank(full & !m & !(1u32 << q)))
        .collect();
    nbrs.sort_unstable();
    assert_eq!(e.select_mrv().map(|x| x.0), Some(nbrs[0]));
}

#[test]
fn code_k4_finds_a_fano_equivalent_and_k6_a_witt_equivalent() {
    for (k, m) in [(4u32, 7usize), (6, 66)] {
        let mut cfg = Config::new(k);
        cfg.quiet = true;
        let mut s = CodeSolver::new(cfg, Interrupt::new()).unwrap();
        assert_eq!(s.run().unwrap(), Outcome::Sat, "k={k}");
        let members = s.members();
        assert_eq!(members.len(), m, "k={k}");
        assert!(members.contains(&0), "symmetry puts vertex 0 in the code");
        let rep = check_witness(&Witness::Code { k, members }).unwrap();
        assert!(rep.ok(), "k={k}");
    }
}

#[test]
fn code_search_without_symmetry_still_finds_a_code() {
    let mut cfg = Config::new(4);
    cfg.quiet = true;
    cfg.symmetry = SymmetryMode::Off;
    let mut s = CodeSolver::new(cfg, Interrupt::new()).unwrap();
    assert_eq!(s.run().unwrap(), Outcome::Sat);
    let rep = check_witness(&Witness::Code { k: 4, members: s.members() }).unwrap();
    assert!(rep.ok());
}

#[test]
fn code_search_rejects_odd_k() {
    assert!(CodeSolver::new(Config::new(3), Interrupt::new()).is_err());
}

/// Rules D and E, and their reachability direction, change no answer.
#[test]
fn anchor_settings_keep_the_answers() {
    for anchors in [0usize, 1, 4, 16, 64] {
        for reach in [false, true] {
            for (k, want) in [(2u32, Outcome::Sat), (4, Outcome::Unsat)] {
                let mut cfg = Config::new(k);
                cfg.quiet = true;
                cfg.anchors = anchors;
                cfg.anchor_reach = reach;
                let mut s = Solver::new(cfg, Interrupt::new()).unwrap();
                assert_eq!(s.run().unwrap(), want, "k={k} anchors={anchors} reach={reach}");
            }
        }
    }
}

#[test]
fn anchor_reach_is_idle_unless_asked() {
    let c = Combi::new(4).unwrap();
    let mut e = Engine::new(c, Config::new(4));
    for cls in 0..5 {
        assert!(e.anchor_reach_check(cls));
    }
}

/// Link-ordered branching, at every level and from a seeded region, keeps
/// the answers.
#[test]
fn link_ordering_keeps_the_answers() {
    for level in [0u32, 1, 2, 3, 9] {
        for seed in [0u64, 7] {
            for (k, want) in [(2u32, Outcome::Sat), (4, Outcome::Unsat)] {
                let mut cfg = Config::new(k);
                cfg.quiet = true;
                cfg.branch_order = odd835::solver::BranchOrder::Link;
                cfg.link_level = level;
                cfg.seed = seed;
                let mut s = Solver::new(cfg, Interrupt::new()).unwrap();
                let got = s.run().unwrap();
                assert_eq!(got, want, "k={k} level={level} seed={seed}");
                if got == Outcome::Sat {
                    let colors = s.e.colors_snapshot();
                    assert!(check_witness(&Witness::Partition { k, colors }).unwrap().ok());
                }
            }
        }
    }
}

/// The measured best configuration: orbit symmetry, the matching filter,
/// link ordering at level 2 and no anchors.
#[test]
fn the_fastest_configuration_proves_k4_unsat() {
    let mut cfg = Config::new(4);
    cfg.quiet = true;
    cfg.symmetry = SymmetryMode::Orbit;
    cfg.propagator = odd835::solver::PropagatorMode::Matching;
    cfg.branch_order = odd835::solver::BranchOrder::Link;
    cfg.link_level = 2;
    cfg.anchors = 0;
    let mut s = Solver::new(cfg, Interrupt::new()).unwrap();
    assert_eq!(s.run().unwrap(), Outcome::Unsat);
}

#[test]
fn limits_give_unknown_never_unsat() {
    assert!(limit_verdict(false, 10, Some(100), 5, Some(50)).is_none());
    assert!(limit_verdict(false, 10, None, 5, None).is_none());
    match limit_verdict(true, 0, None, 0, None) {
        Some(Outcome::Unknown(m)) => assert_eq!(m, "interrupted"),
        _ => panic!("a stop request must give an unknown outcome"),
    }
    match limit_verdict(false, 100, Some(100), 0, None) {
        Some(Outcome::Unknown(m)) => assert_eq!(m, "timeout after 100 ms"),
        _ => panic!("the time budget must give an unknown outcome"),
    }
    match limit_verdict(false, 0, Some(100), 50, Some(50)) {
        Some(Outcome::Unknown(m)) => assert_eq!(m, "conflict limit 50"),
        _ => panic!("the conflict budget must give an unknown outcome"),
    }
}

#[test]
fn with_rule_a_alone_an_assignment_fails_exactly_when_a_neighbour_runs_out() {
    let c = Combi::new(4).unwrap();
    let mut cfg = Config::new(4);
    cfg.cardinality = false;
    cfg.anchors = 0;
    cfg.verify_classes = false;
    let fresh = |colour: u8| -> (bool, u32) {
        let mut e = Engine::new(c.clone(), cfg.clone());
        let m0 = e.c.unrank(0);
        let comp = e.c.full & !m0;
        let q = comp.trailing_zeros();
        let nm = comp & !(1u32 << q);
        let ni = e.c.rank(nm) as usize;
        e.dom[ni] = 1 << 2;
        let ok = e.assign(0, m0, colour);
        (ok, e.dom[ni])
    };
    assert!(!fresh(2).0);
    assert_eq!(fresh(3), (true, 1 << 2));
}

#[test]
fn a_memory_reading_over_the_limit_stops_the_run_as_unknown() {
    assert_eq!(memory_verdict(None, 1 << 40, true), None);
    assert_eq!(memory_verdict(Some(4096), 4096, true), None);
    assert_eq!(
        memory_verdict(Some(1024), 2048, true),
        Some(Outcome::Unknown("memory limit 1.0 KiB exceeded (2.0 KiB in use)".to_string()))
    );
    assert_eq!(
        memory_verdict(Some(8 << 30), (8 << 30) + 1, false),
        Some(Outcome::Unknown("memory limit 8.0 GiB exceeded".to_string()))
    );
    assert_eq!(
        memory_verdict(Some(1000), 1536, true),
        Some(Outcome::Unknown("memory limit 1000 B exceeded (1.5 KiB in use)".to_string()))
    );
}

#[test]
fn log_records_are_json_lines() {
    let d = LogRecord::Decision { level: 3, var: 7, colour: 2 };
    assert_eq!(record_text(&d), "{\"e\":\"d\",\"lvl\":3,\"v\":7,\"c\":2}");
    let x = LogRecord::Conflict { level: 1, rule: Rule::Matching };
    assert_eq!(record_text(&x), "{\"e\":\"x\",\"lvl\":1,\"rule\":\"matching\"}");
}

#[test]
fn the_conflict_log_holds_one_record_per_conflict() {
    let mut cfg = Config::new(4);
    cfg.conflict_log = Some("conflicts.jsonl".to_string());
    let mut s = Solver::new(cfg, Interrupt::new()).unwrap();
    assert_eq!(s.run(), Ok(Outcome::Unsat));
    let log = s.take_log();
    let conflicts = log.iter().filter(|r| matches!(r, LogRecord::Conflict { .. })).count() as u64;
    assert_eq!(conflicts, s.conflicts);
    assert!(s.take_log().is_empty());
}
