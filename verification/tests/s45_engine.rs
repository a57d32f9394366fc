use odd835::s45::engine::{Engine, IN, OUT, UNKNOWN};

fn count(e: &Engine, st: u8) -> usize {
    e.status.iter().filter(|&&x| x == st).count()
}

#[test]
fn engine_sizes_for_eleven_points() {
    let e = Engine::new(11, false);
    assert_eq!(e.n_items, 330);
    assert_eq!(e.n_opts, 462);
    assert_eq!(e.n_blocks, 66);
    assert_eq!(e.n_triples, 165);
    assert_eq!(e.p, 8);
    assert_eq!(count(&e, UNKNOWN), 462);
    assert_eq!(e.level(), 0);
}

#[test]
fn including_an_option_excludes_its_neighbours() {
    let mut e = Engine::new(11, false);
    e.push_level();
    assert!(e.set_in(0));
    assert_eq!(e.status[0], IN);
    assert_eq!(e.n_in, 1);
    // five items, each on six other options
    assert_eq!(count(&e, OUT), 30);
    assert!(!e.all_covered());
    // an excluded option cannot be included
    let out = (0..e.n_opts).find(|&o| e.status[o] == OUT).unwrap();
    assert!(!e.set_in(out));
    // including twice is harmless
    assert!(e.set_in(0));
    assert_eq!(e.n_in, 1);
}

#[test]
fn pop_level_restores_the_statuses() {
    let mut e = Engine::new(11, true);
    e.push_level();
    assert!(e.set_out(5));
    assert_eq!(e.status[5], OUT);
    e.push_level();
    assert!(e.set_in(0));
    assert_eq!(e.level(), 2);
    e.pop_level();
    assert_eq!(e.level(), 1);
    assert_eq!(e.n_in, 0);
    assert_eq!(count(&e, OUT), 1);
    assert_eq!(e.status[5], OUT);
    e.pop_level();
    assert_eq!(count(&e, UNKNOWN), 462);
}

#[test]
fn set_out_refuses_an_included_option() {
    let mut e = Engine::new(11, false);
    assert!(e.set_in(3));
    assert!(!e.set_out(3));
    assert_eq!(e.status[3], IN);
    assert!(e.set_out_because(100, 3) || e.status[100] == IN);
}

#[test]
fn the_search_finds_the_witt_design() {
    let (out, blocks) = odd835::s45::engine::run(11, true, false, true, false, None, None).unwrap();
    assert_eq!(out, odd835::solver::Outcome::Sat);
    assert_eq!(blocks.len(), 66);
    assert!(odd835::s45::verify::verify(11, &blocks).is_ok());
}

#[test]
fn the_search_without_matching_finds_it_too() {
    let (out, blocks) = odd835::s45::engine::run(11, false, false, true, false, None, None).unwrap();
    assert_eq!(out, odd835::solver::Outcome::Sat);
    assert_eq!(blocks.len(), 66);
}

#[test]
fn symmetry_units_are_the_spread_through_012() {
    let e = Engine::new(11, true);
    let units = e.symmetry_units();
    assert_eq!(units.len(), 4);
    let mut want = Vec::new();
    let mut a = 3;
    while a + 1 < 11 {
        let m: u32 = 0b111 | (1 << a) | (1 << (a + 1));
        want.push(m);
        a += 2;
    }
    let mut e2 = Engine::new(11, true);
    for &u in &units {
        assert!(e2.set_in(u));
    }
    let got = e2.blocks();
    assert_eq!(got, want);
}

#[test]
fn a_conflict_limit_gives_unknown() {
    let (out, blocks) = odd835::s45::engine::run(11, false, false, false, false, None, Some(0)).unwrap();
    assert!(matches!(out, odd835::solver::Outcome::Sat | odd835::solver::Outcome::Unknown(_)));
    assert!(out == odd835::solver::Outcome::Sat || blocks.is_empty());
}

#[test]
fn propagation_with_matching_keeps_the_state_consistent() {
    let mut e = Engine::new(11, true);
    e.push_level();
    e.break_symmetry();
    assert!(e.propagate());
    assert_eq!(e.n_in, 4);
    let sel = e.select();
    assert!(sel.is_some());
}

#[test]
fn level2_branches_drop_parts_of_one() {
    let e = Engine::new(11, true);
    assert_eq!(e.level2_branches(), vec![vec![3u32]]);
    let e = Engine::new(21, true);
    let b = e.level2_branches();
    assert_eq!(b.len(), 7);
    assert!(b.iter().all(|p| p.iter().all(|&x| x >= 2) && p.iter().sum::<u32>() == 8));
}

#[test]
fn the_level2_search_finds_the_witt_design() {
    let (out, blocks) = odd835::s45::engine::run(11, true, false, true, true, None, None).unwrap();
    assert_eq!(out, odd835::solver::Outcome::Sat);
    assert!(odd835::s45::verify::verify(11, &blocks).is_ok());
}

#[test]
fn level2_units_pass_through_013() {
    let e = Engine::new(11, true);
    let units = e.level2_units(&vec![3u32]);
    assert_eq!(units.len(), 3);
    for &u in &units {
        let m = e.opt_mask_of(u);
        assert_eq!(m.count_ones(), 5);
        assert_eq!(m & 0b1011, 0b1011);
    }
}
