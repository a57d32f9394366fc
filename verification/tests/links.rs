use odd835::check::{neighbors_from_definition, subsets_of_size};
use odd835::combi::{Combi, LinkCell};
use odd835::designs::FANO;
use odd835::solver::link::{check_link, LinkPlan, RungVerdict};

/// A single perfect code induces `S(t-1,t,k+t)` on every link region, since
/// it is one class of the (hypothetical) partition.
#[test]
fn fano_link_regions_induce_the_large_set_class() {
    let c = Combi::new(4).unwrap();
    let members: Vec<u32> = FANO.iter().map(|b| c.rank(*b)).collect();
    let t = 2;
    for idx in 0..c.link_count(t) {
        let lambda = c.unrank_lambda(t, idx);
        let cells = c.link_region(lambda, t);
        assert_eq!(cells.len(), c.link_size(t) as usize);
        let hits: Vec<&LinkCell> = cells.iter().filter(|x| members.contains(&x.vertex)).collect();
        assert_eq!(hits.len(), 3, "lambda {lambda:#x}");
        let mut cover = 0u32;
        for h in &hits {
            assert_eq!(h.points.count_ones(), 2);
            assert_eq!(cover & h.points, 0, "blocks overlap: lambda {lambda:#x}");
            cover |= h.points;
        }
        assert_eq!(cover.count_ones(), 6);
    }
}

/// `t = 1` carries no information beyond Rule B: every pair in a level-1
/// region lies in a common closed neighbourhood.
#[test]
fn level_one_link_adds_nothing_to_rule_b() {
    for k in [4u32, 6] {
        let c = Combi::new(k).unwrap();
        let all = subsets_of_size((1u32 << c.n) - 1, c.r);
        let nbhds: Vec<Vec<u32>> = all
            .iter()
            .map(|&t| {
                let mut v = neighbors_from_definition(t, c.n, c.r);
                v.push(t);
                v.sort_unstable();
                v
            })
            .collect();
        for idx in 0..c.link_count(1).min(300) {
            let lambda = c.unrank_lambda(1, idx);
            let cells = c.link_region(lambda, 1);
            assert_eq!(cells.len() as u32, k + 1, "lambda {lambda:#x}");
            let masks: Vec<u32> = cells.iter().map(|x| x.vmask).collect();
            let mut d = masks.clone();
            d.sort_unstable();
            d.dedup();
            assert_eq!(d.len(), masks.len(), "region has duplicates");
            for i in 0..masks.len() {
                for j in i + 1..masks.len() {
                    let shared = nbhds
                        .iter()
                        .filter(|nb| nb.contains(&masks[i]) && nb.contains(&masks[j]))
                        .count();
                    assert!(shared >= 1, "k={k} lambda={lambda:#x}: {:#x} and {:#x} share no closed nbhd", masks[i], masks[j]);
                }
            }
        }
    }
}

#[test]
fn a_plan_walks_the_regions_in_rank_order() {
    let c = Combi::new(6).unwrap();
    let mut p = LinkPlan::new(&c, 2, 0);
    assert_eq!(p.cursor, 0);
    assert_eq!(p.total, c.link_count(2));
    assert_eq!(p.cells.len() as u64, c.link_size(2));
    p.advance(&c);
    assert_eq!(p.cursor, 1);
    assert_eq!(p.lambda, c.unrank_lambda(2, 1));
    p.seek(&c, p.total + 2);
    assert_eq!(p.cursor, 2);
    let seeded = LinkPlan::new(&c, 2, 7);
    assert!(seeded.cursor < seeded.total);
}

#[test]
fn rung_check_verdicts() {
    let c = Combi::new(4).unwrap();
    let lambda = c.unrank_lambda(2, 0);
    let cells = c.link_region(lambda, 2);
    // unassigned cells: nothing can be concluded
    let none: Vec<Option<u8>> = vec![None; cells.len()];
    assert_eq!(check_link(&c, 2, &cells, &none), RungVerdict::Incomplete { assigned: 0, total: cells.len() });
    // one colour everywhere covers every point many times
    let all0: Vec<Option<u8>> = vec![Some(0); cells.len()];
    assert!(matches!(check_link(&c, 2, &cells, &all0), RungVerdict::Fail(_)));
    // level 0 always passes once assigned
    assert_eq!(check_link(&c, 0, &cells, &all0), RungVerdict::Pass);
}

#[test]
fn the_region_walk_returns_to_its_start_after_visiting_every_region_once() {
    let c = Combi::new(4).unwrap();
    let mut p = LinkPlan::new(&c, 2, 3);
    let start = p.cursor;
    let mut seen = std::collections::HashSet::new();
    for _ in 0..p.total {
        assert!(seen.insert(p.lambda));
        p.advance(&c);
    }
    assert_eq!(p.cursor, start);
    assert_eq!(seen.len() as u64, c.link_count(2));
}

#[test]
fn every_vertex_has_k_neighbours_and_adjacency_is_symmetric() {
    for k in [4u32, 6] {
        let c = Combi::new(k).unwrap();
        let all = subsets_of_size((1u32 << c.n) - 1, c.r);
        for &u in &all {
            let nb = c.closed_nbhd_masks(u);
            assert_eq!(nb.len() as u32, k + 1);
            for &w in &nb[1..] {
                assert_eq!(u & w, 0);
                assert!(c.closed_nbhd_masks(w)[1..].contains(&u));
            }
        }
    }
}
