use odd835::check::{intersection_profile, is_perfect_code, neighbors_from_definition, subsets_of_size};
use odd835::combi::Combi;
use odd835::designs::{FANO, WITT_S4_5_11};

#[test]
fn subset_generator() {
    assert_eq!(subsets_of_size(0b1111, 2).len(), 6);
    assert_eq!(subsets_of_size(0b1111, 0), vec![0]);
    assert_eq!(subsets_of_size(0b1111, 4), vec![0b1111]);
    assert_eq!(subsets_of_size(0b1111, 5).len(), 0);
}

#[test]
fn definition_neighbours_match_pairwise_disjointness_small_k() {
    // The strongest possible independence check: brute-force every pair.
    for k in [2u32, 4, 6, 8] {
        let c = Combi::new(k).unwrap();
        let all = subsets_of_size((1u32 << c.n) - 1, c.r);
        assert_eq!(all.len() as u64, c.num_vertices);
        for &t in &all {
            let mut brute: Vec<u32> = all.iter().cloned().filter(|u| *u & t == 0).collect();
            brute.sort_unstable();
            let mut def = neighbors_from_definition(t, c.n, c.r);
            def.sort_unstable();
            assert_eq!(def, brute, "k={k} t={t:#x}");
            assert_eq!(def.len(), k as usize);
        }
    }
}

#[test]
fn fano_and_witt_are_perfect_codes() {
    assert!(is_perfect_code(4, &FANO.to_vec()).unwrap(), "Fano in O_4");
    assert!(is_perfect_code(6, &WITT_S4_5_11.to_vec()).unwrap(), "Witt in O_6");
}

#[test]
fn ground_truth_intersection_profiles() {
    // c_a + c_{k-2-a} must equal N_{a+1} exactly, for real designs.
    for (k, blocks) in [(4u32, FANO.to_vec()), (6u32, WITT_S4_5_11.to_vec())] {
        let c = Combi::new(k).unwrap();
        let targets = c.rule_d_targets();
        for prof in intersection_profile(k, &blocks) {
            for a in 0..=(k - 2) as usize {
                let mirror = (k - 2) as usize - a;
                assert_eq!(
                    prof[a] + prof[mirror],
                    targets[a],
                    "k={k} a={a}: c_a={} c_a'={} target={}",
                    prof[a],
                    prof[mirror],
                    targets[a]
                );
            }
            // the two cases Rules D/E skip
            assert_eq!(prof[0], 0, "c_0 must be 0 (same-class vertices are non-adjacent)");
            assert_eq!(prof[(k - 2) as usize], 0, "c_{{k-2}} must be 0");
        }
    }
}

#[test]
fn a_block_outside_the_ground_set_is_not_a_code() {
    assert!(matches!(is_perfect_code(4, &vec![0x83u32]), Ok(false)));
}
