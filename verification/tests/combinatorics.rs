use odd835::combi::Combi;

#[test]
fn odd_k_is_rejected() {
    for k in [3u32, 5, 7, 9, 11, 13, 15] {
        let e = match Combi::new(k) {
            Ok(_) => panic!("odd k = {k} must be rejected"),
            Err(e) => e.message(),
        };
        assert!(e.contains("odd"), "message for k={k} should explain oddness");
    }
}

#[test]
fn derived_constants_match_spec_table() {
    let expect: &[(u32, u64, u32, u64)] = &[
        (2, 3, 3, 1),
        (4, 35, 5, 7),
        (6, 462, 7, 66),
        (8, 6435, 9, 715),
        (10, 92378, 11, 8398),
        (12, 1352078, 13, 104006),
        (14, 20058300, 15, 1337220),
        (16, 300540195, 17, 17678835),
    ];
    for &(k, v, cols, m) in expect {
        let c = Combi::new(k).unwrap();
        assert_eq!(c.num_vertices, v, "|V| for k={k}");
        assert_eq!(c.colors, cols, "colors for k={k}");
        assert_eq!(c.m, m, "m for k={k}");
    }
}

#[test]
fn rank_tables_agree_with_reference() {
    for k in [2u32, 4, 6, 8, 10, 12] {
        let c = Combi::new(k).unwrap();
        for i in 0..c.num_vertices as u32 {
            let mask = c.unrank(i);
            assert_eq!(c.rank(mask), c.rank_ref(mask), "k={k} idx={i}");
            assert_eq!(c.rank(mask), i, "k={k} idx={i}");
        }
    }
}

#[test]
fn n_and_m_distributions_match_spec_k10() {
    let c = Combi::new(10).unwrap();
    assert_eq!(c.n_dist(), vec![1, 0, 225, 1200, 4200, 5544, 4200, 1200, 225, 0, 1]);
    assert_eq!(c.m_dist(), vec![0, 10, 180, 1320, 3990, 5796, 3990, 1320, 180, 10, 0]);
    assert_eq!(c.catalan(), 16796);
}

#[test]
fn de_targets_match_spec_k16() {
    let c = Combi::new(16).unwrap();
    let d = c.rule_d_targets();
    let e = c.rule_e_targets();
    let nexp = [0u64, 960, 17920, 196560, 1118208, 3779776, 7687680, 9755460];
    let mexp = [16u64, 840, 18480, 194740, 1122576, 3771768, 7699120, 9742590];
    for a in 0..8usize {
        assert_eq!(d[a], nexp[a], "N_{} at a={}", a + 1, a);
        assert_eq!(e[a], mexp[a], "M_{} at a={}", a + 1, a);
    }
}

#[test]
fn distributions_sum_to_catalan() {
    // The individual N_j / M_j are not integral for every even k (they are
    // not at k=8 or k=14), but the sums are exactly Cat(k) as rationals.
    for k in [2u32, 4, 6, 8, 10, 12, 14, 16] {
        let c = Combi::new(k).unwrap();
        let cat = c.catalan() as i128;
        let d = k as i128 + 1;
        assert_eq!(c.n_num().iter().sum::<i128>(), cat * d, "sum N_j, k={k}");
        assert_eq!(c.m_num().iter().sum::<i128>(), cat * d, "sum M_j, k={k}");
        let nd = c.n_dist();
        let md = c.m_dist();
        assert_eq!(nd[0], 1);
        assert_eq!(nd[k as usize], 1);
        assert_eq!(nd[1], 0);
        assert_eq!(nd[k as usize - 1], 0);
        assert_eq!(md[0], 0);
        assert_eq!(md[k as usize], 0);
        assert_eq!(md[1], k as u64);
    }
}

#[test]
fn divisibility_obstruction_is_exactly_k8_and_k14() {
    for k in [2u32, 4, 6, 10, 12, 16] {
        assert!(Combi::new(k).unwrap().distribution_integral(), "k={k} should have integral N_j / M_j");
    }
    for k in [8u32, 14] {
        let c = Combi::new(k).unwrap();
        assert!(!c.distribution_integral(), "k={k} must expose the divisibility obstruction");
        // it first appears at j = 3
        assert_eq!(c.divisibility_obstruction()[0].1, 3, "k={k}");
    }
}

#[test]
fn link_region_sizes() {
    let c = Combi::new(16).unwrap();
    assert_eq!(c.link_size(2), 153);
    assert_eq!(c.link_size(3), 969);
    let lambda = c.unrank_lambda(2, 0);
    assert_eq!(lambda.count_ones(), 14);
    let region = c.link_region(lambda, 2);
    assert_eq!(region.len(), 153);
    let mut seen: Vec<u32> = region.iter().map(|x| x.vertex).collect();
    seen.sort_unstable();
    seen.dedup();
    assert_eq!(seen.len(), 153, "link cells must be distinct vertices");
}

#[test]
fn the_odd_k_message_gives_the_negative_block_count() {
    let e = Combi::new(5).err().unwrap();
    assert_eq!(
        e.message(),
        "k = 5 is odd, so no partition of O_5 into 6 perfect 1-codes can exist.\n\
         The structure theorem gives, for a colour class B and any block B in it,\n\
         N_0(B) = (1 + k*(-1)^k) / (k+1) = (1 - 5) / 6 = -0.6666666666666666,\n\
         the number of blocks of the class disjoint from B. A count cannot be\n\
         negative, so there is nothing to search. Use an even k."
    );
    for k in [3u32, 7, 9, 11, 13, 15] {
        let v = (1i64 - k as i64) as f64 / (k as f64 + 1.0);
        assert!(Combi::new(k).err().unwrap().message().contains(&format!(" = {v},\n")), "k={k}");
    }
}
