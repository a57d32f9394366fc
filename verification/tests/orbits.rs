use odd835::combi::Combi;
use odd835::solver::search::partitions;

#[test]
fn partitions_are_the_conjugacy_classes() {
    // p(k) for k = 1..12
    let expect = [1usize, 2, 3, 5, 7, 11, 15, 22, 30, 42, 56, 77];
    for (i, e) in expect.iter().enumerate() {
        let n = i as u32 + 1;
        let ps = partitions(n);
        assert_eq!(ps.len(), *e, "p({n})");
        for p in &ps {
            assert_eq!(p.iter().sum::<u32>(), n, "partition of {n}: {p:?}");
            assert!(p.windows(2).all(|w| w[0] >= w[1]), "must be descending");
        }
        let mut d = ps.clone();
        d.sort();
        d.dedup();
        assert_eq!(d.len(), ps.len(), "partitions of {n} must be distinct");
    }
}

/// The `k+1` vertices containing `λ' = {0..k-3}` are `v0` plus the `w_x`,
/// they are pairwise at intersection `k-2`, and `v0` is one of them.
#[test]
fn orbit_branch_targets_are_a_forced_rainbow() {
    for k in [4u32, 6, 8, 10] {
        let c = Combi::new(k).unwrap();
        let lam: u32 = (0..k - 2).fold(0u32, |a, x| a | (1u32 << x));
        assert_eq!(lam.count_ones(), k - 2);
        let containing: Vec<u32> = (0..c.n).filter(|x| lam & (1 << x) == 0).map(|x| lam | (1u32 << x)).collect();
        assert_eq!(containing.len() as u32, k + 1, "k={k}");
        assert!(containing.contains(&c.unrank(0)), "v0 must be one of them");
        for i in 0..containing.len() {
            for j in i + 1..containing.len() {
                assert_eq!((containing[i] & containing[j]).count_ones(), k - 2, "k={k}: pair must meet in k-2 points");
            }
        }
    }
}

#[test]
fn partitions_of_four_in_order() {
    let ps = partitions(4);
    assert_eq!(ps, vec![vec![4], vec![3, 1], vec![2, 2], vec![2, 1, 1], vec![1, 1, 1, 1]]);
    assert_eq!(partitions(0), vec![Vec::<u32>::new()]);
}
