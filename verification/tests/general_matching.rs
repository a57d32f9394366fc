use odd835::s45::blossom::Blossom;

fn pm(n: usize, edges: &[(usize, usize)]) -> bool {
    let mut b = Blossom::new();
    b.reset(n);
    for &(x, y) in edges {
        b.add_edge(x, y);
    }
    b.has_perfect_matching()
}

#[test]
fn trivial_cases() {
    assert!(pm(0, &[]));
    assert!(!pm(2, &[]));
    assert!(pm(2, &[(0, 1)]));
    assert!(!pm(3, &[(0, 1), (1, 2), (0, 2)]), "odd order has no perfect matching");
}

#[test]
fn needs_blossom_contraction() {
    // Two triangles joined by a bridge: 0-1-2-0, 3-4-5-3, bridge 2-3.
    let e = [(0, 1), (1, 2), (0, 2), (3, 4), (4, 5), (3, 5), (2, 3)];
    assert!(pm(6, &e));
    // remove the bridge -> two odd components, impossible
    let e2 = [(0, 1), (1, 2), (0, 2), (3, 4), (4, 5), (3, 5)];
    assert!(!pm(6, &e2));
}

#[test]
fn tutte_violation_is_detected() {
    // star K_{1,3} plus pendant: vertex 0 joined to 1,2,3; 4,5 joined.
    assert!(!pm(6, &[(0, 1), (0, 2), (0, 3), (4, 5)]));
}

#[test]
fn complete_even_graphs_always_match() {
    for n in [2usize, 4, 6, 8, 10, 12, 16, 18] {
        let mut e = Vec::new();
        for a in 0..n {
            for b in a + 1..n {
                e.push((a, b));
            }
        }
        assert!(pm(n, &e), "K_{n} must have a perfect matching");
    }
}

fn brute(n: usize, adj: &[u32]) -> bool {
    fn go(rem: u32, adj: &[u32]) -> bool {
        if rem == 0 {
            return true;
        }
        let u = rem.trailing_zeros() as usize;
        let mut cand = adj[u] & rem & !(1 << u);
        while cand != 0 {
            let w = cand.trailing_zeros();
            cand &= cand - 1;
            if go(rem & !(1 << u) & !(1 << w), adj) {
                return true;
            }
        }
        false
    }
    go((1u32 << n) - 1, adj)
}

/// Cross-check blossom against exhaustive search on random small graphs.
#[test]
fn agrees_with_brute_force() {
    let mut state = 0x243F6A8885A308D3u64;
    let mut next = || {
        state ^= state << 13;
        state ^= state >> 7;
        state ^= state << 17;
        state
    };
    for n in [4usize, 6, 8, 10] {
        for _ in 0..300 {
            let mut adj = vec![0u32; n];
            let mut edges = Vec::new();
            for a in 0..n {
                for b in a + 1..n {
                    if next() % 100 < 45 {
                        adj[a] |= 1 << b;
                        adj[b] |= 1 << a;
                        edges.push((a, b));
                    }
                }
            }
            assert_eq!(pm(n, &edges), brute(n, &adj), "disagreement on n={n} edges={edges:?}");
        }
    }
}

#[test]
fn the_matching_found_is_a_matching_on_edges() {
    let mut b = Blossom::new();
    b.reset(6);
    let e = [(0, 1), (1, 2), (0, 2), (3, 4), (4, 5), (3, 5), (2, 3)];
    let mut adj = [0u32; 6];
    for &(x, y) in &e {
        b.add_edge(x, y);
        adj[x] |= 1 << y;
        adj[y] |= 1 << x;
    }
    assert_eq!(b.max_matching(), 3);
    for v in 0..6 {
        let m = b.mate_of(v);
        assert!(m >= 0);
        assert_eq!(b.mate_of(m as usize), v as i32);
        assert!(adj[v] & (1 << m) != 0);
    }
}
