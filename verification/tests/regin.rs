use odd835::solver::matching::filter;

#[test]
fn detects_hall_violator() {
    // three members, three colours, but two members share a single colour
    let doms = [0b001u32, 0b001, 0b110];
    let mut keep = [0u32; 3];
    assert!(!filter(&doms, 3, &mut keep));
}

#[test]
fn identity_is_a_fixpoint() {
    let doms = [0b001u32, 0b010, 0b100];
    let mut keep = [0u32; 3];
    assert!(filter(&doms, 3, &mut keep));
    assert_eq!(keep, doms);
}

#[test]
fn prunes_beyond_counting() {
    // members 0,1 both restricted to {0,1}; member 2 open to {0,1,2}.
    let doms = [0b011u32, 0b011, 0b111];
    let mut keep = [0u32; 3];
    assert!(filter(&doms, 3, &mut keep));
    assert_eq!(keep[0], 0b011);
    assert_eq!(keep[1], 0b011);
    assert_eq!(keep[2], 0b100);
}

#[test]
fn matching_never_removes_a_supported_value() {
    // exhaustive small check: every kept value must extend to a perfect
    // matching, and every removed value must not.
    for bits in 0u32..(1 << 9) {
        let doms = [bits & 7, (bits >> 3) & 7, (bits >> 6) & 7];
        let mut keep = [0u32; 3];
        let ok = filter(&doms, 3, &mut keep);
        let mut brute = [0u32; 3];
        let mut any = false;
        for p in [[0, 1, 2], [0, 2, 1], [1, 0, 2], [1, 2, 0], [2, 0, 1], [2, 1, 0]] {
            if (0..3).all(|i| doms[i] & (1 << p[i]) != 0) {
                any = true;
                for i in 0..3 {
                    brute[i] |= 1 << p[i];
                }
            }
        }
        assert_eq!(ok, any, "doms {doms:?}");
        if ok {
            assert_eq!(keep, brute, "doms {doms:?}");
        }
    }
}
