use odd835::designs::{known_code, FANO, WITT_S4_5_11};

#[test]
fn shapes_are_right() {
    assert!(FANO.iter().all(|b| b.count_ones() == 3 && *b < 128));
    assert!(WITT_S4_5_11.iter().all(|b| b.count_ones() == 5 && *b < (1 << 11)));
    let mut s: Vec<u32> = WITT_S4_5_11.to_vec();
    s.sort_unstable();
    s.dedup();
    assert_eq!(s.len(), 66, "Witt blocks must be distinct");
}

#[test]
fn fano_is_a_projective_plane() {
    // every pair of points lies on exactly one line
    for a in 0..7u32 {
        for b in a + 1..7u32 {
            let pair = (1 << a) | (1 << b);
            let hits = FANO.iter().filter(|l| *l & pair == pair).count();
            assert_eq!(hits, 1, "pair {a},{b}");
        }
    }
}

#[test]
fn witt_is_an_s4_5_11() {
    // every 4-subset of [11] lies in exactly one block
    for a in 0..11u32 {
        for b in a + 1..11 {
            for c in b + 1..11 {
                for d in c + 1..11 {
                    let q = (1 << a) | (1 << b) | (1 << c) | (1 << d);
                    let hits = WITT_S4_5_11.iter().filter(|bl| *bl & q == q).count();
                    assert_eq!(hits, 1, "quad {a},{b},{c},{d}");
                }
            }
        }
    }
}

#[test]
fn known_codes_are_the_literal_designs() {
    assert_eq!(known_code(4).unwrap(), &FANO[..]);
    assert_eq!(known_code(6).unwrap(), &WITT_S4_5_11[..]);
    assert!(known_code(8).is_none());
    assert!(known_code(2).is_none());
}
