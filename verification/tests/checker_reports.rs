use odd835::check::{check_file, check_witness, CheckError};
use odd835::combi::{Combi, CombiError};
use odd835::designs::FANO;
use odd835::witness::Witness;

#[test]
fn k2_partition_is_valid() {
    let w = Witness::Partition { k: 2, colors: vec![0, 1, 2] };
    let rep = check_witness(&w).unwrap();
    assert_eq!(rep.kind, "partition");
    assert_eq!(rep.items.len(), 6);
    assert!(rep.ok(), "{:?}", rep.items);
}

#[test]
fn a_repeated_colour_breaks_the_rainbow_and_the_codes() {
    let w = Witness::Partition { k: 2, colors: vec![0, 0, 2] };
    let rep = check_witness(&w).unwrap();
    assert!(!rep.ok());
    assert!(rep.items[0].pass);
    assert!(rep.items[1].pass);
    assert!(rep.items[2].pass);
    assert!(!rep.items[3].pass, "{}", rep.items[3].detail);
    assert!(!rep.items[4].pass);
    assert!(!rep.items[5].pass);
}

#[test]
fn out_of_range_colours_are_reported() {
    let w = Witness::Partition { k: 2, colors: vec![0, 7, 2] };
    let rep = check_witness(&w).unwrap();
    assert!(!rep.items[0].pass);
    assert!(rep.items[0].detail.contains("[1]"), "{}", rep.items[0].detail);
    assert!(!rep.ok());
}

#[test]
fn wrong_lengths_and_bad_k_are_errors() {
    let w = Witness::Partition { k: 2, colors: vec![0, 1] };
    assert_eq!(check_witness(&w).unwrap_err(), CheckError::EntryCount { entries: 2, vertices: 3 });
    let w = Witness::Partition { k: 3, colors: vec![0; 10] };
    assert_eq!(check_witness(&w).unwrap_err(), CheckError::Combi(CombiError::Odd { k: 3 }));
}

#[test]
fn the_fano_code_checks_as_a_code() {
    let c = Combi::new(4).unwrap();
    let mut members: Vec<u32> = FANO.iter().map(|b| c.rank(*b)).collect();
    members.sort_unstable();
    let rep = check_witness(&Witness::Code { k: 4, members: members.clone() }).unwrap();
    assert_eq!(rep.kind, "code");
    assert_eq!(rep.items.len(), 4);
    assert!(rep.ok(), "{:?}", rep.items);
    // a duplicate member is malformed, and the check stops there
    let mut dup = members.clone();
    dup[1] = dup[0];
    let rep = check_witness(&Witness::Code { k: 4, members: dup }).unwrap();
    assert_eq!(rep.items.len(), 2);
    assert!(!rep.ok());
    // a member swapped for another vertex no longer covers exactly once
    let mut moved = members.clone();
    moved[0] = (0..35).find(|v| !members.contains(v)).unwrap();
    let rep = check_witness(&Witness::Code { k: 4, members: moved }).unwrap();
    assert_eq!(rep.items.len(), 4);
    assert!(!rep.items[3].pass);
}

#[test]
fn checking_text_holds_the_witness_to_k() {
    let w = Witness::Partition { k: 2, colors: vec![0, 1, 2] };
    let text = w.to_text().unwrap();
    assert!(check_file(&text, Some(2)).unwrap().ok());
    assert!(check_file(&text, None).unwrap().ok());
    assert_eq!(check_file(&text, Some(4)).unwrap_err(), CheckError::WrongK { witness: 2, asked: 4 });
    assert!(matches!(check_file("garbage", None), Err(CheckError::Witness(_))));
}

#[test]
fn rank_and_unrank_are_inverse() {
    for k in [2u32, 4, 6, 8] {
        let c = Combi::new(k).unwrap();
        for i in 0..c.num_vertices as u32 {
            let m = c.unrank(i);
            assert_eq!(m.count_ones(), c.r);
            assert_eq!(c.unrank(c.rank(m)), m);
        }
    }
}

#[test]
fn a_valid_partition_report_has_fixed_details() {
    let w = Witness::Partition { k: 2, colors: vec![0, 1, 2] };
    let rep = check_witness(&w).unwrap();
    let details: Vec<&str> = rep.items.iter().map(|i| i.detail.as_str()).collect();
    assert_eq!(
        details,
        vec![
            "3 vertices, colours in 0..=2",
            "3 distinct (k-1)-subsets of [3]",
            "all degrees = 2",
            "3 closed neighbourhoods are rainbow",
            "all 3 classes have m = 1",
            "all 3 classes are perfect 1-codes",
        ]
    );
}

#[test]
fn failing_partition_items_name_the_first_offenders() {
    let w = Witness::Partition { k: 2, colors: vec![9, 7, 8] };
    let rep = check_witness(&w).unwrap();
    assert_eq!(rep.items[0].detail, "out-of-range colours at vertices [0, 1, 2]");
    assert_eq!(rep.items[4].detail, "sizes [0, 0, 0], expected 1");
}

#[test]
fn a_code_report_has_fixed_details() {
    let c = Combi::new(4).unwrap();
    let mut members: Vec<u32> = FANO.iter().map(|b| c.rank(*b)).collect();
    members.sort_unstable();
    let rep = check_witness(&Witness::Code { k: 4, members: members.clone() }).unwrap();
    assert_eq!(rep.items[0].detail, "7 members, distinct=true, in range=true");
    assert_eq!(rep.items[1].detail, "|S| = 7, expected m = 7");
    assert_eq!(rep.items[2].detail, "every member has 4 neighbours");
    assert_eq!(rep.items[3].detail, "all 35 vertices covered exactly once");
    let short = members[1..].to_vec();
    let rep = check_witness(&Witness::Code { k: 4, members: short }).unwrap();
    assert!(rep.items[3].detail.starts_with("vertex "), "{}", rep.items[3].detail);
    assert!(rep.items[3].detail.ends_with(" covered 0 times"), "{}", rep.items[3].detail);
}

#[test]
fn a_failing_code_item_names_the_first_class_and_vertex() {
    let w = Witness::Partition { k: 2, colors: vec![0, 0, 2] };
    let rep = check_witness(&w).unwrap();
    assert_eq!(rep.items[5].detail, "class 0: vertex 0 is covered 2 times, expected 1");
}

#[test]
fn a_failing_rainbow_item_names_the_first_repeat() {
    let w = Witness::Partition { k: 2, colors: vec![0, 0, 2] };
    let rep = check_witness(&w).unwrap();
    assert_eq!(rep.items[3].detail, "N[0] repeats colour 0 (vertex 1)");
}
