use odd835::s45::verify::{read_blocks, verify};

/// The Witt design S(4,5,11) as point lists.
const WITT: [[u32; 5]; 66] = [
    [0, 1, 2, 3, 9], [0, 1, 2, 4, 7], [0, 1, 2, 5, 6], [0, 1, 2, 8, 10],
    [0, 1, 3, 4, 8], [0, 1, 3, 5, 7], [0, 1, 3, 6, 10], [0, 1, 4, 5, 10],
    [0, 1, 4, 6, 9], [0, 1, 5, 8, 9], [0, 1, 6, 7, 8], [0, 1, 7, 9, 10],
    [0, 2, 3, 4, 5], [0, 2, 3, 6, 8], [0, 2, 3, 7, 10], [0, 2, 4, 6, 10],
    [0, 2, 4, 8, 9], [0, 2, 5, 7, 8], [0, 2, 5, 9, 10], [0, 2, 6, 7, 9],
    [0, 3, 4, 6, 7], [0, 3, 4, 9, 10], [0, 3, 5, 6, 9], [0, 3, 5, 8, 10],
    [0, 3, 7, 8, 9], [0, 4, 5, 6, 8], [0, 4, 5, 7, 9], [0, 4, 7, 8, 10],
    [0, 5, 6, 7, 10], [0, 6, 8, 9, 10], [1, 2, 3, 4, 10], [1, 2, 3, 5, 8],
    [1, 2, 3, 6, 7], [1, 2, 4, 5, 9], [1, 2, 4, 6, 8], [1, 2, 5, 7, 10],
    [1, 2, 6, 9, 10], [1, 2, 7, 8, 9], [1, 3, 4, 5, 6], [1, 3, 4, 7, 9],
    [1, 3, 5, 9, 10], [1, 3, 6, 8, 9], [1, 3, 7, 8, 10], [1, 4, 5, 7, 8],
    [1, 4, 6, 7, 10], [1, 4, 8, 9, 10], [1, 5, 6, 7, 9], [1, 5, 6, 8, 10],
    [2, 3, 4, 6, 9], [2, 3, 4, 7, 8], [2, 3, 5, 6, 10], [2, 3, 5, 7, 9],
    [2, 3, 8, 9, 10], [2, 4, 5, 6, 7], [2, 4, 5, 8, 10], [2, 4, 7, 9, 10],
    [2, 5, 6, 8, 9], [2, 6, 7, 8, 10], [3, 4, 5, 7, 10], [3, 4, 5, 8, 9],
    [3, 4, 6, 8, 10], [3, 5, 6, 7, 8], [3, 6, 7, 9, 10], [4, 5, 6, 9, 10],
    [4, 6, 7, 8, 9], [5, 7, 8, 9, 10],
];

fn witt_masks() -> Vec<u32> {
    WITT.iter().map(|b| b.iter().fold(0u32, |a, &x| a | (1 << x))).collect()
}

#[test]
fn accepts_the_witt_design() {
    let msg = verify(11, &witt_masks()).expect("Witt must verify");
    assert!(msg.contains("valid S(4,5,11)"), "{msg}");
}

#[test]
fn rejects_a_perturbed_design() {
    let mut b = witt_masks();
    // swap a point in one block: still 5 points, still distinct blocks,
    // but the covering breaks
    b[0] = (b[0] & !(1 << 9)) | (1 << 10);
    assert!(verify(11, &b).is_err(), "a perturbed design must be rejected");
}

#[test]
fn rejects_wrong_block_count() {
    let mut b = witt_masks();
    b.pop();
    assert!(verify(11, &b).is_err());
}

#[test]
fn rejects_duplicates() {
    let mut b = witt_masks();
    b[1] = b[0];
    assert!(verify(11, &b).is_err());
}

#[test]
fn rejects_a_block_of_the_wrong_size() {
    let mut b = witt_masks();
    b[3] |= 1 << 3;
    let err = verify(11, &b).unwrap_err();
    assert!(err.contains("points, expected 5"), "{err}");
}

#[test]
fn the_empty_design_on_four_points_fails_the_count() {
    // C(4,4) = 1 is not a multiple of 5: no design, and no blocks given
    assert!(verify(4, &[]).is_err());
}

#[test]
fn the_success_message_is_exact() {
    let msg = verify(11, &witt_masks()).unwrap();
    assert_eq!(msg, "valid S(4,5,11): 66 blocks, all 330 4-subsets covered exactly once");
}

#[test]
fn a_point_outside_the_ground_set_is_refused() {
    let err = verify(5, &[0x3F]).unwrap_err();
    assert_eq!(err, "block 0x3f has a point outside [0,5)");
}

#[test]
fn block_files_are_read_line_by_line() {
    assert_eq!(read_blocks("0 1 2 3 4\n\n  5 6 7 8 9 \r\n").unwrap(), vec![0x1f, 0x3e0]);
    assert_eq!(read_blocks("").unwrap(), Vec::<u32>::new());
    assert_eq!(read_blocks("0 1\n2 x\n").unwrap_err(), "invalid digit found in string");
    assert_eq!(read_blocks("0 40\n").unwrap_err(), "point 40 out of range");
    assert_eq!(read_blocks("99999999999\n").unwrap_err(), "number too large to fit in target type");
}
