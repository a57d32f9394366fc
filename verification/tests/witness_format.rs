use odd835::witness::{num_vertices, Witness, WitnessError};

#[test]
fn vertex_count_agrees_with_binomials() {
    assert_eq!(num_vertices(2), 3);
    assert_eq!(num_vertices(4), 35);
    assert_eq!(num_vertices(6), 462);
    assert_eq!(num_vertices(16), 300_540_195);
}

#[test]
fn partition_round_trip() {
    let w = Witness::Partition { k: 4, colors: (0..35u32).map(|i| (i % 5) as u8).collect() };
    let text = w.to_text().unwrap();
    assert_eq!(Witness::from_text(&text).unwrap(), w);
}

#[test]
fn code_round_trip() {
    let w = Witness::Code { k: 4, members: vec![0, 3, 9, 17, 22, 30, 34] };
    let text = w.to_text().unwrap();
    assert_eq!(Witness::from_text(&text).unwrap(), w);
}

#[test]
fn rendering_is_exact() {
    let w = Witness::Code { k: 2, members: vec![1] };
    assert_eq!(w.to_text().unwrap(), "odd835-witness 1\nkind code\nk 2\nn 3\nvertices 3\nm 1\ndata\n1\n");
    let p = Witness::Partition { k: 2, colors: vec![0, 1, 2] };
    assert_eq!(
        p.to_text().unwrap(),
        "odd835-witness 1\nkind partition\nk 2\nn 3\nvertices 3\ncolors 3\nm 1\ndata\n012\n"
    );
    let big = Witness::Partition { k: 2, colors: vec![36, 0, 0] };
    assert_eq!(big.to_text(), Err(WitnessError::ColourTooLarge { colour: 36 }));
}

#[test]
fn long_partitions_wrap_at_72_columns() {
    let w = Witness::Partition { k: 6, colors: (0..462u32).map(|i| (i % 7) as u8).collect() };
    let text = w.to_text().unwrap();
    let data: Vec<&str> = text.split("data\n").nth(1).unwrap().lines().collect();
    assert_eq!(data.len(), 7);
    assert!(data[..6].iter().all(|l| l.len() == 72));
    assert_eq!(data[6].len(), 462 - 6 * 72);
    assert_eq!(Witness::from_text(&text).unwrap(), w);
}

#[test]
fn parse_errors_are_specific() {
    assert_eq!(Witness::from_text(""), Err(WitnessError::NotAWitness));
    assert_eq!(Witness::from_text("odd835-witness x\n"), Err(WitnessError::BadVersion));
    assert_eq!(Witness::from_text("odd835-witness 2\n"), Err(WitnessError::UnsupportedVersion { version: 2 }));
    assert_eq!(Witness::from_text("odd835-witness 1\nk 4\n"), Err(WitnessError::NoDataMarker));
    assert_eq!(Witness::from_text("odd835-witness 1\nk four\ndata\n"), Err(WitnessError::BadHeaderValue));
    assert_eq!(Witness::from_text("odd835-witness 1\ncolour 5\ndata\n"), Err(WitnessError::UnknownHeaderKey));
    assert_eq!(Witness::from_text("odd835-witness 1\nk 17\ndata\n"), Err(WitnessError::KOutOfRange { k: 17 }));
    assert_eq!(
        Witness::from_text("odd835-witness 1\nk 3\ndata\n"),
        Err(WitnessError::VertexCount { declared: 0, expected: 10 })
    );
    assert_eq!(
        Witness::from_text("odd835-witness 1\nk 4\nvertices 30\ndata\n"),
        Err(WitnessError::VertexCount { declared: 30, expected: 35 })
    );
    assert_eq!(
        Witness::from_text("odd835-witness 1\nkind partition\nk 2\nvertices 3\ncolors 4\ndata\n012\n"),
        Err(WitnessError::ColourCount { colors: Some(4), wanted: 3 })
    );
    assert_eq!(
        Witness::from_text("odd835-witness 1\nkind partition\nk 2\nvertices 3\ncolors 3\ndata\n0A2\n"),
        Err(WitnessError::BadPayloadChar { ch: 'A' })
    );
    assert_eq!(
        Witness::from_text("odd835-witness 1\nkind partition\nk 2\nvertices 3\ncolors 3\ndata\n01\n"),
        Err(WitnessError::PayloadLength { found: 2, expected: 3 })
    );
    assert_eq!(
        Witness::from_text("odd835-witness 1\nkind code\nk 2\nvertices 3\ndata\n1\nx\n"),
        Err(WitnessError::BadVertexIndex)
    );
    assert_eq!(
        Witness::from_text("odd835-witness 1\nkind code\nk 2\nvertices 3\nm 2\ndata\n1\n"),
        Err(WitnessError::MemberCount { declared: 2, found: 1 })
    );
    assert_eq!(Witness::from_text("odd835-witness 1\nkind set\nk 2\nvertices 3\ndata\n"), Err(WitnessError::UnknownKind));
}

#[test]
fn whitespace_and_blank_lines_are_tolerated() {
    let text = "  odd835-witness   1  \r\nkind code\n\n k 2 \nn 3\nvertices +3\ndata\n\n 2 \n\n";
    assert_eq!(Witness::from_text(text).unwrap(), Witness::Code { k: 2, members: vec![2] });
}
