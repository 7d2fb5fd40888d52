use graphs::parse::parse_edge_line;
use graphs::parse::parse_u32;
use graphs::parse::parse_weighted_edge_line;

#[test]
fn parse_u32_reads_digits() {
    assert_eq!(parse_u32(&b"0".to_vec()), Some(0));
    assert_eq!(parse_u32(&b"417".to_vec()), Some(417));
    assert_eq!(parse_u32(&b"4294967295".to_vec()), Some(u32::MAX));
}

#[test]
fn parse_u32_rejects_junk_and_overflow() {
    assert_eq!(parse_u32(&b"".to_vec()), None);
    assert_eq!(parse_u32(&b"12a".to_vec()), None);
    assert_eq!(parse_u32(&b"-3".to_vec()), None);
    assert_eq!(parse_u32(&b"4294967296".to_vec()), None);
    assert_eq!(parse_u32(&b"99999999999999999999".to_vec()), None);
}

#[test]
fn parse_edge_line_splits_on_commas_and_spaces() {
    let e = parse_edge_line("1, 2").expect("line should parse");
    assert_eq!(e.get_source(), 1);
    assert_eq!(e.get_sink(), 2);

    let e = parse_edge_line("10,20").expect("line should parse");
    assert_eq!(e.get_source(), 10);
    assert_eq!(e.get_sink(), 20);

    let e = parse_edge_line("7 8 extra").expect("line should parse");
    assert_eq!(e.get_source(), 7);
    assert_eq!(e.get_sink(), 8);

    assert!(parse_edge_line("").is_none());
    assert!(parse_edge_line("5").is_none());
    assert!(parse_edge_line("a, b").is_none());
}

#[test]
fn parse_weighted_edge_line_reads_three_numbers() {
    let e = parse_weighted_edge_line("1, 2, 3").expect("line should parse");
    assert_eq!(e.get_source(), 1);
    assert_eq!(e.get_sink(), 2);
    assert_eq!(e.get_weight(), 3);

    assert!(parse_weighted_edge_line("1, 2").is_none());
    assert!(parse_weighted_edge_line("1, 2, x").is_none());
}
