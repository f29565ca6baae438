use graph_stats::parse::{parse_edge_line, EdgeLine};

#[test]
fn parses_two_identifiers() {
    assert_eq!(parse_edge_line(b"236 186"), EdgeLine::Edge(236, 186));
    assert_eq!(parse_edge_line(b"  12\t34  \r\n"), EdgeLine::Edge(12, 34));
}

#[test]
fn ignores_tokens_after_the_second() {
    assert_eq!(parse_edge_line(b"1 2 extra"), EdgeLine::Edge(1, 2));
}

#[test]
fn blank_lines_are_blank() {
    assert_eq!(parse_edge_line(b""), EdgeLine::Blank);
    assert_eq!(parse_edge_line(b" \t \n"), EdgeLine::Blank);
}

#[test]
fn missing_second_token_is_malformed() {
    assert_eq!(parse_edge_line(b"42"), EdgeLine::Malformed);
    assert_eq!(parse_edge_line(b"42   "), EdgeLine::Malformed);
}

#[test]
fn non_numeric_token_is_malformed() {
    assert_eq!(parse_edge_line(b"4x 2"), EdgeLine::Malformed);
    assert_eq!(parse_edge_line(b"4 -2"), EdgeLine::Malformed);
    assert_eq!(parse_edge_line(b"a b"), EdgeLine::Malformed);
}

#[test]
fn largest_identifier_fits_and_one_more_does_not() {
    assert_eq!(
        parse_edge_line(b"18446744073709551615 0"),
        EdgeLine::Edge(u64::MAX, 0)
    );
    assert_eq!(parse_edge_line(b"18446744073709551616 0"), EdgeLine::Malformed);
    assert_eq!(parse_edge_line(b"0 99999999999999999999"), EdgeLine::Malformed);
}

#[test]
fn leading_zeros_are_read() {
    assert_eq!(parse_edge_line(b"007 010"), EdgeLine::Edge(7, 10));
}
