use gol_rs::pattern::Pattern;
use gol_rs::rle::{decode_rle_body, export_rle, parse_rle, RleErrorKind, MAX_RLE_INPUT_BYTES};
use gol_rs::rule::Rule;

#[test]
fn parses_comments_whitespace_runs_and_rule() {
    let input = "#N Glider\r\nx = 3, y = 3, rule = B3/S23\r\nbob$2bo$3o!\r\n";
    let pattern = parse_rle(input).unwrap();
    assert_eq!((pattern.width(), pattern.height()), (3, 3));
    assert_eq!(pattern.population(), 5);
    assert_eq!(pattern.rule(), Some(Rule::conway()));
}

#[test]
fn accepts_empty_pattern() {
    let pattern = parse_rle("x = 2, y = 2\n!").unwrap();
    assert_eq!(pattern.population(), 0);
}

#[test]
fn parses_dense_runs_directly_into_pattern_storage() {
    let pattern = parse_rle("x = 100000, y = 1\n100000o!").unwrap();
    assert_eq!(pattern.population(), 100_000);
}

#[test]
fn round_trip_preserves_shape_and_rule() {
    let original = parse_rle("x = 5, y = 4, rule = B36/S23\n2bo$3o2$bo!").unwrap();
    let decoded = parse_rle(&export_rle(&original)).unwrap();
    assert_eq!(decoded, original);
}

#[test]
fn rejects_malformed_or_out_of_bounds_bodies() {
    for bad in [
        "x = 3, y = 3\n3o",
        "x = 3, y = 3\n0o!",
        "x = 3, y = 3\n4o!",
        "x = 3, y = 3\n4$o!",
        "x = 3, y = 3\n3o!junk",
        "x = 3, y = 3\n999999999999999999999999o!",
    ] {
        assert!(parse_rle(bad).is_err(), "accepted {bad:?}");
    }
}

#[test]
fn rejects_bad_headers_and_large_allocations() {
    assert!(parse_rle("y = 3\n!").is_err());
    assert!(parse_rle("x = 3, y = 3, x = 2\n!").is_err());
    assert!(parse_rle("x = 5000, y = 5000\n!").is_err());
}

#[test]
fn rejects_encoded_input_over_byte_limit() {
    let input = " ".repeat(MAX_RLE_INPUT_BYTES + 1);
    assert!(parse_rle(&input).is_err());
}

#[test]
fn rejects_row_advance_past_declared_final_row() {
    assert!(parse_rle("x = 3, y = 3\n3o3$!").is_err());
}

#[test]
fn export_writes_header_and_runs() {
    let p = Pattern::from_live_cells(3, 1, &[(0, 0), (1, 0), (2, 0)]).unwrap();
    assert_eq!(export_rle(&p), "x = 3, y = 1\n3o!\n");
    let p = p.with_rule(Rule::highlife());
    assert_eq!(export_rle(&p), "x = 3, y = 1, rule = B36/S23\n3o!\n");
}

#[test]
fn error_kinds_and_messages() {
    let e = parse_rle("x = 3, y = 3\n3o").unwrap_err();
    assert_eq!(e.kind(), RleErrorKind::MissingTerminator);
    assert!(e.to_string().starts_with("invalid RLE: "));
    assert!(parse_rle("y = 3\n!").is_err());
}

#[test]
fn export_round_trip_keeps_a_b2_s0_rule() {
    let p = parse_rle("x = 3, y = 2, rule = B2/S0\nobo$bo!").unwrap();
    assert_eq!(p.rule(), Some(Rule { birth: 4, survive: 1 }));
    let text = export_rle(&p);
    assert!(text.starts_with("x = 3, y = 2, rule = B2/S0\n"));
    assert_eq!(parse_rle(&text).unwrap(), p);
}

#[test]
fn decoding_a_body_onto_its_blank_pattern() {
    let blank = Pattern::from_live_cells(3, 2, &[]).unwrap();
    let body: Vec<char> = "bo$3o!".chars().collect();
    let p = decode_rle_body(blank.clone(), &body, Some(Rule::conway())).unwrap();
    assert_eq!(p.rule(), Some(Rule::conway()));
    assert_eq!(p.get(1, 0), Some(true));
    assert_eq!(p.get(0, 0), Some(false));
    assert_eq!(p.get(2, 1), Some(true));
    let empty: Vec<char> = Vec::new();
    let e = decode_rle_body(blank.clone(), &empty, None).unwrap_err();
    assert_eq!(e.kind(), RleErrorKind::MissingBody);
    let wide: Vec<char> = "4o!".chars().collect();
    assert!(matches!(
        decode_rle_body(blank, &wide, None).unwrap_err().kind(),
        RleErrorKind::BeyondWidth { position: 1, end: 4, width: 3 }
    ));
}
