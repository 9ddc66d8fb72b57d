use pdf_ops::spec::{expand_to_indexes, make_ranges_spec, parse_spec, PageRange, SpecError};

#[test]
fn parse_single_and_ranges() {
    let r = parse_spec("1-3,5,10-").unwrap();
    assert_eq!(r[0], PageRange { start: 1, end: Some(3) });
    assert_eq!(r[1], PageRange { start: 5, end: Some(5) });
    assert_eq!(r[2], PageRange { start: 10, end: None });
}

#[test]
fn expand_clamped_and_sorted() {
    let r = vec![PageRange { start: 2, end: Some(4) }, PageRange { start: 4, end: Some(6) }];
    let idx = expand_to_indexes(&r, 5);
    // pages: 2,3,4,5 (1-based) => 1,2,3,4 (0-based)
    assert_eq!(idx, vec![1, 2, 3, 4]);
}

#[test]
fn support_open_start_and_end() {
    let r = parse_spec("-2,4-").unwrap();
    let idx = expand_to_indexes(&r, 5);
    // -2 => 1..=2 => 0,1 ; 4- => 4..=5 => 3,4
    assert_eq!(idx, vec![0, 1, 3, 4]);
}

#[test]
fn parse_keeps_written_order_and_skips_blanks() {
    let r = parse_spec(" 7 , ,2-3,, ").unwrap();
    assert_eq!(r, vec![PageRange { start: 7, end: Some(7) }, PageRange { start: 2, end: Some(3) }]);
    assert_eq!(parse_spec("").unwrap(), vec![]);
    assert_eq!(parse_spec(" , ").unwrap(), vec![]);
}

#[test]
fn parse_open_start_is_one() {
    assert_eq!(parse_spec("-4").unwrap(), vec![PageRange { start: 1, end: Some(4) }]);
    assert_eq!(parse_spec("3-").unwrap(), vec![PageRange { start: 3, end: None }]);
    assert_eq!(parse_spec("+3").unwrap(), vec![PageRange { start: 3, end: Some(3) }]);
}

#[test]
fn parse_rejects_bad_numbers() {
    assert_eq!(parse_spec("1,x"), Err(SpecError::InvalidNumber("x".to_string())));
    assert_eq!(parse_spec("a-3"), Err(SpecError::InvalidNumber("a".to_string())));
    assert_eq!(parse_spec("1-2-3"), Err(SpecError::InvalidNumber("2-3".to_string())));
    assert_eq!(parse_spec("99999999999999999999999"), Err(SpecError::InvalidNumber("99999999999999999999999".to_string())));
    assert_eq!(parse_spec("-"), Ok(vec![PageRange { start: 1, end: None }]));
}

#[test]
fn parse_rejects_inverted_range() {
    assert_eq!(parse_spec("1,5-3"), Err(SpecError::InvalidSegment("5-3".to_string())));
    assert_eq!(parse_spec(" 5-3 ").unwrap_err().message(), "invalid range segment: 5-3");
    assert_eq!(parse_spec("4-4").unwrap(), vec![PageRange { start: 4, end: Some(4) }]);
}

#[test]
fn expand_with_no_pages_is_empty() {
    let r = vec![PageRange { start: 1, end: None }, PageRange { start: 2, end: Some(3) }];
    assert_eq!(expand_to_indexes(&r, 0), Vec::<usize>::new());
}

#[test]
fn expand_clamps_start_and_skips_empty_ranges() {
    let r = vec![
        PageRange { start: 0, end: Some(1) },
        PageRange { start: 9, end: None },
        PageRange { start: 3, end: Some(3) },
    ];
    assert_eq!(expand_to_indexes(&r, 4), vec![0, 2]);
    assert_eq!(expand_to_indexes(&[], 4), Vec::<usize>::new());
}

#[test]
fn ranges_text_for_fixed_size_groups() {
    assert_eq!(make_ranges_spec(7, 3), "1-3,4-6,7-7");
    assert_eq!(make_ranges_spec(4, 4), "1-4");
    assert_eq!(make_ranges_spec(4, 10), "1-4");
    assert_eq!(make_ranges_spec(0, 3), "");
    assert_eq!(make_ranges_spec(5, 0), "");
    let text = make_ranges_spec(10, 4);
    assert_eq!(
        parse_spec(&text).unwrap(),
        vec![
            PageRange { start: 1, end: Some(4) },
            PageRange { start: 5, end: Some(8) },
            PageRange { start: 9, end: Some(10) },
        ]
    );
}
