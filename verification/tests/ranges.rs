use strex::parse_range;

#[test]
fn range_reads_both_bounds() {
    assert_eq!(parse_range("6..9"), Ok(6..9));
    assert_eq!(parse_range("0..1"), Ok(0..1));
    assert_eq!(parse_range("+16..+20"), Ok(16..20));
    assert_eq!(parse_range("007..010"), Ok(7..10));
    assert_eq!(parse_range("0..18446744073709551615"), Ok(0..usize::MAX));
}

#[test]
fn range_without_dots_is_refused() {
    assert_eq!(parse_range("69"), Err("range must be in the form start..end".to_string()));
    assert_eq!(parse_range(""), Err("range must be in the form start..end".to_string()));
    assert_eq!(parse_range("6.9"), Err("range must be in the form start..end".to_string()));
}

#[test]
fn range_with_bad_start_is_refused() {
    assert_eq!(parse_range("..9"), Err("invalid start of range".to_string()));
    assert_eq!(parse_range("a..9"), Err("invalid start of range".to_string()));
    assert_eq!(parse_range("-1..9"), Err("invalid start of range".to_string()));
    assert_eq!(parse_range("+..9"), Err("invalid start of range".to_string()));
    assert_eq!(parse_range(" 1..9"), Err("invalid start of range".to_string()));
    assert_eq!(
        parse_range("18446744073709551616..9"),
        Err("invalid start of range".to_string())
    );
}

#[test]
fn range_with_bad_end_is_refused() {
    assert_eq!(parse_range("6.."), Err("invalid end of range".to_string()));
    assert_eq!(parse_range("6..x"), Err("invalid end of range".to_string()));
    assert_eq!(parse_range("6...9"), Err("invalid end of range".to_string()));
    assert_eq!(parse_range("1..2..3"), Err("invalid end of range".to_string()));
    assert_eq!(
        parse_range("6..18446744073709551616"),
        Err("invalid end of range".to_string())
    );
}

#[test]
fn range_that_is_empty_is_refused() {
    assert_eq!(parse_range("9..6"), Err("range start must be < end".to_string()));
    assert_eq!(parse_range("6..6"), Err("range start must be < end".to_string()));
}
