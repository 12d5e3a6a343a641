use traefik_log_monitor::control::{parse_top_n, DEFAULT_TOP_N, MAX_TOP_N, MIN_TOP_N};

#[test]
fn numbers_within_bounds_are_taken() {
    assert_eq!(parse_top_n("1"), Some(1));
    assert_eq!(parse_top_n("10"), Some(10));
    assert_eq!(parse_top_n("100"), Some(100));
    assert_eq!(parse_top_n("  25 \n"), Some(25));
    assert_eq!(parse_top_n("+7"), Some(7));
    assert_eq!(parse_top_n("007"), Some(7));
}

#[test]
fn numbers_out_of_bounds_are_ignored() {
    assert_eq!(parse_top_n("0"), None);
    assert_eq!(parse_top_n("101"), None);
    assert_eq!(parse_top_n("1000"), None);
    assert_eq!(parse_top_n("99999999999999999999999999999999"), None);
}

#[test]
fn other_input_is_ignored() {
    assert_eq!(parse_top_n(""), None);
    assert_eq!(parse_top_n("   "), None);
    assert_eq!(parse_top_n("+"), None);
    assert_eq!(parse_top_n("-5"), None);
    assert_eq!(parse_top_n("++5"), None);
    assert_eq!(parse_top_n("5+"), None);
    assert_eq!(parse_top_n("1 0"), None);
    assert_eq!(parse_top_n("ten"), None);
    assert_eq!(parse_top_n("1.0"), None);
    assert_eq!(parse_top_n("٣"), None);
}

#[test]
fn agrees_with_the_standard_parser_on_every_small_numeral() {
    for n in 0..=1200usize {
        for text in [format!("{}", n), format!("+{}", n), format!(" 0{}\t", n)] {
            let expected = match text.trim().parse::<usize>() {
                Ok(v) if v >= MIN_TOP_N && v <= MAX_TOP_N => Some(v),
                _ => None,
            };
            assert_eq!(parse_top_n(&text), expected);
        }
    }
}

#[test]
fn the_default_is_within_bounds() {
    assert!(MIN_TOP_N <= DEFAULT_TOP_N && DEFAULT_TOP_N <= MAX_TOP_N);
    assert_eq!(DEFAULT_TOP_N, 10);
}
