use rscan::parse::{parse_port, parse_ports, validate_concurrency, validate_timeout, PortArg};

#[test]
fn parse_single() {
    assert_eq!(parse_port("80"), Ok(PortArg::Single(80)));
}

#[test]
fn parse_range_with_equal_bounds_collapses() {
    assert_eq!(parse_port("80-80"), Ok(PortArg::Single(80)));
}

#[test]
fn parse_range() {
    assert_eq!(parse_port("20-25"), Ok(PortArg::Range(20, 25)));
}

#[test]
fn parse_reversed_range_fails() {
    assert_eq!(parse_port("25-20"), Err("25-20".to_string()));
}

#[test]
fn parse_alphabetic_fails() {
    assert_eq!(parse_port("abc"), Err("abc".to_string()));
}

#[test]
fn parse_two_dashes_fails() {
    assert_eq!(parse_port("1-2-3"), Err("1-2-3".to_string()));
}

#[test]
fn parse_empty_fails() {
    assert_eq!(parse_port(""), Err("".to_string()));
}

#[test]
fn parse_missing_range_part_fails() {
    assert_eq!(parse_port("5-"), Err("5-".to_string()));
    assert_eq!(parse_port("-5"), Err("-5".to_string()));
    assert_eq!(parse_port("-"), Err("-".to_string()));
}

#[test]
fn parse_port_bounds() {
    assert_eq!(parse_port("0"), Ok(PortArg::Single(0)));
    assert_eq!(parse_port("65535"), Ok(PortArg::Single(65535)));
    assert_eq!(parse_port("65536"), Err("65536".to_string()));
    assert_eq!(parse_port("99999999999999999999"), Err("99999999999999999999".to_string()));
}

#[test]
fn parse_leading_zeros_and_plus() {
    // `str::parse::<u16>` accepts both, so the scanner does too.
    assert_eq!(parse_port("007"), Ok(PortArg::Single(7)));
    assert_eq!(parse_port("+80"), Ok(PortArg::Single(80)));
    assert_eq!(parse_port("+"), Err("+".to_string()));
}

#[test]
fn parse_ports_partitions_in_order() {
    let (specs, errors) = parse_ports(vec!["80", "abc", "20-25"]);
    assert_eq!(specs, vec![PortArg::Single(80), PortArg::Range(20, 25)]);
    assert_eq!(errors, vec!["abc".to_string()]);
}

#[test]
fn parse_ports_all_good() {
    let (specs, errors) = parse_ports(vec!["1", "2-4"]);
    assert_eq!(specs, vec![PortArg::Single(1), PortArg::Range(2, 4)]);
    assert!(errors.is_empty());
}

#[test]
fn parse_ports_all_bad() {
    let (specs, errors) = parse_ports(vec!["x", "9-1"]);
    assert!(specs.is_empty());
    assert_eq!(errors, vec!["x".to_string(), "9-1".to_string()]);
}

#[test]
fn validate_concurrency_accepts_positive_integers() {
    assert!(validate_concurrency("100".to_string()).is_ok());
    assert!(validate_concurrency("1".to_string()).is_ok());
    assert_eq!(validate_concurrency("0".to_string()), Err("0".to_string()));
    assert_eq!(validate_concurrency("abc".to_string()), Err("abc".to_string()));
    assert_eq!(validate_concurrency("-1".to_string()), Err("-1".to_string()));
}

#[test]
fn validate_timeout_accepts_positive_integers() {
    assert!(validate_timeout("1000".to_string()).is_ok());
    assert!(validate_timeout("1".to_string()).is_ok());
    assert_eq!(validate_timeout("0".to_string()), Err("0".to_string()));
    assert_eq!(validate_timeout("1.5".to_string()), Err("1.5".to_string()));
    assert_eq!(
        validate_timeout("99999999999999999999999".to_string()),
        Err("99999999999999999999999".to_string())
    );
}
