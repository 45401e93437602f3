use rscan::aggregate::aggregate;
use rscan::expand::Target;
use rscan::order::str_le;
use rscan::outcome::{classify, PortResult};

fn pairs(ts: &[Target]) -> Vec<(String, u16)> {
    ts.iter().map(|t| (t.host.clone(), t.port)).collect()
}

#[test]
fn is_open_distinguishes_the_variants() {
    assert!(PortResult::Open("h".to_string(), 1).is_open());
    assert!(!PortResult::Closed("h".to_string(), 1).is_open());
}

#[test]
fn classify_maps_connection_outcomes() {
    assert_eq!(classify("h".to_string(), 8, true).is_open(), true);
    assert_eq!(classify("h".to_string(), 8, false).is_open(), false);
}

#[test]
fn aggregate_filters_and_sorts_by_port() {
    let outcomes = vec![
        PortResult::Open("127.0.0.1".to_string(), 9),
        PortResult::Closed("127.0.0.1".to_string(), 7),
        PortResult::Open("127.0.0.1".to_string(), 8),
    ];
    let open = aggregate(&outcomes);
    assert_eq!(pairs(&open), vec![("127.0.0.1".to_string(), 8), ("127.0.0.1".to_string(), 9)]);
}

#[test]
fn aggregate_orders_hosts_before_ports() {
    let outcomes = vec![
        PortResult::Open("beta".to_string(), 1),
        PortResult::Open("alpha".to_string(), 9),
        PortResult::Open("alpha".to_string(), 2),
    ];
    let open = aggregate(&outcomes);
    assert_eq!(
        pairs(&open),
        vec![("alpha".to_string(), 2), ("alpha".to_string(), 9), ("beta".to_string(), 1)]
    );
}

#[test]
fn aggregate_keeps_duplicate_pairs() {
    let outcomes = vec![
        PortResult::Open("h".to_string(), 5),
        PortResult::Open("h".to_string(), 5),
    ];
    let open = aggregate(&outcomes);
    assert_eq!(pairs(&open), vec![("h".to_string(), 5), ("h".to_string(), 5)]);
}

#[test]
fn aggregate_of_no_open_outcomes_is_empty() {
    let outcomes = vec![PortResult::Closed("h".to_string(), 5)];
    assert!(aggregate(&outcomes).is_empty());
}

#[test]
fn aggregate_ignores_completion_order() {
    let one = vec![
        PortResult::Open("a".to_string(), 2),
        PortResult::Closed("b".to_string(), 3),
        PortResult::Open("a".to_string(), 1),
    ];
    let other = vec![
        PortResult::Open("a".to_string(), 1),
        PortResult::Open("a".to_string(), 2),
        PortResult::Closed("b".to_string(), 3),
    ];
    assert_eq!(pairs(&aggregate(&one)), pairs(&aggregate(&other)));
}

#[test]
fn str_le_is_lexicographic() {
    assert!(str_le("alpha", "beta"));
    assert!(!str_le("beta", "alpha"));
    assert!(str_le("alp", "alpha"));
    assert!(!str_le("alpha", "alp"));
    assert!(str_le("same", "same"));
    assert!(str_le("", "a"));
}
