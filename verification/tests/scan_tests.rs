use rscan::aggregate::aggregate;
use rscan::expand::Target;
use rscan::outcome::classify;
use rscan::scan::prepare_scan;
use rscan::scheduler::ScanScheduler;

fn strings(items: &[&str]) -> Vec<String> {
    items.iter().map(|s| s.to_string()).collect()
}

#[test]
fn scheduler_respects_the_concurrency_cap() {
    let targets = vec![
        Target { host: "h".to_string(), port: 1 },
        Target { host: "h".to_string(), port: 2 },
        Target { host: "h".to_string(), port: 3 },
    ];
    let mut sched = ScanScheduler::new(targets, 2);

    assert!(sched.can_dispatch());
    let first = sched.dispatch();
    assert_eq!(first.port, 1);
    assert!(sched.can_dispatch());
    let second = sched.dispatch();
    assert_eq!(second.port, 2);
    // Both slots are taken: nothing more may start.
    assert!(!sched.can_dispatch());
    assert_eq!(sched.in_flight, 2);

    // Completion frees a slot; completion order is free, so hand the
    // second probe back first.
    sched.complete(classify(second.host, second.port, false));
    assert!(sched.can_dispatch());
    let third = sched.dispatch();
    assert_eq!(third.port, 3);
    assert!(!sched.can_dispatch());

    sched.complete(classify(first.host, first.port, true));
    sched.complete(classify(third.host, third.port, false));
    assert!(sched.is_done());
    let outcomes = sched.into_outcomes();
    assert_eq!(outcomes.len(), 3);
}

#[test]
fn scheduler_issues_each_target_exactly_once() {
    let targets = vec![
        Target { host: "a".to_string(), port: 1 },
        Target { host: "b".to_string(), port: 2 },
    ];
    let mut sched = ScanScheduler::new(targets, 100);
    let mut seen: Vec<(String, u16)> = Vec::new();
    while !sched.is_done() {
        if sched.can_dispatch() {
            let t = sched.dispatch();
            seen.push((t.host.clone(), t.port));
            sched.complete(classify(t.host, t.port, false));
        }
    }
    assert_eq!(seen, vec![("a".to_string(), 1), ("b".to_string(), 2)]);
}

#[test]
fn prepare_scan_is_all_or_nothing() {
    let r = prepare_scan(&strings(&["h"]), &strings(&["80", "abc", "20-25", "9-1"]));
    assert_eq!(r.unwrap_err(), vec!["abc".to_string(), "9-1".to_string()]);
}

#[test]
fn prepare_scan_expands_the_product() {
    let r = prepare_scan(&strings(&["a", "b"]), &strings(&["1", "2-3"]));
    let targets = r.unwrap();
    let got: Vec<(String, u16)> = targets.iter().map(|t| (t.host.clone(), t.port)).collect();
    assert_eq!(
        got,
        vec![
            ("a".to_string(), 1),
            ("a".to_string(), 2),
            ("a".to_string(), 3),
            ("b".to_string(), 1),
            ("b".to_string(), 2),
            ("b".to_string(), 3),
        ]
    );
}

#[test]
fn full_pipeline_reports_the_listening_ports_sorted() {
    // Host 127.0.0.1, tokens "7" and "8-9", with stub listeners on 8 and 9
    // only: the report holds 8 and 9 in order, and port 7 is absent.
    let targets = prepare_scan(&strings(&["127.0.0.1"]), &strings(&["7", "8-9"])).unwrap();
    assert_eq!(targets.len(), 3);
    let listening = |port: u16| port == 8 || port == 9;

    let mut sched = ScanScheduler::new(targets, 100);
    while !sched.is_done() {
        if sched.can_dispatch() {
            let t = sched.dispatch();
            let connected = listening(t.port);
            sched.complete(classify(t.host, t.port, connected));
        }
    }
    let open = aggregate(&sched.into_outcomes());
    let got: Vec<(String, u16)> = open.iter().map(|t| (t.host.clone(), t.port)).collect();
    assert_eq!(got, vec![("127.0.0.1".to_string(), 8), ("127.0.0.1".to_string(), 9)]);
}

#[test]
fn identical_inputs_give_identical_reports() {
    let run = || {
        let targets = prepare_scan(&strings(&["a", "b"]), &strings(&["1-3"])).unwrap();
        let listening = |port: u16| port != 2;
        let mut sched = ScanScheduler::new(targets, 2);
        let mut outcomes = Vec::new();
        while !sched.is_done() {
            if sched.can_dispatch() {
                let t = sched.dispatch();
                let connected = listening(t.port);
                outcomes.push(classify(t.host, t.port, connected));
                sched.complete(outcomes.last().unwrap().clone());
            }
        }
        let open = aggregate(&outcomes);
        open.iter().map(|t| (t.host.clone(), t.port)).collect::<Vec<_>>()
    };
    assert_eq!(run(), run());
}
