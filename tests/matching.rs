use exporter_health::{match_metrics, Check, CheckContext, CheckType, HealthCheckError};

fn context(now: f64, stale_threshold: f64) -> CheckContext {
    CheckContext::new(
        now.to_bits(),
        stale_threshold.to_bits(),
        (now - stale_threshold).to_bits(),
    )
}

fn up_and_now() -> Vec<Check> {
    vec![
        Check { name: "up".to_string(), check_type: CheckType::Up },
        Check { name: "now".to_string(), check_type: CheckType::Fresh },
    ]
}

#[test]
fn it_matches_metrics() {
    let context = context(100.0, 10.0);
    let checks = up_and_now();
    assert!(match_metrics(context, &checks, "up 1\nnow 100").is_ok());
    assert!(match_metrics(context, &checks, "up 1\nnow 100\n\n").is_ok());
    assert!(match_metrics(context, &checks, "extra 0\nup 1\nnow 100").is_ok());
    assert!(match_metrics(context, &checks, "up 2\nnow 100").is_ok());
    assert!(match_metrics(context, &checks, "up 1\nnow 95").is_ok());

    assert!(match_metrics(context, &checks, "up 0\nnow 100").is_err());
    assert!(match_metrics(context, &checks, "up 1\nnow 80").is_err());
    assert!(match_metrics(context, &checks, "missingup 1\nnow 100").is_err());
    assert!(match_metrics(context, &checks, "up 1\nmissingnow 100").is_err());
    assert!(match_metrics(context, &checks, "").is_err());
}

#[test]
fn failing_sample_is_reported_with_its_failed_checks() {
    let checks = up_and_now();
    match match_metrics(context(100.0, 10.0), &checks, "up 1\nnow 80\nup 0") {
        Err(HealthCheckError::Unsatisfied { name, value, failed }) => {
            assert_eq!(name, "now");
            assert_eq!(f64::from_bits(value), 80.0);
            assert_eq!(failed, vec![Check { name: "now".to_string(), check_type: CheckType::Fresh }]);
        }
        other => panic!("unexpected {:?}", other),
    }
}

#[test]
fn every_failing_check_on_a_name_is_listed_in_order() {
    let checks = vec![
        Check { name: "x".to_string(), check_type: CheckType::Fresh },
        Check { name: "y".to_string(), check_type: CheckType::Up },
        Check { name: "x".to_string(), check_type: CheckType::Up },
    ];
    match match_metrics(context(100.0, 10.0), &checks, "y 1\nx 0.5") {
        Err(HealthCheckError::Unsatisfied { name, failed, .. }) => {
            assert_eq!(name, "x");
            assert_eq!(failed.len(), 2);
            assert_eq!(failed[0].check_type, CheckType::Fresh);
            assert_eq!(failed[1].check_type, CheckType::Up);
        }
        other => panic!("unexpected {:?}", other),
    }
}

#[test]
fn missing_names_are_listed_once() {
    let checks = vec![
        Check { name: "b".to_string(), check_type: CheckType::Up },
        Check { name: "a".to_string(), check_type: CheckType::Up },
        Check { name: "b".to_string(), check_type: CheckType::Fresh },
    ];
    match match_metrics(context(100.0, 10.0), &checks, "c 1") {
        Err(HealthCheckError::Missing { names }) => {
            assert_eq!(names, vec!["a".to_string(), "b".to_string()]);
        }
        other => panic!("unexpected {:?}", other),
    }
}

#[test]
fn empty_body_and_no_checks_pass() {
    assert!(match_metrics(context(100.0, 10.0), &[], "").is_ok());
}

#[test]
fn comments_and_malformed_lines_are_skipped() {
    let checks = up_and_now();
    let ctx = context(100.0, 10.0);
    assert!(match_metrics(ctx, &checks, "# up 0\nup 1\nnow 100").is_ok());
    assert!(match_metrics(ctx, &checks, "up 1\nbad line here\nnow 100").is_ok());
    assert!(match_metrics(ctx, &checks, "up 1\r\nnow 100\r\n").is_ok());
    assert!(match_metrics(ctx, &checks, "# HELP up\nup 1\n# TYPE now gauge\nnow 100\n").is_ok());
    assert!(match_metrics(ctx, &checks, "up 0 x\nup 1\nnow 100").is_ok());
}

#[test]
fn runs_on_the_same_input_agree() {
    let checks = up_and_now();
    let ctx = context(100.0, 10.0);
    for body in ["up 1\nnow 100", "up 0\nnow 100", "now 100"] {
        let a = format!("{:?}", match_metrics(ctx, &checks, body));
        let b = format!("{:?}", match_metrics(ctx, &checks, body));
        assert_eq!(a, b);
    }
}

#[test]
fn other_errors_carry_their_message() {
    match exporter_health::string_error("no url".to_string()) {
        HealthCheckError::Other(m) => assert_eq!(m, "no url"),
        other => panic!("unexpected {:?}", other),
    }
}

#[test]
fn missing_names_come_sorted() {
    let checks = vec![
        Check { name: "zeta".to_string(), check_type: CheckType::Up },
        Check { name: "alpha_2".to_string(), check_type: CheckType::Fresh },
        Check { name: "alpha".to_string(), check_type: CheckType::Up },
        Check { name: "Beta".to_string(), check_type: CheckType::Up },
        Check { name: "mid".to_string(), check_type: CheckType::Up },
    ];
    match match_metrics(context(100.0, 10.0), &checks, "mid 1") {
        Err(HealthCheckError::Missing { names }) => {
            assert_eq!(names, vec!["Beta", "alpha", "alpha_2", "zeta"]);
        }
        other => panic!("unexpected {:?}", other),
    }
}

#[test]
fn unparsable_line_anywhere_changes_nothing() {
    let checks = up_and_now();
    let ctx = context(100.0, 10.0);
    let lines = ["up 1", "now 100"];
    for bad in ["up", "up 0 0 0", "now{x} 1", "   "] {
        for k in 0..=lines.len() {
            let mut with_bad: Vec<&str> = lines.to_vec();
            with_bad.insert(k, bad);
            assert!(match_metrics(ctx, &checks, &with_bad.join("\n")).is_ok(), "{:?}", with_bad);
        }
    }
    let failing = ["up 0", "now 100"];
    for k in 0..=failing.len() {
        let mut with_bad: Vec<&str> = failing.to_vec();
        with_bad.insert(k, "bad line");
        match match_metrics(ctx, &checks, &with_bad.join("\n")) {
            Err(HealthCheckError::Unsatisfied { name, .. }) => assert_eq!(name, "up"),
            other => panic!("unexpected {:?}", other),
        }
    }
}

#[test]
fn metric_seen_twice_is_checked_each_time() {
    let checks = up_and_now();
    let ctx = context(100.0, 10.0);
    match match_metrics(ctx, &checks, "up 1\nnow 100\nup 0.5") {
        Err(HealthCheckError::Unsatisfied { name, value, .. }) => {
            assert_eq!(name, "up");
            assert_eq!(f64::from_bits(value), 0.5);
        }
        other => panic!("unexpected {:?}", other),
    }
}

#[test]
fn labelled_samples_match_by_name() {
    let checks = up_and_now();
    let ctx = context(100.0, 10.0);
    assert!(match_metrics(ctx, &checks, "up{job=\"a\"} 1 5\nnow 99.5").is_ok());
}
