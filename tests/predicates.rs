use exporter_health::{ge_bits, Check, CheckContext, CheckType, PrometheusSample, F64_ONE_BITS};

fn context(now: f64, stale_threshold: f64) -> CheckContext {
    CheckContext::new(now.to_bits(), stale_threshold.to_bits(), (now - stale_threshold).to_bits())
}

#[test]
fn one_bits_is_one() {
    assert_eq!(f64::from_bits(F64_ONE_BITS), 1.0);
}

#[test]
fn up_boundary() {
    let ctx = context(100.0, 10.0);
    assert!(CheckType::Up.is_satisfied_by(1.0f64.to_bits(), ctx));
    assert!(CheckType::Up.is_satisfied_by(2.5f64.to_bits(), ctx));
    assert!(!CheckType::Up.is_satisfied_by(0.9999f64.to_bits(), ctx));
    assert!(!CheckType::Up.is_satisfied_by((-3.0f64).to_bits(), ctx));
    assert!(!CheckType::Up.is_satisfied_by(f64::NAN.to_bits(), ctx));
    assert!(CheckType::Up.is_satisfied_by(f64::INFINITY.to_bits(), ctx));
}

#[test]
fn fresh_boundary() {
    let ctx = context(100.0, 10.0);
    assert!(CheckType::Fresh.is_satisfied_by(90.0f64.to_bits(), ctx));
    assert!(CheckType::Fresh.is_satisfied_by(95.0f64.to_bits(), ctx));
    assert!(!CheckType::Fresh.is_satisfied_by(89.5f64.to_bits(), ctx));
    assert!(ctx.is_fresh(100.0f64.to_bits()));
    assert!(!ctx.is_fresh(80.0f64.to_bits()));
}

#[test]
fn float_order_matches_ieee() {
    let vals = [
        0.0f64, -0.0, 1.0, -1.0, 0.5, 1e300, -1e300, f64::INFINITY, f64::NEG_INFINITY, f64::NAN,
        f64::MIN_POSITIVE, 5e-324,
    ];
    for a in vals {
        for b in vals {
            assert_eq!(ge_bits(a.to_bits(), b.to_bits()), a >= b, "{} >= {}", a, b);
        }
    }
}

#[test]
fn check_requires_matching_name() {
    let ctx = context(100.0, 10.0);
    let sample = PrometheusSample {
        name: "up".to_string(),
        labels: None,
        value: 1.0f64.to_bits(),
        timestamp: None,
    };
    let up = Check { name: "up".to_string(), check_type: CheckType::Up };
    let other = Check { name: "down".to_string(), check_type: CheckType::Up };
    assert!(up.is_satisfied_by(&sample, ctx));
    assert!(!other.is_satisfied_by(&sample, ctx));
}
