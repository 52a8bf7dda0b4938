use exporter_health::parse_prometheus_sample;

fn bits(x: f64) -> u64 {
    x.to_bits()
}

#[test]
fn plain_line() {
    let s = parse_prometheus_sample("up 1").unwrap();
    assert_eq!(s.name, "up");
    assert_eq!(s.labels, None);
    assert_eq!(s.value, bits(1.0));
    assert_eq!(s.timestamp, None);
}

#[test]
fn labels_and_timestamp() {
    let s = parse_prometheus_sample("http_requests{method=\"post\",code=\"200\"} 1027 1395066363000")
        .unwrap();
    assert_eq!(s.name, "http_requests");
    assert_eq!(
        s.labels,
        Some(vec![
            ("method".to_string(), "post".to_string()),
            ("code".to_string(), "200".to_string())
        ])
    );
    assert_eq!(s.value, bits(1027.0));
    assert_eq!(s.timestamp, Some(1395066363000));
}

#[test]
fn single_label_with_timestamp() {
    let s = parse_prometheus_sample("m{k=\"v\"} 2.5 7").unwrap();
    assert_eq!(s.labels, Some(vec![("k".to_string(), "v".to_string())]));
    assert_eq!(s.value, bits(2.5));
    assert_eq!(s.timestamp, Some(7));
}

#[test]
fn empty_label_block() {
    let s = parse_prometheus_sample("m{} 3").unwrap();
    assert_eq!(s.labels, Some(vec![]));
}

#[test]
fn label_value_takes_any_char_but_quote() {
    let s = parse_prometheus_sample("m{path=\"/a b,c}=\\\"} 1").unwrap();
    assert_eq!(s.labels, Some(vec![("path".to_string(), "/a b,c}=\\".to_string())]));
}

#[test]
fn float_forms() {
    assert_eq!(parse_prometheus_sample("m -1.5e3").unwrap().value, bits(-1500.0));
    assert_eq!(parse_prometheus_sample("m +.5").unwrap().value, bits(0.5));
    assert_eq!(parse_prometheus_sample("m 2.").unwrap().value, bits(2.0));
    assert_eq!(parse_prometheus_sample("m 1E-2").unwrap().value, bits(0.01));
    assert_eq!(parse_prometheus_sample("m\t\t7").unwrap().value, bits(7.0));
    assert!(f64::from_bits(parse_prometheus_sample("m NaN").unwrap().value).is_nan());
    assert_eq!(parse_prometheus_sample("m Inf").unwrap().value, bits(f64::INFINITY));
}

#[test]
fn trailing_or_missing_content_fails() {
    for line in [
        "", " ", "\t", "up", "up ", "up 1 ", "up 1 2 3", "up 1 x", "up 1x", "up 1e", "up .",
        " up 1", "up{} ", "up{a=\"b\",} 1", "up{a=\"b\" 1", "up{a=b} 1", "up{=\"b\"} 1",
        "up 1 -5", "up 1 18446744073709551616", "up{a=\"b\"}1", "up -inf", "up infinity",
    ] {
        assert!(parse_prometheus_sample(line).is_none(), "{:?}", line);
    }
}

#[test]
fn largest_timestamp() {
    let s = parse_prometheus_sample("up 1 18446744073709551615").unwrap();
    assert_eq!(s.timestamp, Some(u64::MAX));
}
