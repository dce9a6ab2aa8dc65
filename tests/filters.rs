use logpipe::entry::{
    JsonField, JsonScalar, Label, LogEntry, MonitoredResource, Payload, Severity, Timestamp,
};
use logpipe::filter::{bucket_of, hash_text, Filter};
use logpipe::text::to_chars;
use logpipe::parse::{compile, FilterErrorKind};

fn entry(severity: Severity) -> LogEntry {
    let mut e = LogEntry::new();
    e.log_name = "projects/p/logs/app".to_string();
    e.severity = severity;
    e.insert_id = "id-1".to_string();
    e.timestamp = Some(Timestamp::new(1_700_000_000, 0));
    let mut r = MonitoredResource::new("gce_instance");
    r.labels.push(Label::new("zone", "us-east1-b"));
    e.resource = Some(r);
    e.labels.push(Label::new("env", "prod"));
    e
}

fn f(src: &str) -> Filter {
    compile(src).expect("filter compiles")
}

#[test]
fn severity_threshold_selects_error_and_above() {
    let flt = f("severity>=ERROR");
    assert!(flt.matches(&entry(Severity::Error)));
    assert!(flt.matches(&entry(Severity::Critical)));
    assert!(!flt.matches(&entry(Severity::Info)));
    assert!(!flt.matches(&entry(Severity::Warning)));
}

#[test]
fn severity_accepts_numeric_levels() {
    assert!(f("severity=500").matches(&entry(Severity::Error)));
    assert!(f("severity<300").matches(&entry(Severity::Info)));
}

#[test]
fn resource_and_label_fields_resolve() {
    let e = entry(Severity::Info);
    assert!(f("resource.type=\"gce_instance\"").matches(&e));
    assert!(f("resource.labels.zone=us-east1-b").matches(&e));
    assert!(f("labels.env=prod").matches(&e));
    assert!(!f("labels.env=dev").matches(&e));
    assert!(f("log_name=\"projects/p/logs/app\"").matches(&e));
    assert!(f("logName:\"logs/app\"").matches(&e));
}

#[test]
fn substring_operator_matches_inside_text() {
    let mut e = entry(Severity::Info);
    e.payload = Some(Payload::Text("disk quota exceeded on /var".to_string()));
    assert!(f("textPayload:quota").matches(&e));
    assert!(!f("textPayload:memory").matches(&e));
}

#[test]
fn absent_fields_never_match() {
    let e = entry(Severity::Info);
    assert!(!f("labels.missing=x").matches(&e));
    assert!(!f("labels.missing!=x").matches(&e));
    assert!(!f("NOT labels.missing=x").matches(&e));
    assert!(!f("unknown.path=1").matches(&e));
    assert!(!f("textPayload:x").matches(&e));
}

#[test]
fn boolean_operators_follow_precedence() {
    let e = entry(Severity::Error);
    assert!(f("labels.env=dev OR severity=ERROR AND labels.env=prod").matches(&e));
    assert!(!f("(labels.env=dev OR severity=ERROR) AND labels.env=dev").matches(&e));
    assert!(f("NOT severity=INFO").matches(&e));
    assert!(f("severity=ERROR labels.env=prod").matches(&e));
    assert!(f("labels.missing=x OR severity=ERROR").matches(&e));
}

#[test]
fn string_order_comparisons_are_lexicographic() {
    let e = entry(Severity::Info);
    assert!(f("insert_id>\"id-0\"").matches(&e));
    assert!(f("insert_id<=\"id-1\"").matches(&e));
    assert!(!f("insert_id<\"id-1\"").matches(&e));
}

#[test]
fn structured_payload_paths_resolve() {
    let mut e = entry(Severity::Info);
    e.payload = Some(Payload::Json(vec![
        JsonField { path: "http.status".to_string(), value: JsonScalar::Int(503) },
        JsonField { path: "user".to_string(), value: JsonScalar::Str("ana".to_string()) },
        JsonField { path: "cached".to_string(), value: JsonScalar::Bool(true) },
    ]));
    assert!(f("jsonPayload.http.status>=500").matches(&e));
    assert!(!f("jsonPayload.http.status<500").matches(&e));
    assert!(f("jsonPayload.user=ana").matches(&e));
    assert!(f("jsonPayload.cached=true").matches(&e));
    assert!(!f("jsonPayload.http.method=GET").matches(&e));
}

#[test]
fn timestamps_compare_with_epoch_seconds() {
    let e = entry(Severity::Info);
    assert!(f("timestamp>=1700000000").matches(&e));
    assert!(!f("timestamp>1700000000").matches(&e));
    assert!(f("timestamp<1800000000").matches(&e));
}

#[test]
fn empty_filter_selects_everything() {
    assert!(f("").matches(&entry(Severity::Debug)));
    assert!(f("   ").matches(&entry(Severity::Debug)));
}

#[test]
fn syntax_errors_report_their_position() {
    let e = compile("severity>=").unwrap_err();
    assert_eq!(e.kind, FilterErrorKind::UnexpectedEnd);
    assert_eq!(e.position, 10);
    let e = compile("severity ! ERROR").unwrap_err();
    assert_eq!(e.kind, FilterErrorKind::UnexpectedChar);
    assert_eq!(e.position, 9);
    let e = compile("labels.a=\"open").unwrap_err();
    assert_eq!(e.kind, FilterErrorKind::UnterminatedString);
    assert_eq!(e.position, 9);
    let e = compile("(severity=ERROR").unwrap_err();
    assert_eq!(e.kind, FilterErrorKind::UnexpectedEnd);
    let e = compile("severity=ERROR)").unwrap_err();
    assert_eq!(e.kind, FilterErrorKind::UnexpectedToken);
    assert_eq!(e.position, 14);
    let e = compile("sample(insertId, 1.5)").unwrap_err();
    assert_eq!(e.kind, FilterErrorKind::BadFraction);
}

#[test]
fn sample_is_deterministic_and_bounded() {
    let e = entry(Severity::Info);
    let flt = f("sample(insertId, 0.5)");
    let first = flt.matches(&e);
    for _ in 0..10 {
        assert_eq!(flt.matches(&e), first);
    }
    assert!(f("sample(insertId, 1)").matches(&e));
    assert!(!f("sample(insertId, 0)").matches(&e));
}

#[test]
fn quoted_strings_take_escapes() {
    let mut e = entry(Severity::Info);
    e.payload = Some(Payload::Text("say \"hi\"".to_string()));
    assert!(f("textPayload=\"say \\\"hi\\\"\"").matches(&e));
}

#[test]
fn timestamps_compare_with_rfc3339_instants() {
    let e = entry(Severity::Info);
    assert!(f("timestamp>=\"2023-11-14T22:13:20Z\"").matches(&e));
    assert!(f("timestamp=\"2023-11-14T22:13:20Z\"").matches(&e));
    assert!(!f("timestamp>\"2023-11-14T22:13:20Z\"").matches(&e));
    assert!(f("timestamp<\"2024-01-01T00:00:00Z\"").matches(&e));
    assert!(f("timestamp>\"1999-12-31T23:59:59Z\"").matches(&e));
    let mut leap = entry(Severity::Info);
    leap.timestamp = Some(Timestamp::new(1_709_164_800, 0));
    assert!(f("timestamp=\"2024-02-29T00:00:00Z\"").matches(&leap));
    assert!(!f("timestamp<=\"2023-02-29T00:00:00Z\"").matches(&leap));
    assert!(!f("timestamp>=\"2023-02-29T00:00:00Z\"").matches(&leap));
    let mut epoch = entry(Severity::Info);
    epoch.timestamp = Some(Timestamp::new(0, 0));
    assert!(f("timestamp=\"1970-01-01T00:00:00Z\"").matches(&epoch));
}

#[test]
fn sampling_bucket_has_known_values() {
    assert_eq!(hash_text(&to_chars("abc")), 304_891);
    assert_eq!(bucket_of(&to_chars("abc"), Some(Timestamp::new(0, 0))), 250_572);
    assert_eq!(bucket_of(&to_chars("abc"), None), 250_572);
    assert_eq!(bucket_of(&to_chars("entry-42"), Some(Timestamp::new(1_700_000_000, 5))), 535_862);
}

#[test]
fn instants_take_fractions_and_offsets() {
    let mut e = entry(Severity::Info);
    e.timestamp = Some(Timestamp::new(1_700_000_000, 500_000_000));
    assert!(f("timestamp=\"2023-11-14T22:13:20.5Z\"").matches(&e));
    assert!(f("timestamp=\"2023-11-14T22:13:20.500000000Z\"").matches(&e));
    assert!(f("timestamp>\"2023-11-14T22:13:20.499999999Z\"").matches(&e));
    assert!(f("timestamp<\"2023-11-14T22:13:20.6Z\"").matches(&e));
    assert!(f("timestamp=\"2023-11-15T00:13:20.5+02:00\"").matches(&e));
    assert!(f("timestamp=\"2023-11-14T17:13:20.5-05:00\"").matches(&e));
    assert!(!f("timestamp>=\"2023-11-14T22:13:20.5+25:00\"").matches(&e));
    assert!(!f("timestamp<=\"2023-11-14T22:13:20.5+25:00\"").matches(&e));
    assert!(!f("timestamp>=\"2023-11-14T22:13:20.1234567891Z\"").matches(&e));
}
