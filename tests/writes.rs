use logpipe::entry::{
    JsonField, JsonScalar, Label, LogEntry, MonitoredResource, Payload, Severity, Timestamp,
};
use logpipe::metrics::{LogMetric, MetricConfigError};
use logpipe::pipeline::{
    ConfigError, EntryError, EntryFault, LogPipeline, WriteError, WriteLogEntriesRequest,
};
use logpipe::routing::{is_excluded, LogExclusion, LogSink, SinkQueue};
use logpipe::scope::{ScopeKind, ScopeTree};
use logpipe::sequencer::{make_id, sequence_batch, WriteDefaults};

const RETENTION: i64 = 30 * 86400;
const NOW: Timestamp = Timestamp { seconds: 1_700_000_000, nanos: 0 };

fn scopes() -> (ScopeTree, usize, usize) {
    let mut t = ScopeTree::new();
    let org = t.add("organizations/1", ScopeKind::Organization, None);
    let proj = t.add("projects/p", ScopeKind::Project, Some(org));
    (t, org, proj)
}

fn with_severity(s: Severity) -> LogEntry {
    let mut e = LogEntry::new();
    e.severity = s;
    e.resource = Some(MonitoredResource::new("gce_instance"));
    e
}

fn request(entries: Vec<LogEntry>) -> WriteLogEntriesRequest {
    WriteLogEntriesRequest {
        log_name: "projects/p/logs/app".to_string(),
        resource: None,
        labels: Vec::new(),
        entries,
        partial_success: false,
        dry_run: false,
    }
}

fn sink(scope: usize, filter: &str) -> LogSink {
    LogSink {
        name: "errors".to_string(),
        destination: "storage.googleapis.com/bucket".to_string(),
        filter: filter.to_string(),
        disabled: false,
        writer_identity: String::new(),
        include_children: false,
        scope,
    }
}

fn pipeline(sinks: Vec<LogSink>, exclusions: Vec<LogExclusion>, metrics: Vec<LogMetric>) -> (LogPipeline, usize) {
    let (t, _org, proj) = scopes();
    let p = LogPipeline::new(t, &exclusions, &sinks, 100, false, &metrics, RETENTION).expect("config compiles");
    (p, proj)
}

#[test]
fn sink_receives_only_matching_entries() {
    let (mut p, _proj) = pipeline(vec![sink(1, "severity>=ERROR")], vec![], vec![]);
    let req = request(vec![with_severity(Severity::Error), with_severity(Severity::Info)]);
    let resp = p.write_log_entries(&req, NOW, "b1-").unwrap();
    assert!(resp.partial_errors.log_entry_errors.is_empty());
    assert_eq!(p.queues[0].entries.len(), 1);
    assert_eq!(p.queues[0].entries[0].severity, Severity::Error);
    assert_eq!(p.store.len(), 2);
}

#[test]
fn partial_success_keeps_valid_entries() {
    let (mut p, proj) = pipeline(vec![], vec![], vec![]);
    let mut bad = with_severity(Severity::Info);
    bad.payload = Some(Payload::Proto { type_url: String::new(), value: vec![1, 2] });
    let mut first = with_severity(Severity::Info);
    first.insert_id = "e0".to_string();
    let mut last = with_severity(Severity::Info);
    last.insert_id = "e2".to_string();
    let mut req = request(vec![first, bad, last]);
    req.partial_success = true;
    let resp = p.write_log_entries(&req, NOW, "b1-").unwrap();
    assert_eq!(
        resp.partial_errors.log_entry_errors,
        vec![EntryError { index: 1, fault: EntryFault::InvalidPayload }]
    );
    assert_eq!(p.store.len(), 2);
    let ids: Vec<&str> = p.store.iter().map(|e| e.insert_id.as_str()).collect();
    assert_eq!(ids, vec!["e0", "e2"]);
}

#[test]
fn invalid_entry_rejects_whole_batch_without_partial_success() {
    let (mut p, proj) = pipeline(vec![], vec![], vec![]);
    let mut bad = with_severity(Severity::Info);
    bad.payload = Some(Payload::Proto { type_url: String::new(), value: vec![] });
    let req = request(vec![with_severity(Severity::Info), bad]);
    let err = p.write_log_entries(&req, NOW, "b1-").unwrap_err();
    assert_eq!(
        err,
        WriteError::InvalidArgument(EntryError { index: 1, fault: EntryFault::InvalidPayload })
    );
    assert!(p.store.is_empty());
}

#[test]
fn missing_log_name_is_reported() {
    let (mut p, proj) = pipeline(vec![], vec![], vec![]);
    let mut req = request(vec![with_severity(Severity::Info)]);
    req.log_name = String::new();
    let err = p.write_log_entries(&req, NOW, "b1-").unwrap_err();
    assert_eq!(
        err,
        WriteError::InvalidArgument(EntryError { index: 0, fault: EntryFault::MissingLogName })
    );
}

#[test]
fn missing_resource_is_reported() {
    let (mut p, proj) = pipeline(vec![], vec![], vec![]);
    let mut req = request(vec![with_severity(Severity::Info), LogEntry::new()]);
    req.partial_success = true;
    let resp = p.write_log_entries(&req, NOW, "b1-").unwrap();
    assert_eq!(
        resp.partial_errors.log_entry_errors,
        vec![EntryError { index: 1, fault: EntryFault::MissingResource }]
    );
    assert_eq!(p.store.len(), 1);
}

#[test]
fn dry_run_changes_nothing() {
    let (mut p, _proj) = pipeline(vec![sink(1, "")], vec![], vec![]);
    let mut req = request(vec![with_severity(Severity::Info)]);
    req.dry_run = true;
    p.write_log_entries(&req, NOW, "b1-").unwrap();
    assert!(p.store.is_empty());
    assert!(p.queues[0].entries.is_empty());
}

#[test]
fn exclusions_drop_entries_from_storage_and_sinks() {
    let (t, org, proj) = scopes();
    let ex = LogExclusion {
        name: "debug".to_string(),
        description: String::new(),
        filter: "severity<=DEBUG".to_string(),
        disabled: false,
        scope: org,
    };
    let mut p = LogPipeline::new(t, &vec![ex], &vec![sink(proj, "")], 10, false, &vec![], RETENTION).unwrap();
    let req = request(vec![with_severity(Severity::Debug), with_severity(Severity::Warning)]);
    p.write_log_entries(&req, NOW, "b1-").unwrap();
    assert_eq!(p.store.len(), 1);
    assert_eq!(p.store[0].severity, Severity::Warning);
    assert_eq!(p.queues[0].entries.len(), 1);
}

#[test]
fn organization_exclusions_spare_audit_logs() {
    let (t, org, proj) = scopes();
    let ex = LogExclusion {
        name: "all".to_string(),
        description: String::new(),
        filter: String::new(),
        disabled: false,
        scope: org,
    };
    let mut p = LogPipeline::new(t, &vec![ex], &vec![], 10, false, &vec![], RETENTION).unwrap();
    let mut audit = with_severity(Severity::Notice);
    audit.payload = Some(Payload::Proto {
        type_url: "type.googleapis.com/google.cloud.audit.AuditLog".to_string(),
        value: vec![],
    });
    let req = request(vec![audit, with_severity(Severity::Notice)]);
    p.write_log_entries(&req, NOW, "b1-").unwrap();
    assert_eq!(p.store.len(), 1);
    assert!(matches!(p.store[0].payload, Some(Payload::Proto { .. })));
}

#[test]
fn disabled_exclusion_suppresses_nothing() {
    let (t, _org, proj) = scopes();
    let ex = LogExclusion {
        name: "all".to_string(),
        description: String::new(),
        filter: String::new(),
        disabled: true,
        scope: proj,
    };
    let mut p = LogPipeline::new(t, &vec![ex], &vec![], 10, false, &vec![], RETENTION).unwrap();
    p.write_log_entries(&request(vec![with_severity(Severity::Info)]), NOW, "b1-").unwrap();
    assert_eq!(p.store.len(), 1);
}

#[test]
fn include_children_reaches_projects_below() {
    let (t, org, proj) = scopes();
    let mut own = sink(org, "");
    own.include_children = false;
    let mut all = sink(org, "");
    all.include_children = true;
    let mut p = LogPipeline::new(t, &vec![], &vec![own, all], 10, false, &vec![], RETENTION).unwrap();
    p.write_log_entries(&request(vec![with_severity(Severity::Info)]), NOW, "b1-").unwrap();
    assert_eq!(p.queues[0].entries.len(), 0);
    assert_eq!(p.queues[1].entries.len(), 1);
}

#[test]
fn full_queue_sheds_by_policy() {
    let mut reject = SinkQueue::new(2, false);
    let mut oldest = SinkQueue::new(2, true);
    for id in ["a", "b", "c"] {
        let mut e = LogEntry::new();
        e.insert_id = id.to_string();
        let mut e2 = LogEntry::new();
        e2.insert_id = id.to_string();
        reject.push(e);
        oldest.push(e2);
    }
    let ids = |q: &SinkQueue| q.entries.iter().map(|e| e.insert_id.clone()).collect::<Vec<_>>();
    assert_eq!(ids(&reject), vec!["a", "b"]);
    assert_eq!(reject.shed, 1);
    assert_eq!(ids(&oldest), vec!["b", "c"]);
    assert_eq!(oldest.shed, 1);
    let taken = oldest.take(1);
    assert_eq!(taken.len(), 1);
    assert_eq!(taken[0].insert_id, "b");
    assert_eq!(ids(&oldest), vec!["c"]);
}

#[test]
fn metrics_count_and_bucket_matching_entries() {
    let counter = LogMetric {
        name: "errors".to_string(),
        description: String::new(),
        filter: "severity>=ERROR".to_string(),
        disabled: false,
        value_extractor: String::new(),
        label_extractors: vec![Label::new("type", "EXTRACT(resource.type)")],
        bucket_bounds: vec![],
    };
    let latency = LogMetric {
        name: "latency".to_string(),
        description: String::new(),
        filter: String::new(),
        disabled: false,
        value_extractor: "EXTRACT(labels.ms)".to_string(),
        label_extractors: vec![],
        bucket_bounds: vec![100, 500],
    };
    let (mut p, proj) = pipeline(vec![], vec![], vec![counter, latency]);
    let mut slow = with_severity(Severity::Error);
    slow.labels.push(Label::new("ms", "750"));
    let mut fast = with_severity(Severity::Info);
    fast.labels.push(Label::new("ms", "20"));
    let mut odd = with_severity(Severity::Info);
    odd.labels.push(Label::new("ms", "n/a"));
    p.write_log_entries(&request(vec![slow, fast, odd]), NOW, "b1-").unwrap();
    let errors = &p.metric_states[0].cells;
    assert_eq!(errors.len(), 1);
    assert_eq!(errors[0].labels, vec!["gce_instance".to_string()]);
    assert_eq!(errors[0].count, 1);
    let lat = &p.metric_states[1].cells;
    assert_eq!(lat.len(), 1);
    assert_eq!(lat[0].count, 3);
    assert_eq!(lat[0].buckets, vec![2, 0, 1]);
}

#[test]
fn regexp_extractors_take_their_capture_group() {
    let m = LogMetric {
        name: "latency".to_string(),
        description: String::new(),
        filter: String::new(),
        disabled: false,
        value_extractor: "REGEXP_EXTRACT(textPayload, \"took (\\d+) ms\")".to_string(),
        label_extractors: vec![Label::new("verb", "REGEXP_EXTRACT(textPayload, \"^(\\w+) \")")],
        bucket_bounds: vec![100],
    };
    let (mut p, proj) = pipeline(vec![], vec![], vec![m]);
    let mut slow = with_severity(Severity::Info);
    slow.payload = Some(Payload::Text("GET took 250 ms".to_string()));
    let mut odd = with_severity(Severity::Info);
    odd.payload = Some(Payload::Text("no timing here".to_string()));
    p.write_log_entries(&request(vec![slow, odd]), NOW, "b1-").unwrap();
    let cells = &p.metric_states[0].cells;
    assert_eq!(cells.len(), 2);
    assert_eq!(cells[0].labels, vec!["GET".to_string()]);
    assert_eq!(cells[0].buckets, vec![0, 1]);
    assert_eq!(cells[1].labels, vec!["no".to_string()]);
    assert_eq!(cells[1].buckets, vec![1, 0]);
}

#[test]
fn regexp_extractors_need_exactly_one_group() {
    let mut m = LogMetric {
        name: "m".to_string(),
        description: String::new(),
        filter: String::new(),
        disabled: false,
        value_extractor: "REGEXP_EXTRACT(textPayload, \"(a)(b)\")".to_string(),
        label_extractors: vec![],
        bucket_bounds: vec![],
    };
    assert_eq!(m.compile().unwrap_err(), MetricConfigError::InvalidValueExtractor);
    m.value_extractor = "REGEXP_EXTRACT(textPayload, \"ab\")".to_string();
    assert_eq!(m.compile().unwrap_err(), MetricConfigError::InvalidValueExtractor);
    m.value_extractor = "REGEXP_EXTRACT(textPayload, \"(\")".to_string();
    assert_eq!(m.compile().unwrap_err(), MetricConfigError::InvalidValueExtractor);
    m.value_extractor = "REGEXP_EXTRACT(textPayload, \"(a)\")".to_string();
    assert!(m.compile().is_ok());
}

#[test]
fn labels_of_non_text_fields_use_their_text() {
    let m = LogMetric {
        name: "m".to_string(),
        description: String::new(),
        filter: String::new(),
        disabled: false,
        value_extractor: String::new(),
        label_extractors: vec![
            Label::new("sev", "EXTRACT(severity)"),
            Label::new("code", "EXTRACT(jsonPayload.code)"),
            Label::new("ok", "EXTRACT(jsonPayload.ok)"),
        ],
        bucket_bounds: vec![],
    };
    let (mut p, proj) = pipeline(vec![], vec![], vec![m]);
    let mut e = with_severity(Severity::Warning);
    e.payload = Some(Payload::Json(vec![
        JsonField { path: "code".to_string(), value: JsonScalar::Int(-42) },
        JsonField { path: "ok".to_string(), value: JsonScalar::Bool(false) },
    ]));
    p.write_log_entries(&request(vec![e]), NOW, "b1-").unwrap();
    let cells = &p.metric_states[0].cells;
    assert_eq!(cells[0].labels, vec!["WARNING".to_string(), "-42".to_string(), "false".to_string()]);
}

#[test]
fn log_names_and_owners_are_checked() {
    let (mut p, proj) = pipeline(vec![], vec![], vec![]);
    let mut bad_name = with_severity(Severity::Info);
    bad_name.log_name = "projects/p/logs/has space".to_string();
    let mut long_name = with_severity(Severity::Info);
    long_name.log_name = format!("projects/p/logs/{}", "x".repeat(512));
    let mut unknown = with_severity(Severity::Info);
    unknown.log_name = "projects/zz/logs/app".to_string();
    let mut dup = with_severity(Severity::Info);
    dup.labels = vec![Label::new("k", "1"), Label::new("k", "2")];
    let mut ok = with_severity(Severity::Info);
    ok.log_name = format!("projects/p/logs/{}", "x".repeat(511));
    let mut req = request(vec![bad_name, long_name, unknown, dup, ok]);
    req.partial_success = true;
    let resp = p.write_log_entries(&req, NOW, "b1-").unwrap();
    assert_eq!(
        resp.partial_errors.log_entry_errors,
        vec![
            EntryError { index: 0, fault: EntryFault::InvalidLogName },
            EntryError { index: 1, fault: EntryFault::InvalidLogName },
            EntryError { index: 2, fault: EntryFault::UnknownResource },
            EntryError { index: 3, fault: EntryFault::DuplicateLabelKey },
        ]
    );
    assert_eq!(p.store.len(), 1);
}

#[test]
fn entries_are_judged_in_the_scope_of_their_own_log() {
    let mut t = ScopeTree::new();
    let p1 = t.add("projects/p", ScopeKind::Project, None);
    let p2 = t.add("projects/q", ScopeKind::Project, None);
    let ex = LogExclusion {
        name: "all".to_string(),
        description: String::new(),
        filter: String::new(),
        disabled: false,
        scope: p2,
    };
    let mut p = LogPipeline::new(t, &vec![ex], &vec![sink(p1, "")], 10, false, &vec![], RETENTION).unwrap();
    let mut other = with_severity(Severity::Info);
    other.log_name = "projects/q/logs/app".to_string();
    let mine = with_severity(Severity::Info);
    p.write_log_entries(&request(vec![other, mine]), NOW, "b1-").unwrap();
    assert_eq!(p.store.len(), 1);
    assert_eq!(p.store[0].log_name, "projects/p/logs/app");
    assert_eq!(p.queues[0].entries.len(), 1);
}

#[test]
fn bad_sink_filter_is_a_config_error() {
    let (t, _org, proj) = scopes();
    let r = LogPipeline::new(t, &vec![], &vec![sink(proj, "severity>=")], 10, false, &vec![], RETENTION);
    assert!(r.is_err());
}

#[test]
fn generated_ids_follow_input_order() {
    let defaults = WriteDefaults {
        log_name: "projects/p/logs/app".to_string(),
        resource: None,
        labels: vec![Label::new("env", "prod"), Label::new("team", "core")],
    };
    let mut entries = Vec::new();
    for _ in 0..12 {
        entries.push(LogEntry::new());
    }
    let mut own = LogEntry::new();
    own.labels.push(Label::new("env", "dev"));
    entries.push(own);
    let batch = sequence_batch(&entries, &defaults, NOW, "batch-");
    assert_eq!(batch.order, (0..13).collect::<Vec<usize>>());
    for w in batch.entries.windows(2) {
        assert!(w[0].insert_id < w[1].insert_id);
    }
    assert_eq!(batch.entries[0].insert_id, "batch-00000000000000000000");
    assert_eq!(batch.entries[11].insert_id, "batch-00000000000000000011");
    assert_eq!(batch.entries[0].timestamp, Some(NOW));
    assert_eq!(batch.entries[0].receive_timestamp, Some(NOW));
    let last = &batch.entries[12].labels;
    assert_eq!(last.len(), 2);
    assert_eq!(last[0].value, "dev");
    assert_eq!(last[1].key, "team");
    assert_eq!(make_id("x", 7), "x00000000000000000007");
}

#[test]
fn batches_sort_by_log_then_time_then_id() {
    let defaults = WriteDefaults { log_name: String::new(), resource: None, labels: vec![] };
    let mk = |log: &str, secs: i64, id: &str| {
        let mut e = LogEntry::new();
        e.log_name = log.to_string();
        e.timestamp = Some(Timestamp::new(secs, 0));
        e.insert_id = id.to_string();
        e
    };
    let entries = vec![mk("b", 1, "x"), mk("a", 5, "z"), mk("a", 5, "y"), mk("a", 2, "w")];
    let batch = sequence_batch(&entries, &defaults, NOW, "g-");
    assert_eq!(batch.order, vec![3, 2, 1, 0]);
}

#[test]
fn sampling_fraction_converges() {
    let (t, _org, proj) = scopes();
    let ex = LogExclusion {
        name: "quarter".to_string(),
        description: String::new(),
        filter: "sample(insertId, 0.25)".to_string(),
        disabled: false,
        scope: proj,
    };
    let p = LogPipeline::new(t, &vec![ex], &vec![], 10, false, &vec![], RETENTION).unwrap();
    let n = 10_000usize;
    let mut suppressed = 0usize;
    for i in 0..n {
        let mut e = LogEntry::new();
        e.insert_id = format!("entry-{}", i);
        e.timestamp = Some(Timestamp::new(1_700_000_000 + (i as i64 % 7), (i % 1000) as i32));
        if is_excluded(&p.exclusions, &p.scopes, proj, &e) {
            suppressed += 1;
        }
    }
    let fraction = suppressed as f64 / n as f64;
    assert!((fraction - 0.25).abs() < 0.02, "suppressed fraction {}", fraction);
}

#[test]
fn metric_config_errors_name_their_cause() {
    let base = || LogMetric {
        name: "m".to_string(),
        description: String::new(),
        filter: String::new(),
        disabled: false,
        value_extractor: String::new(),
        label_extractors: vec![],
        bucket_bounds: vec![],
    };
    let mut bad_label = base();
    bad_label.label_extractors = vec![Label::new("a", "EXTRACT(labels.a)"), Label::new("b", "labels.b")];
    assert_eq!(bad_label.compile().unwrap_err(), MetricConfigError::InvalidLabelExtractor(1));
    let mut bad_filter = base();
    bad_filter.filter = "severity=".to_string();
    assert!(matches!(bad_filter.compile().unwrap_err(), MetricConfigError::InvalidFilter(_)));
    let mut bad_value = base();
    bad_value.value_extractor = "EXTRACT(labels.ms".to_string();
    assert_eq!(bad_value.compile().unwrap_err(), MetricConfigError::InvalidValueExtractor);
}

#[test]
fn config_errors_point_at_the_item() {
    let (t, _org, proj) = scopes();
    let ex = LogExclusion {
        name: "x".to_string(),
        description: String::new(),
        filter: "NOT".to_string(),
        disabled: false,
        scope: proj,
    };
    let r = LogPipeline::new(t, &vec![ex], &vec![], 10, false, &vec![], RETENTION);
    assert!(matches!(r.unwrap_err(), ConfigError::Exclusion(0, _)));
    let (t, _org, proj) = scopes();
    let r = LogPipeline::new(t, &vec![], &vec![sink(proj, ""), sink(proj, "a=")], 10, false, &vec![], RETENTION);
    assert!(matches!(r.unwrap_err(), ConfigError::Sink(1, _)));
    let (t, _org, _proj) = scopes();
    let m = LogMetric {
        name: "m".to_string(),
        description: String::new(),
        filter: String::new(),
        disabled: false,
        value_extractor: "REGEXP_EXTRACT(textPayload, \"(.)(.)\")".to_string(),
        label_extractors: vec![],
        bucket_bounds: vec![],
    };
    let r = LogPipeline::new(t, &vec![], &vec![], 10, false, &vec![m], RETENTION);
    assert!(matches!(r.unwrap_err(), ConfigError::Metric(0, _)));
}

#[test]
fn escaped_log_ids_are_checked_once_decoded() {
    let (mut p, _proj) = pipeline(vec![], vec![], vec![]);
    let names = [
        "projects/p/logs/%20",
        "projects/p/logs/a%zz",
        "projects/p/logs/a%2",
        "projects/p/logs/a%2Fb",
        "projects/p/logs/cloudaudit.googleapis.com%2Factivity",
    ];
    let mut entries = Vec::new();
    for n in names {
        let mut e = with_severity(Severity::Info);
        e.log_name = n.to_string();
        entries.push(e);
    }
    let mut req = request(entries);
    req.partial_success = true;
    let resp = p.write_log_entries(&req, NOW, "b1-").unwrap();
    let bad: Vec<usize> = resp.partial_errors.log_entry_errors.iter().map(|e| e.index).collect();
    assert_eq!(bad, vec![0, 1, 2]);
    assert_eq!(p.store.len(), 2);
}
