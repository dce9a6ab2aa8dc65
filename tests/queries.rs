use logpipe::entry::{Label, LogEntry, MonitoredResource, Severity, Timestamp};
use logpipe::pipeline::{LogPipeline, WriteLogEntriesRequest};
use logpipe::query::{DeleteError, DeleteLogRequest, ListError, ListLogEntriesRequest, PageToken};
use logpipe::scope::{ScopeKind, ScopeTree};

const NOW: Timestamp = Timestamp { seconds: 1_800_000_000, nanos: 0 };

fn empty_pipeline() -> (LogPipeline, usize) {
    let mut t = ScopeTree::new();
    let proj = t.add("projects/p", ScopeKind::Project, None);
    t.add("projects/q", ScopeKind::Project, None);
    (LogPipeline::new(t, &vec![], &vec![], 10, false, &vec![], 4_000_000_000).unwrap(), proj)
}

fn at(secs: i64, id: &str) -> LogEntry {
    let mut e = LogEntry::new();
    e.timestamp = Some(Timestamp::new(secs, 0));
    e.insert_id = id.to_string();
    e
}

fn write(p: &mut LogPipeline, _scope: usize, log: &str, entries: Vec<LogEntry>) {
    let req = WriteLogEntriesRequest {
        log_name: log.to_string(),
        resource: Some(MonitoredResource::new("global")),
        labels: Vec::new(),
        entries,
        partial_success: false,
        dry_run: false,
    };
    p.write_log_entries(&req, Timestamp::new(1_800_000_000, 0), "w-").unwrap();
}

fn list(names: &[&str], filter: &str, order_by: &str, size: usize, token: Option<PageToken>) -> ListLogEntriesRequest {
    ListLogEntriesRequest {
        resource_names: names.iter().map(|s| s.to_string()).collect(),
        filter: filter.to_string(),
        order_by: order_by.to_string(),
        page_size: size,
        page_token: token,
    }
}

#[test]
fn pages_resume_from_their_token() {
    let (mut p, proj) = empty_pipeline();
    write(&mut p, proj, "projects/p/logs/app", vec![at(200, "new"), at(100, "old")]);
    let first = p.list_log_entries(&list(&["projects/p"], "", "timestamp asc", 1, None), NOW).unwrap();
    assert_eq!(first.entries.len(), 1);
    assert_eq!(first.entries[0].insert_id, "old");
    let token = first.next_page_token;
    assert!(token.is_some());
    let second = p.list_log_entries(&list(&["projects/p"], "", "timestamp asc", 1, token), NOW).unwrap();
    assert_eq!(second.entries.len(), 1);
    assert_eq!(second.entries[0].insert_id, "new");
    assert!(second.next_page_token.is_none());
}

#[test]
fn descending_order_reverses_the_scan() {
    let (mut p, proj) = empty_pipeline();
    write(&mut p, proj, "projects/p/logs/app", vec![at(100, "a"), at(300, "c"), at(200, "b")]);
    let page = p.list_log_entries(&list(&["projects/p"], "", "timestamp desc", 0, None), NOW).unwrap();
    let ids: Vec<&str> = page.entries.iter().map(|e| e.insert_id.as_str()).collect();
    assert_eq!(ids, vec!["c", "b", "a"]);
    assert!(page.next_page_token.is_none());
}

#[test]
fn equal_timestamps_order_by_insert_id() {
    let (mut p, proj) = empty_pipeline();
    write(&mut p, proj, "projects/p/logs/app", vec![at(100, "b"), at(100, "a")]);
    let page = p.list_log_entries(&list(&["projects/p"], "", "", 10, None), NOW).unwrap();
    let ids: Vec<&str> = page.entries.iter().map(|e| e.insert_id.as_str()).collect();
    assert_eq!(ids, vec!["a", "b"]);
}

#[test]
fn filters_and_scopes_restrict_results() {
    let (mut p, proj) = empty_pipeline();
    let mut err = at(100, "e");
    err.severity = Severity::Error;
    write(&mut p, proj, "projects/p/logs/app", vec![err, at(101, "i")]);
    write(&mut p, proj, "projects/q/logs/app", vec![at(102, "other")]);
    let page = p.list_log_entries(&list(&["projects/p"], "severity>=ERROR", "", 10, None), NOW).unwrap();
    assert_eq!(page.entries.len(), 1);
    assert_eq!(page.entries[0].insert_id, "e");
    let page = p.list_log_entries(&list(&["projects/q"], "", "", 10, None), NOW).unwrap();
    assert_eq!(page.entries.len(), 1);
    assert_eq!(page.entries[0].insert_id, "other");
    let page = p.list_log_entries(&list(&["projects/pp"], "", "", 10, None), NOW).unwrap();
    assert!(page.entries.is_empty());
}

#[test]
fn token_marks_where_a_page_stopped() {
    let (mut p, proj) = empty_pipeline();
    write(&mut p, proj, "projects/p/logs/app", vec![at(1, "a"), at(2, "b"), at(3, "c")]);
    let page = p.list_log_entries(&list(&["projects/p"], "labels.x=1", "", 1, None), NOW).unwrap();
    assert!(page.entries.is_empty());
    assert!(page.next_page_token.is_none());
    let page = p.list_log_entries(&list(&["projects/p"], "insert_id=a", "", 1, None), NOW).unwrap();
    assert_eq!(page.entries.len(), 1);
    let token = page.next_page_token.unwrap();
    assert_eq!(token.insert_id, "b");
    assert_eq!(token.seconds, 2);
    assert_eq!(token.passed, 0);
    let rest = p.list_log_entries(&list(&["projects/p"], "insert_id=a", "", 1, Some(token)), NOW).unwrap();
    assert!(rest.entries.is_empty());
    assert!(rest.next_page_token.is_none());
}

#[test]
fn tokens_survive_writes_between_pages() {
    let (mut p, proj) = empty_pipeline();
    write(&mut p, proj, "projects/p/logs/app", vec![at(10, "a"), at(20, "b"), at(30, "c")]);
    let first = p.list_log_entries(&list(&["projects/p"], "", "", 1, None), NOW).unwrap();
    assert_eq!(first.entries[0].insert_id, "a");
    write(&mut p, proj, "projects/p/logs/app", vec![at(5, "early")]);
    let second = p.list_log_entries(&list(&["projects/p"], "", "", 1, first.next_page_token), NOW).unwrap();
    assert_eq!(second.entries[0].insert_id, "b");
}

#[test]
fn bad_queries_are_rejected() {
    let (mut p, proj) = empty_pipeline();
    write(&mut p, proj, "projects/p/logs/app", vec![at(1, "a")]);
    let e = p.list_log_entries(&list(&["projects/p"], "severity>=", "", 1, None), NOW).unwrap_err();
    assert!(matches!(e, ListError::InvalidFilter(_)));
    let e = p.list_log_entries(&list(&["projects/p"], "", "severity", 1, None), NOW).unwrap_err();
    assert_eq!(e, ListError::InvalidOrderBy);
    let e = p.list_log_entries(&list(&[], "", "", 1, None), NOW).unwrap_err();
    assert_eq!(e, ListError::MissingResourceNames);
}

#[test]
fn explicit_entries_round_trip() {
    let (mut p, proj) = empty_pipeline();
    let mut e = at(1_700_000_123, "client-7");
    e.timestamp = Some(Timestamp::new(1_700_000_123, 456));
    e.severity = Severity::Warning;
    e.labels.push(Label::new("k", "v"));
    e.trace = "projects/p/traces/abc".to_string();
    e.span_id = "000000000000004a".to_string();
    e.trace_sampled = true;
    write(&mut p, proj, "projects/p/logs/app", vec![e]);
    let page = p.list_log_entries(&list(&["projects/p"], "insert_id=client-7", "", 10, None), NOW).unwrap();
    let got = &page.entries[0];
    assert_eq!(got.insert_id, "client-7");
    assert_eq!(got.timestamp, Some(Timestamp::new(1_700_000_123, 456)));
    assert_eq!(got.severity, Severity::Warning);
    assert_eq!(got.labels.len(), 1);
    assert_eq!(got.labels[0].value, "v");
    assert_eq!(got.trace, "projects/p/traces/abc");
    assert_eq!(got.span_id, "000000000000004a");
    assert!(got.trace_sampled);
    assert_eq!(got.log_name, "projects/p/logs/app");
    assert_eq!(got.receive_timestamp, Some(Timestamp::new(1_800_000_000, 0)));
}

#[test]
fn deleting_a_log_removes_only_its_entries() {
    let (mut p, proj) = empty_pipeline();
    write(&mut p, proj, "projects/p/logs/a", vec![at(1, "x")]);
    write(&mut p, proj, "projects/p/logs/b", vec![at(2, "y")]);
    p.delete_log(&DeleteLogRequest { log_name: "projects/p/logs/a".to_string() }, Timestamp::new(50, 0)).unwrap();
    assert_eq!(p.store.len(), 1);
    assert_eq!(p.store[0].insert_id, "y");
}

#[test]
fn late_entries_of_a_deleted_log_stay_deleted() {
    let (mut p, proj) = empty_pipeline();
    write(&mut p, proj, "projects/p/logs/a", vec![at(10, "x")]);
    p.delete_log(&DeleteLogRequest { log_name: "projects/p/logs/a".to_string() }, Timestamp::new(50, 0)).unwrap();
    write(&mut p, proj, "projects/p/logs/a", vec![at(40, "late"), at(50, "edge"), at(60, "fresh")]);
    let ids: Vec<&str> = p.store.iter().map(|e| e.insert_id.as_str()).collect();
    assert_eq!(ids, vec!["fresh"]);
}

#[test]
fn queries_see_only_the_retention_window() {
    let mut t = ScopeTree::new();
    let proj = t.add("projects/p", ScopeKind::Project, None);
    let mut p = LogPipeline::new(t, &vec![], &vec![], 10, false, &vec![], 3600).unwrap();
    let now = NOW.seconds;
    write(
        &mut p,
        proj,
        "projects/p/logs/app",
        vec![at(now - 7200, "old"), at(now - 60, "recent"), at(now + 3600, "soon"), at(now + 2 * 86400, "far")],
    );
    assert_eq!(p.store.len(), 4);
    let page = p.list_log_entries(&list(&["projects/p"], "", "", 10, None), NOW).unwrap();
    let ids: Vec<&str> = page.entries.iter().map(|e| e.insert_id.as_str()).collect();
    assert_eq!(ids, vec!["recent", "soon"]);
}

#[test]
fn scans_order_by_timestamp_across_logs() {
    let (mut p, proj) = empty_pipeline();
    write(&mut p, proj, "projects/p/logs/b", vec![at(100, "x")]);
    write(&mut p, proj, "projects/p/logs/a", vec![at(200, "y")]);
    let page = p.list_log_entries(&list(&["projects/p"], "", "timestamp asc", 10, None), NOW).unwrap();
    let ids: Vec<&str> = page.entries.iter().map(|e| e.insert_id.as_str()).collect();
    assert_eq!(ids, vec!["x", "y"]);
}

#[test]
fn descending_scans_keep_insert_id_order_within_a_timestamp() {
    let (mut p, proj) = empty_pipeline();
    write(&mut p, proj, "projects/p/logs/app", vec![at(100, "a"), at(100, "b"), at(200, "c")]);
    let page = p.list_log_entries(&list(&["projects/p"], "", "timestamp desc", 10, None), NOW).unwrap();
    let ids: Vec<&str> = page.entries.iter().map(|e| e.insert_id.as_str()).collect();
    assert_eq!(ids, vec!["c", "a", "b"]);
}

#[test]
fn duplicates_of_one_project_are_returned_once() {
    let (mut p, proj) = empty_pipeline();
    write(&mut p, proj, "projects/p/logs/app", vec![at(100, "same")]);
    write(&mut p, proj, "projects/p/logs/app", vec![at(100, "same")]);
    write(&mut p, proj, "projects/p/logs/other", vec![at(100, "same")]);
    write(&mut p, proj, "projects/q/logs/app", vec![at(100, "same")]);
    assert_eq!(p.store.len(), 4);
    let page = p.list_log_entries(&list(&["projects/p", "projects/q"], "", "", 10, None), NOW).unwrap();
    let logs: Vec<&str> = page.entries.iter().map(|e| e.log_name.as_str()).collect();
    assert_eq!(logs, vec!["projects/p/logs/app", "projects/q/logs/app"]);
}

#[test]
fn malformed_log_names_are_not_deleted() {
    let (mut p, proj) = empty_pipeline();
    write(&mut p, proj, "projects/p/logs/a", vec![at(1, "x")]);
    let r = p.delete_log(&DeleteLogRequest { log_name: "projects/p/a".to_string() }, Timestamp::new(50, 0));
    assert_eq!(r, Err(DeleteError::InvalidArgument));
    assert_eq!(p.store.len(), 1);
    assert!(p.tombstones.is_empty());
}

#[test]
fn deleting_refuses_escapes_of_forbidden_characters() {
    let (mut p, proj) = empty_pipeline();
    write(&mut p, proj, "projects/p/logs/a", vec![at(1, "x")]);
    let bad = p.delete_log(&DeleteLogRequest { log_name: "projects/p/logs/%20".to_string() }, Timestamp::new(50, 0));
    assert_eq!(bad, Err(DeleteError::InvalidArgument));
    let long = format!("projects/p/logs/{}", "%2F".repeat(512));
    let bad = p.delete_log(&DeleteLogRequest { log_name: long }, Timestamp::new(50, 0));
    assert_eq!(bad, Err(DeleteError::InvalidArgument));
    let fine = format!("projects/p/logs/{}", "%2F".repeat(511));
    assert!(p.delete_log(&DeleteLogRequest { log_name: fine }, Timestamp::new(50, 0)).is_ok());
    assert_eq!(p.store.len(), 1);
}
