use std::collections::HashMap;

use rayo::arena::SearchArena;
use rayo::content::ContentMatch;
use rayo::entry::FileEntry;
use rayo::index::FileIndex;
use rayo::relevance::compare_relevance_paths;
use rayo::service::{
    adopt_index, answer, content_scopes, count_entries, drive_changes, drive_step, index_is_for, log_line, metrics_response,
    search_names, Allowance, ContentRun, LocalTime, Plan, QueryRequest, QueryResponse, RequestMode,
    ServiceMetrics, WatchState,
};

fn index_of(drive: &str, names: &[&str]) -> FileIndex {
    let mut entries = HashMap::new();
    for (i, name) in names.iter().enumerate() {
        let frn = i as u64 + 10;
        entries.insert(
            frn,
            FileEntry { frn, parent_frn: 5, name: name.to_string(), attributes: 0 },
        );
    }
    let mut index = FileIndex {
        drive: drive.to_string(),
        entries,
        journal_id: 1,
        next_usn: 0,
        indexed_at_epoch_secs: 0,
        search_arena: SearchArena::default(),
        trigram_index: None,
    };
    index.rebuild_search_arena();
    index
}

fn request(query: &str) -> QueryRequest {
    QueryRequest {
        query: query.to_string(),
        extension: None,
        under_dir: None,
        glob: None,
        mode: None,
        timeout_ms: None,
        directories_only: false,
        files_only: false,
        fuzzy: false,
        metrics: false,
        limit: None,
    }
}

#[test]
fn compare_relevance_paths_prioritizes_prefix_match() {
    let query = "ticket";
    let left = r"C:\src\ticketTrack.log";
    let right = r"C:\src\my-ticket-notes.log";
    let ordering = compare_relevance_paths(left, right, query);
    assert!(ordering.is_lt());
    assert!(compare_relevance_paths(right, left, query).is_gt());
    assert!(compare_relevance_paths(left, left, query).is_eq());
    assert!(compare_relevance_paths("C:\\ab", "C:\\ac", "x").is_lt());
    assert!(compare_relevance_paths("C:\\zz", "C:\\aaa", "q").is_lt());
}

#[test]
fn requests_are_planned() {
    let mut r = request("abc");
    assert_eq!(r.plan(true, 1), Plan::Names);
    assert_eq!(r.plan(false, 1), Plan::Starting);
    assert_eq!(r.plan(true, 0), Plan::Starting);
    r.mode = Some("CONTENT".to_string());
    assert_eq!(r.plan(true, 1), Plan::Contents);
    r.query = "  ".to_string();
    assert_eq!(r.plan(true, 1), Plan::Nothing);
    r.metrics = true;
    assert_eq!(r.plan(true, 1), Plan::Metrics(false));
    assert_eq!(r.plan(false, 0), Plan::Metrics(true));
    assert_eq!(RequestMode::from_request(&Some("names".to_string())), RequestMode::Name);
    assert_eq!(RequestMode::from_request(&None), RequestMode::Name);
}

#[test]
fn limits_and_timeouts_have_defaults() {
    let mut r = request("abc");
    assert_eq!(r.effective_limit(100), 100);
    assert_eq!(r.effective_limit(0), 1);
    assert_eq!(r.effective_timeout_ms(), 3000);
    r.limit = Some(0);
    r.timeout_ms = Some(5);
    assert_eq!(r.effective_limit(100), 1);
    assert_eq!(r.effective_timeout_ms(), 200);
    r.timeout_ms = Some(201);
    assert_eq!(r.effective_timeout_ms(), 201);
}

#[test]
fn names_are_merged_over_indexes() {
    let c = index_of("C:", &["report.txt", "zreport.txt"]);
    let mut d = index_of("D:", &["report-final.txt", "other"]);
    d.set_trigram_enabled(true);
    let indexes = vec![&c, &d];
    assert_eq!(count_entries(&indexes), 4);
    let rows = search_names(&indexes, &request("Report"), 10);
    let paths: Vec<&str> = rows.iter().map(|r| r.path.as_str()).collect();
    assert_eq!(paths, vec!["C:\\report.txt", "D:\\report-final.txt", "C:\\zreport.txt"]);
    assert!(rows.iter().all(|r| r.line_number.is_none() && r.line_text.is_none() && !r.is_directory));
    assert_eq!(search_names(&indexes, &request("report"), 1).len(), 1);
    let long = search_names(&indexes, &request("report-final"), 5);
    assert_eq!(long.len(), 1);
}

#[test]
fn contents_are_searched_scope_by_scope() {
    let drives = vec!["C:".to_string(), "D:".to_string(), "C:".to_string()];
    assert_eq!(content_scopes(&None, &drives), vec!["C:\\", "D:\\"]);
    assert_eq!(content_scopes(&Some("C:\\src".to_string()), &drives), vec!["C:\\src"]);

    let line = |n: u64| ContentMatch {
        path: "a.txt".to_string(),
        line_number: n,
        line_text: format!("line {n}"),
    };
    let mut run = ContentRun::start(3, 2);
    assert_eq!(run.allowance(500_000), Some(Allowance { limit: 3, timeout_nanos: 1_500_000 }));
    run.accept(&vec![line(1), line(2)]);
    assert_eq!(run.allowance(1_000_000), Some(Allowance { limit: 1, timeout_nanos: 1_000_000 }));
    assert_eq!(run.allowance(2_000_000), None);
    run.accept(&vec![line(3), line(4)]);
    assert_eq!(run.allowance(0), None);
    assert_eq!(run.collected.len(), 3);
    assert_eq!(run.collected[2].line_number, Some(3));
    assert_eq!(run.collected[2].line_text.as_deref(), Some("line 3"));
}

#[test]
fn metrics_are_counted() {
    let mut metrics = ServiceMetrics::default();
    metrics.record(7);
    metrics.record(3);
    assert_eq!(metrics.requests_total, 2);
    assert_eq!(metrics.total_took_ms, 10);
    assert_eq!(metrics.last_took_ms, 3);
    assert_eq!(metrics.max_took_ms, 7);
    metrics.requests_total = u64::MAX;
    metrics.record(1);
    assert_eq!(metrics.requests_total, u64::MAX);

    let answer = metrics_response(metrics, 12, true);
    assert!(answer.starting && answer.results.is_empty());
    assert_eq!(answer.indexed_entries, Some(12));
    assert!(metrics_response(metrics, 12, false).indexed_entries.is_none());
    let starting = QueryResponse::starting(5);
    assert!(starting.starting && starting.metrics.is_none());
    assert_eq!((starting.total_entries, starting.indexed_entries), (5, Some(5)));
    let plain = QueryResponse::from_results(4, 9, Vec::new());
    assert!(!plain.starting && plain.took_ms == 4 && plain.total_entries == 9);
}

#[test]
fn drives_come_and_go() {
    let known = vec!["C:".to_string(), "D:".to_string()];
    let detected = vec!["D:".to_string(), "E:".to_string()];
    let changes = drive_changes(&known, &detected);
    assert_eq!(changes.added, vec!["E:"]);
    assert_eq!(changes.removed, vec!["C:"]);
    let same = drive_changes(&known, &known);
    assert!(same.added.is_empty() && same.removed.is_empty());

    let step = drive_step(&known, &detected, &vec!["E:".to_string()]);
    assert_eq!((step.known, step.publish), (vec!["D:".to_string(), "E:".to_string()], true));
    let step = drive_step(&known, &detected, &vec![]);
    assert_eq!((step.known, step.publish), (vec!["D:".to_string()], true));
    let more = vec!["C:".to_string(), "D:".to_string(), "E:".to_string()];
    let step = drive_step(&known, &more, &vec![]);
    assert_eq!((step.known, step.publish), (known.clone(), false));
    let step = drive_step(&known, &more, &vec!["E:".to_string()]);
    assert_eq!((step.known, step.publish), (more, true));

    let mut index = index_of("c:", &["a"]);
    assert!(index_is_for(&index, "C:"));
    assert!(!index_is_for(&index, "D:"));
    adopt_index(&mut index, "C:", true);
    assert_eq!(index.drive, "C:");
    assert!(index.trigram_enabled());
    adopt_index(&mut index, "E:", false);
    assert!(index.trigram_enabled());
}

#[test]
fn changes_are_written_in_time() {
    let mut watch = WatchState::start(5);
    assert!(!watch.on_changes(0));
    assert!(!watch.on_changes(4));
    assert!(watch.on_changes(1));
    assert_eq!(watch.since_persist, 0);
    assert!(watch.on_changes(usize::MAX));
    assert_eq!(WatchState::start(0).persist_every, 1);
}

#[test]
fn answers_carry_the_counters() {
    let mut metrics = ServiceMetrics::default();
    metrics.record(4);
    let response = answer(&mut metrics, 6, 50, Vec::new());
    assert_eq!(metrics.requests_total, 2);
    let counters = response.metrics.unwrap();
    assert_eq!((counters.requests_total, counters.total_took_ms), (2, 10));
    assert_eq!((counters.last_took_ms, counters.max_took_ms), (6, 6));
    assert_eq!(counters.indexed_entries, 50);
    assert_eq!((response.took_ms, response.total_entries), (6, 50));
}

#[test]
fn log_lines_carry_the_time() {
    let time = LocalTime { year: 2026, month: 7, day: 1, hour: 9, minute: 30, second: 5 };
    assert_eq!(log_line(&time, "hello"), "[2026-07-01 09:30:05] hello");
    let odd = LocalTime { year: 7, month: 123, day: 0, hour: 0, minute: 0, second: 0 };
    assert_eq!(log_line(&odd, ""), "[0007-123-00 00:00:00] ");
}

#[test]
fn contents_are_sought_with_what_is_allowed() {
    let mut asked = request("  needle ");
    asked.extension = Some("rs".to_string());
    let options = asked.content_options(
        "C:\\src".to_string(),
        Allowance { limit: 7, timeout_nanos: 9 },
    );
    assert_eq!(options.query, "needle");
    assert_eq!(options.under_dir.as_deref(), Some("C:\\src"));
    assert_eq!(options.extension.as_deref(), Some("rs"));
    assert_eq!((options.limit, options.timeout_nanos), (7, 9));
}

#[test]
fn one_pattern_is_asked_of_every_index() {
    let one = index_of("C:", &["report.txt", "report.pdf"]);
    let two = index_of("D:", &["report.txt", "report.log"]);
    let mut asked = request("report");
    asked.glob = Some("**/*.t\\xt".to_string());
    let rows = search_names(&vec![&one, &two], &asked, 10);
    let expected = if std::path::is_separator('\\') { 0 } else { 2 };
    assert_eq!(rows.len(), expected);
    asked.glob = Some("**/*.txt".to_string());
    assert_eq!(search_names(&vec![&one, &two], &asked, 10).len(), 2);
}
