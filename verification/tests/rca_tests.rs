use bund_blobstore::rca::{
    causal_chains, count_key, count_pattern_occurrences, count_time_windows,
    determine_typical_sequence, find_co_occurrences, find_correlated_events, find_frequent_singles,
    generate_candidates, generate_recommendations, identify_root_causes, propagation_steps,
    build_metadata, build_propagation_timeline, AnalysisSummary, EventStamp, LinkFacts,
    PatternFacts, RootFacts,
};

fn ev(items: &[(i64, &str)]) -> Vec<EventStamp> {
    items.iter().map(|(t, k)| EventStamp { timestamp: *t, key: k.to_string() }).collect()
}

fn strings(v: &[&str]) -> Vec<String> {
    v.iter().map(|s| s.to_string()).collect()
}

#[test]
fn time_windows_of_timelines() {
    assert_eq!(count_time_windows(&ev(&[(0, "a"), (10, "b"), (250, "c")]), 60), 4);
    assert_eq!(count_time_windows(&ev(&[(5, "a")]), 60), 1);
    assert_eq!(count_time_windows(&ev(&[]), 60), 0);
    assert_eq!(count_time_windows(&ev(&[(0, "a"), (250, "b")]), -60), 1);
    assert_eq!(count_time_windows(&ev(&[(100, "a"), (0, "b")]), 60), 1);
    assert_eq!(count_time_windows(&ev(&[(0, "a"), (600, "b")]), 60), 10);
}

#[test]
fn key_counts_and_frequent_singles() {
    let e = ev(&[(0, "a"), (1, "b"), (2, "a"), (3, "c"), (4, "a"), (5, "b")]);
    assert_eq!(count_key(&e, &"a".to_string()), 3);
    assert_eq!(count_key(&e, &"z".to_string()), 0);
    assert_eq!(find_frequent_singles(&e, 2), strings(&["a", "b"]));
    assert_eq!(find_frequent_singles(&e, 3), strings(&["a"]));
    assert_eq!(find_frequent_singles(&e, 0), strings(&["a", "b", "c"]));
    assert_eq!(find_frequent_singles(&e, 4), Vec::<String>::new());
}

#[test]
fn candidate_pairs() {
    let f = strings(&["x", "y", "z"]);
    let c = generate_candidates(&f, 2);
    assert_eq!(c, vec![strings(&["x", "y"]), strings(&["x", "z"]), strings(&["y", "z"])]);
    assert!(generate_candidates(&f, 3).is_empty());
    assert!(generate_candidates(&strings(&["x"]), 2).is_empty());
}

#[test]
fn pattern_occurrences_in_windows() {
    let e = ev(&[(0, "a"), (10, "b"), (100, "a"), (200, "c")]);
    assert_eq!(count_pattern_occurrences(&e, &strings(&["a", "b"]), 60), 1);
    assert_eq!(count_pattern_occurrences(&e, &strings(&["b", "a"]), 60), 1);
    assert_eq!(count_pattern_occurrences(&e, &strings(&["a", "a"]), 60), 0);
    assert_eq!(count_pattern_occurrences(&e, &strings(&["a"]), 60), 2);
    assert_eq!(count_pattern_occurrences(&e, &strings(&[]), 60), 4);
    assert_eq!(count_pattern_occurrences(&e, &strings(&["a", "c"]), 150), 1);
}

#[test]
fn co_occurrences_within_windows() {
    let e = ev(&[(0, "a"), (10, "b"), (20, "a"), (200, "c")]);
    let co = find_co_occurrences(&e, 60);
    assert_eq!(
        co,
        vec![
            ("a:b".to_string(), strings(&["b"])),
            ("a:a".to_string(), strings(&["a"])),
            ("b:a".to_string(), strings(&["a"])),
        ]
    );
    let e2 = ev(&[(0, "a"), (5, "b"), (6, "b")]);
    assert_eq!(
        find_co_occurrences(&e2, 10),
        vec![("a:b".to_string(), strings(&["b", "b"])), ("b:b".to_string(), strings(&["b"]))]
    );
    assert!(find_co_occurrences(&ev(&[(0, "a")]), 10).is_empty());
}

#[test]
fn typical_sequences() {
    let e = ev(&[(0, "a"), (1, "b"), (2, "b"), (3, "c"), (4, "c"), (5, "c")]);
    assert_eq!(determine_typical_sequence(&e, &strings(&["c", "a", "b"])), strings(&["a", "b", "c"]));
    assert_eq!(determine_typical_sequence(&e, &strings(&["x", "y"])), strings(&["x", "y"]));
    assert_eq!(determine_typical_sequence(&e, &strings(&["b", "d", "a"])), strings(&["d", "a", "b"]));
    assert_eq!(determine_typical_sequence(&e, &strings(&[])), Vec::<String>::new());
}

#[test]
fn propagation_of_events() {
    let e = ev(&[(0, "a"), (10, "b"), (100, "a"), (105, "a")]);
    let steps = propagation_steps(&e, 60);
    let got: Vec<(usize, Option<String>)> = steps.into_iter().map(|s| (s.depth, s.related_to)).collect();
    assert_eq!(
        got,
        vec![(0, None), (0, Some("a".to_string())), (1, None), (2, Some("a".to_string()))]
    );
}

fn link(c: &str, e: &str, strong: bool) -> LinkFacts {
    LinkFacts { cause: c.to_string(), effect: e.to_string(), strong }
}

#[test]
fn chains_of_causal_links() {
    let links = vec![
        link("a", "b", true),
        link("b", "c", true),
        link("c", "d", false),
        link("x", "y", true),
        link("b", "e", true),
    ];
    assert_eq!(causal_chains(&links), vec![(0, strings(&["a", "b", "c"])), (3, strings(&["x", "y"]))]);
    assert!(causal_chains(&vec![link("a", "b", false)]).is_empty());
}

#[test]
fn correlated_events_of_roots() {
    let pats = vec![
        PatternFacts { events: strings(&["a", "b", "c"]), strong: true },
        PatternFacts { events: strings(&["a", "d"]), strong: false },
        PatternFacts { events: strings(&["b", "a", "e"]), strong: true },
    ];
    let r = find_correlated_events(&pats, &strings(&["a", "b", "z"]));
    assert_eq!(
        r,
        vec![
            ("a".to_string(), strings(&["b", "c", "e"])),
            ("b".to_string(), strings(&["a", "c", "e"])),
            ("z".to_string(), Vec::new()),
        ]
    );
}

#[test]
fn recommendations_for_roots() {
    let roots = strings(&["memory_spike", "x", "disk_full", "api_timeout"]);
    let corr = vec![("memory_spike".to_string(), strings(&["cpu"])), ("x".to_string(), Vec::new())];
    let recs = generate_recommendations(&roots, &corr);
    assert_eq!(recs.len(), 4);
    assert_eq!(recs[0].priority, "HIGH");
    assert_eq!(recs[0].root_cause, "memory_spike");
    assert_eq!(
        recs[0].suggestion,
        "Review memory allocation patterns, consider increasing heap size or optimizing garbage collection"
    );
    assert_eq!(recs[0].related_patterns, strings(&["cpu"]));
    assert_eq!(recs[0].expected_impact, "Reduction in cascading failures and improved system stability");
    assert_eq!(recs[1].suggestion, "Investigate x events and their correlation patterns");
    assert!(recs[1].related_patterns.is_empty());
    assert_eq!(recs[2].priority, "HIGH");
    assert_eq!(recs[2].suggestion, "Implement log rotation, clean up old files, or increase disk capacity");
    assert_eq!(recs[3].priority, "MEDIUM");
    assert_eq!(
        recs[3].suggestion,
        "Increase timeout values, optimize API response times, or implement circuit breakers"
    );
    assert!(recs[3].related_patterns.is_empty());
}

fn root(strong: bool, occurrences: usize, first: Option<&str>) -> RootFacts {
    RootFacts { strong, occurrences, first: first.map(|s| s.to_string()) }
}

#[test]
fn root_causes_sorted_and_distinct() {
    let facts = vec![
        root(true, 5, Some("db")),
        root(true, 1, Some("mem")),
        root(false, 9, Some("zz")),
        root(true, 3, Some("api")),
        root(true, 3, None),
        root(true, 4, Some("db")),
    ];
    assert_eq!(identify_root_causes(&facts, 3), strings(&["api", "db"]));
    let mixed = vec![root(true, 1, Some("b")), root(true, 1, Some("B")), root(true, 1, Some("ab")), root(true, 1, Some("a"))];
    assert_eq!(identify_root_causes(&mixed, 0), strings(&["B", "a", "ab", "b"]));
}

fn summary(start: i64, end: i64) -> AnalysisSummary {
    AnalysisSummary {
        total_events_analyzed: 3,
        time_range_start: start,
        time_range_end: end,
        correlation_window_seconds: 60,
        unique_event_types: 2,
        patterns_found: 1,
        causal_links_found: 1,
        root_causes_identified: 1,
        analysis_duration_ms: 5,
    }
}

#[test]
fn report_metadata_spans_the_analysis() {
    let m = build_metadata("id-1".to_string(), "now".to_string(), "0.1.0".to_string(), &summary(0, 3660));
    assert_eq!(m.report_id, "id-1");
    assert_eq!(m.generated_at, "now");
    assert_eq!(m.analyzer_version, "0.1.0");
    assert_eq!(m.time_range.start, 0);
    assert_eq!(m.time_range.end, 3660);
    assert_eq!(m.time_range.duration_seconds, 3660);
    assert_eq!(m.time_range.start_human, "1970-01-01 00:00:00");
    assert_eq!(m.time_range.end_human, "1970-01-01 01:01:00");
}

#[test]
fn report_time_outside_the_calendar_reads_not_available() {
    let m = build_metadata(String::new(), String::new(), String::new(), &summary(0, i64::MAX));
    assert_eq!(m.time_range.end_human, "N/A");
    assert_eq!(m.time_range.duration_seconds, i64::MAX);
}

#[test]
fn propagation_timeline_carries_details_and_steps() {
    let e = ev(&[(0, "a"), (10, "b"), (100, "a"), (105, "a")]);
    let details = strings(&["x", "y", "z", "w"]);
    let t = build_propagation_timeline(&e, details, 60);
    let got: Vec<(i64, String, String, usize, Option<String>)> = t
        .into_iter()
        .map(|p| (p.timestamp, p.event_type, p.details, p.propagation_depth, p.related_to))
        .collect();
    assert_eq!(
        got,
        vec![
            (0, "a".to_string(), "x".to_string(), 0, None),
            (10, "b".to_string(), "y".to_string(), 0, Some("a".to_string())),
            (100, "a".to_string(), "z".to_string(), 1, None),
            (105, "a".to_string(), "w".to_string(), 2, Some("a".to_string())),
        ]
    );
}
