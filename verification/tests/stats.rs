use semble::chunking::Chunk;
use semble::stats::{count_calls, fits_counters, search_usage, summarize_usage, UsageRecord};

fn record(call: &str, day: i64, snippet_chars: usize, file_chars: usize) -> UsageRecord {
    UsageRecord { call: call.to_string(), day, snippet_chars, file_chars }
}

#[test]
fn usage_is_summed_per_period() {
    let today = 738_000;
    let records = vec![
        record("search", today, 100, 1000),
        record("search", today - 3, 50, 40),
        record("find_related", today - 7, 10, 500),
        record("search", today - 30, 1, 2),
    ];
    let s = summarize_usage(&records, today);
    assert_eq!(s.buckets.len(), 3);
    assert_eq!(s.buckets[0].0, "Today");
    assert_eq!(s.buckets[1].0, "Last 7 days");
    assert_eq!(s.buckets[2].0, "All time");
    let t = &s.buckets[0].1;
    assert_eq!((t.calls, t.snippet_chars, t.file_chars, t.saved_chars), (1, 100, 1000, 900));
    let w = &s.buckets[1].1;
    assert_eq!((w.calls, w.snippet_chars, w.file_chars, w.saved_chars), (2, 150, 1040, 900));
    let a = &s.buckets[2].1;
    assert_eq!((a.calls, a.snippet_chars, a.file_chars, a.saved_chars), (4, 161, 1542, 1391));
}

#[test]
fn calls_are_counted_per_type_in_name_order() {
    let records = vec![
        record("search", 1, 0, 0),
        record("find_related", 1, 0, 0),
        record("search", 2, 0, 0),
        record("outline", 3, 0, 0),
    ];
    let c = count_calls(&records);
    assert_eq!(
        c,
        vec![
            ("find_related".to_string(), 1),
            ("outline".to_string(), 1),
            ("search".to_string(), 2)
        ]
    );
    assert!(count_calls(&Vec::new()).is_empty());
}

#[test]
fn search_usage_counts_each_file_once() {
    let chunks = vec![
        Chunk::new("fn a() {}".to_string(), "src/a.rs".to_string(), 1, 1, None),
        Chunk::new("fn b() {}\n".to_string(), "src/a.rs".to_string(), 2, 3, None),
        Chunk::new("é".to_string(), "src/b.rs".to_string(), 1, 1, None),
        Chunk::new("x".to_string(), "src/unsized.rs".to_string(), 1, 1, None),
    ];
    let sizes = vec![("src/a.rs".to_string(), 100), ("src/b.rs".to_string(), 7)];
    assert_eq!(search_usage(&chunks, &sizes), Some((9 + 10 + 2 + 1, 107)));
    assert_eq!(search_usage(&Vec::new(), &sizes), Some((0, 0)));
}

#[test]
fn search_usage_refuses_totals_past_usize() {
    let chunks = vec![
        Chunk::new("a".to_string(), "x".to_string(), 1, 1, None),
        Chunk::new("b".to_string(), "y".to_string(), 1, 1, None),
    ];
    let sizes = vec![("x".to_string(), usize::MAX), ("y".to_string(), 1)];
    assert_eq!(search_usage(&chunks, &sizes), None);
}

#[test]
fn counters_fit_until_a_total_passes_usize() {
    assert!(fits_counters(&vec![record("search", 1, 5, usize::MAX)]));
    assert!(!fits_counters(&vec![record("search", 1, 0, usize::MAX), record("search", 2, 0, 1)]));
    assert!(fits_counters(&Vec::new()));
}
