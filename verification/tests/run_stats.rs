use std::time::Duration;

use agent_run_stats::{percentile, RunStats, RunSummary, ToolSummary};

/// The recorded cost in USD, added up over the records in order.
fn cost_usd(s: &RunStats) -> f64 {
    s.token_records()
        .iter()
        .map(|r| f64::from_bits(r.cost_usd_bits))
        .sum()
}

fn tool<'a>(sum: &'a RunSummary, name: &str) -> &'a ToolSummary {
    sum.tool(name).expect("tool is in the summary")
}

fn avg_duration_ms(sum: &RunSummary, name: &str) -> f64 {
    let t = tool(sum, name);
    t.total_duration_ms as f64 / t.call_count as f64
}

#[test]
fn new_has_zero_counts() {
    let s = RunStats::new();
    assert_eq!(s.tool_call_count(), 0);
    assert_eq!(s.tokens_in(), 0);
    assert_eq!(s.tokens_out(), 0);
    assert_eq!(cost_usd(&s), 0.0);
}

#[test]
fn record_tool_call() {
    let mut s = RunStats::new();
    s.record_tool_call("search", 50);
    assert_eq!(s.tool_call_count(), 1);
}

#[test]
fn record_tokens() {
    let mut s = RunStats::new();
    s.record_tokens(100, 50, 0.001f64.to_bits());
    assert_eq!(s.tokens_in(), 100);
    assert_eq!(s.tokens_out(), 50);
    assert!((cost_usd(&s) - 0.001).abs() < 1e-9);
}

#[test]
fn multiple_token_records_summed() {
    let mut s = RunStats::new();
    s.record_tokens(100, 50, 0.001f64.to_bits());
    s.record_tokens(200, 100, 0.002f64.to_bits());
    assert_eq!(s.tokens_in(), 300);
    assert_eq!(s.tokens_out(), 150);
    assert!((cost_usd(&s) - 0.003).abs() < 1e-9);
}

#[test]
fn summary_total_tool_calls() {
    let mut s = RunStats::new();
    s.record_tool_call("a", 10);
    s.record_tool_call("b", 20);
    assert_eq!(s.summary().total_tool_calls, 2);
}

#[test]
fn summary_counts_by_name() {
    let mut s = RunStats::new();
    s.record_tool_call("search", 10);
    s.record_tool_call("search", 20);
    s.record_tool_call("fetch", 30);
    let sum = s.summary();
    assert_eq!(tool(&sum, "search").call_count, 2);
    assert_eq!(tool(&sum, "fetch").call_count, 1);
}

#[test]
fn summary_most_used_tool() {
    let mut s = RunStats::new();
    s.record_tool_call("a", 10);
    s.record_tool_call("a", 20);
    s.record_tool_call("b", 30);
    assert_eq!(s.summary().most_used_tool, Some("a".to_string()));
}

#[test]
fn summary_most_used_none_when_empty() {
    let s = RunStats::new();
    assert!(s.summary().most_used_tool.is_none());
}

#[test]
fn summary_avg_duration() {
    let mut s = RunStats::new();
    s.record_tool_call("t", 10);
    s.record_tool_call("t", 30);
    let sum = s.summary();
    assert!((avg_duration_ms(&sum, "t") - 20.0).abs() < 1e-6);
}

#[test]
fn summary_tokens_match() {
    let mut s = RunStats::new();
    s.record_tokens(500, 200, 0.005f64.to_bits());
    let sum = s.summary();
    assert_eq!(sum.tokens_in, 500);
    assert_eq!(sum.tokens_out, 200);
    assert!((cost_usd(&s) - 0.005).abs() < 1e-9);
}

#[test]
fn reset_stats_clears_records() {
    let mut s = RunStats::new();
    s.record_tool_call("t", 10);
    s.record_tokens(100, 50, 0.01f64.to_bits());
    s.reset_stats();
    assert_eq!(s.tool_call_count(), 0);
    assert_eq!(s.tokens_in(), 0);
}

#[test]
fn record_tool_call_duration_uses_millis() {
    let mut s = RunStats::new();
    s.record_tool_call_duration("search", Duration::from_millis(120));
    assert_eq!(s.tool_call_count(), 1);
    assert_eq!(avg_duration_ms(&s.summary(), "search"), 120.0);
}

#[test]
fn record_tool_call_duration_rounds_sub_millis_to_zero() {
    let mut s = RunStats::new();
    s.record_tool_call_duration("fast", Duration::from_micros(500));
    assert_eq!(avg_duration_ms(&s.summary(), "fast"), 0.0);
}

#[test]
fn total_tokens_sums_in_and_out() {
    let mut s = RunStats::new();
    s.record_tokens(100, 50, 0.001f64.to_bits());
    s.record_tokens(200, 100, 0.002f64.to_bits());
    assert_eq!(s.total_tokens(), 450);
    assert_eq!(s.summary().total_tokens, 450);
}

#[test]
fn merge_combines_records() {
    let mut a = RunStats::new();
    a.record_tool_call("search", 10);
    a.record_tokens(100, 50, 0.001f64.to_bits());

    let mut b = RunStats::new();
    b.record_tool_call("search", 30);
    b.record_tool_call("fetch", 5);
    b.record_tokens(200, 100, 0.002f64.to_bits());

    a.merge(&b);
    let sum = a.summary();
    assert_eq!(sum.total_tool_calls, 3);
    assert_eq!(tool(&sum, "search").call_count, 2);
    assert_eq!(sum.tokens_in, 300);
    assert_eq!(sum.tokens_out, 150);
    assert!((cost_usd(&a) - 0.003).abs() < 1e-9);
}

#[test]
fn summary_p95_single_sample() {
    let mut s = RunStats::new();
    s.record_tool_call("t", 42);
    assert_eq!(tool(&s.summary(), "t").p95_duration_ms as f64, 42.0);
}

#[test]
fn summary_p95_picks_high_tail() {
    let mut s = RunStats::new();
    for d in [10u64, 20, 30, 40, 50, 60, 70, 80, 90, 1000] {
        s.record_tool_call("t", d);
    }
    // Nearest-rank p95 over 10 samples -> rank ceil(9.5) = 10 -> the max.
    assert_eq!(tool(&s.summary(), "t").p95_duration_ms as f64, 1000.0);
}

#[test]
fn percentile_empty_is_zero() {
    assert_eq!(percentile(&[], 95) as f64, 0.0);
}

#[test]
fn percentile_median() {
    // 1-based nearest rank for p50 over 5 elements -> rank ceil(2.5)=3.
    assert_eq!(percentile(&[1, 2, 3, 4, 5], 50) as f64, 3.0);
}

#[test]
fn percentile_handles_unsorted_input() {
    assert_eq!(percentile(&[5, 1, 3, 2, 4], 100) as f64, 5.0);
    assert_eq!(percentile(&[5, 1, 3, 2, 4], 0) as f64, 1.0);
}

#[test]
fn full_run_summary_is_consistent() {
    let mut stats = RunStats::new();

    stats.record_tool_call("search", 100);
    stats.record_tool_call_duration("search", Duration::from_millis(300));
    stats.record_tool_call("fetch", 50);

    stats.record_tokens(1_000, 400, 0.012f64.to_bits());
    stats.record_tokens(500, 200, 0.006f64.to_bits());

    let summary = stats.summary();

    assert_eq!(summary.total_tool_calls, 3);
    assert_eq!(tool(&summary, "search").call_count, 2);
    assert_eq!(tool(&summary, "fetch").call_count, 1);
    assert_eq!(summary.most_used_tool, Some("search".to_string()));

    assert_eq!(summary.tokens_in, 1_500);
    assert_eq!(summary.tokens_out, 600);
    assert_eq!(summary.total_tokens, 2_100);
    assert!((cost_usd(&stats) - 0.018).abs() < 1e-9);

    // search averaged (100 + 300) / 2 = 200ms.
    assert!((avg_duration_ms(&summary, "search") - 200.0).abs() < 1e-9);
    // p95 over two samples picks the slower one.
    assert_eq!(tool(&summary, "search").p95_duration_ms as f64, 300.0);
}

#[test]
fn merge_then_reset_behaves() {
    let mut main = RunStats::new();
    main.record_tool_call("x", 10);

    let mut worker = RunStats::new();
    worker.record_tool_call("y", 20);
    worker.record_tokens(10, 5, 0.0001f64.to_bits());

    main.merge(&worker);
    assert_eq!(main.summary().total_tool_calls, 2);

    main.reset_stats();
    assert_eq!(main.tool_call_count(), 0);
    assert_eq!(main.total_tokens(), 0);
}
