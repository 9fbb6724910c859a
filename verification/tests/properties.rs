use std::time::Duration;

use agent_run_stats::stats::duration_to_ms;
use agent_run_stats::{percentile, RunStats};

#[test]
fn call_counts_add_up_to_total() {
    let mut s = RunStats::new();
    for (name, d) in [("a", 1u64), ("b", 2), ("a", 3), ("c", 4), ("b", 5), ("a", 6)] {
        s.record_tool_call(name, d);
    }
    let sum = s.summary();
    let counted: usize = sum.tools.iter().map(|t| t.call_count).sum();
    assert_eq!(counted, sum.total_tool_calls);
    assert_eq!(sum.total_tool_calls, s.tool_call_count());
}

#[test]
fn tools_listed_once_in_first_call_order() {
    let mut s = RunStats::new();
    for name in ["fetch", "search", "fetch", "read", "search"] {
        s.record_tool_call(name, 1);
    }
    let sum = s.summary();
    let names: Vec<&str> = sum.tools.iter().map(|t| t.name.as_str()).collect::<Vec<_>>();
    assert_eq!(names, vec!["fetch", "search", "read"]);
}

#[test]
fn tool_totals_and_p95_per_tool() {
    let mut s = RunStats::new();
    s.record_tool_call("a", 7);
    s.record_tool_call("b", 100);
    s.record_tool_call("a", 9);
    let sum = s.summary();
    let a = sum.tool("a").unwrap();
    assert_eq!(a.call_count, 2);
    assert_eq!(a.total_duration_ms, 16);
    assert_eq!(a.p95_duration_ms, 9);
    let b = sum.tool("b").unwrap();
    assert_eq!((b.call_count, b.total_duration_ms, b.p95_duration_ms), (1, 100, 100));
    assert!(sum.tool("c").is_none());
}

#[test]
fn most_used_tie_goes_to_first_called() {
    let mut s = RunStats::new();
    s.record_tool_call("b", 1);
    s.record_tool_call("a", 1);
    s.record_tool_call("a", 1);
    s.record_tool_call("b", 1);
    assert_eq!(s.summary().most_used_tool, Some("b".to_string()));
}

#[test]
fn merge_adds_per_tool_and_tokens() {
    let mut a = RunStats::new();
    a.record_tool_call("x", 5);
    a.record_tokens(1, 2, 0);
    let mut b = RunStats::new();
    b.record_tool_call("x", 15);
    b.record_tool_call("y", 1);
    b.record_tokens(10, 20, 0);
    a.merge(&b);
    let sum = a.summary();
    let x = sum.tool("x").unwrap();
    assert_eq!((x.call_count, x.total_duration_ms), (2, 20));
    assert_eq!((sum.tokens_in, sum.tokens_out, sum.total_tokens), (11, 22, 33));
    // The merged-in collector is left as it was.
    assert_eq!(b.tool_call_count(), 2);
    assert_eq!(b.tokens_in(), 10);
}

#[test]
fn reset_then_record_starts_over() {
    let mut s = RunStats::new();
    s.record_tool_call("x", 5);
    s.record_tokens(1, 2, 0);
    s.reset_stats();
    let sum = s.summary();
    assert_eq!(sum.total_tool_calls, 0);
    assert!(sum.tools.is_empty());
    assert_eq!(sum.total_tokens, 0);
    s.record_tool_call("y", 3);
    assert_eq!(s.summary().most_used_tool, Some("y".to_string()));
}

#[test]
fn token_records_keep_cost_bits() {
    let mut s = RunStats::new();
    s.record_tokens(3, 4, 0.25f64.to_bits());
    let r = s.token_records();
    assert_eq!(r.len(), 1);
    assert_eq!((r[0].tokens_in, r[0].tokens_out), (3, 4));
    assert_eq!(f64::from_bits(r[0].cost_usd_bits), 0.25);
}

#[test]
fn token_overflow_is_reported() {
    let mut s = RunStats::new();
    s.record_tokens(u64::MAX, 1, 0);
    s.record_tokens(1, 1, 0);
    assert_eq!(s.checked_tokens_in(), None);
    assert_eq!(s.checked_tokens_out(), Some(2));
    assert!(!s.counters_fit());
}

#[test]
fn total_token_overflow_is_reported() {
    let mut s = RunStats::new();
    s.record_tokens(u64::MAX, 1, 0);
    assert_eq!(s.checked_tokens_in(), Some(u64::MAX));
    assert!(!s.counters_fit());
}

#[test]
fn duration_overflow_is_reported() {
    let mut s = RunStats::new();
    s.record_tool_call("a", u64::MAX);
    s.record_tool_call("b", 1);
    assert!(s.counters_fit());
    s.record_tool_call("a", 1);
    assert!(!s.counters_fit());
}

#[test]
fn duration_converts_whole_seconds() {
    let mut s = RunStats::new();
    s.record_tool_call_duration("t", Duration::from_secs(2));
    s.record_tool_call_duration("t", Duration::new(1, 999_999_999));
    let sum = s.summary();
    assert_eq!(sum.tool("t").unwrap().total_duration_ms, 2000 + 1999);
}

#[test]
fn duration_beyond_u64_millis_keeps_low_bits() {
    let mut s = RunStats::new();
    s.record_tool_call_duration("t", Duration::MAX);
    assert_eq!(s.summary().tool("t").unwrap().total_duration_ms, u64::MAX);
}

#[test]
fn elapsed_does_not_run_backwards() {
    let s = RunStats::new();
    let first = s.elapsed_ms();
    let second = s.elapsed_ms();
    assert!(second >= first);
}

#[test]
fn default_is_empty() {
    let s = RunStats::default();
    assert_eq!(s.tool_call_count(), 0);
    assert_eq!(s.total_tokens(), 0);
}

#[test]
fn percentile_ignores_order_of_samples() {
    let a = [9u64, 1, 7, 3, 5, 3];
    let b = [3u64, 3, 5, 7, 9, 1];
    for p in [0u64, 10, 33, 50, 66, 95, 100] {
        assert_eq!(percentile(&a, p), percentile(&b, p));
    }
}

#[test]
fn percentile_extremes_and_monotone() {
    let s = [40u64, 10, 30, 20];
    assert_eq!(percentile(&s, 0), 10);
    assert_eq!(percentile(&s, 100), 40);
    let mut last = 0;
    for p in 0..=100u64 {
        let v = percentile(&s, p);
        assert!(v >= last);
        assert!(s.contains(&v));
        last = v;
    }
}

#[test]
fn percentile_exact_ranks() {
    let s = [10u64, 20, 30, 40];
    // rank = ceil(p * 4 / 100): 25 -> 1, 26 -> 2, 75 -> 3, 76 -> 4.
    assert_eq!(percentile(&s, 25), 10);
    assert_eq!(percentile(&s, 26), 20);
    assert_eq!(percentile(&s, 75), 30);
    assert_eq!(percentile(&s, 76), 40);
}

#[test]
fn percentile_above_hundred_is_the_maximum() {
    assert_eq!(percentile(&[4, 8, 2], 250), 8);
}

#[test]
fn summary_with_duration_keeps_the_duration() {
    let mut s = RunStats::new();
    s.record_tool_call("a", 4);
    let sum = s.summary_with_duration(1234);
    assert_eq!(sum.duration_ms, 1234);
    assert_eq!(sum.total_tool_calls, 1);
}

#[test]
fn duration_keeps_whole_millis_only() {
    let mut s = RunStats::new();
    s.record_tool_call_duration("t", Duration::from_micros(1999));
    assert_eq!(s.summary().tool("t").unwrap().total_duration_ms, 1);
}

#[test]
fn merge_equals_recording_each_in_order() {
    let mut a = RunStats::new();
    a.record_tool_call("x", 1);
    let mut b = RunStats::new();
    b.record_tool_call("y", 2);
    b.record_tool_call("x", 3);
    b.record_tokens(4, 5, 6);
    let mut c = RunStats::new();
    c.record_tool_call("x", 1);
    c.record_tool_call("y", 2);
    c.record_tool_call("x", 3);
    c.record_tokens(4, 5, 6);
    a.merge(&b);
    let (sa, sc) = (a.summary_with_duration(0), c.summary_with_duration(0));
    assert_eq!(sa.total_tool_calls, sc.total_tool_calls);
    assert_eq!(sa.tools.len(), sc.tools.len());
    for (x, y) in sa.tools.iter().zip(sc.tools.iter()) {
        assert_eq!(
            (&x.name, x.call_count, x.total_duration_ms, x.p95_duration_ms),
            (&y.name, y.call_count, y.total_duration_ms, y.p95_duration_ms)
        );
    }
    assert_eq!(a.token_records(), c.token_records());
}

#[test]
fn sort_ascending_orders_samples() {
    let v = agent_run_stats::percentile::sort_ascending(&[5, 3, 9, 1, 3, 7, 0]);
    assert_eq!(v, vec![0, 1, 3, 3, 5, 7, 9]);
}

#[test]
fn duration_to_ms_takes_whole_millis() {
    assert_eq!(duration_to_ms(&Duration::from_micros(2_500)), 2);
    assert_eq!(duration_to_ms(&Duration::from_secs(3)), 3_000);
    assert_eq!(duration_to_ms(&Duration::MAX), u64::MAX);
}

#[test]
fn p95_of_few_samples_is_the_maximum() {
    let s: Vec<u64> = (1..=19u64).rev().collect();
    assert_eq!(percentile(&s, 95), 19);
    let t: Vec<u64> = (1..=20u64).collect();
    assert_eq!(percentile(&t, 95), 19);
}

#[test]
fn every_entry_counts_a_called_tool_once() {
    let mut s = RunStats::new();
    for name in ["a", "b", "a", "c"] {
        s.record_tool_call(name, 1);
    }
    let sum = s.summary();
    for (i, t) in sum.tools.iter().enumerate() {
        assert!(t.call_count >= 1);
        for u in &sum.tools[i + 1..] {
            assert_ne!(t.name, u.name);
        }
    }
}
