# agent_run_stats

A run-statistics collector for AI agent sessions, verified with Verus:
tool calls with their latency, token usage with its cost, and the summary
of a finished run (per-tool call counts, duration totals and nearest-rank
p95 latencies, the most used tool, token totals).

- `src/records.rs`: the record types and the model the contracts use.
- `src/percentile.rs`: merge sort and nearest-rank percentiles.
- `src/stats.rs`: the collector `RunStats`.
- `src/summary.rs`: `RunSummary` and `ToolSummary`.
- `src/laws.rs`: properties that span several calls.
- `src/clock.rs`: the run timer (`std::time`).
- `app/`: the `f64` view of costs and averages, the hash-map summary and
  its JSON form (`serde_json`).
