//! The collector of one agent run.
use std::time::{Duration, Instant};
use vstd::prelude::*;

use crate::clock;
use crate::percentile::percentile;
use crate::records::{
    aggregate_of, aggregates, durations_fit, durations_of, is_most_used,
    lemma_absent_tool_has_no_durations, lemma_sum_of_nonnegative, lemma_tool_names, sum_of,
    tool_names, total_tokens_in, total_tokens_out, TokenRecord, ToolCall, ToolCallStat,
};
use crate::summary::{RunSummary, ToolSummary};

verus! {

/// Collects stats during a single agent run.
pub struct RunStats {
    start: Instant,
    tool_calls: Vec<ToolCallStat>,
    token_records: Vec<TokenRecord>,
}

/// What a collector holds, as the contracts see it.
pub struct RunStatsView {
    pub tool_calls: Seq<ToolCall>,
    pub token_records: Seq<TokenRecord>,
}

impl View for RunStats {
    type V = RunStatsView;

    closed spec fn view(&self) -> RunStatsView {
        RunStatsView {
            tool_calls: self.tool_calls@.map_values(|c: ToolCallStat| c@),
            token_records: self.token_records@,
        }
    }
}

impl RunStatsView {
    /// Input tokens over all records.
    pub open spec fn tokens_in(self) -> int {
        total_tokens_in(self.token_records)
    }

    /// Output tokens over all records.
    pub open spec fn tokens_out(self) -> int {
        total_tokens_out(self.token_records)
    }

    /// Every counter that a summary adds up fits in a `u64`.
    pub open spec fn counters_fit(self) -> bool {
        &&& self.tokens_in() + self.tokens_out() <= u64::MAX
        &&& durations_fit(self.tool_calls)
    }
}

/// The low 64 bits of `x`, which is what `as u64` keeps.
pub open spec fn low_64_bits(x: u128) -> u64 {
    x as u64
}

/// The whole milliseconds in `d`, truncated to `u64` as `as u64` does.
pub fn duration_to_ms(d: &Duration) -> (ms: u64)
    ensures
        ms == low_64_bits(clock::millis_of(*d)),
{
    let ms = clock::whole_millis(d);
    ms as u64
}

/// Sum of `samples`, or `None` where it exceeds `u64::MAX`.
pub fn checked_sum(samples: &[u64]) -> (r: Option<u64>)
    ensures
        r == (if sum_of(samples@) <= u64::MAX {
            Some(sum_of(samples@) as u64)
        } else {
            None::<u64>
        }),
{
    let mut acc: u64 = 0;
    let mut i: usize = 0;
    while i < samples.len()
        invariant
            i <= samples.len(),
            acc == sum_of(samples@.take(i as int)),
        decreases samples.len() - i,
    {
        assert(samples@.take(i + 1).drop_last() == samples@.take(i as int));
        match acc.checked_add(samples[i]) {
            Some(next) => {
                acc = next;
            },
            None => {
                proof {
                    lemma_sum_of_prefix_monotone(samples@, i + 1);
                }
                return None;
            },
        }
        i = i + 1;
    }
    assert(samples@.take(samples.len() as int) == samples@);
    Some(acc)
}

/// A prefix never sums to more than the whole.
proof fn lemma_sum_of_prefix_monotone(s: Seq<u64>, k: int)
    requires
        0 <= k <= s.len(),
    ensures
        sum_of(s.take(k)) <= sum_of(s),
    decreases s.len() - k,
{
    if k < s.len() {
        lemma_sum_of_prefix_monotone(s, k + 1);
        assert(s.take(k + 1).drop_last() == s.take(k));
    } else {
        assert(s.take(k) == s);
    }
}

impl RunStats {
    /// When the run timer started.
    pub closed spec fn started(&self) -> Instant {
        self.start
    }

    /// Create a new stats collector. The run timer starts here.
    pub fn new() -> (s: Self)
        ensures
            s@.tool_calls == Seq::<ToolCall>::empty(),
            s@.token_records == Seq::<TokenRecord>::empty(),
    {
        let s = RunStats { start: clock::now(), tool_calls: Vec::new(), token_records: Vec::new() };
        assert(s@.tool_calls == Seq::<ToolCall>::empty());
        s
    }

    /// Record a tool call with its name and latency in milliseconds.
    pub fn record_tool_call(&mut self, name: &str, duration_ms: u64)
        ensures
            final(self)@.tool_calls == old(self)@.tool_calls.push(
                ToolCall { name: name@, duration_ms: duration_ms },
            ),
            final(self)@.token_records == old(self)@.token_records,
            final(self).started() == old(self).started(),
    {
        let ghost before = self.tool_calls@;
        let call = ToolCallStat { name: name.to_owned(), duration_ms };
        self.tool_calls.push(call);
        assert(self.tool_calls@.map_values(|c: ToolCallStat| c@) == before.map_values(
            |c: ToolCallStat| c@,
        ).push(call@));
    }

    /// Record a tool call using a [`Duration`] instead of raw milliseconds.
    ///
    /// The duration is taken in whole milliseconds, so sub-millisecond
    /// durations count as `0`; a count of milliseconds beyond `u64::MAX`
    /// keeps its low 64 bits.
    pub fn record_tool_call_duration(&mut self, name: &str, duration: Duration)
        ensures
            final(self)@.tool_calls == old(self)@.tool_calls.push(
                ToolCall { name: name@, duration_ms: low_64_bits(clock::millis_of(duration)) },
            ),
            final(self)@.token_records == old(self)@.token_records,
            final(self).started() == old(self).started(),
    {
        let ms = duration_to_ms(&duration);
        self.record_tool_call(name, ms);
    }

    /// Record token usage and cost for one LLM call; the cost is the bit
    /// pattern of an `f64` amount in USD.
    pub fn record_tokens(&mut self, tokens_in: u64, tokens_out: u64, cost_usd_bits: u64)
        ensures
            final(self)@.token_records == old(self)@.token_records.push(
                TokenRecord { tokens_in, tokens_out, cost_usd_bits },
            ),
            final(self)@.tool_calls == old(self)@.tool_calls,
            final(self).started() == old(self).started(),
    {
        self.token_records.push(TokenRecord { tokens_in, tokens_out, cost_usd_bits });
    }

    /// Elapsed milliseconds since the run started: the whole milliseconds
    /// of the time that the clock shows as passed (truncated to `u64`).
    pub fn elapsed_ms(&self) -> (ms: u64)
        ensures
            exists|d: Duration| ms == low_64_bits(#[trigger] clock::millis_of(d)),
    {
        let elapsed = clock::elapsed_since(&self.start);
        duration_to_ms(&elapsed)
    }

    /// Number of tool calls recorded so far.
    pub fn tool_call_count(&self) -> (n: usize)
        ensures
            n == self@.tool_calls.len(),
    {
        self.tool_calls.len()
    }

    /// The token records, in recording order.
    pub fn token_records(&self) -> (r: &[TokenRecord])
        ensures
            r@ == self@.token_records,
    {
        self.token_records.as_slice()
    }

    /// Total tokens in, or `None` where the sum exceeds `u64::MAX`.
    pub fn checked_tokens_in(&self) -> (r: Option<u64>)
        ensures
            r == (if self@.tokens_in() <= u64::MAX {
                Some(self@.tokens_in() as u64)
            } else {
                None::<u64>
            }),
    {
        let records = &self.token_records;
        let mut acc: u64 = 0;
        let mut i: usize = 0;
        while i < records.len()
            invariant
                i <= records.len(),
                records@ == self@.token_records,
                acc == total_tokens_in(records@.take(i as int)),
            decreases records.len() - i,
        {
            assert(records@.take(i + 1).drop_last() == records@.take(i as int));
            match acc.checked_add(records[i].tokens_in) {
                Some(next) => {
                    acc = next;
                },
                None => {
                    proof {
                        lemma_tokens_in_prefix_monotone(records@, i + 1);
                    }
                    return None;
                },
            }
            i = i + 1;
        }
        assert(records@.take(records.len() as int) == records@);
        Some(acc)
    }

    /// Total tokens out, or `None` where the sum exceeds `u64::MAX`.
    pub fn checked_tokens_out(&self) -> (r: Option<u64>)
        ensures
            r == (if self@.tokens_out() <= u64::MAX {
                Some(self@.tokens_out() as u64)
            } else {
                None::<u64>
            }),
    {
        let records = &self.token_records;
        let mut acc: u64 = 0;
        let mut i: usize = 0;
        while i < records.len()
            invariant
                i <= records.len(),
                records@ == self@.token_records,
                acc == total_tokens_out(records@.take(i as int)),
            decreases records.len() - i,
        {
            assert(records@.take(i + 1).drop_last() == records@.take(i as int));
            match acc.checked_add(records[i].tokens_out) {
                Some(next) => {
                    acc = next;
                },
                None => {
                    proof {
                        lemma_tokens_out_prefix_monotone(records@, i + 1);
                    }
                    return None;
                },
            }
            i = i + 1;
        }
        assert(records@.take(records.len() as int) == records@);
        Some(acc)
    }

    /// Total tokens in (sum of all recorded calls).
    pub fn tokens_in(&self) -> (n: u64)
        requires
            self@.tokens_in() <= u64::MAX,
        ensures
            n == self@.tokens_in(),
    {
        proof {
            lemma_token_totals_nonnegative(self@.token_records);
        }
        match self.checked_tokens_in() {
            Some(n) => n,
            None => 0,
        }
    }

    /// Total tokens out.
    pub fn tokens_out(&self) -> (n: u64)
        requires
            self@.tokens_out() <= u64::MAX,
        ensures
            n == self@.tokens_out(),
    {
        proof {
            lemma_token_totals_nonnegative(self@.token_records);
        }
        match self.checked_tokens_out() {
            Some(n) => n,
            None => 0,
        }
    }

    /// Total tokens (input + output) across all recorded LLM calls.
    pub fn total_tokens(&self) -> (n: u64)
        requires
            self@.tokens_in() + self@.tokens_out() <= u64::MAX,
        ensures
            n == self@.tokens_in() + self@.tokens_out(),
    {
        proof {
            lemma_token_totals_nonnegative(self@.token_records);
        }
        self.tokens_in() + self.tokens_out()
    }

    /// Merge another collector's records into this one.
    ///
    /// Useful for aggregating stats collected on worker threads or in
    /// sub-runs. The timer of `self` is left untouched.
    pub fn merge(&mut self, other: &RunStats)
        ensures
            final(self)@.tool_calls == old(self)@.tool_calls + other@.tool_calls,
            final(self)@.token_records == old(self)@.token_records + other@.token_records,
            final(self).started() == old(self).started(),
    {
        let ghost calls_before = self.tool_calls@;
        let ghost records_before = self.token_records@;
        let mut i: usize = 0;
        while i < other.tool_calls.len()
            invariant
                i <= other.tool_calls.len(),
                self.tool_calls@.map_values(|c: ToolCallStat| c@) == calls_before.map_values(
                    |c: ToolCallStat| c@,
                ) + other.tool_calls@.take(i as int).map_values(|c: ToolCallStat| c@),
                self.token_records@ == records_before,
                self.start == old(self).start,
            decreases other.tool_calls.len() - i,
        {
            let ghost prev = self.tool_calls@;
            let call = ToolCallStat {
                name: other.tool_calls[i].name.clone(),
                duration_ms: other.tool_calls[i].duration_ms,
            };
            self.tool_calls.push(call);
            assert(self.tool_calls@.map_values(|c: ToolCallStat| c@) == prev.map_values(
                |c: ToolCallStat| c@,
            ).push(call@));
            assert(other.tool_calls@.take(i + 1).map_values(|c: ToolCallStat| c@)
                == other.tool_calls@.take(i as int).map_values(|c: ToolCallStat| c@).push(
                call@,
            ));
            i = i + 1;
        }
        assert(other.tool_calls@.take(other.tool_calls.len() as int) == other.tool_calls@);
        let ghost calls_after = self.tool_calls@;
        let mut j: usize = 0;
        while j < other.token_records.len()
            invariant
                j <= other.token_records.len(),
                self.token_records@ == records_before + other.token_records@.take(j as int),
                self.tool_calls@ == calls_after,
                self.start == old(self).start,
            decreases other.token_records.len() - j,
        {
            self.token_records.push(other.token_records[j]);
            assert(other.token_records@.take(j + 1) == other.token_records@.take(j as int).push(
                other.token_records@[j as int],
            ));
            j = j + 1;
        }
        assert(other.token_records@.take(other.token_records.len() as int)
            == other.token_records@);
    }

    /// Whether `names` holds `name`.
    fn holds_name(names: &Vec<String>, name: &String) -> (b: bool)
        ensures
            b == names@.map_values(|s: String| s@).contains(name@),
    {
        let ghost seen = names@.map_values(|s: String| s@);
        let mut i: usize = 0;
        while i < names.len()
            invariant
                i <= names.len(),
                seen == names@.map_values(|s: String| s@),
                forall|j: int| 0 <= j < i ==> seen[j] != name@,
            decreases names.len() - i,
        {
            if names[i] == *name {
                assert(seen[i as int] == name@);
                return true;
            }
            i = i + 1;
        }
        false
    }

    /// The distinct tool names, in the order of their first call.
    fn distinct_tool_names(&self) -> (names: Vec<String>)
        ensures
            names@.map_values(|s: String| s@) == tool_names(self@.tool_calls),
    {
        let ghost calls = self@.tool_calls;
        let mut names: Vec<String> = Vec::new();
        let mut i: usize = 0;
        while i < self.tool_calls.len()
            invariant
                i <= self.tool_calls.len(),
                calls == self@.tool_calls,
                calls == self.tool_calls@.map_values(|c: ToolCallStat| c@),
                names@.map_values(|s: String| s@) == tool_names(calls.take(i as int)),
            decreases self.tool_calls.len() - i,
        {
            assert(calls.take(i + 1).drop_last() == calls.take(i as int));
            assert(calls.take(i + 1).last() == calls[i as int]);
            let name = &self.tool_calls[i].name;
            if !Self::holds_name(&names, name) {
                let ghost before = names@;
                let owned = name.clone();
                names.push(owned);
                assert(names@.map_values(|s: String| s@) == before.map_values(|s: String| s@).push(
                    owned@,
                ));
            }
            i = i + 1;
        }
        assert(calls.take(self.tool_calls.len() as int) == calls);
        names
    }

    /// The durations of the calls of tool `name`, in recording order.
    fn durations_for(&self, name: &String) -> (durations: Vec<u64>)
        ensures
            durations@ == durations_of(self@.tool_calls, name@),
    {
        let ghost calls = self@.tool_calls;
        let mut durations: Vec<u64> = Vec::new();
        let mut i: usize = 0;
        while i < self.tool_calls.len()
            invariant
                i <= self.tool_calls.len(),
                calls == self@.tool_calls,
                calls == self.tool_calls@.map_values(|c: ToolCallStat| c@),
                durations@ == durations_of(calls.take(i as int), name@),
            decreases self.tool_calls.len() - i,
        {
            assert(calls.take(i + 1).drop_last() == calls.take(i as int));
            assert(calls.take(i + 1).last() == calls[i as int]);
            if self.tool_calls[i].name == *name {
                durations.push(self.tool_calls[i].duration_ms);
            }
            i = i + 1;
        }
        assert(calls.take(self.tool_calls.len() as int) == calls);
        durations
    }

    /// Whether every counter that [`RunStats::summary`] adds up fits in a
    /// `u64`.
    pub fn counters_fit(&self) -> (b: bool)
        ensures
            b == self@.counters_fit(),
    {
        proof {
            lemma_token_totals_nonnegative(self@.token_records);
        }
        let tokens_fit = match (self.checked_tokens_in(), self.checked_tokens_out()) {
            (Some(a), Some(b)) => a.checked_add(b).is_some(),
            _ => false,
        };
        if !tokens_fit {
            return false;
        }
        let names = self.distinct_tool_names();
        let ghost calls = self@.tool_calls;
        let ghost seen = names@.map_values(|s: String| s@);
        let mut k: usize = 0;
        while k < names.len()
            invariant
                k <= names.len(),
                calls == self@.tool_calls,
                seen == names@.map_values(|s: String| s@),
                seen == tool_names(calls),
                forall|j: int| 0 <= j < k ==> sum_of(#[trigger] durations_of(calls, seen[j])) <= u64::MAX,
            decreases names.len() - k,
        {
            let durations = self.durations_for(&names[k]);
            if checked_sum(durations.as_slice()).is_none() {
                assert(!durations_fit(calls));
                return false;
            }
            assert(seen[k as int] == names@[k as int]@);
            k = k + 1;
        }
        assert forall|name: Seq<char>| sum_of(#[trigger] durations_of(calls, name)) <= u64::MAX by {
            if seen.contains(name) {
                let j = choose|j: int| 0 <= j < seen.len() && seen[j] == name;
            } else {
                lemma_absent_tool_has_no_durations(calls, name);
            }
        }
        true
    }

    /// Produce an aggregated summary; its `duration_ms` is the time that the
    /// run timer shows.
    pub fn summary(&self) -> (r: RunSummary)
        requires
            self@.counters_fit(),
        ensures
            exists|d: Duration| r.duration_ms == low_64_bits(#[trigger] clock::millis_of(d)),
            r.names_distinct(),
            r.total_tool_calls == self@.tool_calls.len(),
            r.tokens_in == self@.tokens_in(),
            r.tokens_out == self@.tokens_out(),
            r.total_tokens == self@.tokens_in() + self@.tokens_out(),
            r.tool_aggregates() == aggregates(self@.tool_calls),
            r.most_used_agrees(),
    {
        self.summary_with_duration(self.elapsed_ms())
    }

    /// The aggregated summary of the records, for a run that has lasted
    /// `duration_ms`.
    pub fn summary_with_duration(&self, duration_ms: u64) -> (r: RunSummary)
        requires
            self@.counters_fit(),
        ensures
            r.names_distinct(),
            r.duration_ms == duration_ms,
            r.total_tool_calls == self@.tool_calls.len(),
            r.tokens_in == self@.tokens_in(),
            r.tokens_out == self@.tokens_out(),
            r.total_tokens == self@.tokens_in() + self@.tokens_out(),
            r.tool_aggregates() == aggregates(self@.tool_calls),
            r.most_used_agrees(),
    {
        proof {
            lemma_token_totals_nonnegative(self@.token_records);
            lemma_tool_names(self@.tool_calls);
        }
        let ghost calls = self@.tool_calls;
        let ghost all = aggregates(calls);
        let names = self.distinct_tool_names();
        let ghost seen = names@.map_values(|s: String| s@);
        let mut tools: Vec<ToolSummary> = Vec::new();
        let mut k: usize = 0;
        while k < names.len()
            invariant
                k <= names.len(),
                calls == self@.tool_calls,
                all == aggregates(calls),
                seen == names@.map_values(|s: String| s@),
                seen == tool_names(calls),
                durations_fit(calls),
                tools@.map_values(|t: ToolSummary| t@) == all.take(k as int),
            decreases names.len() - k,
        {
            let durations = self.durations_for(&names[k]);
            let total = match checked_sum(durations.as_slice()) {
                Some(t) => t,
                None => 0,
            };
            let p95 = percentile(durations.as_slice(), 95);
            let entry = ToolSummary {
                name: names[k].clone(),
                call_count: durations.len(),
                total_duration_ms: total,
                p95_duration_ms: p95,
            };
            assert(seen[k as int] == names@[k as int]@);
            proof {
                lemma_sum_of_nonnegative(durations@);
            }
            assert(entry@ == aggregate_of(calls, seen[k as int]));
            let ghost before = tools@;
            tools.push(entry);
            assert(tools@.map_values(|t: ToolSummary| t@) == before.map_values(|t: ToolSummary| t@).push(entry@));
            assert(all.take(k + 1) == all.take(k as int).push(all[k as int]));
            k = k + 1;
        }
        assert(all.take(names.len() as int) == all);
        let ghost views = tools@.map_values(|t: ToolSummary| t@);
        let mut best: usize = 0;
        let mut j: usize = 1;
        while j < tools.len()
            invariant
                views == tools@.map_values(|t: ToolSummary| t@),
                tools.len() > 0 ==> {
                    &&& 1 <= j <= tools.len()
                    &&& best < j
                    &&& forall|m: int| 0 <= m < j ==> views[m].call_count <= views[best as int].call_count
                    &&& forall|m: int| 0 <= m < best ==> views[m].call_count < views[best as int].call_count
                },
            decreases tools.len() - j,
        {
            if tools[j].call_count > tools[best].call_count {
                best = j;
            }
            j = j + 1;
        }
        let most_used_tool = if tools.len() > 0 {
            assert(is_most_used(views, best as int));
            Some(tools[best].name.clone())
        } else {
            None
        };
        let tokens_in = self.tokens_in();
        let tokens_out = self.tokens_out();
        let r = RunSummary {
            duration_ms,
            total_tool_calls: self.tool_calls.len(),
            tokens_in,
            tokens_out,
            tools,
            most_used_tool,
            total_tokens: tokens_in + tokens_out,
        };
        proof {
            if calls.len() > 0 {
                assert(seen.contains(calls[0].name));
            }
            assert(r.tool_aggregates() == views);
            assert forall|a: int, b: int|
                0 <= a < r.tools.len() && 0 <= b < r.tools.len() && a != b implies
                #[trigger] r.tools@[a].name@ != #[trigger] r.tools@[b].name@ by {
                assert(r.tool_aggregates()[a].name == seen[a]);
                assert(r.tool_aggregates()[b].name == seen[b]);
            }
            if r.tools.len() > 0 {
                assert(is_most_used(r.tool_aggregates(), best as int));
            }
        }
        r
    }

    /// Reset all recorded stats (timer continues from original start).
    pub fn reset_stats(&mut self)
        ensures
            final(self)@.tool_calls == Seq::<ToolCall>::empty(),
            final(self)@.token_records == Seq::<TokenRecord>::empty(),
            final(self).started() == old(self).started(),
    {
        self.tool_calls.clear();
        self.token_records.clear();
        assert(self@.tool_calls == Seq::<ToolCall>::empty());
    }
}

impl Default for RunStats {
    fn default() -> (s: Self)
        ensures
            s@.tool_calls == Seq::<ToolCall>::empty(),
            s@.token_records == Seq::<TokenRecord>::empty(),
    {
        Self::new()
    }
}

/// Token totals are never negative.
proof fn lemma_token_totals_nonnegative(records: Seq<TokenRecord>)
    ensures
        total_tokens_in(records) >= 0,
        total_tokens_out(records) >= 0,
    decreases records.len(),
{
    if records.len() > 0 {
        lemma_token_totals_nonnegative(records.drop_last());
    }
}

/// A prefix of the records never has more input tokens than the whole.
proof fn lemma_tokens_in_prefix_monotone(s: Seq<TokenRecord>, k: int)
    requires
        0 <= k <= s.len(),
    ensures
        total_tokens_in(s.take(k)) <= total_tokens_in(s),
    decreases s.len() - k,
{
    if k < s.len() {
        lemma_tokens_in_prefix_monotone(s, k + 1);
        assert(s.take(k + 1).drop_last() == s.take(k));
    } else {
        assert(s.take(k) == s);
    }
}

/// A prefix of the records never has more output tokens than the whole.
proof fn lemma_tokens_out_prefix_monotone(s: Seq<TokenRecord>, k: int)
    requires
        0 <= k <= s.len(),
    ensures
        total_tokens_out(s.take(k)) <= total_tokens_out(s),
    decreases s.len() - k,
{
    if k < s.len() {
        lemma_tokens_out_prefix_monotone(s, k + 1);
        assert(s.take(k + 1).drop_last() == s.take(k));
    } else {
        assert(s.take(k) == s);
    }
}

} // verus!
