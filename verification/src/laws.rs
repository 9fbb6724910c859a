//! Properties of the collector and its summaries that span several calls.
use vstd::prelude::*;

use crate::percentile::{
    ascending, lemma_ascending_ensures, lemma_sorted_is_ascending, nearest_rank_index,
    percentile_of, sample_leq,
};
use crate::records::{
    aggregate_of, aggregates, count_of, durations_of, lemma_absent_tool_has_no_durations,
    lemma_durations_of_concat, lemma_sum_of_concat, lemma_tokens_in_concat,
    lemma_tokens_out_concat, lemma_tool_names, sum_of, tool_names, total_tokens_in,
    total_tokens_out, TokenRecord, ToolAggregate, ToolCall,
};
use crate::stats::RunStatsView;

verus! {

/// The call counts of a list of tool aggregates added up.
pub open spec fn sum_of_counts(tools: Seq<ToolAggregate>) -> int
    decreases tools.len(),
{
    if tools.len() == 0 {
        0
    } else {
        sum_of_counts(tools.drop_last()) + tools.last().call_count
    }
}

/// The calls of the tools `names` added up.
spec fn calls_of_names(names: Seq<Seq<char>>, calls: Seq<ToolCall>) -> int
    decreases names.len(),
{
    if names.len() == 0 {
        0
    } else {
        calls_of_names(names.drop_last(), calls) + count_of(calls, names.last())
    }
}

proof fn lemma_sum_of_counts_by_names(names: Seq<Seq<char>>, calls: Seq<ToolCall>)
    ensures
        sum_of_counts(names.map_values(|name: Seq<char>| aggregate_of(calls, name)))
            == calls_of_names(names, calls),
    decreases names.len(),
{
    if names.len() > 0 {
        let f = |name: Seq<char>| aggregate_of(calls, name);
        assert(names.map_values(f).drop_last() == names.drop_last().map_values(f));
        lemma_sum_of_counts_by_names(names.drop_last(), calls);
    }
}

/// One more call adds one to the count of its tool and nothing to the
/// others.
proof fn lemma_calls_of_names_push(names: Seq<Seq<char>>, calls: Seq<ToolCall>, call: ToolCall)
    requires
        names.no_duplicates(),
    ensures
        calls_of_names(names, calls.push(call)) == calls_of_names(names, calls) + if names.contains(
            call.name,
        ) {
            1int
        } else {
            0int
        },
    decreases names.len(),
{
    if names.len() > 0 {
        let rest = names.drop_last();
        assert(calls.push(call).drop_last() == calls);
        assert forall|i: int, j: int|
            0 <= i < rest.len() && 0 <= j < rest.len() && i != j implies rest[i] != rest[j] by {
            assert(names[i] != names[j]);
        }
        lemma_calls_of_names_push(rest, calls, call);
        if rest.contains(call.name) {
            let i = choose|i: int| 0 <= i < rest.len() && rest[i] == call.name;
            assert(names[i] == call.name);
            assert(names.last() != call.name);
            assert(names.contains(call.name));
        } else if names.last() == call.name {
            assert(names.contains(call.name));
        } else {
            assert(!names.contains(call.name)) by {
                if names.contains(call.name) {
                    let i = choose|i: int| 0 <= i < names.len() && names[i] == call.name;
                    assert(rest[i] == call.name);
                }
            }
        }
    }
}

/// Every recorded call is counted under exactly one tool: the call counts
/// of a summary's entries add up to the number of calls.
pub proof fn law_call_counts_add_up(calls: Seq<ToolCall>)
    ensures
        sum_of_counts(aggregates(calls)) == calls.len(),
    decreases calls.len(),
{
    lemma_sum_of_counts_by_names(tool_names(calls), calls);
    if calls.len() > 0 {
        let rest = calls.drop_last();
        let call = calls.last();
        assert(rest.push(call) == calls);
        law_call_counts_add_up(rest);
        lemma_sum_of_counts_by_names(tool_names(rest), rest);
        lemma_tool_names(rest);
        lemma_calls_of_names_push(tool_names(rest), rest, call);
        if !tool_names(rest).contains(call.name) {
            lemma_absent_tool_has_no_durations(rest, call.name);
            assert(tool_names(calls).drop_last() == tool_names(rest));
        }
    }
}

/// Some entry is for tool `name`.
pub open spec fn has_entry(tools: Seq<ToolAggregate>, name: Seq<char>) -> bool {
    exists|i: int| 0 <= i < tools.len() && #[trigger] tools[i].name == name
}

/// Some call is of tool `name`.
pub open spec fn was_called(calls: Seq<ToolCall>, name: Seq<char>) -> bool {
    exists|j: int| 0 <= j < calls.len() && #[trigger] calls[j].name == name
}

/// A tool that some call has has at least one call counted.
proof fn lemma_called_tool_is_counted(calls: Seq<ToolCall>, i: int)
    requires
        0 <= i < calls.len(),
    ensures
        count_of(calls, calls[i].name) >= 1,
    decreases calls.len(),
{
    if i < calls.len() - 1 {
        lemma_called_tool_is_counted(calls.drop_last(), i);
        assert(calls.drop_last()[i] == calls[i]);
    }
}

/// A summary has an entry exactly for each tool that was called, and every
/// entry counts at least one call.
pub proof fn law_entries_are_the_called_tools(calls: Seq<ToolCall>)
    ensures
        forall|i: int| 0 <= i < aggregates(calls).len() ==> #[trigger] aggregates(calls)[i].call_count >= 1,
        forall|name: Seq<char>| #[trigger] has_entry(aggregates(calls), name) <==> was_called(calls, name),
{
    lemma_tool_names(calls);
    let names = tool_names(calls);
    let tools = aggregates(calls);
    assert forall|i: int| 0 <= i < tools.len() implies #[trigger] tools[i].call_count >= 1 by {
        assert(tools[i].name == names[i]);
        assert(names.contains(names[i]));
        let j = choose|j: int| 0 <= j < calls.len() && #[trigger] calls[j].name == names[i];
        lemma_called_tool_is_counted(calls, j);
    }
    assert forall|name: Seq<char>| #[trigger] has_entry(tools, name) <==> was_called(calls, name) by {
        if exists|i: int| 0 <= i < tools.len() && #[trigger] tools[i].name == name {
            let i = choose|i: int| 0 <= i < tools.len() && #[trigger] tools[i].name == name;
            assert(names[i] == name);
            assert(names.contains(name));
        }
        if exists|j: int| 0 <= j < calls.len() && #[trigger] calls[j].name == name {
            assert(names.contains(name));
            let i = choose|i: int| 0 <= i < names.len() && names[i] == name;
            assert(tools[i].name == name);
        }
    }
}

/// Merging two runs of calls adds up, per tool, the counts and the
/// duration totals, and keeps the durations in order: first run first.
pub proof fn law_merge_adds_per_tool(a: Seq<ToolCall>, b: Seq<ToolCall>, name: Seq<char>)
    ensures
        durations_of(a + b, name) == durations_of(a, name) + durations_of(b, name),
        count_of(a + b, name) == count_of(a, name) + count_of(b, name),
        sum_of(durations_of(a + b, name)) == sum_of(durations_of(a, name)) + sum_of(
            durations_of(b, name),
        ),
{
    lemma_durations_of_concat(a, b, name);
    lemma_sum_of_concat(durations_of(a, name), durations_of(b, name));
}

/// Merging two runs of token records adds up their input and output
/// tokens.
pub proof fn law_merge_adds_tokens(a: Seq<TokenRecord>, b: Seq<TokenRecord>)
    ensures
        total_tokens_in(a + b) == total_tokens_in(a) + total_tokens_in(b),
        total_tokens_out(a + b) == total_tokens_out(a) + total_tokens_out(b),
{
    lemma_tokens_in_concat(a, b);
    lemma_tokens_out_concat(a, b);
}

/// What pushing each item of `extra` onto `s`, first to last, gives: the
/// records after one `record_tool_call` (or `record_tokens`) per item.
pub open spec fn push_each<A>(s: Seq<A>, extra: Seq<A>) -> Seq<A>
    decreases extra.len(),
{
    if extra.len() == 0 {
        s
    } else {
        push_each(s.push(extra[0]), extra.drop_first())
    }
}

proof fn lemma_push_each_is_concat<A>(s: Seq<A>, extra: Seq<A>)
    ensures
        push_each(s, extra) == s + extra,
    decreases extra.len(),
{
    if extra.len() > 0 {
        lemma_push_each_is_concat(s.push(extra[0]), extra.drop_first());
        assert(s.push(extra[0]) + extra.drop_first() == s + extra);
    } else {
        assert(s + extra == s);
    }
}

/// Merging `other` into a collector holding `this` leaves the same records
/// as recording each of `other`'s tool calls, then each of its token
/// records, in their order: `merge` gives the concatenations, and each
/// record call pushes one item (the timer is untouched either way).
pub proof fn law_merge_is_recording_in_order(this: RunStatsView, other: RunStatsView)
    ensures
        push_each(this.tool_calls, other.tool_calls) == this.tool_calls + other.tool_calls,
        push_each(this.token_records, other.token_records) == this.token_records
            + other.token_records,
{
    lemma_push_each_is_concat(this.tool_calls, other.tool_calls);
    lemma_push_each_is_concat(this.token_records, other.token_records);
}

/// A percentile does not depend on the order of the samples.
pub proof fn law_percentile_ignores_order(s: Seq<u64>, t: Seq<u64>, p: nat)
    requires
        s.to_multiset() == t.to_multiset(),
    ensures
        percentile_of(s, p) == percentile_of(t, p),
{
    lemma_ascending_ensures(s);
    lemma_ascending_ensures(t);
    lemma_sorted_is_ascending(ascending(s), t);
}

/// The position nearest-rank picks lies among the samples.
proof fn lemma_index_in_range(n: nat, p: nat)
    requires
        n > 0,
    ensures
        0 <= nearest_rank_index(n, p) < n,
{
}

/// A percentile of some samples is one of them.
pub proof fn law_percentile_is_a_sample(s: Seq<u64>, p: nat)
    requires
        s.len() > 0,
    ensures
        s.contains(percentile_of(s, p)),
{
    broadcast use vstd::seq_lib::group_to_multiset_ensures;

    lemma_ascending_ensures(s);
    lemma_index_in_range(s.len(), p);
    let a = ascending(s);
    let i = nearest_rank_index(s.len(), p);
    assert(a.contains(a[i]));
    assert(a.to_multiset().count(a[i]) > 0);
}

/// The 0th percentile is the smallest sample and the 100th the largest.
pub proof fn law_percentile_extremes(s: Seq<u64>)
    requires
        s.len() > 0,
    ensures
        forall|i: int| 0 <= i < s.len() ==> percentile_of(s, 0) <= #[trigger] s[i],
        forall|i: int| 0 <= i < s.len() ==> #[trigger] s[i] <= percentile_of(s, 100),
{
    broadcast use vstd::seq_lib::group_to_multiset_ensures;

    lemma_ascending_ensures(s);
    let a = ascending(s);
    let n = s.len();
    assert((100 * n + 99) / 100 == n) by (nonlinear_arith)
        requires
            n > 0,
    ;
    assert((0 * n + 99) / 100 == 0) by (nonlinear_arith);
    assert(nearest_rank_index(n, 100) == n - 1);
    assert(nearest_rank_index(n, 0) == 0);
    assert forall|i: int| 0 <= i < s.len() implies percentile_of(s, 0) <= #[trigger] s[i]
        && s[i] <= percentile_of(s, 100) by {
        assert(s.contains(s[i]));
        assert(a.to_multiset().count(s[i]) > 0);
        assert(a.contains(s[i]));
        let j = choose|j: int| 0 <= j < a.len() && a[j] == s[i];
        if j > 0 {
            assert(sample_leq()(a[0], a[j]));
        }
        if j < n - 1 {
            assert(sample_leq()(a[j], a[n - 1]));
        }
    }
}

/// Over at most 19 samples the 95th percentile is the largest of them.
pub proof fn law_p95_of_few_samples_is_the_maximum(s: Seq<u64>)
    requires
        1 <= s.len() <= 19,
    ensures
        forall|i: int| 0 <= i < s.len() ==> #[trigger] s[i] <= percentile_of(s, 95),
{
    law_percentile_extremes(s);
    let n = s.len();
    assert((95 * n + 99) / 100 == n) by (nonlinear_arith)
        requires
            1 <= n <= 19,
    ;
    assert(nearest_rank_index(n, 95) == nearest_rank_index(n, 100));
}

/// A higher percentile is never a smaller sample.
pub proof fn law_percentile_monotone(s: Seq<u64>, p: nat, q: nat)
    requires
        p <= q,
    ensures
        percentile_of(s, p) <= percentile_of(s, q),
{
    if s.len() > 0 {
        lemma_ascending_ensures(s);
        let n = s.len();
        let pc: int = if p > 100 { 100 } else { p as int };
        let qc: int = if q > 100 { 100 } else { q as int };
        assert((pc * n + 99) / 100 <= (qc * n + 99) / 100) by (nonlinear_arith)
            requires
                0 <= pc <= qc,
                n > 0,
        ;
        let i = nearest_rank_index(n, p);
        let j = nearest_rank_index(n, q);
        lemma_index_in_range(n, p);
        lemma_index_in_range(n, q);
        assert(i <= j);
        if i < j {
            assert(sample_leq()(ascending(s)[i], ascending(s)[j]));
        }
    }
}

/// How many of the samples are at most `x`.
pub open spec fn count_at_most(s: Seq<u64>, x: u64) -> nat
    decreases s.len(),
{
    if s.len() == 0 {
        0
    } else {
        count_at_most(s.drop_last(), x) + if s.last() <= x {
            1nat
        } else {
            0nat
        }
    }
}

proof fn lemma_count_at_most_remove(t: Seq<u64>, k: int, x: u64)
    requires
        0 <= k < t.len(),
    ensures
        count_at_most(t, x) == count_at_most(t.remove(k), x) + if t[k] <= x {
            1nat
        } else {
            0nat
        },
    decreases t.len(),
{
    if k == t.len() - 1 {
        assert(t.remove(k) == t.drop_last());
    } else {
        assert(t.remove(k).drop_last() == t.drop_last().remove(k));
        assert(t.remove(k).last() == t.last());
        lemma_count_at_most_remove(t.drop_last(), k, x);
    }
}

/// Counting the samples at most `x` does not depend on their order.
proof fn lemma_count_at_most_permutation(s: Seq<u64>, t: Seq<u64>, x: u64)
    requires
        s.to_multiset() == t.to_multiset(),
    ensures
        count_at_most(s, x) == count_at_most(t, x),
    decreases s.len(),
{
    broadcast use vstd::seq_lib::group_to_multiset_ensures;
    broadcast use vstd::multiset::group_multiset_axioms;

    if s.len() == 0 {
        assert(t.to_multiset().len() == 0);
        assert(t.len() == 0);
    } else {
        let e = s.last();
        let rest = s.drop_last();
        assert(rest.push(e) == s);
        assert(s.to_multiset() == rest.to_multiset().insert(e));
        assert(s.to_multiset().count(e) > 0);
        assert(t.contains(e));
        let k = choose|k: int| 0 <= k < t.len() && t[k] == e;
        assert(t.remove(k).to_multiset() == t.to_multiset().remove(e));
        assert(rest.to_multiset() =~= s.to_multiset().remove(e));
        lemma_count_at_most_permutation(rest, t.remove(k), x);
        lemma_count_at_most_remove(t, k, x);
    }
}

/// Samples after position `m` all above `y` leave at most `m` samples at
/// most `y`.
proof fn lemma_count_at_most_upper(a: Seq<u64>, y: u64, m: int)
    requires
        0 <= m <= a.len(),
        forall|i: int| m <= i < a.len() ==> a[i] > y,
    ensures
        count_at_most(a, y) <= m,
    decreases a.len(),
{
    if a.len() > 0 {
        if m == a.len() {
            lemma_count_at_most_upper(a.drop_last(), y, m - 1);
        } else {
            lemma_count_at_most_upper(a.drop_last(), y, m);
        }
    }
}

/// Samples before position `m` all at most `y` give at least `m` samples
/// at most `y`.
proof fn lemma_count_at_most_lower(a: Seq<u64>, y: u64, m: int)
    requires
        0 <= m <= a.len(),
        forall|i: int| 0 <= i < m ==> a[i] <= y,
    ensures
        count_at_most(a, y) >= m,
    decreases a.len(),
{
    if a.len() > 0 {
        if m == a.len() {
            lemma_count_at_most_lower(a.drop_last(), y, m - 1);
        } else {
            lemma_count_at_most_lower(a.drop_last(), y, m);
        }
    }
}

/// The nearest-rank `p`-th percentile of non-empty samples, for `p` up to
/// 100, is the smallest sample that has at least `p` percent of the
/// samples at or below it: it is one of the samples, at least `p` percent
/// are at most it, and below every smaller sample there are fewer.
pub proof fn law_percentile_is_nearest_rank(s: Seq<u64>, p: nat)
    requires
        s.len() > 0,
        p <= 100,
    ensures
        s.contains(percentile_of(s, p)),
        100 * count_at_most(s, percentile_of(s, p)) >= p * s.len(),
        forall|i: int|
            0 <= i < s.len() && s[i] < percentile_of(s, p) ==> 100 * #[trigger] count_at_most(
                s,
                s[i],
            ) < p * s.len(),
{
    law_percentile_is_a_sample(s, p);
    lemma_ascending_ensures(s);
    lemma_index_in_range(s.len(), p);
    let a = ascending(s);
    let n = s.len();
    let k = nearest_rank_index(n, p);
    let v = a[k];
    assert(v == percentile_of(s, p));
    let c = (p * n + 99) / 100;
    assert(100 * c >= p * n && 100 * (c - 1) < p * n && c <= n) by (nonlinear_arith)
        requires
            c == (p * n + 99) / 100,
            p <= 100,
            n > 0,
    ;
    assert forall|i: int| 0 <= i < k + 1 implies a[i] <= v by {
        if i < k {
            assert(sample_leq()(a[i], a[k]));
        }
    }
    lemma_count_at_most_lower(a, v, k + 1);
    lemma_count_at_most_permutation(s, a, v);
    assert forall|i: int|
        0 <= i < s.len() && s[i] < v implies 100 * #[trigger] count_at_most(s, s[i]) < p * n by {
        let y = s[i];
        assert forall|j: int| k <= j < a.len() implies a[j] > y by {
            if j > k {
                assert(sample_leq()(a[k], a[j]));
            }
        }
        lemma_count_at_most_upper(a, y, k);
        lemma_count_at_most_permutation(s, a, y);
        if c < 1 {
            // The smallest rank: no sample lies below the smallest one.
            assert(k == 0);
            assert(s.to_multiset().count(y) > 0) by {
                broadcast use vstd::seq_lib::group_to_multiset_ensures;

                assert(s.contains(y));
            }
            assert(a.contains(y)) by {
                broadcast use vstd::seq_lib::group_to_multiset_ensures;

            }
            let j = choose|j: int| 0 <= j < a.len() && a[j] == y;
            if j > 0 {
                assert(sample_leq()(a[0], a[j]));
            }
        }
    }
}

} // verus!
