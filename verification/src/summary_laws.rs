//! What a run's summary says of the recorded calls, stated over the calls
//! themselves: per-tool counts, duration totals, p95 latencies, and the
//! most used tool.
use vstd::prelude::*;

use crate::laws::{
    count_at_most, has_entry, law_entries_are_the_called_tools, law_percentile_is_nearest_rank,
    was_called,
};
use crate::percentile::percentile_of;
use crate::records::{
    aggregates, count_of, durations_of, is_most_used, lemma_absent_tool_has_no_durations,
    lemma_sum_of_concat, lemma_tool_names, sum_of, tool_names, ToolAggregate, ToolCall,
};
use crate::summary::RunSummary;

verus! {

/// The durations of all calls, in recording order.
pub open spec fn all_durations(calls: Seq<ToolCall>) -> Seq<u64> {
    calls.map_values(|c: ToolCall| c.duration_ms)
}

/// The duration totals of a list of tool entries added up.
pub open spec fn sum_of_totals(tools: Seq<ToolAggregate>) -> int
    decreases tools.len(),
{
    if tools.len() == 0 {
        0
    } else {
        sum_of_totals(tools.drop_last()) + tools.last().total_duration_ms
    }
}

/// Each entry of a summary of `calls` is for a called tool and holds the
/// number of its calls, the sum of all their durations, and the
/// nearest-rank 95th percentile of those durations.
pub proof fn law_summary_entries(r: RunSummary, calls: Seq<ToolCall>)
    requires
        r.tool_aggregates() == aggregates(calls),
    ensures
        forall|i: int|
            0 <= i < r.tools.len() ==> {
                let name = #[trigger] r.tools@[i].name@;
                &&& was_called(calls, name)
                &&& r.tools@[i].call_count == durations_of(calls, name).len()
                &&& r.tools@[i].call_count >= 1
                &&& r.tools@[i].total_duration_ms == sum_of(durations_of(calls, name))
                &&& r.tools@[i].p95_duration_ms == percentile_of(durations_of(calls, name), 95)
            },
{
    law_entries_are_the_called_tools(calls);
    assert forall|i: int| 0 <= i < r.tools.len() implies {
        let name = #[trigger] r.tools@[i].name@;
        &&& was_called(calls, name)
        &&& r.tools@[i].call_count == durations_of(calls, name).len()
        &&& r.tools@[i].call_count >= 1
        &&& r.tools@[i].total_duration_ms == sum_of(durations_of(calls, name))
        &&& r.tools@[i].p95_duration_ms == percentile_of(durations_of(calls, name), 95)
    } by {
        let name = r.tools@[i].name@;
        assert(r.tool_aggregates()[i] == aggregates(calls)[i]);
        assert(aggregates(calls)[i].name == name);
        assert(has_entry(aggregates(calls), name));
        assert(aggregates(calls)[i].call_count >= 1);
    }
}

/// The p95 latency of each entry is the smallest of the tool's durations
/// that has at least 95% of them at or below it: one of them, at least 95%
/// of the durations at most it, and fewer than 95% at most any smaller one.
pub proof fn law_summary_p95_is_nearest_rank(r: RunSummary, calls: Seq<ToolCall>)
    requires
        r.tool_aggregates() == aggregates(calls),
    ensures
        forall|i: int|
            0 <= i < r.tools.len() ==> {
                let d = durations_of(calls, #[trigger] r.tools@[i].name@);
                let v = r.tools@[i].p95_duration_ms;
                &&& d.contains(v)
                &&& 100 * count_at_most(d, v) >= 95 * d.len()
                &&& forall|j: int|
                    0 <= j < d.len() && d[j] < v ==> 100 * #[trigger] count_at_most(d, d[j]) < 95
                        * d.len()
            },
{
    law_summary_entries(r, calls);
    assert forall|i: int| 0 <= i < r.tools.len() implies {
        let d = durations_of(calls, #[trigger] r.tools@[i].name@);
        let v = r.tools@[i].p95_duration_ms;
        &&& d.contains(v)
        &&& 100 * count_at_most(d, v) >= 95 * d.len()
        &&& forall|j: int|
            0 <= j < d.len() && d[j] < v ==> 100 * #[trigger] count_at_most(d, d[j]) < 95
                * d.len()
    } by {
        let d = durations_of(calls, r.tools@[i].name@);
        law_percentile_is_nearest_rank(d, 95);
    }
}

/// The most used tool was called, and no called tool has more calls; there
/// is none exactly when no call was recorded.
pub proof fn law_summary_most_used(r: RunSummary, calls: Seq<ToolCall>)
    requires
        r.tool_aggregates() == aggregates(calls),
        r.most_used_agrees(),
    ensures
        r.most_used_tool is None <==> calls.len() == 0,
        r.most_used_tool matches Some(n) ==> {
            &&& was_called(calls, n@)
            &&& forall|j: int|
                0 <= j < calls.len() ==> count_of(calls, #[trigger] calls[j].name) <= count_of(
                    calls,
                    n@,
                )
        },
{
    lemma_tool_names(calls);
    law_entries_are_the_called_tools(calls);
    let names = tool_names(calls);
    let tools = aggregates(calls);
    if calls.len() > 0 {
        assert(was_called(calls, calls[0].name));
        assert(has_entry(tools, calls[0].name));
    }
    match r.most_used_tool {
        Some(n) => {
            let i = choose|i: int|
                #[trigger] is_most_used(r.tool_aggregates(), i) && r.tools@[i].name@ == n@;
            assert(tools[i].name == n@);
            assert(has_entry(tools, n@));
            assert forall|j: int| 0 <= j < calls.len() implies count_of(
                calls,
                #[trigger] calls[j].name,
            ) <= count_of(calls, n@) by {
                assert(was_called(calls, calls[j].name));
                assert(has_entry(tools, calls[j].name));
                let m = choose|m: int| 0 <= m < tools.len() && #[trigger] tools[m].name
                    == calls[j].name;
                assert(tools[m].call_count <= tools[i].call_count);
            }
        },
        None => {},
    }
}

/// The durations of the tools `names` added up.
spec fn durations_of_names(names: Seq<Seq<char>>, calls: Seq<ToolCall>) -> int
    decreases names.len(),
{
    if names.len() == 0 {
        0
    } else {
        durations_of_names(names.drop_last(), calls) + sum_of(durations_of(calls, names.last()))
    }
}

proof fn lemma_sum_of_totals_by_names(names: Seq<Seq<char>>, calls: Seq<ToolCall>)
    ensures
        sum_of_totals(names.map_values(|name: Seq<char>| crate::records::aggregate_of(calls, name)))
            == durations_of_names(names, calls),
    decreases names.len(),
{
    if names.len() > 0 {
        let f = |name: Seq<char>| crate::records::aggregate_of(calls, name);
        assert(names.map_values(f).drop_last() == names.drop_last().map_values(f));
        lemma_sum_of_totals_by_names(names.drop_last(), calls);
    }
}

/// One more call adds its duration to the total of its tool and nothing to
/// the others.
proof fn lemma_durations_of_names_push(names: Seq<Seq<char>>, calls: Seq<ToolCall>, call: ToolCall)
    requires
        names.no_duplicates(),
    ensures
        durations_of_names(names, calls.push(call)) == durations_of_names(names, calls)
            + if names.contains(call.name) {
            call.duration_ms as int
        } else {
            0int
        },
    decreases names.len(),
{
    if names.len() > 0 {
        let rest = names.drop_last();
        assert(calls.push(call).drop_last() == calls);
        assert forall|i: int, j: int|
            0 <= i < rest.len() && 0 <= j < rest.len() && i != j implies rest[i] != rest[j] by {
            assert(names[i] != names[j]);
        }
        lemma_durations_of_names_push(rest, calls, call);
        let last = names.last();
        if last == call.name {
            assert(durations_of(calls.push(call), last) == durations_of(calls, last).push(
                call.duration_ms,
            ));
            assert(durations_of(calls, last).push(call.duration_ms).drop_last() == durations_of(
                calls,
                last,
            ));
        }
        if rest.contains(call.name) {
            let i = choose|i: int| 0 <= i < rest.len() && rest[i] == call.name;
            assert(names[i] == call.name);
            assert(names.contains(call.name));
        } else if last == call.name {
            assert(names.contains(call.name));
        } else {
            assert(!names.contains(call.name)) by {
                if names.contains(call.name) {
                    let i = choose|i: int| 0 <= i < names.len() && names[i] == call.name;
                    assert(rest[i] == call.name);
                }
            }
        }
    }
}

/// Every recorded call's duration is counted in exactly one entry: the
/// duration totals of a summary add up to the sum of all call durations.
pub proof fn law_summary_durations_add_up(r: RunSummary, calls: Seq<ToolCall>)
    requires
        r.tool_aggregates() == aggregates(calls),
    ensures
        sum_of_totals(r.tool_aggregates()) == sum_of(all_durations(calls)),
{
    lemma_durations_add_up(calls);
}

proof fn lemma_durations_add_up(calls: Seq<ToolCall>)
    ensures
        sum_of_totals(aggregates(calls)) == sum_of(all_durations(calls)),
    decreases calls.len(),
{
    lemma_sum_of_totals_by_names(tool_names(calls), calls);
    if calls.len() > 0 {
        let rest = calls.drop_last();
        let call = calls.last();
        assert(rest.push(call) == calls);
        lemma_durations_add_up(rest);
        lemma_sum_of_totals_by_names(tool_names(rest), rest);
        lemma_tool_names(rest);
        lemma_durations_of_names_push(tool_names(rest), rest, call);
        assert(all_durations(calls).drop_last() == all_durations(rest));
        assert(all_durations(calls).last() == call.duration_ms);
        assert(sum_of(all_durations(calls)) == sum_of(all_durations(rest)) + call.duration_ms);
        if !tool_names(rest).contains(call.name) {
            lemma_absent_tool_has_no_durations(rest, call.name);
            let names = tool_names(calls);
            assert(names == tool_names(rest).push(call.name));
            assert(names.drop_last() == tool_names(rest));
            assert(names.last() == call.name);
            assert(durations_of(calls, call.name) == seq![call.duration_ms]);
            assert(seq![call.duration_ms].drop_last() == Seq::<u64>::empty());
            assert(sum_of(Seq::<u64>::empty()) == 0);
            assert(seq![call.duration_ms].last() == call.duration_ms);
            assert(sum_of(seq![call.duration_ms]) == call.duration_ms);
            assert(durations_of_names(names, calls) == durations_of_names(tool_names(rest), calls)
                + call.duration_ms);
        } else {
            assert(tool_names(calls) == tool_names(rest));
        }
    }
}

} // verus!
