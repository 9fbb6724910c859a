//! The records a run collects, and the mathematical model of them that the
//! contracts speak of.
use vstd::prelude::*;

use crate::percentile::percentile_of;

verus! {

/// One tool-call record.
#[derive(Debug, Clone)]
pub struct ToolCallStat {
    pub name: String,
    pub duration_ms: u64,
}

/// One token usage record.
///
/// The cost in USD is kept as the bit pattern of an `f64`
/// (`f64::to_bits`), unchanged from what was recorded.
#[derive(Debug, Clone, Copy, PartialEq, Eq)]
pub struct TokenRecord {
    pub tokens_in: u64,
    pub tokens_out: u64,
    pub cost_usd_bits: u64,
}

/// A tool call as the contracts see it.
pub struct ToolCall {
    pub name: Seq<char>,
    pub duration_ms: u64,
}

impl View for ToolCallStat {
    type V = ToolCall;

    open spec fn view(&self) -> ToolCall {
        ToolCall { name: self.name@, duration_ms: self.duration_ms }
    }
}

/// The aggregate of one tool, as the contracts see it.
pub struct ToolAggregate {
    pub name: Seq<char>,
    pub call_count: nat,
    pub total_duration_ms: int,
    pub p95_duration_ms: u64,
}

/// Sum of a sequence of samples.
pub open spec fn sum_of(s: Seq<u64>) -> int
    decreases s.len(),
{
    if s.len() == 0 {
        0
    } else {
        sum_of(s.drop_last()) + s.last()
    }
}

/// Input tokens over all records.
pub open spec fn total_tokens_in(records: Seq<TokenRecord>) -> int
    decreases records.len(),
{
    if records.len() == 0 {
        0
    } else {
        total_tokens_in(records.drop_last()) + records.last().tokens_in
    }
}

/// Output tokens over all records.
pub open spec fn total_tokens_out(records: Seq<TokenRecord>) -> int
    decreases records.len(),
{
    if records.len() == 0 {
        0
    } else {
        total_tokens_out(records.drop_last()) + records.last().tokens_out
    }
}

/// The durations of the calls of tool `name`, in recording order.
pub open spec fn durations_of(calls: Seq<ToolCall>, name: Seq<char>) -> Seq<u64>
    decreases calls.len(),
{
    if calls.len() == 0 {
        seq![]
    } else {
        let earlier = durations_of(calls.drop_last(), name);
        if calls.last().name == name {
            earlier.push(calls.last().duration_ms)
        } else {
            earlier
        }
    }
}

/// How many calls of tool `name` there are.
pub open spec fn count_of(calls: Seq<ToolCall>, name: Seq<char>) -> nat {
    durations_of(calls, name).len()
}

/// The distinct tool names, in the order of their first call.
pub open spec fn tool_names(calls: Seq<ToolCall>) -> Seq<Seq<char>>
    decreases calls.len(),
{
    if calls.len() == 0 {
        seq![]
    } else {
        let earlier = tool_names(calls.drop_last());
        if earlier.contains(calls.last().name) {
            earlier
        } else {
            earlier.push(calls.last().name)
        }
    }
}

/// The aggregate of tool `name` over `calls`.
pub open spec fn aggregate_of(calls: Seq<ToolCall>, name: Seq<char>) -> ToolAggregate {
    ToolAggregate {
        name: name,
        call_count: count_of(calls, name),
        total_duration_ms: sum_of(durations_of(calls, name)),
        p95_duration_ms: percentile_of(durations_of(calls, name), 95),
    }
}

/// One aggregate per distinct tool, in the order of their first call.
pub open spec fn aggregates(calls: Seq<ToolCall>) -> Seq<ToolAggregate> {
    tool_names(calls).map_values(|name: Seq<char>| aggregate_of(calls, name))
}

/// Position `i` holds the most used tool: no tool has more calls, and every
/// tool before it has fewer.
pub open spec fn is_most_used(tools: Seq<ToolAggregate>, i: int) -> bool {
    &&& 0 <= i < tools.len()
    &&& forall|j: int| 0 <= j < tools.len() ==> tools[j].call_count <= tools[i].call_count
    &&& forall|j: int| 0 <= j < i ==> tools[j].call_count < tools[i].call_count
}

/// Every per-tool duration sum fits in a `u64`.
pub open spec fn durations_fit(calls: Seq<ToolCall>) -> bool {
    forall|name: Seq<char>| sum_of(#[trigger] durations_of(calls, name)) <= u64::MAX
}

// ---- lemmas on the model ---------------------------------------------------

/// Pushing onto a sequence keeps what it contained and adds the new item.
proof fn lemma_push_contains<A>(s: Seq<A>, x: A, y: A)
    ensures
        s.push(x).contains(y) <==> (s.contains(y) || x == y),
{
    if s.contains(y) {
        let i = choose|i: int| 0 <= i < s.len() && s[i] == y;
        assert(s.push(x)[i] == y);
    }
    if x == y {
        assert(s.push(x)[s.len() as int] == y);
    }
    if s.push(x).contains(y) {
        let i = choose|i: int| 0 <= i < s.push(x).len() && s.push(x)[i] == y;
        if i < s.len() {
            assert(s[i] == y);
        }
    }
}

/// A tool name is listed exactly when some call has it, and no name is
/// listed twice.
pub proof fn lemma_tool_names(calls: Seq<ToolCall>)
    ensures
        tool_names(calls).no_duplicates(),
        forall|name: Seq<char>|
            tool_names(calls).contains(name) <==> exists|i: int|
                0 <= i < calls.len() && #[trigger] calls[i].name == name,
    decreases calls.len(),
{
    if calls.len() > 0 {
        let rest = calls.drop_last();
        let last = calls.last().name;
        lemma_tool_names(rest);
        assert forall|name: Seq<char>|
            tool_names(calls).contains(name) <==> exists|i: int|
                0 <= i < calls.len() && #[trigger] calls[i].name == name by {
            lemma_push_contains(tool_names(rest), last, name);
            if tool_names(calls).contains(name) {
                if tool_names(rest).contains(name) {
                    let i = choose|i: int| 0 <= i < rest.len() && #[trigger] rest[i].name == name;
                    assert(calls[i].name == name);
                } else {
                    assert(calls[calls.len() - 1].name == name);
                }
            }
            if exists|i: int| 0 <= i < calls.len() && #[trigger] calls[i].name == name {
                let i = choose|i: int| 0 <= i < calls.len() && #[trigger] calls[i].name == name;
                if i < calls.len() - 1 {
                    assert(rest[i].name == name);
                }
            }
        }
        if !tool_names(rest).contains(last) {
            let names = tool_names(calls);
            assert forall|i: int, j: int|
                0 <= i < names.len() && 0 <= j < names.len() && i != j implies names[i]
                != names[j] by {
                if i == names.len() - 1 {
                    assert(tool_names(rest)[j] == names[j]);
                } else if j == names.len() - 1 {
                    assert(tool_names(rest)[i] == names[i]);
                }
            }
        }
    }
}

/// A tool with no call has no durations.
pub proof fn lemma_absent_tool_has_no_durations(calls: Seq<ToolCall>, name: Seq<char>)
    requires
        !tool_names(calls).contains(name),
    ensures
        durations_of(calls, name) == Seq::<u64>::empty(),
    decreases calls.len(),
{
    if calls.len() > 0 {
        let rest = calls.drop_last();
        lemma_push_contains(tool_names(rest), calls.last().name, name);
        lemma_absent_tool_has_no_durations(rest, name);
    }
}

/// A sum of samples is never negative.
pub proof fn lemma_sum_of_nonnegative(s: Seq<u64>)
    ensures
        sum_of(s) >= 0,
    decreases s.len(),
{
    if s.len() > 0 {
        lemma_sum_of_nonnegative(s.drop_last());
    }
}

/// Sums over two sequences add up over their concatenation.
pub proof fn lemma_sum_of_concat(a: Seq<u64>, b: Seq<u64>)
    ensures
        sum_of(a + b) == sum_of(a) + sum_of(b),
    decreases b.len(),
{
    if b.len() > 0 {
        assert((a + b).drop_last() == a + b.drop_last());
        lemma_sum_of_concat(a, b.drop_last());
    } else {
        assert(a + b == a);
    }
}

/// The durations of a tool over two runs of calls are those of the first
/// run followed by those of the second.
pub proof fn lemma_durations_of_concat(a: Seq<ToolCall>, b: Seq<ToolCall>, name: Seq<char>)
    ensures
        durations_of(a + b, name) == durations_of(a, name) + durations_of(b, name),
    decreases b.len(),
{
    if b.len() > 0 {
        assert((a + b).drop_last() == a + b.drop_last());
        lemma_durations_of_concat(a, b.drop_last(), name);
    } else {
        assert(a + b == a);
        assert(durations_of(a, name) + Seq::<u64>::empty() == durations_of(a, name));
    }
}

/// Input tokens over two runs of records add up.
pub proof fn lemma_tokens_in_concat(a: Seq<TokenRecord>, b: Seq<TokenRecord>)
    ensures
        total_tokens_in(a + b) == total_tokens_in(a) + total_tokens_in(b),
    decreases b.len(),
{
    if b.len() > 0 {
        assert((a + b).drop_last() == a + b.drop_last());
        lemma_tokens_in_concat(a, b.drop_last());
    } else {
        assert(a + b == a);
    }
}

/// Output tokens over two runs of records add up.
pub proof fn lemma_tokens_out_concat(a: Seq<TokenRecord>, b: Seq<TokenRecord>)
    ensures
        total_tokens_out(a + b) == total_tokens_out(a) + total_tokens_out(b),
    decreases b.len(),
{
    if b.len() > 0 {
        assert((a + b).drop_last() == a + b.drop_last());
        lemma_tokens_out_concat(a, b.drop_last());
    } else {
        assert(a + b == a);
    }
}

} // verus!
