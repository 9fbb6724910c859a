//! The aggregated results of a run.
use vstd::prelude::*;

use crate::records::{is_most_used, ToolAggregate};

verus! {

/// Aggregated stats of one tool.
#[derive(Debug, Clone)]
pub struct ToolSummary {
    pub name: String,
    /// How many calls of the tool were recorded.
    pub call_count: usize,
    /// The sum of their durations; the average is this over `call_count`.
    pub total_duration_ms: u64,
    /// 95th-percentile latency (ms), nearest-rank over the durations.
    pub p95_duration_ms: u64,
}

impl View for ToolSummary {
    type V = ToolAggregate;

    open spec fn view(&self) -> ToolAggregate {
        ToolAggregate {
            name: self.name@,
            call_count: self.call_count as nat,
            total_duration_ms: self.total_duration_ms as int,
            p95_duration_ms: self.p95_duration_ms,
        }
    }
}

/// Aggregated stats for the run.
#[derive(Debug, Clone)]
pub struct RunSummary {
    pub duration_ms: u64,
    pub total_tool_calls: usize,
    pub tokens_in: u64,
    pub tokens_out: u64,
    /// One entry per distinct tool, in the order of its first call.
    pub tools: Vec<ToolSummary>,
    pub most_used_tool: Option<String>,
    /// Total tokens (input + output) across all recorded LLM calls.
    pub total_tokens: u64,
}

impl RunSummary {
    /// The per-tool entries as the contracts see them.
    pub open spec fn tool_aggregates(&self) -> Seq<ToolAggregate> {
        self.tools@.map_values(|t: ToolSummary| t@)
    }

    /// The entry of tool `name`, if the run called it.
    pub fn tool(&self, name: &str) -> (r: Option<&ToolSummary>)
        ensures
            match r {
                Some(t) => exists|i: int|
                    0 <= i < self.tools.len() && #[trigger] self.tools@[i] == *t && t.name@
                        == name@ && forall|j: int| 0 <= j < i ==> self.tools@[j].name@ != name@,
                None => forall|i: int| 0 <= i < self.tools.len() ==> self.tools@[i].name@ != name@,
            },
    {
        let key = name.to_owned();
        let mut i: usize = 0;
        while i < self.tools.len()
            invariant
                i <= self.tools.len(),
                key@ == name@,
                forall|j: int| 0 <= j < i ==> self.tools@[j].name@ != name@,
            decreases self.tools.len() - i,
        {
            if self.tools[i].name == key {
                return Some(&self.tools[i]);
            }
            i = i + 1;
        }
        None
    }

    /// No two entries are for the same tool.
    pub open spec fn names_distinct(&self) -> bool {
        forall|a: int, b: int|
            0 <= a < self.tools.len() && 0 <= b < self.tools.len() && a != b ==> #[trigger] self.tools@[a].name@
                != #[trigger] self.tools@[b].name@
    }

    /// The most used tool is one whose entry has the most calls (the first
    /// such in call order), and there is none exactly when no call was
    /// recorded.
    pub open spec fn most_used_agrees(&self) -> bool {
        match self.most_used_tool {
            Some(name) => exists|i: int|
                #[trigger] is_most_used(self.tool_aggregates(), i) && self.tools@[i].name@
                    == name@,
            None => self.tools.len() == 0,
        }
    }
}

} // verus!
