//! Token-usage accounting, accumulated across the model invocations of one
//! reranking request.

use vstd::prelude::*;

verus! {

/// Token counts consumed by the model, summed over all documents of one
/// request. The invariant `total_tokens == prompt_tokens + completion_tokens`
/// holds after every update, not merely at construction.
#[derive(Clone, Copy, Debug, PartialEq, Eq, Structural)]
pub struct Usage {
    pub prompt_tokens: u64,
    pub completion_tokens: u64,
    pub total_tokens: u64,
}

impl Usage {
    /// The accumulator's invariant: the total is always the sum of the parts.
    pub open spec fn wf(self) -> bool {
        self.total_tokens == self.prompt_tokens + self.completion_tokens
    }

    /// An empty accumulator: no tokens consumed yet.
    pub fn new() -> (r: Usage)
        ensures
            r.wf(),
            r.prompt_tokens == 0,
            r.completion_tokens == 0,
            r.total_tokens == 0,
    {
        Usage { prompt_tokens: 0, completion_tokens: 0, total_tokens: 0 }
    }

    /// Adds one invocation's token counts to the running totals and
    /// recomputes `total_tokens` as their sum.
    pub fn add(&mut self, prompt_tokens: u64, completion_tokens: u64)
        requires
            old(self).wf(),
            old(self).prompt_tokens + prompt_tokens + old(self).completion_tokens
                + completion_tokens <= u64::MAX,
        ensures
            final(self).wf(),
            final(self).prompt_tokens == old(self).prompt_tokens + prompt_tokens,
            final(self).completion_tokens == old(self).completion_tokens + completion_tokens,
            final(self).total_tokens == final(self).prompt_tokens + final(self).completion_tokens,
    {
        self.prompt_tokens = self.prompt_tokens + prompt_tokens;
        self.completion_tokens = self.completion_tokens + completion_tokens;
        self.total_tokens = self.prompt_tokens + self.completion_tokens;
    }
}

} // verus!
