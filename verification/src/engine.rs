//! The reranking engine: operating-mode validation, graph selection, the
//! per-document compute loop, usage accumulation, and the final sorted and
//! truncated response.
//!
//! The engine owns every decision of one request. The backend itself — the
//! exclusive lock around the graph registry, setting the input tensor,
//! running the computation and reading the output buffer — is driven by the
//! embedding application, which hands the engine what it observed: the
//! registry's graph configurations, whether the lock was poisoned, and one
//! `BackendStep` per document attempted. Everything the engine returns is
//! determined by those inputs.

use crate::codec::{decode_output, spec_decode_output, DecodeError, InputStyle, OutputStyle};
use crate::rank::{all_wf, rank_documents, spec_rank, RerankerObject};
use crate::score::Score;
use crate::usage::Usage;
use vstd::prelude::*;

verus! {

/// The process-wide operating mode: which inference capabilities are enabled.
#[derive(Clone, Copy, Debug, PartialEq, Eq, Structural)]
pub enum RunningMode {
    Chat,
    Embedding,
    Reranker,
    ChatEmbeddingReranker,
}

/// Reranking is permitted only in the reranker mode or the combined
/// chat-embedding-reranker mode.
pub open spec fn mode_allows_reranking(mode: RunningMode) -> bool {
    mode == RunningMode::Reranker || mode == RunningMode::ChatEmbeddingReranker
}

/// Everything that can go wrong in one reranking request.
#[derive(Clone, Debug)]
pub enum RerankerError {
    /// The operating mode does not permit reranking.
    UnsupportedMode,
    /// The graph registry was never initialised.
    NoRerankerModel,
    /// The registry's exclusive lock was poisoned by a prior holder.
    LockAcquisitionFailed,
    /// The registry holds no graph at all.
    NoModelAvailable,
    /// The backend rejected the input tensor; the whole batch is aborted.
    SetInputFailed(String),
    /// The backend failed during computation; the whole batch is aborted.
    ComputeFailed(String),
    /// The output buffer of the document at `index` is not UTF-8 text.
    InvalidOutputEncoding { index: usize },
    /// The output text of the document at `index` holds no well-formed
    /// scores payload.
    MalformedScorePayload { index: usize },
}

/// What the engine knows of one registered execution graph: its name, its
/// metadata's reranking capability flag, and its wire conventions.
#[derive(Clone, Debug)]
pub struct GraphConfig {
    pub name: String,
    pub reranking: bool,
    pub input_style: InputStyle,
    pub output_style: OutputStyle,
}

/// A reranking request: the model to use, the query, the candidate documents
/// in an order that is semantically significant (it defines the indices of
/// the results and breaks score ties), and how many results to return.
#[derive(Clone, Debug)]
pub struct RerankerRequest {
    pub model: String,
    pub query: String,
    pub documents: Vec<String>,
    pub top_n: Option<usize>,
}

/// The response: the constant object tag `list`, the ranked results, the name
/// of the graph actually used — which may differ from the requested model —
/// and the token usage summed over all documents.
#[derive(Clone, Debug)]
pub struct RerankerResponse {
    pub object: String,
    pub results: Vec<RerankerObject>,
    pub model: String,
    pub usage: Usage,
}

/// The first graph whose name equals `model`, if any.
pub open spec fn spec_first_named(graphs: Seq<GraphConfig>, model: Seq<char>) -> Option<int>
    decreases graphs.len(),
{
    if graphs.len() == 0 {
        None
    } else if graphs[0].name@ == model {
        Some(0)
    } else {
        match spec_first_named(graphs.drop_first(), model) {
            Option::None => None,
            Option::Some(j) => Some(j + 1),
        }
    }
}

/// The graph a request for `model` selects: the first graph with that exact
/// name; otherwise — a deliberate compatibility behaviour for single-model
/// deployments — the first graph of the registry; none if it is empty.
pub open spec fn spec_select(graphs: Seq<GraphConfig>, model: Seq<char>) -> Option<int> {
    if graphs.len() == 0 {
        None
    } else {
        match spec_first_named(graphs, model) {
            Option::None => Some(0),
            Option::Some(i) => Some(i),
        }
    }
}

/// The first named graph is exactly the least index whose name is `model`.
proof fn lemma_first_named_char(graphs: Seq<GraphConfig>, model: Seq<char>)
    ensures
        spec_first_named(graphs, model).is_some() <==> (exists|k: int|
            0 <= k < graphs.len() && (#[trigger] graphs[k]).name@ == model),
        spec_first_named(graphs, model).is_some() ==> {
            let i = spec_first_named(graphs, model).unwrap();
            &&& 0 <= i < graphs.len()
            &&& graphs[i].name@ == model
            &&& forall|j: int| 0 <= j < i ==> (#[trigger] graphs[j]).name@ != model
        },
    decreases graphs.len(),
{
    if graphs.len() == 0 {
    } else if graphs[0].name@ == model {
    } else {
        let rest = graphs.drop_first();
        lemma_first_named_char(rest, model);
        assert(forall|k: int| 0 <= k < rest.len() ==> rest[k] == graphs[k + 1]);
        if exists|k: int| 0 <= k < graphs.len() && (#[trigger] graphs[k]).name@ == model {
            let k = choose|k: int| 0 <= k < graphs.len() && (#[trigger] graphs[k]).name@ == model;
            assert(k > 0 && rest[k - 1] == graphs[k]);
        }
        if spec_first_named(graphs, model).is_some() {
            let i = spec_first_named(graphs, model).unwrap();
            let j = spec_first_named(rest, model).unwrap();
            assert(i == j + 1);
            assert(forall|m: int| 1 <= m < i ==> (#[trigger] graphs[m]).name@ == rest[m - 1].name@);
        }
    }
}

/// What selection means: the selected index is in range; it names `model`
/// exactly when some graph does, and no earlier graph does; when no graph is
/// named `model`, the first graph is selected.
pub proof fn lemma_select_characterisation(graphs: Seq<GraphConfig>, model: Seq<char>)
    ensures
        spec_select(graphs, model).is_some() <==> graphs.len() > 0,
        spec_select(graphs, model).is_some() ==> 0 <= spec_select(graphs, model).unwrap()
            < graphs.len(),
        (exists|k: int| 0 <= k < graphs.len() && (#[trigger] graphs[k]).name@ == model)
            ==> spec_select(graphs, model).is_some() && graphs[spec_select(graphs, model).unwrap()].name@
            == model && (forall|j: int|
            0 <= j < spec_select(graphs, model).unwrap() ==> (#[trigger] graphs[j]).name@
                != model),
        (forall|k: int| 0 <= k < graphs.len() ==> (#[trigger] graphs[k]).name@ != model)
            && graphs.len() > 0 ==> spec_select(graphs, model) == Some(0int),
{
    lemma_first_named_char(graphs, model);
}

/// Selects the graph for the requested model from the registry's graphs.
pub fn select_graph(graphs: &Vec<GraphConfig>, model: &String) -> (r: Result<usize, RerankerError>)
    ensures
        r.is_ok() <==> graphs@.len() > 0,
        r.is_ok() ==> Some(r.unwrap() as int) == spec_select(graphs@, model@) && r.unwrap()
            < graphs@.len(),
        r.is_err() ==> r == Err::<usize, RerankerError>(RerankerError::NoModelAvailable),
{
    let n = graphs.len();
    proof {
        assert(graphs@.skip(0) =~= graphs@);
    }
    let mut i: usize = 0;
    while i < n
        invariant
            i <= n == graphs@.len(),
            forall|j: int| 0 <= j < i ==> (#[trigger] graphs@[j]).name@ != model@,
            spec_first_named(graphs@.skip(i as int), model@).is_some() ==> spec_first_named(
                graphs@,
                model@,
            ) == Some(spec_first_named(graphs@.skip(i as int), model@).unwrap() + i),
            spec_first_named(graphs@.skip(i as int), model@).is_none() ==> spec_first_named(
                graphs@,
                model@,
            ).is_none(),
        decreases n - i,
    {
        proof {
            assert(graphs@.skip(i as int)[0] == graphs@[i as int]);
            assert(graphs@.skip(i as int).drop_first() =~= graphs@.skip(i as int + 1));
        }
        if graphs[i].name.eq(model) {
            return Ok(i);
        }
        i = i + 1;
    }
    proof {
        assert(graphs@.skip(n as int).len() == 0);
    }
    if n > 0 {
        Ok(0)
    } else {
        Err(RerankerError::NoModelAvailable)
    }
}

/// Enables the graph's reranking capability flag when it is not yet set,
/// leaving everything else unchanged. Returns whether the flag changed — the
/// application must then persist the metadata through the graph's own update
/// mechanism before any computation. Enabling an enabled flag is a no-op.
pub fn ensure_reranking_enabled(g: &mut GraphConfig) -> (changed: bool)
    ensures
        final(g).reranking,
        changed == !old(g).reranking,
        final(g).name == old(g).name,
        final(g).input_style == old(g).input_style,
        final(g).output_style == old(g).output_style,
{
    if !g.reranking {
        g.reranking = true;
        true
    } else {
        false
    }
}

/// What the backend did for one document, as the application observed it.
#[derive(Clone, Debug)]
pub enum BackendStep {
    /// Input transfer, computation and output retrieval all succeeded: the
    /// raw output buffer and the graph's per-call token counters.
    Output { bytes: Vec<u8>, prompt_tokens: u64, completion_tokens: u64 },
    /// The backend rejected the input tensor, with its message.
    InputRejected { message: String },
    /// The backend failed during computation, with its message.
    Failed { message: String },
}

/// Whether a step ends the batch: a backend failure, or an output buffer
/// that does not decode under the graph's output convention.
pub open spec fn step_fails(style: OutputStyle, step: BackendStep) -> bool {
    match step {
        BackendStep::Output { bytes, .. } => spec_decode_output(style, bytes@).is_err(),
        BackendStep::InputRejected { .. } => true,
        BackendStep::Failed { .. } => true,
    }
}

/// The error a failing step at position `index` produces.
pub open spec fn spec_step_error(style: OutputStyle, step: BackendStep, index: usize) -> RerankerError {
    match step {
        BackendStep::Output { bytes, .. } => match spec_decode_output(style, bytes@) {
            Result::Err(DecodeError::InvalidOutputEncoding) => RerankerError::InvalidOutputEncoding {
                index,
            },
            _ => RerankerError::MalformedScorePayload { index },
        },
        BackendStep::InputRejected { message } => RerankerError::SetInputFailed(message),
        BackendStep::Failed { message } => RerankerError::ComputeFailed(message),
    }
}

/// The scored documents a run of successful steps produces, in request order.
pub open spec fn spec_scored_docs(style: OutputStyle, steps: Seq<BackendStep>) -> Seq<
    RerankerObject,
> {
    Seq::new(
        steps.len(),
        |k: int|
            RerankerObject {
                index: k as u64,
                relevance_score: match steps[k] {
                    BackendStep::Output { bytes, .. } => spec_decode_output(style, bytes@).unwrap(),
                    _ => Score { neg: false, mant: 0, exp: 0 },
                },
            },
    )
}

/// The prompt tokens reported over the steps.
pub open spec fn spec_prompt_sum(steps: Seq<BackendStep>) -> int
    decreases steps.len(),
{
    if steps.len() == 0 {
        0
    } else {
        (match steps[0] {
            BackendStep::Output { prompt_tokens, .. } => prompt_tokens as int,
            _ => 0,
        }) + spec_prompt_sum(steps.drop_first())
    }
}

/// The completion tokens reported over the steps.
pub open spec fn spec_completion_sum(steps: Seq<BackendStep>) -> int
    decreases steps.len(),
{
    if steps.len() == 0 {
        0
    } else {
        (match steps[0] {
            BackendStep::Output { completion_tokens, .. } => completion_tokens as int,
            _ => 0,
        }) + spec_completion_sum(steps.drop_first())
    }
}

/// The ranked results, truncated to the first `top_n` when it is given: all
/// of them when `top_n` exceeds their number, none when it is zero.
pub open spec fn spec_truncate(s: Seq<RerankerObject>, top_n: Option<usize>) -> Seq<RerankerObject> {
    match top_n {
        Option::None => s,
        Option::Some(n) => if n < s.len() {
            s.subrange(0, n as int)
        } else {
            s
        },
    }
}

/// Truncation returns a prefix of the untruncated ranking: the kept results
/// stand in the same order as without `top_n`; zero keeps nothing; a bound
/// at or above the length keeps everything.
pub proof fn lemma_truncate_prefix(s: Seq<RerankerObject>, n: usize)
    ensures
        spec_truncate(s, Some(n)) == if n < s.len() {
            spec_truncate(s, None).subrange(0, n as int)
        } else {
            spec_truncate(s, None)
        },
        spec_truncate(s, Some(0)) =~= Seq::<RerankerObject>::empty(),
        n >= s.len() ==> spec_truncate(s, Some(n)) == s,
{
}

/// One request's compute loop. The application drives the backend — encode,
/// set input, compute, read output — and hands each document's raw output and
/// token counters to `push_output`; the session decodes, accumulates, and on
/// a decode failure reports the offending document's position. `finish`
/// sorts, truncates and builds the response.
pub struct RerankSession {
    pub scored: Vec<RerankerObject>,
    pub usage: Usage,
    pub output_style: OutputStyle,
}

impl RerankSession {
    /// The session's invariant: usage is consistent, every score is well
    /// formed, and the k-th scored document carries index k.
    pub open spec fn wf(self) -> bool {
        &&& self.usage.wf()
        &&& all_wf(self.scored@)
        &&& forall|k: int| 0 <= k < self.scored@.len() ==> (#[trigger] self.scored@[k]).index == k
    }

    /// Starts a session for one request on a graph with the given output
    /// convention: no documents scored, no tokens consumed.
    pub fn new(output_style: OutputStyle) -> (r: RerankSession)
        ensures
            r.wf(),
            r.scored@.len() == 0,
            r.usage.prompt_tokens == 0,
            r.usage.completion_tokens == 0,
            r.usage.total_tokens == 0,
            r.output_style == output_style,
    {
        RerankSession { scored: Vec::new(), usage: Usage::new(), output_style }
    }

    /// Consumes one document's raw output buffer and per-call token counts:
    /// decodes the relevance score, appends the scored document under the
    /// next index, and adds the tokens to the running totals. On a decode
    /// failure nothing changes and the error names the document's position;
    /// the batch must then be aborted.
    pub fn push_output(
        &mut self,
        bytes: &Vec<u8>,
        prompt_tokens: u64,
        completion_tokens: u64,
    ) -> (r: Result<(), RerankerError>)
        requires
            old(self).wf(),
            old(self).usage.prompt_tokens + prompt_tokens + old(self).usage.completion_tokens
                + completion_tokens <= u64::MAX,
        ensures
            final(self).wf(),
            final(self).output_style == old(self).output_style,
            r.is_ok() == spec_decode_output(old(self).output_style, bytes@).is_ok(),
            r.is_ok() ==> final(self).scored@ == old(self).scored@.push(
                RerankerObject {
                    index: old(self).scored@.len() as u64,
                    relevance_score: spec_decode_output(old(self).output_style, bytes@).unwrap(),
                },
            ) && final(self).usage.prompt_tokens == old(self).usage.prompt_tokens + prompt_tokens
                && final(self).usage.completion_tokens == old(self).usage.completion_tokens
                + completion_tokens,
            r.is_err() ==> final(self).scored@ == old(self).scored@ && final(self).usage == old(
                self,
            ).usage && r == Err::<(), RerankerError>(
                match spec_decode_output(old(self).output_style, bytes@) {
                    Result::Err(DecodeError::InvalidOutputEncoding) => RerankerError::InvalidOutputEncoding {
                        index: old(self).scored@.len() as usize,
                    },
                    _ => RerankerError::MalformedScorePayload {
                        index: old(self).scored@.len() as usize,
                    },
                },
            ),
    {
        let idx = self.scored.len();
        match decode_output(self.output_style, bytes) {
            Result::Ok(score) => {
                self.scored.push(RerankerObject { index: idx as u64, relevance_score: score });
                self.usage.add(prompt_tokens, completion_tokens);
                Ok(())
            },
            Result::Err(DecodeError::InvalidOutputEncoding) => Err(
                RerankerError::InvalidOutputEncoding { index: idx },
            ),
            Result::Err(DecodeError::MalformedScorePayload) => Err(
                RerankerError::MalformedScorePayload { index: idx },
            ),
        }
    }

    /// Ends the loop: sorts the scored documents by descending relevance —
    /// ties keep their original order — truncates to `top_n` when given, and
    /// builds the response around the name of the graph actually used.
    pub fn finish(self, model: String, top_n: Option<usize>) -> (r: RerankerResponse)
        requires
            self.wf(),
        ensures
            r.object@ == "list"@,
            r.model == model,
            r.results@ == spec_truncate(spec_rank(self.scored@), top_n),
            r.usage == self.usage,
    {
        let mut results = rank_documents(self.scored);
        match top_n {
            Option::Some(n) => {
                results.truncate(n);
            },
            Option::None => {},
        }
        RerankerResponse { object: "list".to_owned(), results, model, usage: self.usage }
    }
}

proof fn lemma_sums_nonneg(steps: Seq<BackendStep>)
    ensures
        spec_prompt_sum(steps) >= 0,
        spec_completion_sum(steps) >= 0,
    decreases steps.len(),
{
    if steps.len() > 0 {
        lemma_sums_nonneg(steps.drop_first());
    }
}

proof fn lemma_sums_step(steps: Seq<BackendStep>, k: int)
    requires
        0 <= k < steps.len(),
    ensures
        spec_prompt_sum(steps.take(k + 1)) == spec_prompt_sum(steps.take(k)) + (match steps[k] {
            BackendStep::Output { prompt_tokens, .. } => prompt_tokens as int,
            _ => 0,
        }),
        spec_completion_sum(steps.take(k + 1)) == spec_completion_sum(steps.take(k)) + (
        match steps[k] {
            BackendStep::Output { completion_tokens, .. } => completion_tokens as int,
            _ => 0,
        }),
    decreases k,
{
    if k == 0 {
        assert(steps.take(0) =~= Seq::<BackendStep>::empty());
        assert(steps.take(1).drop_first() =~= Seq::<BackendStep>::empty());
        assert(steps.take(1)[0] == steps[0]);
    } else {
        lemma_sums_step(steps.drop_first(), k - 1);
        assert(steps.take(k + 1).drop_first() =~= steps.drop_first().take(k));
        assert(steps.take(k).drop_first() =~= steps.drop_first().take(k - 1));
        assert(steps.take(k + 1)[0] == steps[0]);
        assert(steps.take(k)[0] == steps[0]);
        assert(steps.drop_first()[k - 1] == steps[k]);
    }
}

proof fn lemma_sums_take_le(steps: Seq<BackendStep>, k: int)
    requires
        0 <= k <= steps.len(),
    ensures
        spec_prompt_sum(steps.take(k)) <= spec_prompt_sum(steps),
        spec_completion_sum(steps.take(k)) <= spec_completion_sum(steps),
        spec_prompt_sum(steps.take(k)) >= 0,
        spec_completion_sum(steps.take(k)) >= 0,
    decreases steps.len(),
{
    lemma_sums_nonneg(steps);
    lemma_sums_nonneg(steps.take(k));
    if k == 0 {
        assert(steps.take(0) =~= Seq::<BackendStep>::empty());
    } else {
        lemma_sums_take_le(steps.drop_first(), k - 1);
        assert(steps.take(k).drop_first() =~= steps.drop_first().take(k - 1));
        assert(steps.take(k)[0] == steps[0]);
    }
}

/// What the orchestrator's outcome must be, in every case: the mode gate
/// first, then the registry checks, then graph selection; then either the
/// first failing step's error, or the response built from every decoded
/// score, ranked, truncated, with the summed usage and the name of the graph
/// actually used. This predicate fully determines the outcome.
pub open spec fn reranker_post(
    mode: RunningMode,
    registry: Option<Seq<GraphConfig>>,
    lock_poisoned: bool,
    model: Seq<char>,
    top_n: Option<usize>,
    steps: Seq<BackendStep>,
    r: Result<RerankerResponse, RerankerError>,
) -> bool {
    if !mode_allows_reranking(mode) {
        r == Err::<RerankerResponse, RerankerError>(RerankerError::UnsupportedMode)
    } else if registry.is_none() {
        r == Err::<RerankerResponse, RerankerError>(RerankerError::NoRerankerModel)
    } else if lock_poisoned {
        r == Err::<RerankerResponse, RerankerError>(RerankerError::LockAcquisitionFailed)
    } else if registry.unwrap().len() == 0 {
        r == Err::<RerankerResponse, RerankerError>(RerankerError::NoModelAvailable)
    } else {
        let graphs = registry.unwrap();
        let g = graphs[spec_select(graphs, model).unwrap()];
        &&& ((forall|k: int| 0 <= k < steps.len() ==> !step_fails(g.output_style, #[trigger] steps[k]))
            ==> r.is_ok() && r.unwrap().object@ == "list"@ && r.unwrap().model@ == g.name@
            && r.unwrap().results@ == spec_truncate(
            spec_rank(spec_scored_docs(g.output_style, steps)),
            top_n,
        ) && r.unwrap().usage.prompt_tokens == spec_prompt_sum(steps)
            && r.unwrap().usage.completion_tokens == spec_completion_sum(steps)
            && r.unwrap().usage.total_tokens == spec_prompt_sum(steps) + spec_completion_sum(steps))
        &&& (forall|k: int|
            (0 <= k < steps.len() && step_fails(g.output_style, #[trigger] steps[k]) && (forall|
                j: int,
            | 0 <= j < k ==> !step_fails(g.output_style, #[trigger] steps[j]))) ==> r == Err::<
                RerankerResponse,
                RerankerError,
            >(spec_step_error(g.output_style, steps[k], k as usize)))
    }
}

proof fn lemma_only_first_failure(style: OutputStyle, steps: Seq<BackendStep>, k: int)
    requires
        0 <= k < steps.len(),
        step_fails(style, steps[k]),
        forall|j: int| 0 <= j < k ==> !step_fails(style, #[trigger] steps[j]),
    ensures
        forall|k2: int|
            (0 <= k2 < steps.len() && step_fails(style, #[trigger] steps[k2]) && (forall|j: int|
                0 <= j < k2 ==> !step_fails(style, #[trigger] steps[j]))) ==> k2 == k,
{
    assert forall|k2: int|
        (0 <= k2 < steps.len() && step_fails(style, #[trigger] steps[k2]) && (forall|j: int|
            0 <= j < k2 ==> !step_fails(style, #[trigger] steps[j]))) implies k2 == k by {
        if k2 < k {
            assert(!step_fails(style, steps[k2]));
        } else if k2 > k {
            assert(!step_fails(style, steps[k]));
        }
    }
}

proof fn lemma_post_failure(
    mode: RunningMode,
    registry: Option<Seq<GraphConfig>>,
    lock_poisoned: bool,
    model: Seq<char>,
    top_n: Option<usize>,
    steps: Seq<BackendStep>,
    k: int,
    e: RerankerError,
)
    requires
        mode_allows_reranking(mode),
        registry.is_some(),
        !lock_poisoned,
        registry.unwrap().len() > 0,
        0 <= k < steps.len(),
        step_fails(
            registry.unwrap()[spec_select(registry.unwrap(), model).unwrap()].output_style,
            steps[k],
        ),
        forall|j: int|
            0 <= j < k ==> !step_fails(
                registry.unwrap()[spec_select(registry.unwrap(), model).unwrap()].output_style,
                #[trigger] steps[j],
            ),
        e == spec_step_error(
            registry.unwrap()[spec_select(registry.unwrap(), model).unwrap()].output_style,
            steps[k],
            k as usize,
        ),
    ensures
        reranker_post(
            mode,
            registry,
            lock_poisoned,
            model,
            top_n,
            steps,
            Err::<RerankerResponse, RerankerError>(e),
        ),
{
    let style = registry.unwrap()[spec_select(registry.unwrap(), model).unwrap()].output_style;
    lemma_only_first_failure(style, steps, k);
    let rr = Err::<RerankerResponse, RerankerError>(e);
    assert(!(forall|kk: int| 0 <= kk < steps.len() ==> !step_fails(style, #[trigger] steps[kk])));
    assert forall|k2: int|
        (0 <= k2 < steps.len() && step_fails(style, #[trigger] steps[k2]) && (forall|j: int|
            0 <= j < k2 ==> !step_fails(style, #[trigger] steps[j]))) implies rr == Err::<
        RerankerResponse,
        RerankerError,
    >(spec_step_error(style, steps[k2], k2 as usize)) by {
        assert(k2 == k);
    }
}

/// The reranking orchestrator's decisions, start to finish, for one request.
///
/// The application performs the outside work: it reads the operating mode,
/// takes the registry's exclusive lock for the whole loop, drives the
/// backend for each document in order — aborting at the first failure — and
/// records one `BackendStep` per attempted document. Handed those
/// observations, this function returns exactly what the request must get:
/// all-or-nothing, no partial results.
#[verifier::rlimit(100)]
pub fn reranker(
    mode: RunningMode,
    registry: Option<&Vec<GraphConfig>>,
    lock_poisoned: bool,
    request: &RerankerRequest,
    steps: &Vec<BackendStep>,
) -> (r: Result<RerankerResponse, RerankerError>)
    requires
        steps@.len() == request.documents@.len(),
        spec_prompt_sum(steps@) + spec_completion_sum(steps@) <= u64::MAX,
    ensures
        reranker_post(
            mode,
            match registry {
                Option::None => None,
                Option::Some(g) => Some(g@),
            },
            lock_poisoned,
            request.model@,
            request.top_n,
            steps@,
            r,
        ),
{
    match mode {
        RunningMode::Reranker => {},
        RunningMode::ChatEmbeddingReranker => {},
        _ => {
            return Err(RerankerError::UnsupportedMode);
        },
    }
    let graphs = match registry {
        Option::None => {
            return Err(RerankerError::NoRerankerModel);
        },
        Option::Some(g) => g,
    };
    if lock_poisoned {
        return Err(RerankerError::LockAcquisitionFailed);
    }
    let gi = match select_graph(graphs, &request.model) {
        Result::Err(e) => {
            return Err(e);
        },
        Result::Ok(i) => i,
    };
    let style = graphs[gi].output_style;
    let mut session = RerankSession::new(style);
    let n = steps.len();
    let mut k: usize = 0;
    while k < n
        invariant
            k <= n == steps@.len(),
            mode_allows_reranking(mode),
            registry == Some(graphs),
            !lock_poisoned,
            graphs@.len() > 0,
            gi < graphs@.len(),
            Some(gi as int) == spec_select(graphs@, request.model@),
            style == graphs@[gi as int].output_style,
            spec_prompt_sum(steps@) + spec_completion_sum(steps@) <= u64::MAX,
            session.wf(),
            session.output_style == style,
            session.scored@ =~= spec_scored_docs(style, steps@.take(k as int)),
            session.usage.prompt_tokens == spec_prompt_sum(steps@.take(k as int)),
            session.usage.completion_tokens == spec_completion_sum(steps@.take(k as int)),
            forall|j: int| 0 <= j < k ==> !step_fails(style, #[trigger] steps@[j]),
        decreases n - k,
    {
        proof {
            lemma_sums_step(steps@, k as int);
            lemma_sums_take_le(steps@, k as int + 1);
            assert(session.scored@.len() == k);
        }
        match &steps[k] {
            BackendStep::Output { bytes, prompt_tokens, completion_tokens } => {
                match session.push_output(bytes, *prompt_tokens, *completion_tokens) {
                    Result::Ok(()) => {
                        proof {
                            assert(session.scored@ =~= spec_scored_docs(
                                style,
                                steps@.take(k as int + 1),
                            ));
                        }
                    },
                    Result::Err(e) => {
                        proof {
                            assert(step_fails(style, steps@[k as int]));
                            lemma_post_failure(
                                mode,
                                Some(graphs@),
                                lock_poisoned,
                                request.model@,
                                request.top_n,
                                steps@,
                                k as int,
                                e,
                            );
                        }
                        return Err(e);
                    },
                }
            },
            BackendStep::InputRejected { message } => {
                let err = RerankerError::SetInputFailed(message.clone());
                proof {
                    assert(step_fails(style, steps@[k as int]));
                    lemma_post_failure(
                        mode,
                        Some(graphs@),
                        lock_poisoned,
                        request.model@,
                        request.top_n,
                        steps@,
                        k as int,
                        err,
                    );
                }
                return Err(err);
            },
            BackendStep::Failed { message } => {
                let err = RerankerError::ComputeFailed(message.clone());
                proof {
                    assert(step_fails(style, steps@[k as int]));
                    lemma_post_failure(
                        mode,
                        Some(graphs@),
                        lock_poisoned,
                        request.model@,
                        request.top_n,
                        steps@,
                        k as int,
                        err,
                    );
                }
                return Err(err);
            },
        }
        k = k + 1;
    }
    proof {
        assert(steps@.take(n as int) =~= steps@);
    }
    let model_name = graphs[gi].name.clone();
    let resp = session.finish(model_name, request.top_n);
    Ok(resp)
}

/// Two responses are equivalent when they agree on everything a caller can
/// read: the object tag, the ranked results, the model name and the usage.
pub open spec fn resp_equiv(a: RerankerResponse, b: RerankerResponse) -> bool {
    a.object@ == b.object@ && a.results@ == b.results@ && a.model@ == b.model@ && a.usage == b.usage
}

proof fn lemma_first_failure_exists(style: OutputStyle, steps: Seq<BackendStep>)
    requires
        exists|k: int| 0 <= k < steps.len() && step_fails(style, #[trigger] steps[k]),
    ensures
        exists|k: int|
            0 <= k < steps.len() && step_fails(style, #[trigger] steps[k]) && (forall|j: int|
                0 <= j < k ==> !step_fails(style, #[trigger] steps[j])),
    decreases steps.len(),
{
    if step_fails(style, steps[0]) {
        assert(0 <= 0 < steps.len() && step_fails(style, steps[0]) && (forall|j: int|
            0 <= j < 0 ==> !step_fails(style, #[trigger] steps[j])));
    } else {
        let rest = steps.drop_first();
        let w = choose|k: int| 0 <= k < steps.len() && step_fails(style, #[trigger] steps[k]);
        assert(rest[w - 1] == steps[w]);
        lemma_first_failure_exists(style, rest);
        let m = choose|k: int|
            0 <= k < rest.len() && step_fails(style, #[trigger] rest[k]) && (forall|j: int|
                0 <= j < k ==> !step_fails(style, #[trigger] rest[j]));
        assert(steps[m + 1] == rest[m]);
        assert(forall|j: int| 1 <= j < m + 1 ==> steps[j] == rest[j - 1]);
        assert(0 <= m + 1 < steps.len() && step_fails(style, steps[m + 1]) && (forall|j: int|
            0 <= j < m + 1 ==> !step_fails(style, #[trigger] steps[j])));
    }
}

/// Determinism: for one and the same mode, registry, lock state, request and
/// backend events, any two outcomes the orchestrator's contract allows are
/// the same — errors are identical, responses are equivalent in everything a
/// caller can read.
pub proof fn lemma_reranker_deterministic(
    mode: RunningMode,
    registry: Option<Seq<GraphConfig>>,
    lock_poisoned: bool,
    model: Seq<char>,
    top_n: Option<usize>,
    steps: Seq<BackendStep>,
    r1: Result<RerankerResponse, RerankerError>,
    r2: Result<RerankerResponse, RerankerError>,
)
    requires
        reranker_post(mode, registry, lock_poisoned, model, top_n, steps, r1),
        reranker_post(mode, registry, lock_poisoned, model, top_n, steps, r2),
    ensures
        r1.is_ok() == r2.is_ok(),
        r1.is_ok() ==> resp_equiv(r1.unwrap(), r2.unwrap()),
        r1.is_err() ==> r1 == r2,
{
    if !mode_allows_reranking(mode) {
    } else if registry.is_none() {
    } else if lock_poisoned {
    } else if registry.unwrap().len() == 0 {
    } else {
        let graphs = registry.unwrap();
        let g = graphs[spec_select(graphs, model).unwrap()];
        if forall|k: int| 0 <= k < steps.len() ==> !step_fails(g.output_style, #[trigger] steps[k]) {
        } else {
            let w = choose|k: int|
                0 <= k < steps.len() && step_fails(g.output_style, #[trigger] steps[k]);
            lemma_first_failure_exists(g.output_style, steps);
            let k0 = choose|k: int|
                0 <= k < steps.len() && step_fails(g.output_style, #[trigger] steps[k]) && (forall|
                    j: int,
                | 0 <= j < k ==> !step_fails(g.output_style, #[trigger] steps[j]));
            assert(r1 == Err::<RerankerResponse, RerankerError>(
                spec_step_error(g.output_style, steps[k0], k0 as usize),
            ));
            assert(r2 == Err::<RerankerResponse, RerankerError>(
                spec_step_error(g.output_style, steps[k0], k0 as usize),
            ));
        }
    }
}

} // verus!
