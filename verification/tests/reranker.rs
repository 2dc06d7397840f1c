use rerank_core::codec::{InputStyle, OutputStyle};
use rerank_core::engine::{
    reranker, BackendStep, GraphConfig, RerankerError, RerankerRequest, RunningMode,
};
use rerank_core::score::Score;

fn graph(name: &str) -> GraphConfig {
    GraphConfig {
        name: name.to_string(),
        reranking: true,
        input_style: InputStyle::QueryAndDocument,
        output_style: OutputStyle::StructuredScores,
    }
}

fn request(model: &str, docs: &[&str], top_n: Option<usize>) -> RerankerRequest {
    RerankerRequest {
        model: model.to_string(),
        query: "which fruit".to_string(),
        documents: docs.iter().map(|d| d.to_string()).collect(),
        top_n,
    }
}

fn output(payload: &str) -> BackendStep {
    BackendStep::Output {
        bytes: payload.as_bytes().to_vec(),
        prompt_tokens: 5,
        completion_tokens: 1,
    }
}

fn three_fruit_steps() -> Vec<BackendStep> {
    vec![
        output("{\"scores\":[0.2]}"),
        output("{\"scores\":[0.9]}"),
        output("{\"scores\":[0.5]}"),
    ]
}

fn score(neg: bool, mant: u64, exp: i32) -> Score {
    Score { neg, mant, exp }
}

#[test]
fn index_fidelity_example() {
    let graphs = vec![graph("m")];
    let req = request("m", &["apple", "banana", "cherry"], None);
    let steps = three_fruit_steps();
    let resp = reranker(RunningMode::Reranker, Some(&graphs), false, &req, &steps).unwrap();
    assert_eq!(resp.object, "list");
    assert_eq!(resp.results.len(), 3);
    assert_eq!(resp.results[0].index, 1);
    assert_eq!(resp.results[0].relevance_score, score(false, 9, -1));
    assert_eq!(resp.results[1].index, 2);
    assert_eq!(resp.results[1].relevance_score, score(false, 5, -1));
    assert_eq!(resp.results[2].index, 0);
    assert_eq!(resp.results[2].relevance_score, score(false, 2, -1));
}

#[test]
fn top_n_truncates_to_prefix() {
    let graphs = vec![graph("m")];
    let steps = three_fruit_steps();
    let full = reranker(
        RunningMode::Reranker,
        Some(&graphs),
        false,
        &request("m", &["apple", "banana", "cherry"], None),
        &steps,
    )
    .unwrap();
    let two = reranker(
        RunningMode::Reranker,
        Some(&graphs),
        false,
        &request("m", &["apple", "banana", "cherry"], Some(2)),
        &steps,
    )
    .unwrap();
    assert_eq!(two.results.len(), 2);
    assert_eq!(two.results[0], full.results[0]);
    assert_eq!(two.results[1], full.results[1]);
}

#[test]
fn top_n_zero_returns_nothing() {
    let graphs = vec![graph("m")];
    let steps = three_fruit_steps();
    let resp = reranker(
        RunningMode::Reranker,
        Some(&graphs),
        false,
        &request("m", &["apple", "banana", "cherry"], Some(0)),
        &steps,
    )
    .unwrap();
    assert!(resp.results.is_empty());
}

#[test]
fn top_n_beyond_count_keeps_all() {
    let graphs = vec![graph("m")];
    let steps = three_fruit_steps();
    let resp = reranker(
        RunningMode::Reranker,
        Some(&graphs),
        false,
        &request("m", &["apple", "banana", "cherry"], Some(10)),
        &steps,
    )
    .unwrap();
    assert_eq!(resp.results.len(), 3);
}

#[test]
fn usage_accumulates_across_documents() {
    let graphs = vec![graph("m")];
    let steps = three_fruit_steps();
    let resp = reranker(
        RunningMode::Reranker,
        Some(&graphs),
        false,
        &request("m", &["a", "b", "c"], None),
        &steps,
    )
    .unwrap();
    assert_eq!(resp.usage.prompt_tokens, 15);
    assert_eq!(resp.usage.completion_tokens, 3);
    assert_eq!(resp.usage.total_tokens, 18);
}

#[test]
fn compute_failure_aborts_whole_batch() {
    let graphs = vec![graph("m")];
    let steps = vec![
        output("{\"scores\":[0.2]}"),
        BackendStep::Failed { message: "backend gave up".to_string() },
        output("{\"scores\":[0.5]}"),
    ];
    let r = reranker(
        RunningMode::Reranker,
        Some(&graphs),
        false,
        &request("m", &["a", "b", "c"], None),
        &steps,
    );
    match r {
        Err(RerankerError::ComputeFailed(msg)) => assert_eq!(msg, "backend gave up"),
        other => panic!("expected ComputeFailed, got {:?}", other),
    }
}

#[test]
fn set_input_failure_aborts_whole_batch() {
    let graphs = vec![graph("m")];
    let steps = vec![BackendStep::InputRejected { message: "bad tensor".to_string() }];
    let r = reranker(RunningMode::Reranker, Some(&graphs), false, &request("m", &["a"], None), &steps);
    match r {
        Err(RerankerError::SetInputFailed(msg)) => assert_eq!(msg, "bad tensor"),
        other => panic!("expected SetInputFailed, got {:?}", other),
    }
}

#[test]
fn mode_gate_rejects_chat_before_registry() {
    let r = reranker(RunningMode::Chat, None, false, &request("m", &[], None), &vec![]);
    assert!(matches!(r, Err(RerankerError::UnsupportedMode)));
}

#[test]
fn embedding_mode_is_rejected() {
    let graphs = vec![graph("m")];
    let r = reranker(
        RunningMode::Embedding,
        Some(&graphs),
        false,
        &request("m", &[], None),
        &vec![],
    );
    assert!(matches!(r, Err(RerankerError::UnsupportedMode)));
}

#[test]
fn combined_mode_is_accepted() {
    let graphs = vec![graph("m")];
    let r = reranker(
        RunningMode::ChatEmbeddingReranker,
        Some(&graphs),
        false,
        &request("m", &[], None),
        &vec![],
    );
    assert!(r.is_ok());
}

#[test]
fn missing_registry_is_no_reranker_model() {
    let r = reranker(RunningMode::Reranker, None, false, &request("m", &[], None), &vec![]);
    assert!(matches!(r, Err(RerankerError::NoRerankerModel)));
}

#[test]
fn poisoned_lock_is_reported() {
    let graphs = vec![graph("m")];
    let r = reranker(RunningMode::Reranker, Some(&graphs), true, &request("m", &[], None), &vec![]);
    assert!(matches!(r, Err(RerankerError::LockAcquisitionFailed)));
}

#[test]
fn empty_registry_is_no_model_available() {
    let graphs: Vec<GraphConfig> = vec![];
    let r = reranker(RunningMode::Reranker, Some(&graphs), false, &request("m", &[], None), &vec![]);
    assert!(matches!(r, Err(RerankerError::NoModelAvailable)));
}

#[test]
fn unknown_model_falls_back_to_first_graph() {
    let graphs = vec![graph("resident-model"), graph("second-model")];
    let req = request("absent-model", &["doc"], None);
    let steps = vec![output("{\"scores\":[1]}")];
    let resp = reranker(RunningMode::Reranker, Some(&graphs), false, &req, &steps).unwrap();
    assert_eq!(resp.model, "resident-model");
}

#[test]
fn matching_model_name_is_selected() {
    let graphs = vec![graph("first"), graph("wanted")];
    let req = request("wanted", &["doc"], None);
    let steps = vec![output("{\"scores\":[1]}")];
    let resp = reranker(RunningMode::Reranker, Some(&graphs), false, &req, &steps).unwrap();
    assert_eq!(resp.model, "wanted");
}

#[test]
fn repeated_calls_give_identical_results() {
    let graphs = vec![graph("m")];
    let req = request("m", &["apple", "banana", "cherry"], Some(2));
    let steps = three_fruit_steps();
    let a = reranker(RunningMode::Reranker, Some(&graphs), false, &req, &steps).unwrap();
    let b = reranker(RunningMode::Reranker, Some(&graphs), false, &req, &steps).unwrap();
    assert_eq!(a.object, b.object);
    assert_eq!(a.model, b.model);
    assert_eq!(a.results, b.results);
    assert_eq!(a.usage, b.usage);
}

#[test]
fn equal_scores_keep_original_order() {
    let graphs = vec![graph("m")];
    let req = request("m", &["first", "second", "third"], None);
    // the middle document scores higher; the outer two tie, written in
    // different but equal decimal forms
    let steps = vec![
        output("{\"scores\":[0.5]}"),
        output("{\"scores\":[0.9]}"),
        output("{\"scores\":[5e-1]}"),
    ];
    let resp = reranker(RunningMode::Reranker, Some(&graphs), false, &req, &steps).unwrap();
    assert_eq!(resp.results[0].index, 1);
    assert_eq!(resp.results[1].index, 0);
    assert_eq!(resp.results[2].index, 2);
}

#[test]
fn decode_failure_reports_document_position() {
    let graphs = vec![graph("m")];
    let steps = vec![
        output("{\"scores\":[0.2]}"),
        BackendStep::Output {
            bytes: vec![0xff, 0xfe],
            prompt_tokens: 5,
            completion_tokens: 1,
        },
    ];
    let r = reranker(RunningMode::Reranker, Some(&graphs), false, &request("m", &["a", "b"], None), &steps);
    assert!(matches!(r, Err(RerankerError::InvalidOutputEncoding { index: 1 })));
}

#[test]
fn malformed_payload_reports_document_position() {
    let graphs = vec![graph("m")];
    let steps = vec![output("{\"scores\":"), output("{\"scores\":[0.2]}")];
    let r = reranker(RunningMode::Reranker, Some(&graphs), false, &request("m", &["a", "b"], None), &steps);
    assert!(matches!(r, Err(RerankerError::MalformedScorePayload { index: 0 })));
}

#[test]
fn placeholder_style_scores_every_document_alike() {
    let mut g = graph("m");
    g.output_style = OutputStyle::Placeholder;
    let graphs = vec![g];
    let steps = vec![
        BackendStep::Output { bytes: b"anything".to_vec(), prompt_tokens: 1, completion_tokens: 0 },
        BackendStep::Output { bytes: vec![0xff], prompt_tokens: 1, completion_tokens: 0 },
    ];
    let resp = reranker(
        RunningMode::Reranker,
        Some(&graphs),
        false,
        &request("m", &["a", "b"], None),
        &steps,
    )
    .unwrap();
    // all scores are the constant fallback, so the original order is kept
    assert_eq!(resp.results[0].index, 0);
    assert_eq!(resp.results[1].index, 1);
    assert_eq!(resp.results[0].relevance_score, score(false, 0, 0));
}
