use one_grep::embed::{
    global_cache_dir, order_results, rerank_refused, OnnxModel, RankKind, RerankItem,
};
use one_grep::error::Error;

fn item(index: u64, score: f64) -> RerankItem {
    RerankItem {
        index: Some(index),
        relevance_score: Some(bits(score)),
        score: None,
    }
}

fn bits(score: f64) -> Option<u64> {
    Some(f64::from(score as f32).to_bits())
}

fn order(items: &[RerankItem], docs: usize) -> Vec<(usize, f32)> {
    order_results(items, docs)
        .iter()
        .map(|s| (s.index, f64::from_bits(s.score) as f32))
        .collect()
}

#[test]
fn llama_reranker_orders_by_relevance_score() {
    assert_eq!(
        order(&[item(1, 0.9), item(0, 0.2)], 2),
        vec![(1, 0.9), (0, 0.2)]
    );
}

#[test]
fn llama_reranker_accepts_plain_score_field() {
    let plain = |index: u64, score: f64| RerankItem {
        index: Some(index),
        relevance_score: None,
        score: Some(bits(score)),
    };
    assert_eq!(order(&[plain(0, 0.5)], 1), vec![(0, 0.5)]);
    // `relevance_score` comes first, even where it holds no number.
    let both = RerankItem { relevance_score: Some(bits(0.75)), ..plain(1, 0.1) };
    assert_eq!(order(&[plain(0, 0.5), both], 2), vec![(1, 0.75), (0, 0.5)]);
    let odd = RerankItem { relevance_score: Some(None), ..plain(0, 0.1) };
    assert!(order(&[odd], 1).is_empty());
}

#[test]
fn llama_reranker_empty_docs_short_circuits() {
    assert!(order(&[], 0).is_empty());
    assert!(order(&[item(0, 0.5)], 0).is_empty());
}

#[test]
fn strange_results_are_passed_over() {
    let items = [
        item(7, 0.9),
        RerankItem { index: None, ..item(0, 0.9) },
        RerankItem { relevance_score: None, ..item(0, 0.9) },
        item(1, 0.5),
        item(0, 0.5),
    ];
    assert_eq!(order(&items, 2), vec![(0, 0.5), (1, 0.5)]);
}

#[test]
fn rank_kind_parses_lowercase_labels() {
    assert_eq!(RankKind::parse("jev").expect("jev"), RankKind::Jev);
    assert_eq!(RankKind::parse("jina").expect("jina"), RankKind::Jina);
    assert_eq!(RankKind::parse("llama").expect("llama"), RankKind::Llama);
    assert!(RankKind::parse("bert").is_none());
}

#[test]
fn model_labels_roundtrip() {
    for (label, model) in [
        ("minilm", OnnxModel::MiniLM),
        ("arctic-m", OnnxModel::ArcticM),
        ("gemma-300m", OnnxModel::Gemma300M),
    ] {
        assert_eq!(OnnxModel::parse(label, false).expect("parse"), model);
    }
    assert!(OnnxModel::parse("bert", false).is_err());
}

#[test]
fn stored_names_lead_back_to_models() {
    for model in [
        OnnxModel::default(),
        OnnxModel::ArcticM,
        OnnxModel::Gemma300M,
        OnnxModel::Custom("/models/mine".to_owned()),
    ] {
        assert_eq!(OnnxModel::parse_stored(&model.label()).expect("stored"), model);
    }
    let err = OnnxModel::parse_stored("other").unwrap_err();
    assert!(matches!(err, Error::Embed(ref m) if m == "vector store uses unknown model other; re-run `embed`"));
    assert_eq!(
        OnnxModel::parse("dir", true).expect("custom"),
        OnnxModel::Custom("dir".to_owned())
    );
    let err = OnnxModel::parse("dir", false).unwrap_err();
    assert_eq!(
        err.message(),
        "unknown embedding model: dir (minilm|arctic-m|gemma-300m|<dir>)"
    );
}

#[test]
fn only_arctic_models_prefix_queries() {
    assert!(OnnxModel::ArcticM.query_prefix().is_some());
    assert!(OnnxModel::MiniLM.query_prefix().is_none());
}

#[test]
fn refusals_and_caches() {
    let err = rerank_refused("500", &format!(" {} ", "x".repeat(200)));
    assert_eq!(err.message(), format!("rerank HTTP 500: {}", "x".repeat(180)));
    let err = rerank_refused("500", &format!("{}é", "x".repeat(179)));
    assert_eq!(err.message(), format!("rerank HTTP 500: {}", "x".repeat(179)));
    assert_eq!(global_cache_dir(Some("/h")), "/h/.one-grep/models");
    assert_eq!(global_cache_dir(None), ".one-grep-cache");
}
