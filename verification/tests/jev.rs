use one_grep::error::Error;
use one_grep::fuse::FusedHit;
use one_grep::jev::{
    docs_of_hits, endpoint, http_error, noul_request, order_nouls, parse_assignment_value,
    rerank_hits, resolve_api_key, sanitize_http, truncate_err, truncate_state, KeyFile,
    NoulWording, Outcome, RankStatus, Reading, DOTENV_REL, ENV_API_KEY,
};

const DUMMY_ENV: &str = "dummy-ts-key-env";
const DUMMY_DOTENV: &str = "dummy-ts-key-dotenv";

fn reading(p: f64) -> Option<Reading> {
    Some(Reading {
        bits: p.to_bits(),
        shown: format!("{p:.2}"),
    })
}

fn noul(p: f32) -> Option<u64> {
    Some(f64::from(p).to_bits())
}

fn hit(name: &str) -> FusedHit {
    FusedHit {
        path: format!("/ws/{name}"),
        start: 1,
        end: 1,
        breadcrumb: name.to_owned(),
        text: "body".to_owned(),
        score: 0,
        lexical_rank: None,
        vector_rank: None,
        ast_rank: None,
        terms: Vec::new(),
    }
}

#[test]
fn parses_export_and_quotes() {
    let text = "export TYPESAFE_API_KEY=\"dummy-ts-key-dotenv\"\n";
    assert_eq!(
        parse_assignment_value(text, ENV_API_KEY).as_deref(),
        Some(DUMMY_DOTENV)
    );
}

#[test]
fn missing_key_errors_list_sources_not_values() {
    let err = resolve_api_key(None, None, None).unwrap_err();
    let msg = err.message();
    assert!(msg.contains(ENV_API_KEY));
    assert!(msg.contains(DOTENV_REL));
    assert!(!msg.contains(DUMMY_ENV));
    assert!(!msg.contains(DUMMY_DOTENV));
    assert!(msg.starts_with("jev: "));
}

#[test]
fn chain_prefers_process_env() {
    let dotenv = KeyFile::Text(format!("TYPESAFE_API_KEY={DUMMY_DOTENV}\n"));
    let key = resolve_api_key(Some(DUMMY_ENV), Some(dotenv), None).expect("env");
    assert_eq!(key, DUMMY_ENV);
}

#[test]
fn chain_falls_through_files_in_order() {
    let text = |v: &str| Some(KeyFile::Text(format!("{ENV_API_KEY}={v}\n")));
    assert_eq!(
        resolve_api_key(Some("  "), text("one"), text("two")).expect("key"),
        "one"
    );
    assert_eq!(
        resolve_api_key(None, text("''"), text("two")).expect("key"),
        "two"
    );
    let unreadable = || Some(KeyFile::Unreadable("/h/f".to_owned()));
    let err = resolve_api_key(None, unreadable(), text("two")).unwrap_err();
    assert!(matches!(err, Error::Jev(ref m) if m == "could not read /h/f"));
    assert_eq!(
        resolve_api_key(Some("k"), unreadable(), None).expect("key"),
        "k"
    );
}

#[test]
fn assignments_trim_unquote_and_let_the_last_win() {
    let parse = |t: &str| parse_assignment_value(t, "K");
    assert_eq!(parse("K = a b \nK='c'\n").as_deref(), Some("c"));
    assert_eq!(parse("# K=x\n exportK=y\n"), None);
    assert_eq!(parse("export\tK=v=w").as_deref(), Some("v=w"));
    assert_eq!(parse("export=1\nK=2").as_deref(), Some("2"));
    // An empty last assignment is no assignment at all.
    assert_eq!(parse("K=x\nK=\n"), None);
    assert_eq!(parse("K=\"\n").as_deref(), Some("\""));
}

#[test]
fn rerank_nouls_orders_by_score() {
    let order: Vec<(usize, f32)> = order_nouls(&[noul(0.1), noul(0.8), noul(0.4)])
        .iter()
        .map(|s| (s.index, f64::from_bits(s.score) as f32))
        .collect();
    assert_eq!(order, vec![(1, 0.8), (2, 0.4), (0, 0.1)]);
}

#[test]
fn missing_nouls_fail_closed_and_ties_keep_order() {
    let order: Vec<usize> = order_nouls(&[None, noul(0.5), noul(0.0), noul(0.5)])
        .iter()
        .map(|s| s.index)
        .collect();
    assert_eq!(order, vec![1, 3, 0, 2]);
}

#[test]
fn low_exists_flags_verify_band() {
    assert!(RankStatus::jev(reading(0.12)).note.contains("low"));
    assert!(!RankStatus::jev(reading(0.85)).note.contains("low"));
    // Missing reading fails closed: no exists value, no approval signal.
    assert_eq!(RankStatus::jev(None).note, "rank: jev");
}

#[test]
fn verify_band_ends_below_its_setpoint() {
    assert_eq!(
        RankStatus::jev(reading(0.12)).note,
        "rank: jev exists=0.12 (low — verify before acting)"
    );
    assert_eq!(RankStatus::jev(reading(0.30)).note, "rank: jev exists=0.30");
    assert!(RankStatus::jev(reading(-1.0)).note.contains("low"));
    assert!(!RankStatus::jev(reading(f64::NAN)).note.contains("low"));
    let status = RankStatus::fallback("empty library");
    assert_eq!((status.mode, status.note.as_str()), ("fallback", "rank: fallback (empty library)"));
}

#[test]
fn sanitize_http_redacts_bearer() {
    let msg = sanitize_http("Authorization: Bearer super-secret-key rest");
    assert!(msg.contains("<redacted>"));
    assert!(!msg.contains("super-secret-key"));
}

#[test]
fn every_bearer_token_is_blotted_out() {
    assert_eq!(
        sanitize_http("a Bearer x, Bearer \"y\" Bearer z"),
        "a Bearer <redacted>, Bearer <redacted>\"y\" Bearer <redacted>"
    );
    assert_eq!(sanitize_http("nothing here"), "nothing here");
    assert_eq!(
        http_error("401 Unauthorized", " no Bearer k").message(),
        "jev: systemone HTTP 401 Unauthorized: no Bearer <redacted>"
    );
}

#[test]
fn long_texts_are_cut_between_characters() {
    assert_eq!(truncate_err("  short "), "short");
    let long = "é".repeat(100);
    assert_eq!(truncate_err(&long), format!("{}…", "é".repeat(90)));
    assert_eq!(truncate_state(&"é".repeat(500)).len(), 800);
    assert_eq!(truncate_state(&format!("a{}", "é".repeat(500))).len(), 799);
    assert_eq!(endpoint("http://h//"), "http://h/v1/systemone");
}

#[test]
fn requests_ask_one_question_per_candidate() {
    let docs = vec!["alpha".to_owned(), "b".repeat(900)];
    let r = noul_request("find it", &docs, NoulWording::Search);
    assert_eq!(r.subject, "query");
    assert_eq!(r.query, "find it");
    let ids: Vec<&str> = r.questions.iter().map(|q| q.id.as_str()).collect();
    assert_eq!(ids, vec!["exists", "c0", "c1"]);
    assert_eq!(
        r.questions[0].instructions,
        "Does any candidate supply evidence that answers the query?"
    );
    assert_eq!(
        r.questions[2].instructions,
        "Does candidate c1 answer the query directly?"
    );
    assert_eq!(r.candidates[0].text, "alpha");
    assert_eq!(r.candidates[1].text.len(), 800);
}

#[test]
fn answers_reorder_hits_and_failures_do_not() {
    let outcome = Outcome::Answered {
        exists: reading(0.9),
        scores: vec![noul(0.25), noul(0.75)],
    };
    let (status, hits) = rerank_hits(vec![hit("a"), hit("b")], outcome);
    assert_eq!(status.mode, "jev");
    let shown: Vec<(&str, f64)> = hits
        .iter()
        .map(|h| (h.path.as_str(), f64::from_bits(h.score)))
        .collect();
    assert_eq!(shown, vec![("/ws/b", 0.75), ("/ws/a", 0.25)]);
    let (status, hits) = rerank_hits(
        vec![hit("a"), hit("b")],
        Outcome::Failed("no key".to_owned()),
    );
    assert_eq!(status.note, "rank: fallback (no key)");
    assert_eq!(hits[0].path, "/ws/a");
    let (status, hits) = rerank_hits(Vec::new(), Outcome::Failed(String::new()));
    assert_eq!(status.note, "rank: fallback (empty shortlist)");
    assert!(hits.is_empty());
    assert_eq!(docs_of_hits(&[hit("a")]), vec!["a body"]);
}
