use one_grep::astg::hits_of as ast_hits;
use one_grep::astg::AstHit;
use one_grep::embed::{order_results, RankKind, RerankItem};
use one_grep::error::Error;
use one_grep::extract::{enclosing, extract};
use one_grep::fuse::{apply_rerank, from_index, from_rg, truncate_hits, RankedHit, Retrieval};
use one_grep::jev::{rerank_hits, Outcome};
use one_grep::lsp::Target;
use one_grep::mcp::{
    authorized, check_root, clamp_limit, err_class, error_note, gather_notes, log_path, log_row,
    plan_context, plan_definition, plan_ranked, plan_rg, plan_search, rank_header, rg_error,
    shortlist, skill_limit, skill_notes, vectors_consumed, with_model, Failure, Format, HitFilter,
    RankedPlan, RgParams, RgPlan, SearchParams, SearchPlan,
};
use one_grep::paths::resolve_in_root;
use one_grep::redact::{is_email_token, redact};
use one_grep::render::{
    answer_ast, answer_chunk, answer_fused, answer_lines, answer_live, answer_ranked,
    answer_targets, rel, render, text_hit_body, TEXT_CAP,
};
use one_grep::rg::{fallback_search, search, Hit, SourceFile};

fn params(query: &str) -> SearchParams {
    SearchParams {
        root: "/ws".to_owned(),
        query: query.to_owned(),
        fts: None,
        fuse: Some(false),
        rank: None,
        lang: None,
        globs: None,
        format: None,
        ast_pattern: None,
        ast_lang: None,
        limit: None,
    }
}

fn rg_params(pattern: &str) -> RgParams {
    RgParams {
        root: "/ws".to_owned(),
        pattern: pattern.to_owned(),
        regex: None,
        structural: None,
        case_insensitive: None,
        lang: None,
        globs: None,
        format: None,
        limit: None,
    }
}

fn one_file(path: &str, text: &str) -> Vec<SourceFile> {
    vec![SourceFile {
        path: path.to_owned(),
        bytes: text.as_bytes().to_vec(),
    }]
}

/// What the text search answers for planned parameters.
fn rg_answer(p: &RgParams, files: &[SourceFile]) -> Result<String, Failure> {
    match plan_rg(p, true, false)? {
        RgPlan::Text(options) => {
            let hits = search(&p.root, true, false, &p.pattern, &options, files)
                .map_err(rg_error)?;
            Ok(answer_lines(&p.root, &hits))
        }
        RgPlan::Pattern { .. } => panic!("not structural"),
    }
}

/// What a search without an index answers.
fn search_answer(p: &SearchParams, files: &[SourceFile]) -> String {
    let notes = gather_notes(None, &p.root, false, None, None);
    match plan_search(p, false, false).expect("plan") {
        SearchPlan::Literal(q) => rg_answer(&q, files).expect("rg"),
        SearchPlan::Identifier { term, limit } => {
            let hits = fallback_search(&p.root, true, false, &term, limit, files).expect("live");
            answer_live(&p.root, &hits, &notes)
        }
        SearchPlan::Intent { query, limit, from, .. } => {
            assert_eq!(from, Retrieval::Live);
            let hits =
                from_rg(&fallback_search(&p.root, true, false, &query, limit, files).expect("live"));
            let shown = vec!["0.0000".to_owned(); hits.len()];
            answer_fused(&p.root, &hits, &shown, &notes)
        }
    }
}

#[test]
fn literal_and_identifier_take_different_paths_unindexed() {
    let files = one_file("/ws/a.txt", "supersonic_ferret\n");
    let literal = search_answer(&params("\"supersonic_ferret\""), &files);
    assert!(literal.contains("a.txt:1:supersonic_ferret"), "{literal}");
    assert!(!literal.contains("Indexing is available"), "{literal}");
    let identifier = search_answer(&params("supersonic_ferret"), &files);
    assert!(identifier.contains("supersonic_ferret"), "{identifier}");
    assert!(identifier.contains("Indexing is available"), "{identifier}");
}

#[test]
fn intent_and_mixed_queries_use_rg_fallback_when_unindexed() {
    for (query, fts) in [
        ("where is authentication handled", None),
        ("foo::Bar", Some(vec!["implementation".to_owned()])),
        ("find definition of foo::Bar", None),
    ] {
        let p = SearchParams { fts, ..params(query) };
        let body = search_answer(&p, &[]);
        assert!(body.contains("Indexing is available"), "{query}: {body}");
        assert!(body.ends_with("0 hits"), "{query}: {body}");
    }
}

#[test]
fn search_ranked_unindexed_emits_rank_header() {
    let p = SearchParams { limit: Some(5), ..params("where is supersonic_ferret") };
    let RankedPlan::Ranked { query, limit, from, vectors, rank, .. } =
        plan_ranked(&p, false, false).expect("plan")
    else {
        panic!("not literal");
    };
    assert_eq!((limit, from, vectors, rank), (5, Retrieval::Live, false, RankKind::Jev));
    let files = one_file("/ws/a.txt", "supersonic_ferret\n");
    let hits = from_rg(&fallback_search("/ws", true, false, &query, limit, &files).expect("live"));
    let (status, hits) = rerank_hits(hits, Outcome::Failed("no key".to_owned()));
    let notes = gather_notes(Some(&status.note), "/ws", false, None, None);
    let body = answer_fused("/ws", &hits, &["0.0000".to_owned()], &notes);
    assert!(body.contains("rank:"), "{body}");
    assert!(body.contains("Indexing is available"), "{body}");
    assert!(body.contains("a.txt:1-1 [rg-fallback] (0.0000) source=rg\nsupersonic_ferret"), "{body}");
}

#[test]
fn definition_paths_stay_inside_the_workspace() {
    let root = "/ws";
    assert_eq!(
        resolve_in_root(root, "src/main.rs"),
        Some("/ws/src/main.rs".to_owned())
    );
    assert_eq!(
        resolve_in_root(root, "/ws/src/main.rs"),
        Some("/ws/src/main.rs".to_owned())
    );
    assert_eq!(resolve_in_root(root, "../escape.rs"), None);
    assert_eq!(resolve_in_root(root, "a/../../escape.rs"), None);
    assert_eq!(resolve_in_root(root, "/etc/passwd"), None);
}

#[test]
fn resolve_in_root_never_escapes() {
    let root = "/tmp/workspace";
    for raw in [
        "../escape.rs",
        "a/../../escape.rs",
        "/etc/passwd",
        "..",
        "sub/../../../x",
    ] {
        assert!(resolve_in_root(root, raw).is_none(), "{raw}");
    }
    for raw in ["a.rs", "sub/b.rs", "./a.rs"] {
        let resolved = resolve_in_root(root, raw).expect("inside");
        assert!(resolved.starts_with("/tmp/workspace/"), "{raw}");
    }
    assert_eq!(
        resolve_in_root("/ws/", "a//./b/../c").as_deref(),
        Some("/ws/a/c")
    );
}

#[test]
fn definition_rejects_bad_locations_before_spawning() {
    let err = plan_definition("/ws", true, "../escape.rs", 1, 1, None).expect_err("escape");
    assert!(err.message().contains("escapes"), "{err:?}");
    let err = plan_definition("/ws", true, "a.rs", 0, 1, None).expect_err("line");
    assert!(err.message().contains("1-based"), "{err:?}");
    let (file, command) = plan_definition("/ws", true, "a.rs", 1, 1, None).expect("plan");
    assert_eq!((file.as_str(), command.as_str()), ("/ws/a.rs", "rust-analyzer"));
}

#[test]
fn definitions_are_cited_or_missed() {
    let target = |path: &str, outside_root: bool| Target {
        path: path.to_owned(),
        start_line: 1,
        end_line: 3,
        outside_root,
    };
    assert_eq!(
        answer_targets("/ws", "/ws/a.rs", 4, 2, &[]),
        "no definition found at a.rs:4:2 (rust-analyzer)"
    );
    assert_eq!(
        answer_targets(
            "/ws",
            "/ws/a.rs",
            4,
            2,
            &[target("/ws/b.rs", false), target("/usr/c.rs", true)]
        ),
        "b.rs:1-3 (workspace)\n/usr/c.rs:1-3 (external)"
    );
}

#[test]
fn exact_search_routes_to_rg_without_an_index() {
    let files = one_file(
        "/ws/view.txt",
        "foo::Bar\nx:Name=\"SaveButton\"\n{Binding User.Name}\n",
    );
    for (query, expected) in [
        ("foo::Bar", "view.txt:1:foo::Bar"),
        ("\"x:Name\"", "view.txt:2:x:Name"),
        ("\"{Binding User.Name}\"", "view.txt:3:{Binding User.Name}"),
    ] {
        let body = search_answer(&params(query), &files);
        assert!(body.contains(expected), "{body}");
    }
}

#[test]
fn rg_error_maps_caller_mistakes_to_invalid_params() {
    let err = rg_error(Error::InvalidInput("unknown --lang `cobol`".into()));
    assert!(err.message().contains("cobol"));
    let err = rg_error(Error::InvalidInput("x".into()));
    assert!(err.message().contains('x'));
    let err = rg_error(Error::BadPattern("p".into()));
    assert_eq!((err_class(&err), err.message()), ("invalid_params", "bad pattern: p".to_owned()));
    let err = rg_error(Error::Walk("w".into()));
    assert_eq!((err_class(&err), err.message()), ("invalid_params", "w".to_owned()));
    let err = rg_error(Error::Io("disk".into()));
    assert_eq!((err_class(&err), err.message()), ("internal", "disk".to_owned()));
    assert_eq!(err_class(&Failure::Other(String::new())), "other");
}

#[test]
fn rg_text_format_zero_hits_is_not_empty() {
    let files = one_file("/ws/a.rs", "visible_token\n");
    let body = rg_answer(&rg_params("impossible_pattern_xyz_12345"), &files).expect("rg");
    assert_eq!(body, "0 hits");
    assert_eq!(text_hit_body(1, ""), "");
}

#[test]
fn rg_lang_filter_reaches_the_handler() {
    let mut files = one_file("/ws/main.rs", "needle\n");
    files.extend(one_file("/ws/notes.txt", "needle\n"));
    let p = RgParams { lang: Some(vec!["rust".to_owned()]), ..rg_params("needle") };
    let body = rg_answer(&p, &files).expect("rg");
    assert!(body.contains("main.rs"), "{body}");
    assert!(!body.contains("notes.txt"), "{body}");
    // Unknown language fails closed as invalid params, not empty output.
    let p = RgParams { lang: Some(vec!["cobol".to_owned()]), ..rg_params("needle") };
    let err = rg_answer(&p, &files).expect_err("unknown lang must fail");
    assert!(err.message().contains("cobol"), "{err:?}");
    assert_eq!(err_class(&err), "invalid_params");
}

fn ranked(path: &str, text: &str) -> RankedHit {
    RankedHit {
        path: path.to_owned(),
        start: 1,
        end: 2,
        breadcrumb: "lines\n1-2".to_owned(),
        text: text.to_owned(),
        score: 1.5f64.to_bits(),
    }
}

#[test]
fn search_ranked_offline_preserves_retrieval_order() {
    let hits = from_index(&[ranked("/ws/b.txt", "x"), ranked("/ws/a.txt", "y")]);
    let (status, hits) = rerank_hits(hits, Outcome::Failed("no key".to_owned()));
    let notes = gather_notes(Some(&status.note), "/ws", true, None, None);
    let shown = vec!["1.5000".to_owned(); 2];
    let body = answer_fused("/ws", &hits, &shown, &notes);
    assert!(body.contains("rank: fallback"), "{body}");
    assert!(body.find("b.txt") < body.find("a.txt"), "{body}");
}

#[test]
fn search_lang_filter_applies_to_lexical_hits() {
    let filter = HitFilter::build("/ws", &Some(vec!["rust".to_owned()]), &None)
        .map_err(|f| f.message())
        .expect("filter");
    let hits = filter.keep_ranked(vec![ranked("/ws/main.rs", "n"), ranked("/ws/notes.txt", "n")]);
    let body = answer_ranked("/ws", &hits, &["1.50".to_owned()], &[]);
    assert!(body.contains("main.rs"), "{body}");
    assert!(!body.contains("notes.txt"), "{body}");
    assert_eq!(body, "main.rs:1-2 [lines 1-2] (1.50) source=bm25\nn");
    let Err(err) = HitFilter::build("/ws", &Some(vec!["cobol".to_owned()]), &None) else {
        panic!("unknown lang must fail fast");
    };
    assert!(err.message().contains("cobol"), "{err:?}");
    let Err(err) = HitFilter::build("/ws", &None, &Some(vec!["[ab".to_owned()])) else {
        panic!("bad glob must fail fast");
    };
    assert_eq!(err_class(&err), "invalid_params");
    let globs = HitFilter::build("/ws", &None, &Some(vec!["!*.txt".to_owned()]))
        .map_err(|f| f.message())
        .expect("filter");
    assert!(globs.keep("/ws/main.rs"));
    let live = vec![Hit { path: "/ws/a.txt".to_owned(), line: 1, text: String::new() }];
    assert!(globs.keep_live(live).is_empty());
    assert_eq!(globs.keep_fused(from_index(&[ranked("/ws/a.rs", "")])).len(), 1);
}

#[test]
fn search_output_respects_chunk_budget() {
    let filler = format!("budgettoken\n{}\n", "budgettoken filler prose ".repeat(200));
    let list: Vec<RankedHit> = ["a.txt", "b.txt", "c.txt", "d.txt", "e.txt"]
        .iter()
        .map(|name| ranked(&format!("/ws/{name}"), &filler))
        .collect();
    let p = SearchParams { limit: Some(3), ..params("budgettoken filler prose documentation") };
    let Ok(SearchPlan::Intent { limit, .. }) = plan_search(&p, true, false) else {
        panic!("an intent");
    };
    let hits = truncate_hits(from_index(&list), limit);
    let shown = vec!["1.5000".to_owned(); hits.len()];
    let body = answer_fused("/ws", &hits, &shown, &[]);
    let chunks: Vec<&str> = body.split("\n---\n").collect();
    assert_eq!(chunks.len(), 3, "{body}");
    for chunk in &chunks {
        let (header, text) = chunk.split_once('\n').expect("header + text");
        assert!(!header.contains("---"), "{header}");
        let sources = ["source=bm25", "source=vec", "source=bm25+vec", "source=rg"];
        assert!(
            sources.iter().any(|s| header.contains(s)),
            "no source tag: {header}"
        );
        assert!(text.chars().count() <= TEXT_CAP, "cap blown: {header}");
    }
}

#[test]
fn budget_cuts_between_characters() {
    let shown = render("p", 1, 2, "a\r\nb", "s", "rg", &"é".repeat(700));
    let (header, text) = shown.split_once('\n').expect("header + text");
    assert_eq!(header, "p:1-2 [a  b] (s) source=rg");
    assert_eq!(text, "é".repeat(600));
    assert_eq!(rel("/ws", "/ws/a//b/"), "a//b");
    assert_eq!(rel("/ws", "/wsx/a"), "/wsx/a");
}

#[test]
fn rg_structural_uses_ast_grep_when_present() {
    let p = RgParams {
        structural: Some(true),
        lang: Some(vec!["rust".to_owned()]),
        ..rg_params("fn $F")
    };
    let Ok(RgPlan::Pattern { lang, limit }) = plan_rg(&p, true, true) else {
        panic!("structural");
    };
    assert_eq!((lang.as_str(), limit), ("rust", 100));
    let hits = ast_hits(
        vec![AstHit {
            path: "/ws/a.rs".to_owned(),
            line: 0,
            text: "fn apply() {}\nmore".to_owned(),
        }],
        limit,
    );
    let body = answer_ast("/ws", &hits);
    assert!(body.contains("a.rs:1:fn apply()"), "{body}");
    assert_eq!(answer_ast("/ws", &[]), "0 hits");
}

#[test]
fn rg_refusals_come_in_order() {
    let refused = |p: RgParams, present: bool, available: bool| -> String {
        plan_rg(&p, present, available).expect_err("refused").message()
    };
    let structural = || RgParams { structural: Some(true), ..rg_params("x") };
    assert_eq!(
        refused(RgParams { root: "ws".to_owned(), ..structural() }, false, false),
        "root must be absolute: ws"
    );
    assert_eq!(refused(structural(), false, false), "root does not exist: /ws");
    assert_eq!(
        refused(RgParams { regex: Some(true), ..structural() }, true, false),
        "`structural` and `regex` cannot be combined"
    );
    assert_eq!(
        refused(structural(), true, false),
        "`structural` needs exactly one `lang`"
    );
    let one = RgParams { lang: Some(vec!["rust".to_owned()]), ..structural() };
    assert!(refused(one, true, false).contains("not found"));
}

#[test]
fn search_ranked_llama_backend_round_trips() {
    let p = SearchParams { rank: Some(RankKind::Llama), ..params("llama probe documentation") };
    assert!(matches!(
        plan_ranked(&p, true, false),
        Ok(RankedPlan::Ranked { rank: RankKind::Llama, from: Retrieval::Lexical, .. })
    ));
    assert_eq!(rank_header(RankKind::Llama, None), "rank: llama");
    // The server scores index 1 at 0.9 and index 0 at 0.1: winners first
    // regardless of which file the index returned first.
    let hits = from_index(&[ranked("/ws/a.txt", "llama probe alpha"), ranked("/ws/b.txt", "llama probe bravo")]);
    let item = |index: u64, score: f64| RerankItem {
        index: Some(index),
        relevance_score: Some(Some(score.to_bits())),
        score: None,
    };
    let order: Vec<(usize, u64)> = order_results(&[item(0, 0.1), item(1, 0.9)], hits.len())
        .iter()
        .map(|s| (s.index, s.score))
        .collect();
    let hits = apply_rerank(&hits, &order);
    let shown: Vec<String> =
        hits.iter().map(|h| format!("{:.4}", f64::from_bits(h.score))).collect();
    let notes = gather_notes(Some(&rank_header(RankKind::Llama, None)), "/ws", true, None, None);
    let body = answer_fused("/ws", &hits, &shown, &notes);
    assert!(body.contains("rank: llama"), "{body}");
    assert!(body.find("(0.9000)").unwrap() < body.find("(0.1000)").unwrap(), "{body}");
    assert!(body.contains("a.txt") && body.contains("b.txt"), "{body}");
    assert!(body.find("b.txt") < body.find("a.txt"), "{body}");
    assert_eq!(rank_header(RankKind::Jina, Some("down")), "rank: fallback (down)");
}

#[test]
fn search_ast_pattern_fuses_third_list() {
    let asked = || SearchParams {
        ast_pattern: Some("fn $F".to_owned()),
        ast_lang: Some("rust".to_owned()),
        ..params("structural needle prose documentation")
    };
    assert!(matches!(
        plan_search(&asked(), true, true),
        Ok(SearchPlan::Intent { structural: Some(_), .. })
    ));
    // No binary, explicit pattern: fail closed, not silent skip.
    let err = plan_search(&asked(), true, false).expect_err("absent ast-grep must fail");
    assert!(err.message().contains("ast-grep"), "{err:?}");
    let half = SearchParams { ast_lang: None, ..asked() };
    let err = plan_ranked(&half, true, true).expect_err("half");
    assert_eq!(err.message(), "ast_pattern and ast_lang must be set together");
    // A literal query never gets that far.
    let literal = SearchParams { query: "\"x\"".to_owned(), ..asked() };
    assert!(matches!(plan_search(&literal, true, false), Ok(SearchPlan::Literal(_))));
}

#[test]
fn plans_carry_limits_anchors_and_sources() {
    let p = SearchParams {
        fts: Some(vec!["a".to_owned(), "b".to_owned()]),
        fuse: None,
        limit: Some(900),
        ..params("token")
    };
    let Ok(SearchPlan::Intent { query, limit, from, .. }) = plan_search(&p, true, false) else {
        panic!("anchored");
    };
    assert_eq!((query.as_str(), limit, from), ("token a b", 50, Retrieval::Hybrid));
    let token = SearchParams { fuse: None, ..params("token") };
    assert!(matches!(
        plan_ranked(&token, true, false),
        Ok(RankedPlan::Ranked { from: Retrieval::Lexical, vectors: false, .. })
    ));
    let Ok(SearchPlan::Literal(q)) = plan_search(&params("\"x\""), true, false) else {
        panic!("literal");
    };
    assert_eq!((q.pattern.as_str(), q.limit), ("x", Some(10)));
    assert_eq!(clamp_limit(Some(0), 10, 50), 1);
    assert_eq!(skill_limit(None), 2);
    assert_eq!(Format::opt(None), Format::Text);
    assert_eq!(Format::opt(Some(Format::Json)), Format::Json);
}

#[test]
fn notes_come_in_order() {
    let notes = gather_notes(Some("rank: jev"), "/ws", true, Some("stale"), Some("vectors"));
    assert_eq!(notes, vec!["rank: jev", "stale", "vectors"]);
    assert_eq!(gather_notes(None, "/ws", false, Some("stale"), None).len(), 1);
    assert_eq!(skill_notes("rank: x", &["n".to_owned()]), vec!["rank: x", "n"]);
}

#[test]
fn context_returns_enclosing_symbol() {
    let text = "mod outer {\n    pub fn deep(&self) {}\n}\n";
    let file = plan_context("/ws", true, "a.rs", 2).expect("plan");
    let body = answer_chunk("/ws", &file, 2, &enclosing(extract(&file, text), 2));
    assert!(body.contains("outer > deep"), "{body}");
    assert!(body.contains("(symbol)"), "{body}");
    // Out of range: explanatory note, still success.
    let body = answer_chunk("/ws", &file, 99, &enclosing(extract(&file, text), 99));
    assert_eq!(body, "no enclosing symbol at a.rs:99; read the cited range");
    // Escape: invalid params.
    let err = plan_context("/ws", true, "../escape.rs", 1).expect_err("escape must fail");
    assert!(err.message().contains("escapes"), "{err:?}");
    assert!(plan_context("/ws", true, "a.rs", 0).is_err());
}

#[test]
fn serving_log_redacts_emails_and_keys() {
    assert_eq!(
        redact("mail alice@example.com about token=abc123 here"),
        "mail <redacted-email> about token=<redacted> here"
    );
    assert_eq!(
        redact(r#"key: "hunter2", normal words"#),
        r#"key: <redacted>, normal words"#
    );
    // Non-secrets pass through untouched (paths stay joinable).
    assert_eq!(
        redact("/home/alice/ws passwordless login"),
        "/home/alice/ws passwordless login"
    );
    assert_eq!(redact("plain query text"), "plain query text");
}

#[test]
fn redaction_reads_quotes_cases_and_spaces() {
    assert_eq!(redact("PASSWORD = 'a b' x"), "PASSWORD = <redacted> x");
    assert_eq!(redact("mytoken=abc"), "mytoken=<redacted>");
    assert_eq!(redact("secret:"), "secret:<redacted>");
    assert_eq!(redact("key: \"open"), "key: <redacted>");
    assert_eq!(redact("token\n=x"), "token\n=x");
    assert_eq!(redact("Authorization: Bearer abc123"), "Authorization: <redacted>");
    assert_eq!(redact("auth=bearer \t 'a b' rest"), "auth=<redacted> rest");
    assert_eq!(redact("auth: token: abc rest"), "auth: <redacted> rest");
    assert_eq!(redact("key: bearer\nrest"), "key: <redacted>\nrest");
    assert_eq!(redact("key: plain rest"), "key: <redacted> rest");
    assert_eq!(redact("password: secret is here"), "password: <redacted> is here");
    assert_eq!(redact("auth=token='a'b c"), "auth=<redacted> c");
    assert_eq!(redact("color=red a@b a@b.c, x@y.z"), "color=red a@b a@b.c, <redacted-email>");
    let email = |t: &str| is_email_token(&t.chars().collect::<Vec<char>>());
    assert!(email("a.b+c%d@x-y.org"));
    assert!(!email("@x.org") && !email("a@b@c.d") && !email("a@b") && !email("a!@b.c"));
}

#[test]
fn serving_log_records_error_class() {
    let err = check_root("/no/such/workspace", false).expect_err("bad root must fail");
    assert!(err.message().contains("not a directory"));
    let row = log_row("search", "/no/such/workspace", "x", 0, 0, &[error_note(&err)]);
    assert_eq!(row.tool, "search");
    assert_eq!(row.hits, 0);
    assert_eq!(row.notes.len(), 1);
    assert!(row.notes[0].starts_with("error[invalid_params]:"));
    assert_eq!(
        check_root("ws", true).expect_err("relative").message(),
        "root must be absolute: ws"
    );
}

#[test]
fn log_rows_keep_paths_and_cut_queries() {
    let long = "q".repeat(600);
    let row = log_row("rg", "/ws/token=1", &long, 2, 30, &["key=v".to_owned()]);
    assert_eq!(row.root, "/ws/token=1");
    assert_eq!(row.query.len(), 500);
    assert_eq!((row.hits, row.chars), (2, 30));
    assert_eq!(row.notes, vec!["key=<redacted>"]);
    assert_eq!(log_path(Some("/l"), Some("/h")).as_deref(), Some("/l"));
    assert_eq!(log_path(None, Some("/h")).as_deref(), Some("/h/.one-grep/serving.log"));
    assert_eq!(log_path(None, None), None);
}

#[test]
fn only_the_bearer_token_passes() {
    assert!(authorized(Some("Bearer t"), "t"));
    assert!(!authorized(Some("Bearer t "), "t"));
    assert!(!authorized(Some("t"), "t"));
    assert!(!authorized(None, "t"));
}

#[test]
fn shortlists_are_filtered_and_bounded() {
    let filter = HitFilter::build("/ws", &Some(vec!["rust".to_owned()]), &None)
        .map_err(|f| f.message())
        .expect("filter");
    let hits = || {
        from_index(&[
            ranked("/ws/a.txt", ""),
            ranked("/ws/b.rs", ""),
            ranked("/ws/c.rs", ""),
        ])
    };
    let paths = |structural: bool, is_ranked: bool, limit: usize| -> Vec<String> {
        shortlist(&filter, hits(), structural, is_ranked, limit)
            .into_iter()
            .map(|h| h.path)
            .collect()
    };
    assert_eq!(paths(false, false, 1), ["/ws/b.rs", "/ws/c.rs"]);
    assert_eq!(paths(true, false, 2), ["/ws/b.rs"]);
    assert_eq!(paths(false, true, 1), ["/ws/b.rs"]);
    assert!(paths(true, true, 1).is_empty());
}

#[test]
fn a_missing_model_leaves_lexical_retrieval() {
    assert!(matches!(with_model(Retrieval::Hybrid, true), Retrieval::Hybrid));
    assert!(matches!(with_model(Retrieval::Hybrid, false), Retrieval::Lexical));
    assert!(matches!(with_model(Retrieval::Live, true), Retrieval::Live));
    assert!(vectors_consumed(Retrieval::Hybrid, true));
    assert!(!vectors_consumed(Retrieval::Hybrid, false));
    assert!(!vectors_consumed(Retrieval::Lexical, true));
}
