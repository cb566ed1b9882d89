use one_grep::fuse::{
    apply_rerank, chunk_key, collect_plan, credit_ast, fetch_size, from_index, from_rg,
    fuse_ranks, overlap, query_text, rank_fused, rank_with_ast, rerank_docs, source,
    truncate_doc, truncate_hits, vectors_usable, weight, Credit, FusedHit, List, RankedHit, Retrieval, RRF_K,
};
use one_grep::rg::{fallback_search, Hit, SourceFile};

fn hit(path: &str, start: u64, end: u64, crumb: &str) -> RankedHit {
    RankedHit {
        path: path.to_owned(),
        start,
        end,
        breadcrumb: crumb.to_owned(),
        text: format!("text of {crumb}"),
        score: 0,
    }
}

fn fused(path: &str, start: u64, end: u64, score: f64, lexical: Option<usize>) -> FusedHit {
    FusedHit {
        path: path.to_owned(),
        start,
        end,
        breadcrumb: "f".to_owned(),
        text: "body".to_owned(),
        score: score.to_bits(),
        lexical_rank: lexical,
        vector_rank: None,
        ast_rank: None,
        terms: Vec::new(),
    }
}

/// Adds the terms of each hit to its score.
fn settle(hits: &mut [FusedHit]) {
    for h in hits {
        let mut score = f64::from_bits(h.score);
        for t in &h.terms {
            score += f64::from(weight(t.list)) * (1.0 / (f64::from(RRF_K) + t.rank as f64));
        }
        h.score = score.to_bits();
        h.terms.clear();
    }
}

fn brief(h: &FusedHit) -> (String, Option<usize>, Option<usize>, Option<usize>) {
    (
        format!("{}:{}-{}", h.path, h.start, h.end),
        h.lexical_rank,
        h.vector_rank,
        h.ast_rank,
    )
}

fn live(query: &str) -> Vec<FusedHit> {
    let files = vec![SourceFile {
        path: "/ws/a.txt".to_owned(),
        bytes: b"supersonic_ferret zoology\n".to_vec(),
    }];
    from_rg(&fallback_search("/ws", true, false, query, 10, &files).expect("fallback"))
}

#[test]
fn collect_without_index_uses_rg() {
    assert_eq!(collect_plan(false, true), Retrieval::Live);
    let hits = live("supersonic_ferret");
    assert_eq!(hits.len(), 1);
    assert_eq!(hits[0].breadcrumb, "rg-fallback");
}

#[test]
fn hybrid_without_index_falls_back_to_rg() {
    let hits = live("where is supersonic_ferret");
    assert_eq!(hits.len(), 1);
    assert_eq!(hits[0].breadcrumb, "rg-fallback");
    // Unranked live hits claim no list; the budget tags them "rg".
    assert_eq!(hits[0].lexical_rank, None);
    assert_eq!(hits[0].vector_rank, None);
    assert_eq!(source(&hits[0]), "rg");
}

#[test]
fn hybrid_without_provider_is_lexical_only() {
    let hits = fuse_ranks(&[hit("/ws/a.txt", 1, 1, "lines 1-1")], &[]);
    assert_eq!(hits.len(), 1);
    assert_eq!(hits[0].lexical_rank, Some(1));
    assert_eq!(hits[0].vector_rank, None);
}

#[test]
fn hybrid_fuses_both_ranks() {
    let mut hits = fuse_ranks(
        &[hit("/ws/a.txt", 1, 1, "lines 1-1")],
        &[hit("/ws/a.txt", 1, 1, "lines 1-1")],
    );
    settle(&mut hits);
    assert_eq!(hits.len(), 1);
    assert_eq!(hits[0].lexical_rank, Some(1));
    assert_eq!(hits[0].vector_rank, Some(1));
    // Present in both lists: weighted sum of both RRF terms,
    // computed from the constant so the test tracks retunes.
    let k = f64::from(RRF_K);
    let expected = 2.0 / (k + 1.0) + 1.0 / (k + 1.0);
    assert!((f64::from_bits(hits[0].score) - expected).abs() < 1e-9);
}

#[test]
fn reranker_reorders_and_limits() {
    let plain = rank_fused(fuse_ranks(
        &[
            hit("/ws/a.txt", 1, 1, "lines 1-1"),
            hit("/ws/b.txt", 1, 1, "lines 1-1"),
        ],
        &[],
    ));
    assert_eq!(plain.len(), 2);
    let reversed = [(1usize, 1f64.to_bits()), (0, 0f64.to_bits())];
    let hits = truncate_hits(apply_rerank(&plain, &reversed), 1);
    assert_eq!(hits.len(), 1);
    // Reversed: the reranked head is the plain tail.
    assert_eq!(hits[0].path, plain[1].path);
    assert_eq!(f64::from_bits(hits[0].score), 1.0);
}

#[test]
fn apply_ast_empty_is_noop() {
    let mut list = vec![fused("/ws/a.rs", 1, 10, 1.0, Some(1))];
    let before: Vec<_> = list.iter().map(|h| (brief(h), h.score)).collect();
    credit_ast(&mut list, &[]);
    let after = rank_with_ast(list, &[]);
    assert_eq!(
        after.iter().map(|h| (brief(h), h.score)).collect::<Vec<_>>(),
        before
    );
    assert!(after[0].terms.is_empty());
}

#[test]
fn absent_structural_hits_leave_any_order() {
    let mut list = vec![
        fused("/ws/low.rs", 1, 10, 0.1, Some(2)),
        fused("/ws/high.rs", 1, 10, 0.9, Some(1)),
    ];
    credit_ast(&mut list, &[]);
    let kept = rank_with_ast(list, &[]);
    assert_eq!(kept[0].path, "/ws/low.rs");
    let ranked = rank_with_ast(kept, &[("/ws/low.rs".to_owned(), 3)]);
    assert_eq!(ranked[0].path, "/ws/high.rs");
}

#[test]
fn apply_ast_boosts_overlapping_slot_and_adds_new_ones() {
    let mut list = vec![
        fused("/ws/a.rs", 1, 10, 0.01, Some(2)),
        fused("/ws/b.rs", 1, 5, 0.005, Some(1)),
    ];
    // Line 3 overlaps the a.rs slot: RRF term lifts it above b.rs.
    // Line 99 matches nothing: becomes its own entry tagged "ast".
    credit_ast(
        &mut list,
        &[("/ws/a.rs".to_owned(), 3), ("/ws/c.rs".to_owned(), 99)],
    );
    settle(&mut list);
    let list = rank_fused(list);
    assert_eq!(list.len(), 3);
    assert_eq!(list[0].path, "/ws/a.rs");
    assert_eq!(list[0].ast_rank, Some(1));
    assert_eq!(source(&list[0]), "bm25");
    let added = list
        .iter()
        .find(|h| h.path.ends_with("c.rs"))
        .expect("added");
    assert_eq!(source(added), "ast");
    assert_eq!(added.ast_rank, Some(2));
    assert_eq!((added.start, added.end), (99, 99));
    assert_eq!(added.breadcrumb, "ast-grep");
}

#[test]
fn vector_windows_credit_the_last_of_the_closest_chunks() {
    let hits = fuse_ranks(
        &[
            hit("/ws/a.rs", 1, 10, "one"),
            hit("/ws/a.rs", 1, 10, "two"),
            hit("/ws/b.rs", 1, 10, "one"),
        ],
        &[
            hit("/ws//a.rs", 5, 12, "w"),
            hit("/ws/a.rs", 9, 20, "w"),
            hit("/ws/a.rs", 1, 2, "w"),
            hit("/ws/a.rs", 50, 60, "w"),
        ],
    );
    assert_eq!(
        hits.iter().map(brief).collect::<Vec<_>>(),
        vec![
            ("/ws/a.rs:1-10".to_owned(), Some(1), Some(2), None),
            ("/ws/a.rs:1-10".to_owned(), Some(2), Some(1), None),
            ("/ws/b.rs:1-10".to_owned(), Some(3), None, None),
            // A window over chunks that have their vector already, and one
            // over none, stand for themselves.
            ("/ws/a.rs:1-2".to_owned(), None, Some(3), None),
            ("/ws/a.rs:50-60".to_owned(), None, Some(4), None),
        ]
    );
    assert_eq!(source(&hits[0]), "bm25+vec");
    assert_eq!(source(&hits[3]), "vec");
    // One term of the list each.
    for h in &hits {
        assert!(h.terms.iter().filter(|t| t.list == List::Vector).count() <= 1);
    }
}

#[test]
fn repeated_lexical_chunks_keep_their_first_rank() {
    let hits = fuse_ranks(
        &[
            hit("/ws/a.rs", 1, 2, "f"),
            hit("/ws/b.rs", 1, 2, "f"),
            hit("/ws/a.rs", 1, 2, "f"),
        ],
        &[],
    );
    assert_eq!(hits.len(), 2);
    assert_eq!(hits[0].lexical_rank, Some(1));
    assert_eq!(
        hits[0].terms,
        vec![
            Credit { list: List::Lexical, rank: 1 },
            Credit { list: List::Lexical, rank: 3 },
        ]
    );
    assert_eq!(chunk_key("/ws/a.rs", 1, 2, "f"), "/ws/a.rs:1-2:f");
}

#[test]
fn ties_go_to_the_better_list() {
    let mut a = fused("/ws/a", 1, 1, 0.5, None);
    a.vector_rank = Some(1);
    let b = fused("/ws/b", 1, 1, 0.5, Some(9));
    let mut c = fused("/ws/c", 1, 1, 0.5, None);
    c.ast_rank = Some(1);
    let d = fused("/ws/d", 1, 1, -0.5, Some(1));
    let e = fused("/ws/e", 1, 1, 0.75, None);
    let order: Vec<String> = rank_fused(vec![d, c, a, b, e])
        .into_iter()
        .map(|h| h.path)
        .collect();
    assert_eq!(order, vec!["/ws/e", "/ws/b", "/ws/a", "/ws/c", "/ws/d"]);
}

#[test]
fn dropped_candidates_keep_their_order_behind() {
    let list: Vec<FusedHit> = (0..4)
        .map(|i| fused(&format!("/ws/{i}"), 1, 1, 0.1, Some(i + 1)))
        .collect();
    let out = apply_rerank(&list, &[(2, 9f64.to_bits())]);
    assert_eq!(
        out.iter().map(|h| h.path.as_str()).collect::<Vec<_>>(),
        vec!["/ws/2", "/ws/0", "/ws/1", "/ws/3"]
    );
    // A candidate named twice takes the place of one that was dropped.
    let twice = apply_rerank(&list, &[(0, 1), (0, 2)]);
    assert_eq!(
        twice.iter().map(|h| h.path.as_str()).collect::<Vec<_>>(),
        vec!["/ws/0", "/ws/0", "/ws/1", "/ws/2"]
    );
}

#[test]
fn rerank_reads_breadcrumb_and_start_of_text() {
    let mut list: Vec<FusedHit> = (0..25)
        .map(|_| fused("/ws/a", 1, 1, 0.0, None))
        .collect();
    list[0].text = "é".repeat(600);
    let docs = rerank_docs(&list);
    assert_eq!(docs.len(), 20);
    assert_eq!(docs[1], "f body");
    assert_eq!(docs[0], format!("f {}", "é".repeat(500)));
    assert_eq!(truncate_doc(&"a".repeat(1001)).len(), 1000);
    assert_eq!(truncate_doc(&format!("{}é", "a".repeat(999))).len(), 999);
}

#[test]
fn index_hits_keep_their_scores_and_ranks() {
    let mut a = hit("/ws/a", 1, 3, "m");
    a.score = 2.5f64.to_bits();
    let out = from_index(&[a, hit("/ws/b", 4, 6, "n")]);
    assert_eq!(f64::from_bits(out[0].score), 2.5);
    assert_eq!(out[1].lexical_rank, Some(2));
    assert_eq!(source(&out[1]), "bm25");
    let live = from_rg(&[Hit { path: "/p".to_owned(), line: 7, text: "t".to_owned() }]);
    assert_eq!((live[0].start, live[0].end), (7, 7));
}

#[test]
fn overlaps_and_budgets() {
    assert_eq!(overlap(1, 10, 5, 12), 6);
    assert_eq!(overlap(1, 4, 5, 12), 0);
    assert_eq!(overlap(1, 3, 9, 12), 0);
    assert_eq!(overlap(3, 3, 3, 3), 1);
    assert_eq!(fetch_size(1), 50);
    assert_eq!(fetch_size(10), 100);
    assert!(vectors_usable(Ok(None), 384));
    assert!(vectors_usable(Err(()), 384));
    assert!(vectors_usable(Ok(Some(384)), 384));
    assert!(!vectors_usable(Ok(Some(768)), 384));
    assert_eq!(query_text(Some("p: "), "q"), "p: q");
    assert_eq!(query_text(None, "q"), "q");
    assert_eq!(collect_plan(true, true), Retrieval::Hybrid);
    assert_eq!(collect_plan(true, false), Retrieval::Lexical);
}
