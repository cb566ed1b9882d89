use one_grep::eval::{
    cases, cases_v2, expected_rank, kind_name, report, QueryCase, QueryKind, QueryOutcome,
    EVAL_VERSION,
};

fn outcome(case: &QueryCase, rank: Option<usize>, hits: usize, ms: f64) -> QueryOutcome {
    QueryOutcome {
        id: case.id,
        kind: case.kind,
        query: case.query,
        expected: case.expected,
        rank,
        hits,
        latency: ms.to_bits(),
    }
}

fn perfect(set: &[QueryCase]) -> Vec<QueryOutcome> {
    set.iter()
        .map(|c| match c.expected {
            Some(_) => outcome(c, Some(1), 3, 1.0),
            None => outcome(c, None, 0, 1.0),
        })
        .collect()
}

#[test]
fn baseline_set_counts_what_it_should() {
    let r = report(&perfect(&cases()));
    assert_eq!(r.eval_version, EVAL_VERSION);
    assert_eq!(r.queries, 6);
    assert_eq!(r.answerable, 5);
    assert_eq!(r.unanswerable, 1);
    assert_eq!(r.found_at_5, 5);
    assert_eq!(r.found_at_20, 5);
    assert_eq!(r.found_at_1, 5);
    assert_eq!(r.empty_correct, r.empty_total);
    assert_eq!(r.false_abstentions, 0);
}

#[test]
fn gate_set_counts_by_kind() {
    let set = cases_v2();
    assert_eq!(set.len(), 12);
    let mut outcomes = perfect(&set);
    // One paraphrase is found too deep, one not at all.
    outcomes[3].rank = Some(4);
    outcomes[4].rank = None;
    outcomes[4].hits = 0;
    let r = report(&outcomes);
    assert_eq!(r.answerable, 10);
    assert_eq!(r.unanswerable, 2);
    assert_eq!((r.found_at_1, r.found_at_3, r.found_at_5, r.found_at_20), (8, 8, 9, 9));
    let kinds: Vec<(&str, usize, usize)> = r
        .kinds_at_3
        .iter()
        .map(|k| (k.name, k.found, k.total))
        .collect();
    assert_eq!(
        kinds,
        vec![("chain", 2, 2), ("keyword", 3, 3), ("paraphrase", 1, 3), ("symbol", 2, 2)]
    );
    assert_eq!(r.false_abstentions, 1);
}

#[test]
fn unanswerable_query_reports_empty_not_absent() {
    // No case's answer is among no hits; only the unanswerable one is right.
    let paths: Vec<String> = Vec::new();
    let outcomes: Vec<QueryOutcome> = cases()
        .iter()
        .map(|c| outcome(c, expected_rank(&paths, c.expected), paths.len(), 1.0))
        .collect();
    let o = outcomes
        .iter()
        .find(|o| o.kind == QueryKind::Unanswerable)
        .expect("unanswerable outcome");
    assert_eq!(o.rank, None);
    assert_eq!(o.hits, 0);
    let r = report(&outcomes);
    assert_eq!((r.empty_correct, r.empty_total), (1, 1));
    assert_eq!((r.unanswerable, r.found_at_20), (1, 0));
    assert_eq!(r.false_abstentions, 5);
}

#[test]
fn latencies_are_taken_from_the_sorted_list() {
    let set = cases();
    let outcomes: Vec<QueryOutcome> = [9.0, 3.0, 7.0, 1.0, 5.0]
        .iter()
        .map(|ms| outcome(&set[0], None, 1, *ms))
        .collect();
    let r = report(&outcomes);
    assert_eq!(f64::from_bits(r.latency_p50), 5.0);
    assert_eq!(f64::from_bits(r.latency_p95), 9.0);
    let twenty: Vec<QueryOutcome> = (1..=20)
        .map(|i| outcome(&set[0], None, 1, f64::from(i)))
        .collect();
    let r = report(&twenty);
    assert_eq!(f64::from_bits(r.latency_p50), 10.0);
    assert_eq!(f64::from_bits(r.latency_p95), 19.0);
    let none = report(&[]);
    assert_eq!((none.queries, f64::from_bits(none.latency_p50)), (0, 0.0));
}

#[test]
fn ranks_count_from_one() {
    let paths = vec!["/ws/docs/a.md".to_owned(), "/ws/src/auth.rs".to_owned()];
    assert_eq!(expected_rank(&paths, Some("src/auth.rs")), Some(2));
    assert_eq!(expected_rank(&paths, Some("/ws")), Some(1));
    assert_eq!(expected_rank(&paths, Some("nope")), None);
    assert_eq!(expected_rank(&paths, None), None);
}

#[test]
fn kinds_have_names() {
    assert_eq!(kind_name(QueryKind::Paraphrase), "paraphrase");
    assert_eq!(kind_name(QueryKind::Chain), "chain");
    assert_eq!(kind_name(QueryKind::Exact), "exact");
}
