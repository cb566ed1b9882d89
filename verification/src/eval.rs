//! Labeled retrieval evaluation: versioned query sets, and what is counted
//! over their outcomes.
//!
//! Measures first-stage lexical recall, top-1 accuracy and empty-result
//! correctness as exact counts. Receipts carry provenance (eval version,
//! per-query ranks) without embedding source snippets.

use vstd::prelude::*;
use crate::order::{score_above, score_key, sort, sorted, views, Ranked};
use crate::text::{chars_of, find_text, first_at, lemma_filter_step, lemma_first_at_is, texts};

verus! {

/// Eval set version. Bump when cases or fixtures change.
pub const EVAL_VERSION: &'static str = "ideasearch-v1";

/// Frozen gate set version. Bump only with new floors.
pub const EVAL_VERSION_V2: &'static str = "ideasearch-v2";

/// Rank depth for recall reporting.
pub const RECALL_K: usize = 5;

/// Rank depth for the wider recall signal.
pub const RECALL_WIDE_K: usize = 20;

/// Gate depth: the precision head.
pub const RECALL_1: usize = 1;

/// Gate depth: the agent-visible shortlist.
pub const RECALL_3: usize = 3;

/// Query category.
#[derive(Debug, Clone, Copy, PartialEq, Eq, Structural)]
pub enum QueryKind {
    Exact,
    Intent,
    Unanswerable,
    Keyword,
    Paraphrase,
    Symbol,
    Chain,
}

/// The name of a category.
pub open spec fn name_of(kind: QueryKind) -> Seq<char> {
    match kind {
        QueryKind::Exact => "exact"@,
        QueryKind::Intent => "intent"@,
        QueryKind::Unanswerable => "unanswerable"@,
        QueryKind::Keyword => "keyword"@,
        QueryKind::Paraphrase => "paraphrase"@,
        QueryKind::Symbol => "symbol"@,
        QueryKind::Chain => "chain"@,
    }
}

/// Name for a [`QueryKind`], used as the key of per-kind recall.
pub fn kind_name(kind: QueryKind) -> (r: &'static str)
    ensures
        r@ == name_of(kind),
{
    match kind {
        QueryKind::Exact => "exact",
        QueryKind::Intent => "intent",
        QueryKind::Unanswerable => "unanswerable",
        QueryKind::Keyword => "keyword",
        QueryKind::Paraphrase => "paraphrase",
        QueryKind::Symbol => "symbol",
        QueryKind::Chain => "chain",
    }
}

/// One labeled case. `expected` is a path substring identifying the target
/// file; `None` means the workspace genuinely has no answer.
#[derive(Debug, Clone, Copy, PartialEq, Eq)]
pub struct QueryCase {
    pub id: &'static str,
    pub kind: QueryKind,
    pub query: &'static str,
    pub expected: Option<&'static str>,
}

/// What a [`QueryCase`] says, as mathematical values.
pub struct CaseView {
    pub id: Seq<char>,
    pub kind: QueryKind,
    pub query: Seq<char>,
    pub expected: Option<Seq<char>>,
}

impl View for QueryCase {
    type V = CaseView;

    open spec fn view(&self) -> CaseView {
        CaseView {
            id: self.id@,
            kind: self.kind,
            query: self.query@,
            expected: match self.expected {
                Some(e) => Some(e@),
                None => None,
            },
        }
    }
}

/// Baseline set: exact identifiers, paraphrased intent, and one genuinely
/// unanswerable query. Each answerable case uses terms unique to its target
/// file so the lexical baseline is deterministic.
pub open spec fn baseline_set() -> Seq<CaseView> {
    seq![
        CaseView {
            id: "exact-auth-symbol"@,
            kind: QueryKind::Exact,
            query: "authenticate_user"@,
            expected: Some("src/auth.rs"@),
        },
        CaseView {
            id: "exact-route-symbol"@,
            kind: QueryKind::Exact,
            query: "route_request"@,
            expected: Some("src/router.rs"@),
        },
        CaseView {
            id: "intent-login-credentials"@,
            kind: QueryKind::Intent,
            query: "how does login verify credentials"@,
            expected: Some("src/auth.rs"@),
        },
        CaseView {
            id: "intent-route-dispatch"@,
            kind: QueryKind::Intent,
            query: "which handler dispatches incoming requests to lanes"@,
            expected: Some("src/router.rs"@),
        },
        CaseView {
            id: "intent-secret-storage"@,
            kind: QueryKind::Intent,
            query: "where do tokens live so they never get committed"@,
            expected: Some("docs/secrets.md"@),
        },
        CaseView {
            id: "unanswerable-nonsense"@,
            kind: QueryKind::Unanswerable,
            query: "zxqv klaxon theremin calibration"@,
            expected: None,
        },
    ]
}

/// Baseline set: exact identifiers, paraphrased intent, and one genuinely
/// unanswerable query. Each answerable case uses terms unique to its target
/// file so the lexical baseline is deterministic.
pub fn cases() -> (r: Vec<QueryCase>)
    ensures
        views(r@) == baseline_set(),
{
    let r: Vec<QueryCase> = vec![
        QueryCase {
            id: "exact-auth-symbol",
            kind: QueryKind::Exact,
            query: "authenticate_user",
            expected: Some("src/auth.rs"),
        },
        QueryCase {
            id: "exact-route-symbol",
            kind: QueryKind::Exact,
            query: "route_request",
            expected: Some("src/router.rs"),
        },
        QueryCase {
            id: "intent-login-credentials",
            kind: QueryKind::Intent,
            query: "how does login verify credentials",
            expected: Some("src/auth.rs"),
        },
        QueryCase {
            id: "intent-route-dispatch",
            kind: QueryKind::Intent,
            query: "which handler dispatches incoming requests to lanes",
            expected: Some("src/router.rs"),
        },
        QueryCase {
            id: "intent-secret-storage",
            kind: QueryKind::Intent,
            query: "where do tokens live so they never get committed",
            expected: Some("docs/secrets.md"),
        },
        QueryCase {
            id: "unanswerable-nonsense",
            kind: QueryKind::Unanswerable,
            query: "zxqv klaxon theremin calibration",
            expected: None,
        },
    ];
    proof {
        assert(views(r@) =~= baseline_set());
    }
    r
}

/// Frozen gate set: keyword / paraphrase / symbol / call-chain cases over a
/// wider fixture. Each answerable case uses terms unique to its target file,
/// except the paraphrases, which share (almost) nothing by design.
pub open spec fn gate_set() -> Seq<CaseView> {
    seq![
        CaseView {
            id: "kw-auth-term"@,
            kind: QueryKind::Keyword,
            query: "authenticate_user"@,
            expected: Some("src/auth.rs"@),
        },
        CaseView {
            id: "kw-lane-config"@,
            kind: QueryKind::Keyword,
            query: "LaneConfig"@,
            expected: Some("src/lane.ts"@),
        },
        CaseView {
            id: "kw-keychain"@,
            kind: QueryKind::Keyword,
            query: "keychain"@,
            expected: Some("docs/secrets.md"@),
        },
        CaseView {
            id: "para-signin"@,
            kind: QueryKind::Paraphrase,
            query: "how does sign-in check a password"@,
            expected: Some("src/auth.rs"@),
        },
        CaseView {
            id: "para-build-output"@,
            kind: QueryKind::Paraphrase,
            query: "where do build outputs go"@,
            expected: Some("docs/deploy.md"@),
        },
        CaseView {
            id: "para-tokens"@,
            kind: QueryKind::Paraphrase,
            query: "where do tokens live so they never get committed"@,
            expected: Some("docs/secrets.md"@),
        },
        CaseView {
            id: "sym-route"@,
            kind: QueryKind::Symbol,
            query: "route_request"@,
            expected: Some("src/router.rs"@),
        },
        CaseView {
            id: "sym-lane-defaults"@,
            kind: QueryKind::Symbol,
            query: "apply_lane_defaults"@,
            expected: Some("src/lane.ts"@),
        },
        CaseView {
            id: "chain-apply"@,
            kind: QueryKind::Chain,
            query: "what does apply_request call"@,
            expected: Some("src/caller.rs"@),
        },
        CaseView {
            id: "chain-callers"@,
            kind: QueryKind::Chain,
            query: "which functions call apply_lane_defaults"@,
            expected: Some("src/caller.rs"@),
        },
        CaseView {
            id: "unanswerable-nonsense"@,
            kind: QueryKind::Unanswerable,
            query: "zxqv klaxon theremin calibration"@,
            expected: None,
        },
        CaseView {
            id: "unanswerable-refunds"@,
            kind: QueryKind::Unanswerable,
            query: "how do refunds work"@,
            expected: None,
        },
    ]
}

/// Frozen gate set: keyword / paraphrase / symbol / call-chain cases over a
/// wider fixture. Each answerable case uses terms unique to its target file,
/// except the paraphrases, which share (almost) nothing by design.
pub fn cases_v2() -> (r: Vec<QueryCase>)
    ensures
        views(r@) == gate_set(),
{
    let r: Vec<QueryCase> = vec![
        QueryCase {
            id: "kw-auth-term",
            kind: QueryKind::Keyword,
            query: "authenticate_user",
            expected: Some("src/auth.rs"),
        },
        QueryCase {
            id: "kw-lane-config",
            kind: QueryKind::Keyword,
            query: "LaneConfig",
            expected: Some("src/lane.ts"),
        },
        QueryCase {
            id: "kw-keychain",
            kind: QueryKind::Keyword,
            query: "keychain",
            expected: Some("docs/secrets.md"),
        },
        QueryCase {
            id: "para-signin",
            kind: QueryKind::Paraphrase,
            query: "how does sign-in check a password",
            expected: Some("src/auth.rs"),
        },
        QueryCase {
            id: "para-build-output",
            kind: QueryKind::Paraphrase,
            query: "where do build outputs go",
            expected: Some("docs/deploy.md"),
        },
        QueryCase {
            id: "para-tokens",
            kind: QueryKind::Paraphrase,
            query: "where do tokens live so they never get committed",
            expected: Some("docs/secrets.md"),
        },
        QueryCase {
            id: "sym-route",
            kind: QueryKind::Symbol,
            query: "route_request",
            expected: Some("src/router.rs"),
        },
        QueryCase {
            id: "sym-lane-defaults",
            kind: QueryKind::Symbol,
            query: "apply_lane_defaults",
            expected: Some("src/lane.ts"),
        },
        QueryCase {
            id: "chain-apply",
            kind: QueryKind::Chain,
            query: "what does apply_request call",
            expected: Some("src/caller.rs"),
        },
        QueryCase {
            id: "chain-callers",
            kind: QueryKind::Chain,
            query: "which functions call apply_lane_defaults",
            expected: Some("src/caller.rs"),
        },
        QueryCase {
            id: "unanswerable-nonsense",
            kind: QueryKind::Unanswerable,
            query: "zxqv klaxon theremin calibration",
            expected: None,
        },
        QueryCase {
            id: "unanswerable-refunds",
            kind: QueryKind::Unanswerable,
            query: "how do refunds work",
            expected: None,
        },
    ];
    proof {
        assert(views(r@) =~= gate_set());
    }
    r
}

/// Per-query outcome (no source text retained).
#[derive(Debug)]
pub struct QueryOutcome {
    pub id: &'static str,
    pub kind: QueryKind,
    pub query: &'static str,
    pub expected: Option<&'static str>,
    /// 1-based rank of the first hit matching `expected`.
    pub rank: Option<usize>,
    /// How many hits there were.
    pub hits: usize,
    /// How long it took in milliseconds, as the bit pattern of a double.
    pub latency: u64,
}

/// The number of the first path that holds `expected`; the number of paths
/// when none does.
pub open spec fn first_holding(paths: Seq<Seq<char>>, expected: Seq<char>) -> int
    decreases paths.len(),
{
    if paths.len() == 0 || first_at(paths[0], expected) >= 0 {
        0
    } else {
        1 + first_holding(paths.skip(1), expected)
    }
}

/// The 1-based rank of the first path that holds what is expected.
pub open spec fn rank_of_expected(paths: Seq<Seq<char>>, expected: Option<Seq<char>>) -> Option<int> {
    match expected {
        None => None,
        Some(e) => if first_holding(paths, e) < paths.len() {
            Some(first_holding(paths, e) + 1)
        } else {
            None
        },
    }
}

proof fn lemma_first_holding(paths: Seq<Seq<char>>, expected: Seq<char>, k: int)
    requires
        0 <= k <= paths.len(),
        forall|i: int| 0 <= i < k ==> first_at(#[trigger] paths[i], expected) < 0,
        k < paths.len() ==> first_at(paths[k], expected) >= 0,
    ensures
        first_holding(paths, expected) == k,
    decreases k,
{
    if k > 0 {
        let t = paths.skip(1);
        assert forall|i: int| 0 <= i < k - 1 implies first_at(#[trigger] t[i], expected) < 0 by {
            assert(t[i] == paths[i + 1]);
        }
        lemma_first_holding(t, expected, k - 1);
    }
}

/// The 1-based rank of the first hit path that holds what is expected.
pub fn expected_rank(paths: &[String], expected: Option<&str>) -> (r: Option<usize>)
    ensures
        match r {
            Some(k) => rank_of_expected(texts(paths@), crate::text::opt_str(expected)) == Some(
                k as int,
            ),
            None => rank_of_expected(texts(paths@), crate::text::opt_str(expected)) is None,
        },
{
    let want = match expected {
        None => {
            return None;
        },
        Some(w) => w,
    };
    let ghost t = texts(paths@);
    let mut i: usize = 0;
    while i < paths.len()
        invariant
            i <= paths@.len(),
            t == texts(paths@),
            expected == Some(want),
            forall|j: int| 0 <= j < i ==> first_at(#[trigger] t[j], want@) < 0,
        decreases paths@.len() - i,
    {
        proof {
            assert(t[i as int] == paths@[i as int]@);
        }
        if find_text(&chars_of(paths[i].as_str()), want).is_some() {
            proof {
                lemma_first_holding(t, want@, i as int);
            }
            return Some(i + 1);
        }
        i += 1;
    }
    proof {
        lemma_first_holding(t, want@, i as int);
    }
    None
}

/// Whether an outcome is of a case that has an answer.
pub open spec fn answerable(o: QueryOutcome) -> bool {
    o.expected is Some
}

/// Whether an answer was found among the first `k` hits.
pub open spec fn found_within(o: QueryOutcome, k: int) -> bool {
    answerable(o) && o.rank is Some && o.rank->0 <= k
}

/// How many outcomes are of cases that have an answer.
pub open spec fn answerable_count(os: Seq<QueryOutcome>) -> nat {
    os.filter(|o: QueryOutcome| answerable(o)).len()
}

/// How many answers were found among the first `k` hits.
pub open spec fn found_count(os: Seq<QueryOutcome>, k: int) -> nat {
    os.filter(|o: QueryOutcome| found_within(o, k)).len()
}

/// How many cases of a category have an answer.
pub open spec fn kind_count(os: Seq<QueryOutcome>, kind: QueryKind) -> nat {
    os.filter(|o: QueryOutcome| answerable(o) && o.kind == kind).len()
}

/// How many answers of a category were found among the first `k` hits.
pub open spec fn kind_found(os: Seq<QueryOutcome>, kind: QueryKind, k: int) -> nat {
    os.filter(|o: QueryOutcome| found_within(o, k) && o.kind == kind).len()
}

/// How many outcomes with or without an answer had no hit.
pub open spec fn empty_count(os: Seq<QueryOutcome>, with_answer: bool) -> nat {
    os.filter(|o: QueryOutcome| answerable(o) == with_answer && o.hits == 0).len()
}

fn count_found(os: &[QueryOutcome], k: usize) -> (r: usize)
    ensures
        r == found_count(os@, k as int),
{
    let ghost p = |o: QueryOutcome| found_within(o, k as int);
    let mut n: usize = 0;
    let mut i: usize = 0;
    proof {
        reveal(Seq::filter);
        assert(os@.take(0).filter(p).len() == 0);
    }
    while i < os.len()
        invariant
            n <= i <= os@.len(),
            p == (|o: QueryOutcome| found_within(o, k as int)),
            n == os@.take(i as int).filter(p).len(),
        decreases os@.len() - i,
    {
        proof {
            lemma_filter_step(os@, i as int, p);
        }
        if let (Some(_), Some(r)) = (os[i].expected, os[i].rank) {
            if r <= k {
                n += 1;
            }
        }
        i += 1;
    }
    proof {
        assert(os@.take(i as int) =~= os@);
    }
    n
}

fn count_answerable(os: &[QueryOutcome]) -> (r: usize)
    ensures
        r == answerable_count(os@),
        r <= os@.len(),
{
    let ghost p = |o: QueryOutcome| answerable(o);
    let mut n: usize = 0;
    let mut i: usize = 0;
    proof {
        reveal(Seq::filter);
        assert(os@.take(0).filter(p).len() == 0);
    }
    while i < os.len()
        invariant
            n <= i <= os@.len(),
            p == (|o: QueryOutcome| answerable(o)),
            n == os@.take(i as int).filter(p).len(),
        decreases os@.len() - i,
    {
        proof {
            lemma_filter_step(os@, i as int, p);
        }
        if os[i].expected.is_some() {
            n += 1;
        }
        i += 1;
    }
    proof {
        assert(os@.take(i as int) =~= os@);
    }
    n
}

fn count_empty(os: &[QueryOutcome], with_answer: bool) -> (r: usize)
    ensures
        r == empty_count(os@, with_answer),
{
    let ghost p = |o: QueryOutcome| answerable(o) == with_answer && o.hits == 0;
    let mut n: usize = 0;
    let mut i: usize = 0;
    proof {
        reveal(Seq::filter);
        assert(os@.take(0).filter(p).len() == 0);
    }
    while i < os.len()
        invariant
            n <= i <= os@.len(),
            p == (|o: QueryOutcome| answerable(o) == with_answer && o.hits == 0),
            n == os@.take(i as int).filter(p).len(),
        decreases os@.len() - i,
    {
        proof {
            lemma_filter_step(os@, i as int, p);
        }
        if os[i].expected.is_some() == with_answer && os[i].hits == 0 {
            n += 1;
        }
        i += 1;
    }
    proof {
        assert(os@.take(i as int) =~= os@);
    }
    n
}

fn count_kind(os: &[QueryOutcome], kind: QueryKind) -> (r: usize)
    ensures
        r == kind_count(os@, kind),
{
    let ghost p = |o: QueryOutcome| answerable(o) && o.kind == kind;
    let mut n: usize = 0;
    let mut i: usize = 0;
    proof {
        reveal(Seq::filter);
        assert(os@.take(0).filter(p).len() == 0);
    }
    while i < os.len()
        invariant
            n <= i <= os@.len(),
            p == (|o: QueryOutcome| answerable(o) && o.kind == kind),
            n == os@.take(i as int).filter(p).len(),
        decreases os@.len() - i,
    {
        proof {
            lemma_filter_step(os@, i as int, p);
        }
        if os[i].expected.is_some() && os[i].kind == kind {
            n += 1;
        }
        i += 1;
    }
    proof {
        assert(os@.take(i as int) =~= os@);
    }
    n
}

fn count_kind_found(os: &[QueryOutcome], kind: QueryKind, k: usize) -> (r: usize)
    ensures
        r == kind_found(os@, kind, k as int),
{
    let ghost p = |o: QueryOutcome| found_within(o, k as int) && o.kind == kind;
    let mut n: usize = 0;
    let mut i: usize = 0;
    proof {
        reveal(Seq::filter);
        assert(os@.take(0).filter(p).len() == 0);
    }
    while i < os.len()
        invariant
            n <= i <= os@.len(),
            p == (|o: QueryOutcome| found_within(o, k as int) && o.kind == kind),
            n == os@.take(i as int).filter(p).len(),
        decreases os@.len() - i,
    {
        proof {
            lemma_filter_step(os@, i as int, p);
        }
        if let (Some(_), Some(r)) = (os[i].expected, os[i].rank) {
            if r <= k && os[i].kind == kind {
                n += 1;
            }
        }
        i += 1;
    }
    proof {
        assert(os@.take(i as int) =~= os@);
    }
    n
}

/// A latency, as the bit pattern of a double; shorter ones come first.
pub struct Latency(pub u64);

impl View for Latency {
    type V = u64;

    open spec fn view(&self) -> u64 {
        self.0
    }
}

impl Ranked for Latency {
    open spec fn precedes(a: u64, b: u64) -> bool {
        score_key(a) < score_key(b)
    }

    fn before(&self, other: &Latency) -> (r: bool) {
        score_above(other.0, self.0)
    }

    proof fn lemma_order(a: u64, b: u64, c: u64) {
    }
}

/// The latencies of outcomes, shortest first.
pub open spec fn latencies_sorted(os: Seq<QueryOutcome>) -> Seq<u64> {
    sorted::<Latency>(Seq::new(os.len(), |i: int| os[i].latency))
}

/// Sorted latencies are those of the outcomes, none before a shorter one.
pub proof fn lemma_latencies(os: Seq<QueryOutcome>)
    ensures
        latencies_sorted(os).len() == os.len(),
        latencies_sorted(os).to_multiset() == Seq::new(
            os.len(),
            |i: int| os[i].latency,
        ).to_multiset(),
        forall|i: int, j: int|
            0 <= i < j < latencies_sorted(os).len() ==> score_key(
                #[trigger] latencies_sorted(os)[i],
            ) <= score_key(#[trigger] latencies_sorted(os)[j]),
{
    let l = Seq::new(os.len(), |i: int| os[i].latency);
    crate::order::sort_orders::<Latency>(l);
    assert forall|i: int, j: int| 0 <= i < j < latencies_sorted(os).len() implies score_key(
        #[trigger] latencies_sorted(os)[i],
    ) <= score_key(#[trigger] latencies_sorted(os)[j]) by {
        assert(!<Latency as Ranked>::precedes(sorted::<Latency>(l)[j], sorted::<Latency>(l)[i]));
    }
}

/// The latency below or at which `num` of `den` outcomes lie; zero where
/// there is none.
pub open spec fn quantile_of(os: Seq<QueryOutcome>, num: int, den: int) -> u64 {
    if os.len() == 0 {
        0
    } else {
        latencies_sorted(os)[(os.len() * num + den - 1) / den - 1]
    }
}

/// Per-kind recall: the name of a category, how many answers of it were found
/// near the top, and how many there are.
#[derive(Debug)]
pub struct KindRecall {
    pub name: &'static str,
    pub found: usize,
    pub total: usize,
}

/// Aggregate counts over a query set.
#[derive(Debug)]
pub struct Report {
    pub eval_version: &'static str,
    pub queries: usize,
    pub answerable: usize,
    pub unanswerable: usize,
    pub found_at_1: usize,
    pub found_at_3: usize,
    pub found_at_5: usize,
    pub found_at_20: usize,
    /// Found at 3 by category, in the order of their names. Categories
    /// without an answerable case are absent.
    pub kinds_at_3: Vec<KindRecall>,
    pub empty_correct: usize,
    pub empty_total: usize,
    pub false_abstentions: usize,
    /// The median latency, as the bit pattern of a double.
    pub latency_p50: u64,
    /// The latency that one outcome in twenty exceeds, likewise.
    pub latency_p95: u64,
}

/// The categories in the order of their names.
pub open spec fn kinds_by_name() -> Seq<QueryKind> {
    seq![
        QueryKind::Chain,
        QueryKind::Exact,
        QueryKind::Intent,
        QueryKind::Keyword,
        QueryKind::Paraphrase,
        QueryKind::Symbol,
        QueryKind::Unanswerable,
    ]
}

/// What is counted of the first `n` categories that have an answerable case.
pub open spec fn kind_rows(os: Seq<QueryOutcome>, n: int) -> Seq<(Seq<char>, nat, nat)>
    decreases n,
{
    if n <= 0 {
        Seq::empty()
    } else {
        let k = kinds_by_name()[n - 1];
        if kind_count(os, k) == 0 {
            kind_rows(os, n - 1)
        } else {
            kind_rows(os, n - 1).push(
                (name_of(k), kind_found(os, k, RECALL_3 as int), kind_count(os, k)),
            )
        }
    }
}

impl View for KindRecall {
    type V = (Seq<char>, nat, nat);

    open spec fn view(&self) -> (Seq<char>, nat, nat) {
        (self.name@, self.found as nat, self.total as nat)
    }
}

fn kind_at(i: usize) -> (r: QueryKind)
    requires
        i < 7,
    ensures
        r == kinds_by_name()[i as int],
{
    if i == 0 {
        QueryKind::Chain
    } else if i == 1 {
        QueryKind::Exact
    } else if i == 2 {
        QueryKind::Intent
    } else if i == 3 {
        QueryKind::Keyword
    } else if i == 4 {
        QueryKind::Paraphrase
    } else if i == 5 {
        QueryKind::Symbol
    } else {
        QueryKind::Unanswerable
    }
}

fn sorted_latencies(os: &[QueryOutcome]) -> (r: Vec<Latency>)
    ensures
        views(r@) == latencies_sorted(os@),
        r@.len() == os@.len(),
{
    let mut v: Vec<Latency> = Vec::new();
    let ghost all = Seq::new(os@.len(), |i: int| os@[i].latency);
    let mut i: usize = 0;
    while i < os.len()
        invariant
            i <= os@.len(),
            all == Seq::new(os@.len(), |i: int| os@[i].latency),
            views(v@) == all.take(i as int),
        decreases os@.len() - i,
    {
        let ghost before = v@;
        let l = Latency(os[i].latency);
        v.push(l);
        proof {
            assert(views(v@) =~= views(before).push(l@));
            assert(views(v@) =~= all.take(i + 1));
        }
        i += 1;
    }
    proof {
        assert(all.take(i as int) =~= all);
        lemma_latencies(os@);
    }
    let r = sort(v);
    proof {
        assert(views(r@).len() == r@.len());
    }
    r
}

/// What is counted over the outcomes of a query set.
pub fn report(os: &[QueryOutcome]) -> (r: Report)
    requires
        os@.len() * 20 <= usize::MAX,
    ensures
        r.eval_version@ == EVAL_VERSION@,
        r.queries == os@.len(),
        r.answerable == answerable_count(os@),
        r.unanswerable == os@.len() - answerable_count(os@),
        r.found_at_1 == found_count(os@, RECALL_1 as int),
        r.found_at_3 == found_count(os@, RECALL_3 as int),
        r.found_at_5 == found_count(os@, RECALL_K as int),
        r.found_at_20 == found_count(os@, RECALL_WIDE_K as int),
        views(r.kinds_at_3@) == kind_rows(os@, 7),
        r.empty_correct == empty_count(os@, false),
        r.empty_total == r.unanswerable,
        r.false_abstentions == empty_count(os@, true),
        r.latency_p50 == quantile_of(os@, 1, 2),
        r.latency_p95 == quantile_of(os@, 19, 20),
{
    let n: usize = os.len();
    let answers = count_answerable(os);
    let mut kinds: Vec<KindRecall> = Vec::new();
    let mut i: usize = 0;
    proof {
        assert(views(kinds@) =~= kind_rows(os@, 0));
    }
    while i < 7
        invariant
            i <= 7,
            views(kinds@) == kind_rows(os@, i as int),
        decreases 7 - i,
    {
        let ghost before = kinds@;
        let k = kind_at(i);
        let total = count_kind(os, k);
        if total > 0 {
            let row = KindRecall {
                name: kind_name(k),
                found: count_kind_found(os, k, RECALL_3),
                total,
            };
            kinds.push(row);
            proof {
                assert(views(kinds@) =~= views(before).push(row@));
            }
        }
        i += 1;
    }
    let by = sorted_latencies(os);
    let mut p50: u64 = 0;
    let mut p95: u64 = 0;
    if n > 0 {
        let a: usize = (n + 1) / 2 - 1;
        let b: usize = (n * 19 + 19) / 20 - 1;
        proof {
            assert(views(by@)[a as int] == by@[a as int]@);
            assert(views(by@)[b as int] == by@[b as int]@);
        }
        p50 = by[a].0;
        p95 = by[b].0;
    }
    Report {
        eval_version: EVAL_VERSION,
        queries: n,
        answerable: answers,
        unanswerable: n - answers,
        found_at_1: count_found(os, RECALL_1),
        found_at_3: count_found(os, RECALL_3),
        found_at_5: count_found(os, RECALL_K),
        found_at_20: count_found(os, RECALL_WIDE_K),
        kinds_at_3: kinds,
        empty_correct: count_empty(os, false),
        empty_total: n - answers,
        false_abstentions: count_empty(os, true),
        latency_p50: p50,
        latency_p95: p95,
    }
}

/// Looking deeper never finds fewer answers, and never more than there are.
pub proof fn recall_grows_with_depth(os: Seq<QueryOutcome>, j: int, k: int)
    requires
        j <= k,
    ensures
        found_count(os, j) <= found_count(os, k) <= answerable_count(os) <= os.len(),
    decreases os.len(),
{
    reveal(Seq::filter);
    if os.len() > 0 {
        recall_grows_with_depth(os.drop_last(), j, k);
    }
}

/// The rank of an answer is that of the first path that what is expected
/// stands in: it stands in that path and in none before it. Without a rank it
/// stands in no path.
pub proof fn ranks_are_of_the_first_path(paths: Seq<Seq<char>>, expected: Seq<char>)
    ensures
        match rank_of_expected(paths, Some(expected)) {
            Some(k) => {
                &&& 1 <= k <= paths.len()
                &&& holds(paths[k - 1], expected)
                &&& forall|i: int| 0 <= i < k - 1 ==> !holds(#[trigger] paths[i], expected)
            },
            None => forall|i: int| 0 <= i < paths.len() ==> !holds(#[trigger] paths[i], expected),
        },
        rank_of_expected(paths, None) is None,
{
    lemma_first_holding_is(paths, expected);
    assert forall|i: int| 0 <= i < paths.len() implies holds(#[trigger] paths[i], expected) == (
    first_at(paths[i], expected) >= 0) by {
        lemma_holds(paths[i], expected);
    }
}

/// Whether one text stands somewhere in another.
pub open spec fn holds(s: Seq<char>, part: Seq<char>) -> bool {
    exists|k: int| 0 <= k <= s.len() - part.len() && #[trigger] s.subrange(k, k + part.len()) == part
}

proof fn lemma_holds(s: Seq<char>, part: Seq<char>)
    ensures
        holds(s, part) == (first_at(s, part) >= 0),
{
    lemma_first_at_is(s, part);
    let at = first_at(s, part);
    if at >= 0 {
        assert(s.subrange(at, at + part.len()) =~= s.skip(at).subrange(0, part.len() as int));
    } else if holds(s, part) {
        let k = choose|k: int|
            0 <= k <= s.len() - part.len() && #[trigger] s.subrange(k, k + part.len()) == part;
        assert(s.skip(k).subrange(0, part.len() as int) =~= s.subrange(k, k + part.len()));
        assert(part.is_prefix_of(s.skip(k)));
    }
}

proof fn lemma_first_holding_is(paths: Seq<Seq<char>>, expected: Seq<char>)
    ensures
        0 <= first_holding(paths, expected) <= paths.len(),
        first_holding(paths, expected) < paths.len() ==> first_at(
            paths[first_holding(paths, expected)],
            expected,
        ) >= 0,
        forall|i: int|
            0 <= i < first_holding(paths, expected) ==> first_at(#[trigger] paths[i], expected) < 0,
    decreases paths.len(),
{
    if paths.len() > 0 && first_at(paths[0], expected) < 0 {
        let t = paths.skip(1);
        lemma_first_holding_is(t, expected);
        assert forall|i: int| 0 <= i < first_holding(paths, expected) implies first_at(
            #[trigger] paths[i],
            expected,
        ) < 0 by {
            if i > 0 {
                assert(t[i - 1] == paths[i]);
            }
        }
    }
}

/// One outcome more changes the counts by that outcome alone: a case with an
/// answer counts as answerable, and as found where its answer came within the
/// depth; one without hits counts as empty, among the cases like it.
pub proof fn counts_go_by_outcome(os: Seq<QueryOutcome>, o: QueryOutcome, k: int, kind: QueryKind)
    ensures
        answerable_count(Seq::empty()) == 0,
        found_count(Seq::empty(), k) == 0,
        kind_count(Seq::empty(), kind) == 0,
        kind_found(Seq::empty(), kind, k) == 0,
        answerable_count(os.push(o)) == answerable_count(os) + (if o.expected is Some {
            1nat
        } else {
            0
        }),
        found_count(os.push(o), k) == found_count(os, k) + (if o.expected is Some && (
        o.rank matches Some(r) && r <= k) {
            1nat
        } else {
            0
        }),
        kind_count(os.push(o), kind) == kind_count(os, kind) + (if o.expected is Some && o.kind
            == kind {
            1nat
        } else {
            0
        }),
        kind_found(os.push(o), kind, k) == kind_found(os, kind, k) + (if o.expected is Some
            && o.kind == kind && (o.rank matches Some(r) && r <= k) {
            1nat
        } else {
            0
        }),
        empty_count(Seq::empty(), true) == 0 && empty_count(Seq::empty(), false) == 0,
        empty_count(os.push(o), true) == empty_count(os, true) + (if o.expected is Some && o.hits
            == 0 {
            1nat
        } else {
            0
        }),
        empty_count(os.push(o), false) == empty_count(os, false) + (if o.expected is None && o.hits
            == 0 {
            1nat
        } else {
            0
        }),
{
    reveal(Seq::filter);
    assert(os.push(o).drop_last() =~= os);
}

/// A quantile is the latency of an outcome, and as many outcomes as it asks
/// for are as fast or faster: of the latencies in order, those up to its place
/// are no longer and those from its place on no shorter, and its place is the
/// first that makes `num` of `den`.
pub proof fn quantiles_split_the_latencies(os: Seq<QueryOutcome>, num: int, den: int) -> (at: int)
    requires
        os.len() > 0,
        0 < num <= den,
    ensures
        0 <= at < os.len(),
        (at + 1) * den >= os.len() * num,
        at * den < os.len() * num,
        exists|i: int| 0 <= i < os.len() && (#[trigger] os[i]).latency == quantile_of(os, num, den),
        latencies_sorted(os)[at] == quantile_of(os, num, den),
        forall|j: int|
            0 <= j <= at ==> score_key(#[trigger] latencies_sorted(os)[j]) <= score_key(
                quantile_of(os, num, den),
            ),
        forall|j: int|
            at <= j < os.len() ==> score_key(#[trigger] latencies_sorted(os)[j]) >= score_key(
                quantile_of(os, num, den),
            ),
{
    let n = os.len() as int;
    let at = (n * num + den - 1) / den - 1;
    let x = n * num;
    assert(x >= 1) by (nonlinear_arith)
        requires
            n >= 1,
            num >= 1,
            x == n * num,
    ;
    assert(x <= n * den) by (nonlinear_arith)
        requires
            n >= 1,
            num <= den,
            x == n * num,
    ;
    let q = (x + den - 1) / den;
    assert(q * den <= x + den - 1 < q * den + den) by (nonlinear_arith)
        requires
            den > 0,
            q == (x + den - 1) / den,
    ;
    assert(q >= 1) by (nonlinear_arith)
        requires
            den > 0,
            x >= 1,
            x + den - 1 < q * den + den,
    ;
    assert(q <= n) by (nonlinear_arith)
        requires
            den > 0,
            q * den <= x + den - 1,
            x <= n * den,
    ;
    assert((at + 1) * den == q * den);
    assert(at * den == q * den - den) by (nonlinear_arith)
        requires
            at == q - 1,
    ;
    lemma_latencies(os);
    let l = Seq::new(os.len(), |i: int| os[i].latency);
    let s = latencies_sorted(os);
    l.to_multiset_ensures();
    s.to_multiset_ensures();
    assert(s.contains(s[at]));
    assert(l.to_multiset().count(s[at]) > 0);
    assert(l.contains(s[at]));
    let i = choose|i: int| 0 <= i < l.len() && l[i] == s[at];
    assert(os[i].latency == s[at]);
    at
}

/// Each category with an answerable case has one row, which counts its own
/// cases: how many were found within the first three hits, and how many there
/// are. No other row comes out.
pub proof fn rows_count_their_category(os: Seq<QueryOutcome>)
    ensures
        forall|kind: QueryKind| #[trigger]
            kind_count(os, kind) > 0 ==> kind_rows(os, 7).contains(
                (name_of(kind), kind_found(os, kind, 3), kind_count(os, kind)),
            ),
        forall|i: int|
            0 <= i < kind_rows(os, 7).len() ==> counts_a_category(os, #[trigger] kind_rows(os, 7)[i]),
{
    lemma_kind_rows(os, 7);
    let ks = kinds_by_name();
    assert forall|kind: QueryKind| #[trigger] kind_count(os, kind) > 0 implies kind_rows(
        os,
        7,
    ).contains((name_of(kind), kind_found(os, kind, 3), kind_count(os, kind))) by {
        let at: int = match kind {
            QueryKind::Chain => 0,
            QueryKind::Exact => 1,
            QueryKind::Intent => 2,
            QueryKind::Keyword => 3,
            QueryKind::Paraphrase => 4,
            QueryKind::Symbol => 5,
            QueryKind::Unanswerable => 6,
        };
        assert(ks[at] == kind);
    }
}

/// Whether a row names a category with an answerable case, and counts its
/// cases.
pub open spec fn counts_a_category(os: Seq<QueryOutcome>, row: (Seq<char>, nat, nat)) -> bool {
    exists|kind: QueryKind|
        row.0 == #[trigger] name_of(kind) && kind_count(os, kind) > 0 && row.1 == kind_found(
            os,
            kind,
            3,
        ) && row.2 == kind_count(os, kind)
}

spec fn row_of(os: Seq<QueryOutcome>, kind: QueryKind) -> (Seq<char>, nat, nat) {
    (name_of(kind), kind_found(os, kind, 3), kind_count(os, kind))
}

proof fn lemma_kind_rows(os: Seq<QueryOutcome>, n: int)
    requires
        0 <= n <= 7,
    ensures
        forall|m: int|
            0 <= m < n && kind_count(os, #[trigger] kinds_by_name()[m]) > 0 ==> kind_rows(
                os,
                n,
            ).contains(row_of(os, kinds_by_name()[m])),
        forall|i: int|
            0 <= i < kind_rows(os, n).len() ==> counts_a_category(os, #[trigger] kind_rows(os, n)[i]),
    decreases n,
{
    if n > 0 {
        lemma_kind_rows(os, n - 1);
        let ks = kinds_by_name();
        let k = ks[n - 1];
        let before = kind_rows(os, n - 1);
        let rows = kind_rows(os, n);
        assert forall|m: int| 0 <= m < n && kind_count(os, #[trigger] ks[m]) > 0 implies rows.contains(
            row_of(os, ks[m]),
        ) by {
            if m < n - 1 {
                let i = before.index_of(row_of(os, ks[m]));
                assert(rows[i] == before[i]);
            } else {
                assert(rows[rows.len() - 1] == row_of(os, k));
            }
        }
        assert forall|i: int| 0 <= i < rows.len() implies counts_a_category(
            os,
            #[trigger] rows[i],
        ) by {
            if i < before.len() {
                assert(rows[i] == before[i]);
            } else {
                assert(rows[i] == row_of(os, k));
                assert(rows[i].0 == name_of(k));
            }
        }
    }
}

/// A case of either set has an answer to be found if and only if its category
/// says so.
pub proof fn only_unanswerable_cases_have_no_answer(i: int)
    ensures
        0 <= i < baseline_set().len() ==> (baseline_set()[i].expected is None
            <==> baseline_set()[i].kind == QueryKind::Unanswerable),
        0 <= i < gate_set().len() ==> (gate_set()[i].expected is None <==> gate_set()[i].kind
            == QueryKind::Unanswerable),
{
}

/// No two categories are called the same.
pub proof fn categories_are_told_apart(a: QueryKind, b: QueryKind)
    ensures
        name_of(a) == name_of(b) ==> a == b,
{
    reveal_strlit("exact");
    reveal_strlit("intent");
    reveal_strlit("unanswerable");
    reveal_strlit("keyword");
    reveal_strlit("paraphrase");
    reveal_strlit("symbol");
    reveal_strlit("chain");
    assert("exact"@[0] == 'e' && "chain"@[0] == 'c' && "intent"@[0] == 'i' && "symbol"@[0] == 's');
    assert("keyword"@[0] == 'k' && "paraphrase"@[0] == 'p' && "unanswerable"@[0] == 'u');
}

} // verus!
