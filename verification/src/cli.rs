//! The command line: which retrieval a query leads to, and how hits print.

use vstd::prelude::*;
use crate::embed::RankKind;
use crate::error::{Error, ErrorView};
use crate::route::{route, route_of, Route, RouteView};
use crate::text::{decimal, decimal_of, texts};

verus! {

/// The flags of `query`.
#[derive(Debug, Clone, Copy)]
pub struct QueryFlags {
    /// Fuse lexical with vector similarity.
    pub hybrid: bool,
    /// The ranker that was asked for.
    pub rank: Option<RankKind>,
    /// Whether a structural pattern was given.
    pub ast: bool,
    /// Whether a language for it was given.
    pub ast_lang: bool,
    /// Whether the workspace has an index.
    pub indexed: bool,
    /// Whether there is an `ast-grep` binary.
    pub available: bool,
}

/// Which ranker the flags ask for: `--rerank` is `--rank jina`. The two
/// conflict, so at most one of them is given.
pub fn backend(rerank: bool, rank: Option<RankKind>) -> (r: Option<RankKind>)
    requires
        !(rerank && rank is Some),
    ensures
        r == (if rerank {
            Some(RankKind::Jina)
        } else {
            rank
        }),
{
    if rerank {
        Some(RankKind::Jina)
    } else {
        rank
    }
}

/// Which retrieval a query leads to.
#[derive(Debug)]
pub enum QueryPlan {
    /// Exact text.
    Literal(String),
    /// One token, looked up in the index.
    Token(String),
    /// A shortlist for the scoring service: fused where there is an index,
    /// live where there is none.
    Scored { fused: bool },
    /// Live grep: there is no index. Structural hits are fused in where they
    /// were asked for.
    Live { structural: bool },
    /// Lexical and vector lists fused, and reranked where that was asked for.
    Hybrid { rerank: Option<RankKind> },
    /// The lexical index.
    Lexical,
}

/// What a [`QueryPlan`] says, as mathematical values.
pub enum QueryPlanView {
    Literal(Seq<char>),
    Token(Seq<char>),
    Scored { fused: bool },
    Live { structural: bool },
    Hybrid { rerank: Option<RankKind> },
    Lexical,
}

impl View for QueryPlan {
    type V = QueryPlanView;

    open spec fn view(&self) -> QueryPlanView {
        match self {
            QueryPlan::Literal(s) => QueryPlanView::Literal(s@),
            QueryPlan::Token(s) => QueryPlanView::Token(s@),
            QueryPlan::Scored { fused } => QueryPlanView::Scored { fused: *fused },
            QueryPlan::Live { structural } => QueryPlanView::Live { structural: *structural },
            QueryPlan::Hybrid { rerank } => QueryPlanView::Hybrid { rerank: *rerank },
            QueryPlan::Lexical => QueryPlanView::Lexical,
        }
    }
}

/// Whether explicit flags force an intent: a structural pattern implies
/// hybrid retrieval.
pub open spec fn forced(f: QueryFlags) -> bool {
    f.hybrid || f.ast || f.rank is Some
}

/// Which retrieval a query leads to, or what is wrong with its flags.
/// Explicit flags force intent; otherwise exact anchors go to exact search
/// and single tokens to the index.
pub open spec fn query_plan(query: Seq<char>, f: QueryFlags) -> Result<QueryPlanView, ErrorView> {
    let way = route_of(query, false);
    if f.ast && !f.ast_lang {
        Err(ErrorView::InvalidInput("--ast needs --ast-lang"@))
    } else if f.ast && !f.available {
        Err(ErrorView::InvalidInput("ast-grep not found on PATH (or ONE_GREP_AST_GREP)"@))
    } else if !forced(f) && (way is Literal) {
        Ok(QueryPlanView::Literal(way->Literal_0))
    } else if !forced(f) && f.indexed && (way is Identifier) {
        Ok(QueryPlanView::Token(way->Identifier_0))
    } else if f.rank == Some(RankKind::Jev) {
        Ok(QueryPlanView::Scored { fused: f.indexed })
    } else if !f.indexed {
        Ok(QueryPlanView::Live { structural: f.ast })
    } else if forced(f) {
        Ok(QueryPlanView::Hybrid { rerank: f.rank })
    } else {
        Ok(QueryPlanView::Lexical)
    }
}

/// Which retrieval a query leads to.
pub fn plan_query(query: &str, f: QueryFlags) -> (r: Result<QueryPlan, Error>)
    ensures
        match r {
            Ok(p) => query_plan(query@, f) == Ok::<_, ErrorView>(p@),
            Err(e) => query_plan(query@, f) == Err::<QueryPlanView, _>(e@),
        },
{
    if f.ast && !f.ast_lang {
        return Err(Error::InvalidInput("--ast needs --ast-lang".to_owned()));
    }
    if f.ast && !f.available {
        return Err(
            Error::InvalidInput("ast-grep not found on PATH (or ONE_GREP_AST_GREP)".to_owned()),
        );
    }
    let jev = match f.rank {
        Some(RankKind::Jev) => true,
        _ => false,
    };
    let asked = f.hybrid || f.ast || f.rank.is_some();
    if !asked {
        let none: Vec<String> = Vec::new();
        match route(query, &none) {
            Route::Literal(s) => {
                return Ok(QueryPlan::Literal(s));
            },
            Route::Identifier(s) => {
                if f.indexed {
                    return Ok(QueryPlan::Token(s));
                }
            },
            Route::Intent(_) => {},
        }
    }
    if jev {
        Ok(QueryPlan::Scored { fused: f.indexed })
    } else if !f.indexed {
        Ok(QueryPlan::Live { structural: f.ast })
    } else if asked {
        Ok(QueryPlan::Hybrid { rerank: f.rank })
    } else {
        Ok(QueryPlan::Lexical)
    }
}

/// What is wrong with a structural text search.
pub open spec fn structural_fault(regex: bool, langs: int, available: bool) -> Option<Seq<char>> {
    if regex {
        Some("--structural and --regex cannot be combined"@)
    } else if langs != 1 {
        Some("--structural needs exactly one --lang"@)
    } else if !available {
        Some("ast-grep not found on PATH (or ONE_GREP_AST_GREP)"@)
    } else {
        None
    }
}

/// The language of a structural text search, or what is wrong with it.
pub fn structural_lang(regex: bool, langs: &[String], available: bool) -> (r: Result<String, Error>)
    ensures
        match r {
            Ok(l) => structural_fault(regex, langs@.len() as int, available) is None && texts(
                langs@,
            ) == seq![l@],
            Err(e) => structural_fault(regex, langs@.len() as int, available) matches Some(m) && e@
                == ErrorView::InvalidInput(m),
        },
{
    if regex {
        return Err(
            Error::InvalidInput("--structural and --regex cannot be combined".to_owned()),
        );
    }
    if langs.len() != 1 {
        return Err(Error::InvalidInput("--structural needs exactly one --lang".to_owned()));
    }
    if !available {
        return Err(
            Error::InvalidInput("ast-grep not found on PATH (or ONE_GREP_AST_GREP)".to_owned()),
        );
    }
    let l = langs[0].clone();
    proof {
        assert(texts(langs@) =~= seq![l@]);
    }
    Ok(l)
}

/// A hit as it prints.
pub open spec fn printed_hit(
    path: Seq<char>,
    start: nat,
    end: nat,
    breadcrumb: Seq<char>,
    score: Seq<char>,
    text: Seq<char>,
) -> Seq<char> {
    path + ":"@ + decimal(start) + "-"@ + decimal(end) + " ["@ + breadcrumb + "] ("@ + score
        + ")\n"@ + text
}

/// A matching line as it prints.
pub open spec fn printed_line(path: Seq<char>, line: nat, text: Seq<char>) -> Seq<char> {
    path + ":"@ + decimal(line) + ":"@ + text
}

/// A hit as it prints: `path:start-end [breadcrumb] (score)` and its text.
pub fn print_hit(path: &str, start: u64, end: u64, breadcrumb: &str, score: &str, text: &str) -> (r:
    String)
    ensures
        r@ == path@ + ":"@ + decimal(start as nat) + "-"@ + decimal(end as nat) + " ["@ + breadcrumb@
            + "] ("@ + score@ + ")\n"@ + text@,
        r@ == printed_hit(path@, start as nat, end as nat, breadcrumb@, score@, text@),
{
    let mut out = path.to_owned();
    out.append(":");
    out.append(decimal_of(start).as_str());
    out.append("-");
    out.append(decimal_of(end).as_str());
    out.append(" [");
    out.append(breadcrumb);
    out.append("] (");
    out.append(score);
    out.append(")\n");
    out.append(text);
    out
}

/// A matching line as it prints: `path:line:text`.
pub fn print_line(path: &str, line: u64, text: &str) -> (r: String)
    ensures
        r@ == path@ + ":"@ + decimal(line as nat) + ":"@ + text@,
        r@ == printed_line(path@, line as nat, text@),
{
    let mut out = path.to_owned();
    out.append(":");
    out.append(decimal_of(line).as_str());
    out.append(":");
    out.append(text);
    out
}

/// Explicit flags beat heuristics: a query with any of them is never routed
/// to exact search or to a token lookup.
pub proof fn flags_beat_heuristics(query: Seq<char>, f: QueryFlags)
    requires
        forced(f),
    ensures
        !(query_plan(query, f) matches Ok(QueryPlanView::Literal(_))),
        !(query_plan(query, f) matches Ok(QueryPlanView::Token(_))),
{
}

/// The command line and the server route a bare query alike.
pub proof fn bare_queries_route_alike(query: Seq<char>, f: QueryFlags)
    requires
        !forced(f),
    ensures
        match route_of(query, false) {
            RouteView::Literal(s) => query_plan(query, f) == Ok::<_, ErrorView>(
                QueryPlanView::Literal(s),
            ),
            RouteView::Identifier(s) => query_plan(query, f) == Ok::<_, ErrorView>(
                if f.indexed {
                    QueryPlanView::Token(s)
                } else {
                    QueryPlanView::Live { structural: false }
                },
            ),
            RouteView::Intent(_) => query_plan(query, f) == Ok::<_, ErrorView>(
                if f.indexed {
                    QueryPlanView::Lexical
                } else {
                    QueryPlanView::Live { structural: false }
                },
            ),
        },
{
}

/// A printed hit starts with its path and the lines that it cites, ends with
/// its whole text below one line, and shows its breadcrumb in square brackets
/// and its score in round ones between the two.
pub proof fn printed_hits_show_all_they_say(
    path: Seq<char>,
    start: nat,
    end: nat,
    breadcrumb: Seq<char>,
    score: Seq<char>,
    text: Seq<char>,
)
    ensures
        ({
            let r = printed_hit(path, start, end, breadcrumb, score, text);
            let place = path + ":"@ + decimal(start) + "-"@ + decimal(end);
            let n = place.len() as int;
            let m = n + 2 + breadcrumb.len();
            let k = m + 3 + score.len();
            &&& place.is_prefix_of(r)
            &&& r.subrange(n + 2, m) == breadcrumb && r[n] == ' ' && r[n + 1] == '[' && r[m] == ']'
            &&& r.subrange(m + 3, k) == score && r[m + 1] == ' ' && r[m + 2] == '(' && r[k] == ')'
            &&& r[k + 1] == '\n' && r.skip(k + 2) == text
        }),
{
    reveal_strlit(" [");
    reveal_strlit("] (");
    reveal_strlit(")\n");
    let r = printed_hit(path, start, end, breadcrumb, score, text);
    let place = path + ":"@ + decimal(start) + "-"@ + decimal(end);
    let n = place.len() as int;
    let m = n + 2 + breadcrumb.len();
    let k = m + 3 + score.len();
    assert(r.subrange(0, n) =~= place);
    assert(r.subrange(n + 2, m) =~= breadcrumb);
    assert(r.subrange(m + 3, k) =~= score);
    assert(r.skip(k + 2) =~= text);
}

/// A printed line starts with its path and its number, and ends with its whole
/// text.
pub proof fn printed_lines_show_all_they_say(path: Seq<char>, line: nat, text: Seq<char>)
    ensures
        ({
            let r = printed_line(path, line, text);
            let place = path + ":"@ + decimal(line);
            let n = place.len() as int;
            place.is_prefix_of(r) && r[n] == ':' && r.skip(n + 1) == text
        }),
{
    reveal_strlit(":");
    let r = printed_line(path, line, text);
    let place = path + ":"@ + decimal(line);
    let n = place.len() as int;
    assert(r.subrange(0, n) =~= place);
    assert(r.skip(n + 1) =~= text);
}

/// A query is refused only for a structural pattern without a language or
/// without a program to match it.
pub proof fn only_structural_queries_are_refused(query: Seq<char>, f: QueryFlags)
    ensures
        query_plan(query, f) is Err <==> f.ast && !(f.ast_lang && f.available),
{
}

/// Vectors are used where the workspace has an index and a flag asks for
/// them, with the ranker that was asked for; the scoring service takes its
/// shortlist from the index where there is one.
pub proof fn flags_pick_the_lists(query: Seq<char>, f: QueryFlags)
    requires
        query_plan(query, f) is Ok,
    ensures
        f.rank == Some(RankKind::Jev) ==> query_plan(query, f)->Ok_0 == (QueryPlanView::Scored {
            fused: f.indexed,
        }),
        f.rank != Some(RankKind::Jev) && f.indexed && (f.hybrid || f.ast || f.rank is Some)
            ==> query_plan(query, f)->Ok_0 == (QueryPlanView::Hybrid { rerank: f.rank }),
        f.rank != Some(RankKind::Jev) && !f.indexed && (f.hybrid || f.ast || f.rank is Some)
            ==> query_plan(query, f)->Ok_0 == (QueryPlanView::Live { structural: f.ast }),
        !f.indexed ==> !(query_plan(query, f)->Ok_0 is Lexical) && !(query_plan(query, f)->Ok_0
            is Token),
        !f.ast && !f.hybrid && f.rank is None ==> !(query_plan(query, f)->Ok_0 is Hybrid),
{
}

/// A structural search needs one language and a program to match it, and takes
/// no regular expression; with these it is made.
pub proof fn structural_searches_need_one_language(regex: bool, langs: int, available: bool)
    ensures
        structural_fault(regex, langs, available) is None <==> !regex && langs == 1 && available,
{
}

} // verus!
