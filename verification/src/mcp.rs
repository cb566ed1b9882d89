//! The tools of the server: what each call asks for, when it is refused, and
//! what is noted and logged about it.

use vstd::prelude::*;
use crate::embed::RankKind;
use crate::error::{error_text, Error, ErrorView};
use crate::extract::ext_of;
use crate::fuse::{truncate_hits, FusedHit, FusedView, RankedHit, RankedView, Retrieval};
use crate::globs::{any_asks, glob_verdict, globs_fault, passes, survives, GlobFilter};
use crate::jev::fell_back;
use crate::order::{at_most, views};
use crate::paths::{
    absolute, components, join_of, join_path, lies_in, resolve_in_root, resolved, up_comp,
};
use crate::redact::{redact, redacted};
use crate::rg::{
    all_known, extensions_of, first_unknown, index_dir_of, lang_passes, matches_lang,
    unindexed_note, unknown_lang, validate_langs, Hit, HitView, Options,
};
use crate::route::{route, route_of, Route, RouteView};
use crate::text::{
    chars_of, join, joined, joining_keeps_each_part, lemma_filter_step, lowered, opt_str, same,
    string_of, texts,
};

verus! {

/// Env override for the serving-log path.
pub const ENV_SERVING_LOG: &'static str = "ONE_GREP_SERVING_LOG";

/// How much of a query is logged, in characters.
pub const LOGGED_CHARS: usize = 500;

/// Output format for tools. `text` (default) is the citable `path:line`
/// rendering; `json` is for machine parsing — robust against paths
/// containing `:` that break line splitting. Budget caps apply to both:
/// format never widens the result set.
#[derive(Debug, Clone, Copy, PartialEq, Eq, Structural)]
pub enum Format {
    Text,
    Json,
}

impl Format {
    /// The format that was asked for, or text.
    pub fn opt(raw: Option<Format>) -> (r: Format)
        ensures
            r == (match raw {
                Some(f) => f,
                None => Format::Text,
            }),
    {
        match raw {
            Some(f) => f,
            None => Format::Text,
        }
    }
}

/// Why a call failed.
#[derive(Debug)]
pub enum Failure {
    /// The caller asked for something that cannot be had.
    InvalidParams(String),
    /// The engine failed.
    Internal(String),
    /// Something else.
    Other(String),
}

/// What a [`Failure`] says, as mathematical values.
pub enum FailureView {
    InvalidParams(Seq<char>),
    Internal(Seq<char>),
    Other(Seq<char>),
}

impl View for Failure {
    type V = FailureView;

    open spec fn view(&self) -> FailureView {
        match self {
            Failure::InvalidParams(m) => FailureView::InvalidParams(m@),
            Failure::Internal(m) => FailureView::Internal(m@),
            Failure::Other(m) => FailureView::Other(m@),
        }
    }
}

/// The class of a failure: caller errors (unknown `--lang`, bad glob) are
/// `invalid_params`; engine failures are `internal`.
pub open spec fn class_of(f: FailureView) -> Seq<char> {
    match f {
        FailureView::InvalidParams(_) => "invalid_params"@,
        FailureView::Internal(_) => "internal"@,
        FailureView::Other(_) => "other"@,
    }
}

/// What a failure says.
pub open spec fn failure_text(f: FailureView) -> Seq<char> {
    match f {
        FailureView::InvalidParams(m) => m,
        FailureView::Internal(m) => m,
        FailureView::Other(m) => m,
    }
}

/// The class of a failure.
pub fn err_class(f: &Failure) -> (r: &'static str)
    ensures
        r@ == class_of(f@),
{
    match f {
        Failure::InvalidParams(_) => "invalid_params",
        Failure::Internal(_) => "internal",
        Failure::Other(_) => "other",
    }
}

impl Failure {
    /// What the failure says.
    pub fn message(&self) -> (r: String)
        ensures
            r@ == failure_text(self@),
    {
        match self {
            Failure::InvalidParams(m) => m.clone(),
            Failure::Internal(m) => m.clone(),
            Failure::Other(m) => m.clone(),
        }
    }
}

/// The failure of a call that an error causes.
pub open spec fn failure_of(e: ErrorView) -> FailureView {
    match e {
        ErrorView::InvalidInput(m) => FailureView::InvalidParams(m),
        ErrorView::BadPattern(m) => FailureView::InvalidParams("bad pattern: "@ + m),
        ErrorView::Walk(m) => FailureView::InvalidParams(m),
        other => FailureView::Internal(error_text(other)),
    }
}

/// Caller errors (unknown `--lang`, bad glob) are `invalid_params`; engine
/// failures stay internal. Fails closed either way.
pub fn rg_error(e: Error) -> (r: Failure)
    ensures
        r@ == failure_of(e@),
{
    match e {
        Error::InvalidInput(m) => Failure::InvalidParams(m),
        Error::BadPattern(m) => {
            let mut s = "bad pattern: ".to_owned();
            s.append(m.as_str());
            Failure::InvalidParams(s)
        },
        Error::Walk(m) => Failure::InvalidParams(m),
        other => Failure::Internal(other.message()),
    }
}

/// An engine failure.
pub fn internal(e: &Error) -> (r: Failure)
    ensures
        r@ == FailureView::Internal(error_text(e@)),
{
    Failure::Internal(e.message())
}

/// What is wrong with a root.
pub open spec fn root_fault(root: Seq<char>, is_dir: bool) -> Option<Seq<char>> {
    if !absolute(root) {
        Some("root must be absolute: "@ + root)
    } else if !is_dir {
        Some("root is not a directory: "@ + root)
    } else {
        None
    }
}

fn starts_at_root(path: &str) -> (r: bool)
    ensures
        r == absolute(path@),
{
    let cs = chars_of(path);
    cs.len() > 0 && cs[0] == '/'
}

fn refusal(m: &str, what: &str) -> (r: Failure)
    ensures
        r@ == FailureView::InvalidParams(m@ + what@),
{
    let mut s = m.to_owned();
    s.append(what);
    Failure::InvalidParams(s)
}

/// A root must be absolute and a directory; `is_dir` says whether it is one.
pub fn check_root(root: &str, is_dir: bool) -> (r: Result<(), Failure>)
    ensures
        match r {
            Ok(_) => root_fault(root@, is_dir) is None,
            Err(f) => root_fault(root@, is_dir) matches Some(m) && f@ == FailureView::InvalidParams(
                m,
            ),
        },
{
    if !starts_at_root(root) {
        return Err(refusal("root must be absolute: ", root));
    }
    if !is_dir {
        return Err(refusal("root is not a directory: ", root));
    }
    Ok(())
}

/// Post-retrieval `--lang` / `--glob` filter for `search` hits.
/// Validation fails fast (unknown langs, bad globs) as caller errors.
pub struct HitFilter {
    langs: Vec<String>,
    globs: GlobFilter,
}

/// What is wrong with the languages and globs of a filter.
pub open spec fn filter_fault(langs: Seq<Seq<char>>, globs: Seq<Seq<char>>) -> Option<Seq<char>> {
    if !all_known(langs) {
        Some(unknown_lang(langs[first_unknown(langs)]))
    } else {
        globs_fault(globs)
    }
}

/// Whether a path passes the languages and globs of a filter.
pub open spec fn filter_passes(root: Seq<char>, langs: Seq<Seq<char>>, globs: Seq<Seq<char>>, path: Seq<char>) -> bool {
    (globs.len() == 0 || passes(glob_verdict(root, globs, path), any_asks(globs))) && lang_passes(
        path,
        langs,
    )
}

/// The strings of an optional list; none where there is no list.
pub open spec fn listed(v: Option<Vec<String>>) -> Seq<Seq<char>> {
    match v {
        Some(v) => texts(v@),
        None => Seq::empty(),
    }
}

fn list_or_empty(v: &Option<Vec<String>>) -> (r: Vec<String>)
    ensures
        texts(r@) == listed(*v),
{
    let mut out: Vec<String> = Vec::new();
    match v {
        None => {
            proof {
                assert(texts(out@) =~= Seq::<Seq<char>>::empty());
            }
            out
        },
        Some(v) => copy_strings(v),
    }
}

fn copy_strings(v: &Vec<String>) -> (r: Vec<String>)
    ensures
        texts(r@) == texts(v@),
{
    let mut out: Vec<String> = Vec::new();
    let mut i: usize = 0;
    while i < v.len()
        invariant
            i <= v@.len(),
            texts(out@) == texts(v@).take(i as int),
        decreases v@.len() - i,
    {
        let ghost before = out@;
        out.push(v[i].clone());
        proof {
            assert(texts(out@) =~= texts(before).push(v@[i as int]@));
            assert(texts(out@) =~= texts(v@).take(i + 1));
        }
        i += 1;
    }
    proof {
        assert(texts(v@).take(i as int) =~= texts(v@));
    }
    out
}

impl HitFilter {
    /// The languages of the filter.
    pub closed spec fn langs(&self) -> Seq<Seq<char>> {
        texts(self.langs@)
    }

    /// The globs of the filter.
    pub closed spec fn globs(&self) -> Seq<Seq<char>> {
        self.globs.globs()
    }

    /// The directory that the globs are seen from, where there are any.
    pub closed spec fn root(&self) -> Seq<char> {
        self.globs.root()
    }

    /// Every language of a filter is known.
    #[verifier::type_invariant]
    closed spec fn valid(&self) -> bool {
        all_known(texts(self.langs@))
    }

    /// Whether a hit path passes the filter.
    pub open spec fn wants(&self, path: Seq<char>) -> bool {
        filter_passes(self.root(), self.langs(), self.globs(), path)
    }

    /// A filter for hits below a root.
    pub fn build(root: &str, lang: &Option<Vec<String>>, globs: &Option<Vec<String>>) -> (r: Result<
        HitFilter,
        Failure,
    >)
        ensures
            match r {
                Ok(f) => filter_fault(listed(*lang), listed(*globs)) is None && f.langs() == listed(
                    *lang,
                ) && f.globs() == listed(*globs) && (listed(*globs).len() > 0 ==> f.root() == root@),
                Err(f) => filter_fault(listed(*lang), listed(*globs)) matches Some(m) && f@
                    == FailureView::InvalidParams(m),
            },
    {
        let langs = list_or_empty(lang);
        if let Err(e) = validate_langs(&langs) {
            return Err(rg_error(e));
        }
        let list = list_or_empty(globs);
        proof {
            assert(texts(list@).len() == list@.len());
        }
        match GlobFilter::build(root, &list) {
            Err(e) => Err(Failure::InvalidParams(e.message())),
            Ok(g) => Ok(HitFilter { langs, globs: g }),
        }
    }

    /// Whether a hit path passes the filter.
    pub fn keep(&self, path: &str) -> (r: bool)
        ensures
            r == self.wants(path@),
    {
        proof {
            use_type_invariant(self);
        }
        if !self.globs.keep(path) {
            return false;
        }
        match matches_lang(path, &self.langs) {
            Ok(b) => b,
            Err(_) => false,
        }
    }

    /// The fused hits that pass the filter, in order.
    pub fn keep_fused(&self, hits: Vec<FusedHit>) -> (r: Vec<FusedHit>)
        ensures
            views(r@) == views(hits@).filter(|h: FusedView| self.wants(h.path)),
            forall|i: int|
                0 <= i < r@.len() ==> self.wants((#[trigger] views(r@)[i]).path) && views(
                    hits@,
                ).contains(views(r@)[i]),
            forall|i: int|
                0 <= i < hits@.len() && self.wants((#[trigger] views(hits@)[i]).path) ==> views(
                    r@,
                ).contains(views(hits@)[i]),
    {
        let ghost all = views(hits@);
        let ghost ok = |h: FusedView| self.wants(h.path);
        let mut out: Vec<FusedHit> = Vec::new();
        proof {
            reveal(Seq::filter);
            assert(views(out@) =~= all.take(0).filter(ok));
        }
        for h in it: hits
            invariant
                it.seq() == hits@,
                all == views(hits@),
                ok == (|h: FusedView| self.wants(h.path)),
                views(out@) == all.take(it.index()).filter(ok),
        {
            let ghost before = out@;
            let ghost k = it.index();
            let ghost hv = h@;
            proof {
                lemma_filter_step(all, k, ok);
                assert(all[k] == hv);
            }
            if self.keep(h.path.as_str()) {
                out.push(h);
                proof {
                    assert(views(out@) =~= views(before).push(hv));
                }
            }
        }
        proof {
            assert(all.take(all.len() as int) =~= all);
            crate::order::lemma_filter_keeps(all, ok);
            assert(views(out@).len() == out@.len());
        }
        out
    }

    /// The hits of the index that pass the filter, in order.
    pub fn keep_ranked(&self, hits: Vec<RankedHit>) -> (r: Vec<RankedHit>)
        ensures
            views(r@) == views(hits@).filter(|h: RankedView| self.wants(h.path)),
            forall|i: int|
                0 <= i < r@.len() ==> self.wants((#[trigger] views(r@)[i]).path) && views(
                    hits@,
                ).contains(views(r@)[i]),
            forall|i: int|
                0 <= i < hits@.len() && self.wants((#[trigger] views(hits@)[i]).path) ==> views(
                    r@,
                ).contains(views(hits@)[i]),
    {
        let ghost all = views(hits@);
        let ghost ok = |h: RankedView| self.wants(h.path);
        let mut out: Vec<RankedHit> = Vec::new();
        proof {
            reveal(Seq::filter);
            assert(views(out@) =~= all.take(0).filter(ok));
        }
        for h in it: hits
            invariant
                it.seq() == hits@,
                all == views(hits@),
                ok == (|h: RankedView| self.wants(h.path)),
                views(out@) == all.take(it.index()).filter(ok),
        {
            let ghost before = out@;
            let ghost k = it.index();
            let ghost hv = h@;
            proof {
                lemma_filter_step(all, k, ok);
                assert(all[k] == hv);
            }
            if self.keep(h.path.as_str()) {
                out.push(h);
                proof {
                    assert(views(out@) =~= views(before).push(hv));
                }
            }
        }
        proof {
            assert(all.take(all.len() as int) =~= all);
            crate::order::lemma_filter_keeps(all, ok);
            assert(views(out@).len() == out@.len());
        }
        out
    }

    /// The live hits that pass the filter, in order.
    pub fn keep_live(&self, hits: Vec<Hit>) -> (r: Vec<Hit>)
        ensures
            views(r@) == views(hits@).filter(|h: HitView| self.wants(h.path)),
            forall|i: int|
                0 <= i < r@.len() ==> self.wants((#[trigger] views(r@)[i]).path) && views(
                    hits@,
                ).contains(views(r@)[i]),
            forall|i: int|
                0 <= i < hits@.len() && self.wants((#[trigger] views(hits@)[i]).path) ==> views(
                    r@,
                ).contains(views(hits@)[i]),
    {
        let ghost all = views(hits@);
        let ghost ok = |h: HitView| self.wants(h.path);
        let mut out: Vec<Hit> = Vec::new();
        proof {
            reveal(Seq::filter);
            assert(views(out@) =~= all.take(0).filter(ok));
        }
        for h in it: hits
            invariant
                it.seq() == hits@,
                all == views(hits@),
                ok == (|h: HitView| self.wants(h.path)),
                views(out@) == all.take(it.index()).filter(ok),
        {
            let ghost before = out@;
            let ghost k = it.index();
            let ghost hv = h@;
            proof {
                lemma_filter_step(all, k, ok);
                assert(all[k] == hv);
            }
            if self.keep(h.path.as_str()) {
                out.push(h);
                proof {
                    assert(views(out@) =~= views(before).push(hv));
                }
            }
        }
        proof {
            assert(all.take(all.len() as int) =~= all);
            crate::order::lemma_filter_keeps(all, ok);
            assert(views(out@).len() == out@.len());
        }
        out
    }
}

/// How many hits are returned: what was asked for, or `default`, between 1
/// and `most`.
pub open spec fn limit_of(asked: Option<usize>, default: usize, most: usize) -> usize {
    let n = match asked {
        Some(n) => n,
        None => default,
    };
    if n < 1 {
        1
    } else if n > most {
        most
    } else {
        n
    }
}

/// How many hits are returned.
pub fn clamp_limit(asked: Option<usize>, default: usize, most: usize) -> (r: usize)
    ensures
        r == limit_of(asked, default, most),
{
    let n: usize = match asked {
        Some(n) => n,
        None => default,
    };
    if n < 1 {
        1
    } else if n > most {
        most
    } else {
        n
    }
}

/// What a search is asked for.
#[derive(Debug)]
pub struct SearchParams {
    /// Absolute workspace root.
    pub root: String,
    /// Natural-language query; also used for lexical ranking.
    pub query: String,
    /// Exact anchors folded into lexical ranking.
    pub fts: Option<Vec<String>>,
    /// Fuse vector similarity with lexical ranking (default true).
    pub fuse: Option<bool>,
    /// Ranking backend for ranked search. Ignored by unranked search.
    pub rank: Option<RankKind>,
    /// Restrict hits to languages.
    pub lang: Option<Vec<String>>,
    /// Restrict hits to ignore-style globs (whitelist, `!` negates).
    pub globs: Option<Vec<String>>,
    /// Output format: `text` (default) or `json`.
    pub format: Option<Format>,
    /// Structural pattern fused as a third list (needs `ast_lang` and the
    /// `ast-grep` binary). Applies to hybrid retrieval.
    pub ast_pattern: Option<String>,
    /// Language for `ast_pattern` (same vocabulary as `lang`).
    pub ast_lang: Option<String>,
    /// Max hits (default 10, max 50).
    pub limit: Option<usize>,
}

/// What a text search is asked for.
#[derive(Debug)]
pub struct RgParams {
    /// Absolute workspace root.
    pub root: String,
    /// Pattern text (literal unless `regex`).
    pub pattern: String,
    /// Treat pattern as regex.
    pub regex: Option<bool>,
    /// Interpret the pattern structurally via ast-grep (needs exactly one
    /// `lang`; requires the `ast-grep` binary).
    pub structural: Option<bool>,
    /// Case-insensitive matching.
    pub case_insensitive: Option<bool>,
    /// Restrict to languages. Unknown values are rejected.
    pub lang: Option<Vec<String>>,
    /// Restrict to ignore-style globs (whitelist, `!` negates).
    pub globs: Option<Vec<String>>,
    /// Output format: `text` (default) or `json`.
    pub format: Option<Format>,
    /// Max hits (default 100, max 500).
    pub limit: Option<usize>,
}

/// Whether a text search is the literal one that a search turns into.
pub open spec fn literal_search(q: RgParams, p: SearchParams, pattern: Seq<char>) -> bool {
    &&& q.root@ == p.root@
    &&& q.pattern@ == pattern
    &&& q.regex == Some(false)
    &&& q.structural is None
    &&& q.case_insensitive == Some(false)
    &&& listed(q.lang) == listed(p.lang)
    &&& listed(q.globs) == listed(p.globs)
    &&& q.format == p.format
    &&& q.limit == Some(limit_of(p.limit, 10, 50))
}

fn literal_params(p: &SearchParams, pattern: String) -> (r: RgParams)
    ensures
        literal_search(r, *p, pattern@),
{
    RgParams {
        root: p.root.clone(),
        pattern,
        regex: Some(false),
        structural: None,
        case_insensitive: Some(false),
        lang: Some(list_or_empty(&p.lang)),
        globs: Some(list_or_empty(&p.globs)),
        format: p.format,
        limit: Some(clamp_limit(p.limit, 10, 50)),
    }
}

/// The query with its anchors behind it.
pub open spec fn anchored_query(query: Seq<char>, fts: Option<Vec<String>>) -> Seq<char> {
    match fts {
        Some(v) => query + " "@ + joined(texts(v@), " "@),
        None => query,
    }
}

fn query_with_anchors(query: &str, fts: &Option<Vec<String>>) -> (r: String)
    ensures
        r@ == anchored_query(query@, *fts),
{
    let mut out = query.to_owned();
    if let Some(v) = fts {
        out.append(" ");
        out.append(join(v, " ").as_str());
    }
    out
}

/// The structural list that a search asks for: a pattern and a language, or
/// neither; and only where there is a binary behind it.
pub open spec fn structural_of(pattern: Option<String>, lang: Option<String>, available: bool) -> Result<
    Option<(Seq<char>, Seq<char>)>,
    Seq<char>,
> {
    match (pattern, lang) {
        (None, None) => Ok(None),
        (Some(p), Some(l)) => if available {
            Ok(Some((p@, l@)))
        } else {
            Err("ast-grep not found on PATH (or ONE_GREP_AST_GREP)"@)
        },
        _ => Err("ast_pattern and ast_lang must be set together"@),
    }
}

/// What an optional pair of strings holds.
pub open spec fn opt_pair(s: Option<(String, String)>) -> Option<(Seq<char>, Seq<char>)> {
    match s {
        Some((a, b)) => Some((a@, b@)),
        None => None,
    }
}

fn structural_list(pattern: &Option<String>, lang: &Option<String>, available: bool) -> (r: Result<
    Option<(String, String)>,
    Failure,
>)
    ensures
        match r {
            Ok(s) => structural_of(*pattern, *lang, available) == Ok::<_, Seq<char>>(opt_pair(s)),
            Err(f) => structural_of(*pattern, *lang, available) matches Err(m) && f@
                == FailureView::InvalidParams(m),
        },
{
    match (pattern, lang) {
        (None, None) => Ok(None),
        (Some(p), Some(l)) => if available {
            Ok(Some((p.clone(), l.clone())))
        } else {
            Err(
                Failure::InvalidParams(
                    "ast-grep not found on PATH (or ONE_GREP_AST_GREP)".to_owned(),
                ),
            )
        },
        _ => Err(Failure::InvalidParams("ast_pattern and ast_lang must be set together".to_owned())),
    }
}

/// How a search goes about.
#[derive(Debug)]
pub enum SearchPlan {
    /// The query is literal text: search for it exactly.
    Literal(RgParams),
    /// The query is one token: exact beats fuzzy, so it goes to the index,
    /// or to live grep where there is none.
    Identifier { term: String, limit: usize },
    /// The query is an intent: retrieve a shortlist, with structural hits
    /// as a third list where they were asked for.
    Intent { query: String, limit: usize, from: Retrieval, structural: Option<(String, String)> },
}

/// Where an intent's shortlist comes from.
pub open spec fn intent_source(indexed: bool, fuse: Option<bool>) -> Retrieval {
    if !indexed {
        Retrieval::Live
    } else if fuse == Some(false) {
        Retrieval::Lexical
    } else {
        Retrieval::Hybrid
    }
}

fn route_query(query: &str, fts: &Option<Vec<String>>) -> (r: Route)
    ensures
        r@ == route_of(query@, listed(*fts).len() > 0),
{
    let list = list_or_empty(fts);
    proof {
        assert(texts(list@).len() == list@.len());
    }
    route(query, &list)
}

/// What a text search is asked for, as mathematical values.
pub struct RgView {
    pub root: Seq<char>,
    pub pattern: Seq<char>,
    pub regex: bool,
    pub structural: bool,
    pub case_insensitive: bool,
    pub langs: Seq<Seq<char>>,
    pub globs: Seq<Seq<char>>,
    pub format: Option<Format>,
    pub limit: Option<usize>,
}

impl View for RgParams {
    type V = RgView;

    open spec fn view(&self) -> RgView {
        RgView {
            root: self.root@,
            pattern: self.pattern@,
            regex: self.regex == Some(true),
            structural: self.structural == Some(true),
            case_insensitive: self.case_insensitive == Some(true),
            langs: listed(self.lang),
            globs: listed(self.globs),
            format: self.format,
            limit: self.limit,
        }
    }
}

/// The literal search that a search turns into.
pub open spec fn literal_of(p: SearchParams, pattern: Seq<char>) -> RgView {
    RgView {
        root: p.root@,
        pattern,
        regex: false,
        structural: false,
        case_insensitive: false,
        langs: listed(p.lang),
        globs: listed(p.globs),
        format: p.format,
        limit: Some(limit_of(p.limit, 10, 50)),
    }
}

/// What a [`SearchPlan`] says, as mathematical values.
pub enum SearchPlanView {
    Literal(RgView),
    Identifier { term: Seq<char>, limit: usize },
    Intent {
        query: Seq<char>,
        limit: usize,
        from: Retrieval,
        structural: Option<(Seq<char>, Seq<char>)>,
    },
}

impl View for SearchPlan {
    type V = SearchPlanView;

    open spec fn view(&self) -> SearchPlanView {
        match self {
            SearchPlan::Literal(q) => SearchPlanView::Literal(q@),
            SearchPlan::Identifier { term, limit } => SearchPlanView::Identifier {
                term: term@,
                limit: *limit,
            },
            SearchPlan::Intent { query, limit, from, structural } => SearchPlanView::Intent {
                query: query@,
                limit: *limit,
                from: *from,
                structural: opt_pair(*structural),
            },
        }
    }
}

/// What a plan, or the reason for having none, says.
pub open spec fn search_view(r: Result<SearchPlan, Failure>) -> Result<SearchPlanView, FailureView> {
    match r {
        Ok(s) => Ok(s@),
        Err(f) => Err(f@),
    }
}

/// How a search goes about.
pub open spec fn search_plan(p: SearchParams, indexed: bool, available: bool) -> Result<
    SearchPlanView,
    FailureView,
> {
    match route_of(p.query@, listed(p.fts).len() > 0) {
        RouteView::Literal(s) => Ok(SearchPlanView::Literal(literal_of(p, s))),
        RouteView::Identifier(s) => Ok(
            SearchPlanView::Identifier { term: s, limit: limit_of(p.limit, 10, 50) },
        ),
        RouteView::Intent(_) => match structural_of(p.ast_pattern, p.ast_lang, available) {
            Err(m) => Err(FailureView::InvalidParams(m)),
            Ok(a) => Ok(
                SearchPlanView::Intent {
                    query: anchored_query(p.query@, p.fts),
                    limit: limit_of(p.limit, 10, 50),
                    from: intent_source(indexed, p.fuse),
                    structural: a,
                },
            ),
        },
    }
}

/// How a search goes about. `indexed` says whether the workspace has an index
/// and `available` whether there is an `ast-grep` binary.
pub fn plan_search(p: &SearchParams, indexed: bool, available: bool) -> (r: Result<
    SearchPlan,
    Failure,
>)
    ensures
        match route_of(p.query@, listed(p.fts).len() > 0) {
            RouteView::Literal(s) => r matches Ok(SearchPlan::Literal(q)) && literal_search(
                q,
                *p,
                s,
            ),
            RouteView::Identifier(s) => r matches Ok(SearchPlan::Identifier { term, limit }) && term@
                == s && limit == limit_of(p.limit, 10, 50),
            RouteView::Intent(_) => match structural_of(p.ast_pattern, p.ast_lang, available) {
                Err(m) => r matches Err(f) && f@ == FailureView::InvalidParams(m),
                Ok(a) => r matches Ok(SearchPlan::Intent { query, limit, from, structural })
                    && query@ == anchored_query(p.query@, p.fts) && limit == limit_of(
                    p.limit,
                    10,
                    50,
                ) && from == intent_source(indexed, p.fuse) && opt_pair(structural) == a,
            },
        },
        search_view(r) == search_plan(*p, indexed, available),
{
    let limit = clamp_limit(p.limit, 10, 50);
    match route_query(p.query.as_str(), &p.fts) {
        Route::Literal(s) => Ok(SearchPlan::Literal(literal_params(p, s))),
        Route::Identifier(term) => Ok(SearchPlan::Identifier { term, limit }),
        Route::Intent(_) => match structural_list(&p.ast_pattern, &p.ast_lang, available) {
            Err(f) => Err(f),
            Ok(structural) => {
                let fuse = match p.fuse {
                    Some(b) => b,
                    None => true,
                };
                let from = crate::fuse::collect_plan(indexed, fuse);
                Ok(
                    SearchPlan::Intent {
                        query: query_with_anchors(p.query.as_str(), &p.fts),
                        limit,
                        from,
                        structural,
                    },
                )
            },
        },
    }
}

/// How a ranked search goes about.
#[derive(Debug)]
pub enum RankedPlan {
    /// The query is literal text: search for it exactly.
    Literal(RgParams),
    /// Retrieve a shortlist and let `rank` order it. `vectors` says whether
    /// retrieval means to use vectors.
    Ranked {
        query: String,
        limit: usize,
        from: Retrieval,
        vectors: bool,
        rank: RankKind,
        structural: Option<(String, String)>,
    },
}

/// Where the shortlist of a ranked search comes from: single identifiers go
/// lexical even when ranked.
pub open spec fn ranked_source(indexed: bool, identifier: bool, fuse: Option<bool>) -> Retrieval {
    if !indexed {
        Retrieval::Live
    } else if identifier || fuse == Some(false) {
        Retrieval::Lexical
    } else {
        Retrieval::Hybrid
    }
}

/// What a [`RankedPlan`] says, as mathematical values.
pub enum RankedPlanView {
    Literal(RgView),
    Ranked {
        query: Seq<char>,
        limit: usize,
        from: Retrieval,
        vectors: bool,
        rank: RankKind,
        structural: Option<(Seq<char>, Seq<char>)>,
    },
}

impl View for RankedPlan {
    type V = RankedPlanView;

    open spec fn view(&self) -> RankedPlanView {
        match self {
            RankedPlan::Literal(q) => RankedPlanView::Literal(q@),
            RankedPlan::Ranked { query, limit, from, vectors, rank, structural } => RankedPlanView::Ranked {
                query: query@,
                limit: *limit,
                from: *from,
                vectors: *vectors,
                rank: *rank,
                structural: opt_pair(*structural),
            },
        }
    }
}

/// What a plan, or the reason for having none, says.
pub open spec fn ranked_view(r: Result<RankedPlan, Failure>) -> Result<RankedPlanView, FailureView> {
    match r {
        Ok(s) => Ok(s@),
        Err(f) => Err(f@),
    }
}

/// How a ranked search goes about.
pub open spec fn ranked_plan(p: SearchParams, indexed: bool, available: bool) -> Result<
    RankedPlanView,
    FailureView,
> {
    let way = route_of(p.query@, listed(p.fts).len() > 0);
    let from = ranked_source(indexed, way is Identifier, p.fuse);
    match way {
        RouteView::Literal(s) => Ok(RankedPlanView::Literal(literal_of(p, s))),
        _ => match structural_of(p.ast_pattern, p.ast_lang, available) {
            Err(m) => Err(FailureView::InvalidParams(m)),
            Ok(a) => Ok(
                RankedPlanView::Ranked {
                    query: anchored_query(p.query@, p.fts),
                    limit: limit_of(p.limit, 10, 50),
                    from,
                    vectors: from == Retrieval::Hybrid,
                    rank: match p.rank {
                        Some(k) => k,
                        None => RankKind::Jev,
                    },
                    structural: a,
                },
            ),
        },
    }
}

/// How a ranked search goes about.
pub fn plan_ranked(p: &SearchParams, indexed: bool, available: bool) -> (r: Result<
    RankedPlan,
    Failure,
>)
    ensures
        ({
            let way = route_of(p.query@, listed(p.fts).len() > 0);
            let token = way matches RouteView::Identifier(_);
            match way {
                RouteView::Literal(s) => r matches Ok(RankedPlan::Literal(q)) && literal_search(
                    q,
                    *p,
                    s,
                ),
                _ => match structural_of(p.ast_pattern, p.ast_lang, available) {
                    Err(m) => r matches Err(f) && f@ == FailureView::InvalidParams(m),
                    Ok(a) => r matches Ok(
                        RankedPlan::Ranked { query, limit, from, vectors, rank, structural },
                    ) && query@ == anchored_query(p.query@, p.fts) && limit == limit_of(
                        p.limit,
                        10,
                        50,
                    ) && from == ranked_source(indexed, token, p.fuse) && vectors == (from
                        == Retrieval::Hybrid) && rank == (match p.rank {
                        Some(k) => k,
                        None => RankKind::Jev,
                    }) && opt_pair(structural) == a,
                },
            }
        }),
        ranked_view(r) == ranked_plan(*p, indexed, available),
{
    let limit = clamp_limit(p.limit, 10, 50);
    let token = match route_query(p.query.as_str(), &p.fts) {
        Route::Literal(s) => {
            return Ok(RankedPlan::Literal(literal_params(p, s)));
        },
        Route::Identifier(_) => true,
        Route::Intent(_) => false,
    };
    match structural_list(&p.ast_pattern, &p.ast_lang, available) {
        Err(f) => Err(f),
        Ok(structural) => {
            let fuse = match p.fuse {
                Some(b) => b,
                None => true,
            };
            let from = crate::fuse::collect_plan(indexed, fuse && !token);
            let rank = match p.rank {
                Some(k) => k,
                None => RankKind::Jev,
            };
            Ok(
                RankedPlan::Ranked {
                    query: query_with_anchors(p.query.as_str(), &p.fts),
                    limit,
                    from,
                    vectors: indexed && fuse && !token,
                    rank,
                    structural,
                },
            )
        },
    }
}

/// Where a shortlist comes from once it is known whether the embedding model
/// could be loaded: without it, fused retrieval is lexical.
pub fn with_model(from: Retrieval, loaded: bool) -> (r: Retrieval)
    ensures
        r == (if from == Retrieval::Hybrid && !loaded {
            Retrieval::Lexical
        } else {
            from
        }),
        !loaded ==> r != Retrieval::Hybrid,
        loaded || from != Retrieval::Hybrid ==> r == from,
        from == Retrieval::Live <==> r == Retrieval::Live,
{
    match from {
        Retrieval::Hybrid => if loaded {
            Retrieval::Hybrid
        } else {
            Retrieval::Lexical
        },
        other => other,
    }
}

/// Whether a search consumed vectors: only then is their staleness worth a
/// note.
pub fn vectors_consumed(from: Retrieval, loaded: bool) -> (r: bool)
    ensures
        r == (from == Retrieval::Hybrid && loaded),
{
    match from {
        Retrieval::Hybrid => loaded,
        _ => false,
    }
}

/// The hits of a shortlist that the caller sees: at most the limit where
/// structural hits were fused in, only those that pass the filter, and in a
/// ranked search at most the limit in any case, before anything is ranked.
pub open spec fn shortlisted(
    hits: Seq<FusedView>,
    wanted: spec_fn(FusedView) -> bool,
    structural: bool,
    ranked: bool,
    limit: int,
) -> Seq<FusedView> {
    let base = if structural {
        at_most(hits, limit)
    } else {
        hits
    };
    let kept = base.filter(wanted);
    if ranked {
        at_most(kept, limit)
    } else {
        kept
    }
}

/// The hits of a shortlist that the caller sees.
pub fn shortlist(filter: &HitFilter, hits: Vec<FusedHit>, structural: bool, ranked: bool, limit: usize) -> (r:
    Vec<FusedHit>)
    ensures
        views(r@) == shortlisted(
            views(hits@),
            |h: FusedView| filter.wants(h.path),
            structural,
            ranked,
            limit as int,
        ),
{
    let base = if structural {
        truncate_hits(hits, limit)
    } else {
        hits
    };
    let kept = filter.keep_fused(base);
    if ranked {
        truncate_hits(kept, limit)
    } else {
        kept
    }
}

/// A caller sees no more hits than retrieval gave, only hits that were
/// asked for, and in a ranked search or with structural hits no more than
/// the limit.
pub proof fn shortlists_keep_to_what_was_asked(
    hits: Seq<FusedView>,
    wanted: spec_fn(FusedView) -> bool,
    structural: bool,
    ranked: bool,
    limit: int,
)
    requires
        0 <= limit,
    ensures
        shortlisted(hits, wanted, structural, ranked, limit).len() <= hits.len(),
        structural || ranked ==> shortlisted(hits, wanted, structural, ranked, limit).len() <= limit,
        forall|i: int|
            0 <= i < shortlisted(hits, wanted, structural, ranked, limit).len() ==> wanted(
                #[trigger] shortlisted(hits, wanted, structural, ranked, limit)[i],
            ) && hits.contains(shortlisted(hits, wanted, structural, ranked, limit)[i]),
{
    let base = if structural {
        at_most(hits, limit)
    } else {
        hits
    };
    let kept = base.filter(wanted);
    let out = shortlisted(hits, wanted, structural, ranked, limit);
    base.lemma_filter_len(wanted);
    assert forall|i: int| 0 <= i < out.len() implies wanted(#[trigger] out[i]) && hits.contains(
        out[i],
    ) by {
        assert(out[i] == kept[i]);
        base.lemma_filter_pred(wanted, i);
        base.lemma_filter_contains_rev(wanted, kept[i]);
        let k = choose|k: int| 0 <= k < base.len() && base[k] == kept[i];
        assert(hits[k] == base[k]);
    }
}

/// What is noted about a retrieval: who ranked it, what is stale, and that
/// there is no index.
pub open spec fn notes_of(
    rank: Option<Seq<char>>,
    root: Seq<char>,
    indexed: bool,
    stale: Option<Seq<char>>,
    vectors_stale: Option<Seq<char>>,
) -> Seq<Seq<char>> {
    let a = match rank {
        Some(m) => seq![m],
        None => Seq::empty(),
    };
    let b = match stale {
        Some(m) => if indexed {
            seq![m]
        } else {
            Seq::empty()
        },
        None => Seq::empty(),
    };
    let c = match vectors_stale {
        Some(m) => seq![m],
        None => Seq::empty(),
    };
    let d = if indexed {
        Seq::empty()
    } else {
        seq![
            "mode: rg-fallback (no index at "@ + index_dir_of(root)
                + "). Indexing is available for better ranking: one-grep index "@ + root
                + " && one-grep embed "@ + root,
        ]
    };
    a + b + c + d
}

/// What is noted about a retrieval. `stale` is what the index says when it is
/// stale, and `vectors_stale` what the vectors say when they were used and
/// are stale.
pub fn gather_notes(rank: Option<&str>, root: &str, indexed: bool, stale: Option<&str>, vectors_stale: Option<&str>) -> (r:
    Vec<String>)
    ensures
        texts(r@) == notes_of(
            opt_str(rank),
            root@,
            indexed,
            opt_str(stale),
            opt_str(vectors_stale),
        ),
{
    let mut out: Vec<String> = Vec::new();
    let ghost mut v: Seq<Seq<char>> = Seq::empty();
    proof {
        assert(texts(out@) =~= v);
    }
    if let Some(m) = rank {
        out.push(m.to_owned());
        proof {
            v = seq![m@];
            assert(texts(out@) =~= v);
        }
    }
    if indexed {
        if let Some(m) = stale {
            let ghost before = out@;
            out.push(m.to_owned());
            proof {
                v = v + seq![m@];
                assert(texts(out@) =~= texts(before).push(m@));
                assert(texts(out@) =~= v);
            }
        }
    }
    if let Some(m) = vectors_stale {
        let ghost before = out@;
        out.push(m.to_owned());
        proof {
            v = v + seq![m@];
            assert(texts(out@) =~= texts(before).push(m@));
            assert(texts(out@) =~= v);
        }
    }
    if !indexed {
        let ghost before = out@;
        let m = unindexed_note(root);
        out.push(m);
        proof {
            v = v + seq![m@];
            assert(texts(out@) =~= texts(before).push(m@));
            assert(texts(out@) =~= v);
        }
    }
    proof {
        assert(v =~= notes_of(
            opt_str(rank),
            root@,
            indexed,
            opt_str(stale),
            opt_str(vectors_stale),
        ));
    }
    out
}

/// What a ranker is called.
pub open spec fn ranker_word(rank: RankKind) -> Seq<char> {
    match rank {
        RankKind::Jev => "jev"@,
        RankKind::Jina => "jina"@,
        RankKind::Llama => "llama"@,
    }
}

/// The header for a shortlist that a ranker ordered, or failed to.
pub open spec fn ranked_by(rank: RankKind, failed: Option<Seq<char>>) -> Seq<char> {
    match failed {
        Some(e) => fell_back(e).note,
        None => "rank: "@ + ranker_word(rank),
    }
}

/// The header for a shortlist that a ranker ordered, or failed to.
pub fn rank_header(rank: RankKind, failed: Option<&str>) -> (r: String)
    ensures
        r@ == (match failed {
            Some(e) => fell_back(e@).note,
            None => "rank: "@ + ranker_word(rank),
        }),
        r@ == ranked_by(rank, opt_str(failed)),
{
    match failed {
        Some(e) => {
            let mut out = "rank: fallback (".to_owned();
            out.append(e);
            out.append(")");
            out
        },
        None => {
            let mut out = "rank: ".to_owned();
            match rank {
                RankKind::Jev => out.append("jev"),
                RankKind::Jina => out.append("jina"),
                RankKind::Llama => out.append("llama"),
            }
            out
        },
    }
}

/// How a text search goes about.
#[derive(Debug)]
pub enum RgPlan {
    /// Structurally, in one language.
    Pattern { lang: String, limit: usize },
    /// By text.
    Text(Options),
}

/// What is wrong with a text search.
pub open spec fn rg_fault(p: RgParams, present: bool, available: bool) -> Option<Seq<char>> {
    if !absolute(p.root@) {
        Some("root must be absolute: "@ + p.root@)
    } else if !present {
        Some("root does not exist: "@ + p.root@)
    } else if p.structural != Some(true) {
        None
    } else if p.regex == Some(true) {
        Some("`structural` and `regex` cannot be combined"@)
    } else if listed(p.lang).len() != 1 {
        Some("`structural` needs exactly one `lang`"@)
    } else if !available {
        Some("ast-grep not found on PATH (or ONE_GREP_AST_GREP)"@)
    } else {
        None
    }
}

/// What an [`RgPlan`] says, as mathematical values.
pub enum RgPlanView {
    Pattern { lang: Seq<char>, limit: usize },
    Text {
        regex: bool,
        case_insensitive: bool,
        globs: Seq<Seq<char>>,
        langs: Seq<Seq<char>>,
        limit: usize,
    },
}

impl View for RgPlan {
    type V = RgPlanView;

    open spec fn view(&self) -> RgPlanView {
        match self {
            RgPlan::Pattern { lang, limit } => RgPlanView::Pattern { lang: lang@, limit: *limit },
            RgPlan::Text(o) => RgPlanView::Text {
                regex: o.regex,
                case_insensitive: o.case_insensitive,
                globs: texts(o.globs@),
                langs: texts(o.langs@),
                limit: o.limit,
            },
        }
    }
}

/// How a text search goes about, or what is wrong with it.
pub open spec fn rg_plan(p: RgParams, present: bool, available: bool) -> Result<
    RgPlanView,
    Seq<char>,
> {
    let limit = limit_of(p.limit, 100, 500);
    match rg_fault(p, present, available) {
        Some(m) => Err(m),
        None => if p.structural == Some(true) {
            Ok(RgPlanView::Pattern { lang: listed(p.lang)[0], limit })
        } else {
            Ok(
                RgPlanView::Text {
                    regex: p.regex == Some(true),
                    case_insensitive: p.case_insensitive == Some(true),
                    globs: listed(p.globs),
                    langs: listed(p.lang),
                    limit,
                },
            )
        },
    }
}

fn is_true(b: Option<bool>) -> (r: bool)
    ensures
        r == (b == Some(true)),
{
    match b {
        Some(b) => b,
        None => false,
    }
}

/// How a text search goes about. A root may be a file or a directory (ripgrep
/// semantics): harnesses sometimes map a file `path` onto the workspace slot.
/// `present` says whether it exists.
pub fn plan_rg(p: &RgParams, present: bool, available: bool) -> (r: Result<RgPlan, Failure>)
    ensures
        match r {
            Err(f) => rg_fault(*p, present, available) matches Some(m) && f@
                == FailureView::InvalidParams(m),
            Ok(RgPlan::Pattern { lang, limit }) => rg_fault(*p, present, available) is None
                && p.structural == Some(true) && listed(p.lang) == seq![lang@] && limit == limit_of(
                p.limit,
                100,
                500,
            ),
            Ok(RgPlan::Text(o)) => rg_fault(*p, present, available) is None && p.structural != Some(
                true,
            ) && o.regex == (p.regex == Some(true)) && o.case_insensitive == (p.case_insensitive
                == Some(true)) && texts(o.globs@) == listed(p.globs) && texts(o.langs@) == listed(
                p.lang,
            ) && o.limit == limit_of(p.limit, 100, 500),
        },
        match r {
            Ok(plan) => rg_plan(*p, present, available) == Ok::<_, Seq<char>>(plan@),
            Err(f) => rg_plan(*p, present, available) matches Err(m) && f@
                == FailureView::InvalidParams(m),
        },
{
    if !starts_at_root(p.root.as_str()) {
        return Err(refusal("root must be absolute: ", p.root.as_str()));
    }
    if !present {
        return Err(refusal("root does not exist: ", p.root.as_str()));
    }
    let limit = clamp_limit(p.limit, 100, 500);
    let langs = list_or_empty(&p.lang);
    proof {
        assert(texts(langs@).len() == langs@.len());
    }
    if is_true(p.structural) {
        if is_true(p.regex) {
            return Err(
                Failure::InvalidParams("`structural` and `regex` cannot be combined".to_owned()),
            );
        }
        if langs.len() != 1 {
            return Err(Failure::InvalidParams("`structural` needs exactly one `lang`".to_owned()));
        }
        if !available {
            return Err(
                Failure::InvalidParams(
                    "ast-grep not found on PATH (or ONE_GREP_AST_GREP)".to_owned(),
                ),
            );
        }
        let lang = langs[0].clone();
        proof {
            assert(texts(langs@)[0] == lang@);
            assert(listed(p.lang) =~= seq![lang@]);
        }
        return Ok(RgPlan::Pattern { lang, limit });
    }
    Ok(
        RgPlan::Text(
            Options {
                regex: is_true(p.regex),
                case_insensitive: is_true(p.case_insensitive),
                globs: list_or_empty(&p.globs),
                langs,
                limit,
            },
        ),
    )
}

/// The file a call is about: below the root, where the root will do.
pub open spec fn file_fault(root: Seq<char>, is_dir: bool, path: Seq<char>) -> Option<Seq<char>> {
    match root_fault(root, is_dir) {
        Some(m) => Some(m),
        None => if resolved(root, path) is None {
            Some("path escapes workspace root: "@ + path)
        } else {
            None
        },
    }
}

/// The file that a call is about, where it may be asked about.
pub open spec fn file_asked(root: Seq<char>, is_dir: bool, path: Seq<char>) -> Option<Seq<char>> {
    if file_fault(root, is_dir, path) is None {
        resolved(root, path)
    } else {
        None
    }
}

fn locate_file(root: &str, is_dir: bool, path: &str) -> (r: Result<String, Failure>)
    ensures
        match r {
            Ok(f) => file_fault(root@, is_dir, path@) is None && resolved(root@, path@) == Some(f@),
            Err(f) => file_fault(root@, is_dir, path@) matches Some(m) && f@
                == FailureView::InvalidParams(m),
        },
{
    if let Err(f) = check_root(root, is_dir) {
        return Err(f);
    }
    match resolve_in_root(root, path) {
        Some(f) => Ok(f),
        None => Err(refusal("path escapes workspace root: ", path)),
    }
}

/// What a definition call asks for: the file, which must not escape the root,
/// and the server to ask. Positions are 1-based.
pub fn plan_definition(root: &str, is_dir: bool, path: &str, line: u32, character: u32, server: Option<&str>) -> (r:
    Result<(String, String), Failure>)
    ensures
        match r {
            Ok((file, command)) => file_fault(root@, is_dir, path@) is None && line >= 1
                && character >= 1 && resolved(root@, path@) == Some(file@) && command@ == (
            match server {
                Some(s) => s@,
                None => crate::lsp::DEFAULT_COMMAND@,
            }),
            Err(f) => match file_fault(root@, is_dir, path@) {
                Some(m) => f@ == FailureView::InvalidParams(m),
                None => (line < 1 || character < 1) && f@ == FailureView::InvalidParams(
                    "line and character are 1-based"@,
                ),
            },
        },
        match r {
            Ok((file, _)) => file_asked(root@, is_dir, path@) == Some(file@),
            Err(_) => file_asked(root@, is_dir, path@) is None || line < 1 || character < 1,
        },
{
    match locate_file(root, is_dir, path) {
        Err(f) => Err(f),
        Ok(file) => {
            if line < 1 || character < 1 {
                return Err(Failure::InvalidParams("line and character are 1-based".to_owned()));
            }
            let command = match server {
                Some(s) => s.to_owned(),
                None => crate::lsp::DEFAULT_COMMAND.to_owned(),
            };
            Ok((file, command))
        },
    }
}

/// What a context call asks for: the file, which must not escape the root.
/// Lines are 1-based.
pub fn plan_context(root: &str, is_dir: bool, path: &str, line: u64) -> (r: Result<String, Failure>)
    ensures
        match r {
            Ok(file) => file_fault(root@, is_dir, path@) is None && line >= 1 && resolved(
                root@,
                path@,
            ) == Some(file@),
            Err(f) => match file_fault(root@, is_dir, path@) {
                Some(m) => f@ == FailureView::InvalidParams(m),
                None => line < 1 && f@ == FailureView::InvalidParams("line is 1-based"@),
            },
        },
        match r {
            Ok(file) => file_asked(root@, is_dir, path@) == Some(file@),
            Err(_) => file_asked(root@, is_dir, path@) is None || line < 1,
        },
{
    match locate_file(root, is_dir, path) {
        Err(f) => Err(f),
        Ok(file) => {
            if line < 1 {
                return Err(Failure::InvalidParams("line is 1-based".to_owned()));
            }
            Ok(file)
        },
    }
}

/// One row of the serving log, as far as it is text: free text is redacted.
#[derive(Debug)]
pub struct LogRow {
    pub tool: String,
    pub root: String,
    pub query: String,
    pub hits: usize,
    pub chars: usize,
    pub notes: Vec<String>,
}

/// Notes as they are logged.
pub open spec fn logged_notes(notes: Seq<Seq<char>>) -> Seq<Seq<char>> {
    Seq::new(notes.len(), |i: int| redacted(notes[i]))
}

/// What a [`LogRow`] says, as mathematical values.
pub struct LogRowView {
    pub tool: Seq<char>,
    pub root: Seq<char>,
    pub query: Seq<char>,
    pub hits: usize,
    pub chars: usize,
    pub notes: Seq<Seq<char>>,
}

impl View for LogRow {
    type V = LogRowView;

    open spec fn view(&self) -> LogRowView {
        LogRowView {
            tool: self.tool@,
            root: self.root@,
            query: self.query@,
            hits: self.hits,
            chars: self.chars,
            notes: texts(self.notes@),
        }
    }
}

/// The row that is logged about a call.
pub open spec fn logged(
    tool: Seq<char>,
    root: Seq<char>,
    query: Seq<char>,
    hits: usize,
    chars: usize,
    notes: Seq<Seq<char>>,
) -> LogRowView {
    LogRowView {
        tool,
        root,
        query: redacted(at_most(query, LOGGED_CHARS as int)),
        hits,
        chars,
        notes: logged_notes(notes),
    }
}

/// One row of the serving log: the start of the query and the notes,
/// redacted; paths as they are, so that the log stays joinable.
pub fn log_row(tool: &str, root: &str, query: &str, hits: usize, chars: usize, notes: &[String]) -> (r:
    LogRow)
    ensures
        r.tool@ == tool@,
        r.root@ == root@,
        r.query@ == redacted(at_most(query@, LOGGED_CHARS as int)),
        r.hits == hits,
        r.chars == chars,
        texts(r.notes@) == logged_notes(texts(notes@)),
        r@ == logged(tool@, root@, query@, hits, chars, texts(notes@)),
{
    let cs = chars_of(query);
    let n: usize = if cs.len() <= LOGGED_CHARS {
        cs.len()
    } else {
        LOGGED_CHARS
    };
    let head = string_of(vstd::slice::slice_subrange(&cs, 0, n));
    proof {
        assert(head@ =~= at_most(query@, LOGGED_CHARS as int));
    }
    let ghost all = logged_notes(texts(notes@));
    let mut out: Vec<String> = Vec::new();
    let mut i: usize = 0;
    while i < notes.len()
        invariant
            i <= notes@.len(),
            all == logged_notes(texts(notes@)),
            texts(out@) == all.take(i as int),
        decreases notes@.len() - i,
    {
        let ghost before = out@;
        let m = redact(notes[i].as_str());
        out.push(m);
        proof {
            assert(texts(notes@)[i as int] == notes@[i as int]@);
            assert(all[i as int] == m@);
            assert(texts(out@) =~= texts(before).push(m@));
            assert(texts(out@) =~= all.take(i + 1));
        }
        i += 1;
    }
    proof {
        assert(all.take(i as int) =~= all);
    }
    LogRow {
        tool: tool.to_owned(),
        root: root.to_owned(),
        query: redact(head.as_str()),
        hits,
        chars,
        notes: out,
    }
}

/// The note that is logged about a failure.
pub open spec fn logged_failure(f: FailureView) -> Seq<char> {
    "error["@ + class_of(f) + "]: "@ + redacted(failure_text(f))
}

/// The note that is logged about a failure: its class and what it says,
/// redacted.
pub fn error_note(f: &Failure) -> (r: String)
    ensures
        r@ == "error["@ + class_of(f@) + "]: "@ + redacted(failure_text(f@)),
        r@ == logged_failure(f@),
{
    let mut out = "error[".to_owned();
    out.append(err_class(f));
    out.append("]: ");
    out.append(redact(f.message().as_str()).as_str());
    out
}

/// What an optional string holds.
pub open spec fn opt_string(s: Option<String>) -> Option<Seq<char>> {
    match s {
        Some(s) => Some(s@),
        None => None,
    }
}

/// Where the serving log is kept.
pub open spec fn log_place(env: Option<Seq<char>>, home: Option<Seq<char>>) -> Option<Seq<char>> {
    match (env, home) {
        (Some(e), _) => Some(e),
        (None, Some(h)) => Some(join_of(join_of(h, ".one-grep"@), "serving.log"@)),
        (None, None) => None,
    }
}

/// Where the serving log is kept: where the environment says, or below the
/// home directory, or nowhere.
pub fn log_path(env: Option<&str>, home: Option<&str>) -> (r: Option<String>)
    ensures
        match r {
            Some(p) => match env {
                Some(e) => p@ == e@,
                None => home is Some && p@ == join_of(
                    join_of(home->0@, ".one-grep"@),
                    "serving.log"@,
                ),
            },
            None => env is None && home is None,
        },
        opt_string(r) == log_place(opt_str(env), opt_str(home)),
{
    match env {
        Some(e) => Some(e.to_owned()),
        None => match home {
            Some(h) => Some(join_path(join_path(h, ".one-grep").as_str(), "serving.log")),
            None => None,
        },
    }
}

/// Whether a request with this authorization may pass.
pub open spec fn may_pass(header: Option<Seq<char>>, token: Seq<char>) -> bool {
    header == Some("Bearer "@ + token)
}

/// Whether a request may pass: its authorization is the bearer token.
pub fn authorized(header: Option<&str>, token: &str) -> (r: bool)
    ensures
        r == (header is Some && header->0@ == "Bearer "@ + token@),
        r == may_pass(opt_str(header), token@),
{
    match header {
        None => false,
        Some(h) => {
            let mut want = "Bearer ".to_owned();
            want.append(token);
            same(h, want.as_str())
        },
    }
}

/// How many skills are asked for (default 2, max 5).
pub fn skill_limit(asked: Option<usize>) -> (r: usize)
    ensures
        r == limit_of(asked, 2, 5),
{
    clamp_limit(asked, 2, 5)
}

/// The notes about a skill lookup: who ranked, and what the library says.
pub fn skill_notes(rank_note: &str, notes: &[String]) -> (r: Vec<String>)
    ensures
        texts(r@) == seq![rank_note@] + texts(notes@),
        r@.len() == notes@.len() + 1,
        texts(r@)[0] == rank_note@,
        forall|i: int| 0 <= i < notes@.len() ==> #[trigger] texts(r@)[i + 1] == notes@[i]@,
{
    let mut out: Vec<String> = Vec::new();
    out.push(rank_note.to_owned());
    let ghost nv = texts(notes@);
    let mut i: usize = 0;
    proof {
        assert(texts(out@) =~= seq![rank_note@] + nv.take(0));
    }
    while i < notes.len()
        invariant
            i <= notes@.len(),
            nv == texts(notes@),
            texts(out@) == seq![rank_note@] + nv.take(i as int),
        decreases notes@.len() - i,
    {
        let ghost before = out@;
        out.push(notes[i].clone());
        proof {
            assert(texts(out@) =~= texts(before).push(notes@[i as int]@));
            assert(texts(out@) =~= seq![rank_note@] + nv.take(i + 1));
        }
        i += 1;
    }
    proof {
        assert(nv.take(i as int) =~= nv);
        assert(texts(out@).len() == out@.len() && nv.len() == notes@.len());
        assert forall|j: int| 0 <= j < notes@.len() implies #[trigger] texts(out@)[j + 1]
            == notes@[j]@ by {
            assert(nv[j] == notes@[j]@);
        }
    }
    out
}

/// A ranked search and a plain one send the same queries to literal search,
/// and otherwise differ in where a single token is looked up only by who
/// orders the hits: neither pays for vectors on it.
pub proof fn tokens_never_use_vectors(indexed: bool, fuse: Option<bool>)
    ensures
        ranked_source(indexed, true, fuse) != Retrieval::Hybrid,
        ranked_source(indexed, false, fuse) == intent_source(indexed, fuse),
{
}

/// Every limit lies between 1 and its maximum.
pub proof fn limits_are_bounded(asked: Option<usize>, default: usize, most: usize)
    requires
        1 <= most,
    ensures
        1 <= limit_of(asked, default, most) <= most,
{
}

/// A limit that lies within its bounds is the one that was asked for, or the
/// default where none was; any other is the bound that it passes.
pub proof fn limits_are_as_asked(asked: Option<usize>, default: usize, most: usize)
    requires
        1 <= default <= most,
    ensures
        asked is None ==> limit_of(asked, default, most) == default,
        asked matches Some(n) ==> (1 <= n <= most ==> limit_of(asked, default, most) == n) && (n
            > most ==> limit_of(asked, default, most) == most) && (n == 0 ==> limit_of(
            asked,
            default,
            most,
        ) == 1),
{
}

/// A path passes a filter if and only if the globs let it pass and its
/// extension is one of a language that was asked for, where any was.
pub proof fn filters_ask_for_globs_and_languages(
    root: Seq<char>,
    langs: Seq<Seq<char>>,
    globs: Seq<Seq<char>>,
    path: Seq<char>,
)
    ensures
        filter_passes(root, langs, globs, path) <==> survives(root, globs, path) && (langs.len() == 0
            || exists|i: int|
            0 <= i < langs.len() && (extensions_of(#[trigger] langs[i]) matches Some(es)
                && es.contains(lowered(ext_of(path))))),
        langs.len() == 0 && globs.len() == 0 ==> filter_passes(root, langs, globs, path),
{
}

/// A filter with an unknown language or a malformed glob is refused, and any
/// other is made; the first unknown language is named.
pub proof fn filters_are_refused_for_what_is_wrong(langs: Seq<Seq<char>>, globs: Seq<Seq<char>>)
    ensures
        filter_fault(langs, globs) is None <==> all_known(langs) && globs_fault(globs) is None,
        all_known(langs) ==> filter_fault(langs, globs) == globs_fault(globs),
{
}

/// Where nothing cuts a shortlist off, no hit that was asked for is lost; where
/// structural hits were fused in, none among the first `limit`.
pub proof fn shortlists_lose_no_wanted_hit(
    hits: Seq<FusedView>,
    wanted: spec_fn(FusedView) -> bool,
    structural: bool,
    limit: int,
    k: int,
)
    requires
        0 <= k < hits.len(),
        0 <= limit,
        wanted(hits[k]),
        structural ==> k < limit,
    ensures
        shortlisted(hits, wanted, structural, false, limit).contains(hits[k]),
        shortlisted(hits, wanted, structural, false, limit).len() <= limit ==> shortlisted(
            hits,
            wanted,
            structural,
            true,
            limit,
        ).contains(hits[k]),
{
    let base = if structural {
        at_most(hits, limit)
    } else {
        hits
    };
    assert(base[k] == hits[k]);
    crate::order::lemma_filter_keeps(base, wanted);
    assert(wanted(base[k]));
}

/// A ranked shortlist is the start of the unranked one: ranking cuts off behind
/// the limit and nowhere else.
pub proof fn ranking_cuts_off_at_the_limit(
    hits: Seq<FusedView>,
    wanted: spec_fn(FusedView) -> bool,
    structural: bool,
    limit: int,
)
    requires
        0 <= limit,
    ensures
        shortlisted(hits, wanted, structural, true, limit).is_prefix_of(
            shortlisted(hits, wanted, structural, false, limit),
        ),
        shortlisted(hits, wanted, structural, true, limit).len() == limit || shortlisted(
            hits,
            wanted,
            structural,
            true,
            limit,
        ) == shortlisted(hits, wanted, structural, false, limit),
{
    let a = shortlisted(hits, wanted, structural, true, limit);
    let b = shortlisted(hits, wanted, structural, false, limit);
    assert(a =~= b.subrange(0, a.len() as int));
}

/// Anchors stand whole behind the query, in order.
pub proof fn anchors_follow_the_query(query: Seq<char>, v: Vec<String>, i: int)
    requires
        0 <= i < v@.len(),
    ensures
        anchored_query(query, None) == query,
        query.is_prefix_of(anchored_query(query, Some(v))),
        exists|a: Seq<char>, b: Seq<char>|
            anchored_query(query, Some(v)) == #[trigger] (query + seq![' '] + a + v@[i]@ + b) && (
            a.len() == 0 || a.last() == ' ') && (b.len() == 0 || b[0] == ' '),
{
    reveal_strlit(" ");
    let ts = texts(v@);
    assert(ts[i] == v@[i]@);
    joining_keeps_each_part(ts, " "@, i);
    let a = if i == 0 {
        Seq::empty()
    } else {
        joined(ts.take(i), " "@) + " "@
    };
    let b = if i == ts.len() - 1 {
        Seq::empty()
    } else {
        " "@ + joined(ts.skip(i + 1), " "@)
    };
    let q = anchored_query(query, Some(v));
    assert(q =~= query + seq![' '] + a + v@[i]@ + b);
    assert(q.subrange(0, query.len() as int) =~= query);
}

/// A structural list is asked for by a pattern and a language together; one
/// without the other is refused, and so are both where nothing can match them.
pub proof fn structural_lists_need_pattern_and_language(
    pattern: Option<String>,
    lang: Option<String>,
    available: bool,
)
    ensures
        structural_of(pattern, lang, available) is Err <==> (pattern is Some) != (lang is Some) || (
        pattern is Some && !available),
        structural_of(pattern, lang, available) matches Ok(Some((p, l))) ==> pattern is Some && lang
            is Some && p == pattern->0@ && l == lang->0@,
        structural_of(pattern, lang, available) matches Ok(None) ==> pattern is None && lang is None,
{
}

/// A search that turns into a literal one keeps what was asked for: the root,
/// the languages, the globs, the format and the number of hits. It looks for
/// the text as it is written.
pub proof fn literal_searches_keep_what_was_asked(
    p: SearchParams,
    indexed: bool,
    available: bool,
    n: usize,
)
    requires
        route_of(p.query@, listed(p.fts).len() > 0) is Literal,
    ensures
        ({
            let text = route_of(p.query@, listed(p.fts).len() > 0)->Literal_0;
            &&& search_plan(p, indexed, available) matches Ok(SearchPlanView::Literal(q))
            &&& ranked_plan(p, indexed, available) matches Ok(RankedPlanView::Literal(q))
            &&& ({
                let q = search_plan(p, indexed, available)->Ok_0->Literal_0;
                &&& q.root == p.root@ && q.pattern == text
                &&& !q.regex && !q.structural && !q.case_insensitive
                &&& q.langs == listed(p.lang) && q.globs == listed(p.globs)
                &&& q.format == p.format
                &&& p.limit == Some(n) && 1 <= n <= 50 ==> q.limit == Some(n)
                &&& p.limit is None ==> q.limit == Some(10usize)
                &&& ranked_plan(p, indexed, available)->Ok_0->Literal_0 == q
            })
        }),
{
}

/// An intent is searched for as it was asked: its query starts with the words
/// of the caller, vectors are used where there is an index unless the caller
/// forbids them, and the limit and the structural pattern are the caller's.
pub proof fn intents_keep_what_was_asked(
    p: SearchParams,
    indexed: bool,
    available: bool,
    n: usize,
)
    requires
        route_of(p.query@, listed(p.fts).len() > 0) is Intent,
        search_plan(p, indexed, available) is Ok,
    ensures
        search_plan(p, indexed, available)->Ok_0 is Intent,
        ranked_plan(p, indexed, available) matches Ok(RankedPlanView::Ranked { .. }),
        ({
            let s = search_plan(p, indexed, available)->Ok_0;
            let r = ranked_plan(p, indexed, available)->Ok_0;
            &&& p.query@.is_prefix_of(s->Intent_query)
            &&& p.fts is None ==> s->Intent_query == p.query@
            &&& s->Intent_from == Retrieval::Live <==> !indexed
            &&& s->Intent_from == Retrieval::Lexical <==> indexed && p.fuse == Some(false)
            &&& s->Intent_structural is Some <==> p.ast_pattern is Some
            &&& s->Intent_structural matches Some((a, l)) ==> a == p.ast_pattern->0@ && l
                == p.ast_lang->0@
            &&& p.limit == Some(n) && 1 <= n <= 50 ==> s->Intent_limit == n
            &&& p.limit is None ==> s->Intent_limit == 10
            &&& r->query == s->Intent_query && r->Ranked_limit == s->Intent_limit
            &&& r->Ranked_from == s->Intent_from && r->Ranked_structural == s->Intent_structural
            &&& r->vectors <==> indexed && p.fuse != Some(false)
            &&& p.rank is Some ==> p.rank == Some(r->rank)
            &&& p.rank is None ==> r->rank == RankKind::Jev
        }),
{
    let q = anchored_query(p.query@, p.fts);
    assert(q.subrange(0, p.query@.len() as int) =~= p.query@);
}

/// A token is looked up as it is, for as many hits as were asked for.
pub proof fn tokens_keep_what_was_asked(p: SearchParams, indexed: bool, available: bool, n: usize)
    requires
        route_of(p.query@, listed(p.fts).len() > 0) is Identifier,
    ensures
        search_plan(p, indexed, available) is Ok,
        search_plan(p, indexed, available)->Ok_0 is Identifier,
        search_plan(p, indexed, available)->Ok_0->term == route_of(
            p.query@,
            listed(p.fts).len() > 0,
        )->Identifier_0,
        p.limit == Some(n) && 1 <= n <= 50 ==> search_plan(p, indexed, available)->Ok_0->Identifier_limit
            == n,
        p.limit is None ==> search_plan(p, indexed, available)->Ok_0->Identifier_limit == 10,
{
}

/// A text search goes about as it was asked: by regular expression where that
/// was said, whatever the case of the letters where that was said, in the
/// languages and globs that were named, up to the limit that was named.
pub proof fn text_searches_keep_what_was_asked(
    p: RgParams,
    present: bool,
    available: bool,
    n: usize,
)
    requires
        rg_plan(p, present, available) is Ok,
    ensures
        ({
            let plan = rg_plan(p, present, available)->Ok_0;
            &&& plan is Pattern <==> p.structural == Some(true)
            &&& plan matches RgPlanView::Text { regex, case_insensitive, globs, langs, limit } ==> {
                &&& regex <==> p.regex == Some(true)
                &&& case_insensitive <==> p.case_insensitive == Some(true)
                &&& p.globs matches Some(v) ==> globs == texts(v@)
                &&& p.globs is None ==> globs.len() == 0
                &&& p.lang matches Some(v) ==> langs == texts(v@)
                &&& p.lang is None ==> langs.len() == 0
                &&& p.limit == Some(n) && 1 <= n <= 500 ==> limit == n
                &&& p.limit is None ==> limit == 100
            }
            &&& plan matches RgPlanView::Pattern { lang, limit } ==> {
                &&& p.lang matches Some(v) && texts(v@) == seq![lang]
                &&& p.limit == Some(n) && 1 <= n <= 500 ==> limit == n
                &&& p.limit is None ==> limit == 100
                &&& available && p.regex != Some(true)
            }
        }),
{
    assert(listed(p.lang).len() == 1 ==> listed(p.lang) =~= seq![listed(p.lang)[0]]);
}

/// A text search is refused for a root that is not absolute or not there, and
/// a structural one for a regular expression, any number of languages but one,
/// or the lack of a program; any other is made.
pub proof fn text_searches_are_refused_for_what_is_wrong(p: RgParams, present: bool, available: bool)
    ensures
        rg_plan(p, present, available) is Ok <==> {
            &&& p.root@.len() > 0 && p.root@[0] == '/' && present
            &&& p.structural == Some(true) ==> p.regex != Some(true) && listed(p.lang).len() == 1
                && available
        },
{
}

/// Whatever file a call is about lies below its root, and has no `..` in its
/// path.
pub proof fn files_lie_below_the_root(root: Seq<char>, is_dir: bool, path: Seq<char>)
    ensures
        file_asked(root, is_dir, path) matches Some(f) ==> is_dir && absolute(root) && lies_in(
            f,
            root,
        ) && !components(f).contains(up_comp()),
        !is_dir ==> file_asked(root, is_dir, path) is None,
        is_dir && absolute(root) ==> file_asked(root, is_dir, path) == resolved(root, path),
{
    crate::paths::resolved_paths_stay_inside(root, path);
}

/// Every note that there is reason for is given, and no other: who ranked the
/// hits comes first, and that there is no index comes last and names the root.
pub proof fn notes_say_all_there_is_to_say(
    rank: Option<Seq<char>>,
    root: Seq<char>,
    indexed: bool,
    stale: Option<Seq<char>>,
    vectors_stale: Option<Seq<char>>,
)
    ensures
        ({
            let ns = notes_of(rank, root, indexed, stale, vectors_stale);
            &&& rank matches Some(m) ==> ns.len() > 0 && ns[0] == m
            &&& stale matches Some(m) ==> (indexed ==> ns.contains(m))
            &&& vectors_stale matches Some(m) ==> ns.contains(m)
            &&& !indexed ==> ns.len() > 0 && "mode: rg-fallback"@.is_prefix_of(ns.last())
                && root.is_suffix_of(ns.last())
            &&& ns.len() == (if rank is Some {
                1int
            } else {
                0
            }) + (if indexed && stale is None {
                0int
            } else {
                1
            }) + (if vectors_stale is Some {
                1int
            } else {
                0
            })
        }),
{
    let ns = notes_of(rank, root, indexed, stale, vectors_stale);
    reveal_strlit("mode: rg-fallback");
    reveal_strlit("mode: rg-fallback (no index at ");
    let r: int = if rank is Some {
        1
    } else {
        0
    };
    let s: int = if indexed && stale is Some {
        1
    } else {
        0
    };
    if let Some(m) = stale {
        if indexed {
            assert(ns[r] == m);
        }
    }
    if let Some(m) = vectors_stale {
        assert(ns[r + s] == m);
    }
    if !indexed {
        let l = "mode: rg-fallback (no index at "@ + index_dir_of(root)
            + "). Indexing is available for better ranking: one-grep index "@ + root
            + " && one-grep embed "@ + root;
        assert(ns.last() == l);
        assert(l.subrange(0, 17) =~= "mode: rg-fallback"@);
        assert(l.subrange(l.len() - root.len(), l.len() as int) =~= root);
    }
}

/// A row of the log names the call and its root as they are and counts what it
/// was told to; its free text is shown redacted only: the query, whole where it
/// is short enough, and each note.
pub proof fn logs_show_free_text_redacted(
    tool: Seq<char>,
    root: Seq<char>,
    query: Seq<char>,
    hits: usize,
    chars: usize,
    notes: Seq<Seq<char>>,
)
    ensures
        ({
            let row = logged(tool, root, query, hits, chars, notes);
            &&& row.tool == tool && row.root == root && row.hits == hits && row.chars == chars
            &&& query.len() <= 500 ==> row.query == redacted(query)
            &&& query.len() > 500 ==> row.query == redacted(query.take(500))
            &&& row.notes.len() == notes.len()
            &&& forall|i: int|
                0 <= i < notes.len() ==> #[trigger] row.notes[i] == redacted(notes[i])
        }),
        forall|m: Seq<char>| #[trigger]
            redacted(m).is_suffix_of(logged_failure(FailureView::InvalidParams(m))) && redacted(
                m,
            ).is_suffix_of(logged_failure(FailureView::Internal(m))) && redacted(m).is_suffix_of(
                logged_failure(FailureView::Other(m)),
            ),
{
    assert forall|m: Seq<char>| #[trigger]
        redacted(m).is_suffix_of(logged_failure(FailureView::InvalidParams(m))) && redacted(
            m,
        ).is_suffix_of(logged_failure(FailureView::Internal(m))) && redacted(m).is_suffix_of(
            logged_failure(FailureView::Other(m)),
        ) by {
        let t = redacted(m);
        let a = logged_failure(FailureView::InvalidParams(m));
        let b = logged_failure(FailureView::Internal(m));
        let c = logged_failure(FailureView::Other(m));
        assert(t =~= a.subrange(a.len() - t.len(), a.len() as int));
        assert(t =~= b.subrange(b.len() - t.len(), b.len() as int));
        assert(t =~= c.subrange(c.len() - t.len(), c.len() as int));
    }
}

/// A request passes if and only if its authorization is the word `Bearer`, a
/// space and the token, to the last character.
pub proof fn only_the_token_passes(header: Seq<char>, token: Seq<char>)
    ensures
        !may_pass(None, token),
        may_pass(Some(header), token) <==> header.len() == token.len() + 7 && header.take(7)
            == "Bearer "@ && header.skip(7) == token,
{
    reveal_strlit("Bearer ");
    let want = "Bearer "@ + token;
    assert(want.take(7) =~= "Bearer "@);
    assert(want.skip(7) =~= token);
    if header.len() == token.len() + 7 && header.take(7) == "Bearer "@ && header.skip(7) == token {
        assert(header =~= header.take(7) + header.skip(7));
    }
}

/// Where the environment names a log, that is the log; else it stands below the
/// home directory, and without one there is none.
pub proof fn logs_stand_where_they_are_put(env: Seq<char>, home: Seq<char>)
    requires
        home.len() > 0,
        home.last() != '/',
    ensures
        log_place(Some(env), Some(home)) == Some(env),
        log_place(Some(env), None) == Some(env),
        log_place(None, Some(home)) == Some(home + "/.one-grep/serving.log"@),
        log_place(None, None) is None,
{
    reveal_strlit(".one-grep");
    reveal_strlit("serving.log");
    reveal_strlit("/.one-grep/serving.log");
    let d = home.push('/') + ".one-grep"@;
    assert(join_of(home, ".one-grep"@) == d);
    assert(d.last() == 'p');
    assert(d.push('/') + "serving.log"@ =~= home + "/.one-grep/serving.log"@);
}

/// A header says who ranked the hits, and where a ranker failed, why.
pub proof fn headers_say_who_ranked(rank: RankKind, reason: Seq<char>)
    ensures
        "rank: "@.is_prefix_of(ranked_by(rank, None)),
        crate::embed::ranker_of(ranked_by(rank, None).skip(6)) == Some(rank),
        exists|a: Seq<char>, b: Seq<char>|
            ranked_by(rank, Some(reason)) == #[trigger] (a + reason + b),
{
    reveal_strlit("rank: ");
    reveal_strlit("jev");
    reveal_strlit("jina");
    reveal_strlit("llama");
    let r = ranked_by(rank, None);
    assert(r.subrange(0, 6) =~= "rank: "@);
    assert(r.skip(6) =~= ranker_word(rank));
    assert("jina"@.len() == 4 && "jev"@.len() == 3 && "llama"@.len() == 5);
    assert(ranked_by(rank, Some(reason)) == "rank: fallback ("@ + reason + ")"@);
}

/// Mistakes of the caller are told apart from failures of the engine, and each
/// failure says what the error says.
pub proof fn mistakes_of_the_caller_are_told_apart(m: Seq<char>)
    ensures
        failure_of(ErrorView::InvalidInput(m)) == FailureView::InvalidParams(m),
        failure_of(ErrorView::Walk(m)) == FailureView::InvalidParams(m),
        failure_of(ErrorView::BadPattern(m)) is InvalidParams,
        m.is_suffix_of(failure_text(failure_of(ErrorView::BadPattern(m)))),
        failure_of(ErrorView::Io(m)) == FailureView::Internal(m),
        failure_of(ErrorView::Embed(m)) == FailureView::Internal(m),
        failure_of(ErrorView::Lsp(m)) == FailureView::Internal(m),
        failure_of(ErrorView::LspServer(m)) == FailureView::Internal(m),
        failure_of(ErrorView::Jev(m)) is Internal,
        m.is_suffix_of(failure_text(failure_of(ErrorView::Jev(m)))),
{
    let a = "bad pattern: "@ + m;
    let b = "jev: "@ + m;
    assert(m =~= a.subrange(a.len() - m.len(), a.len() as int));
    assert(m =~= b.subrange(b.len() - m.len(), b.len() as int));
}

/// A root is refused if it is not absolute or no directory, and for nothing
/// else; what is said names it.
pub proof fn roots_are_refused_by_name(root: Seq<char>, is_dir: bool)
    ensures
        root_fault(root, is_dir) is None <==> root.len() > 0 && root[0] == '/' && is_dir,
        root_fault(root, is_dir) matches Some(m) ==> root.is_suffix_of(m),
{
    let a = "root must be absolute: "@ + root;
    let b = "root is not a directory: "@ + root;
    assert(root =~= a.subrange(a.len() - root.len(), a.len() as int));
    assert(root =~= b.subrange(b.len() - root.len(), b.len() as int));
}

/// A file is refused for its root, or else for leading out of it; what is said
/// then names the file.
pub proof fn files_are_refused_by_name(root: Seq<char>, is_dir: bool, path: Seq<char>)
    ensures
        root_fault(root, is_dir) is Some ==> file_fault(root, is_dir, path) == root_fault(
            root,
            is_dir,
        ),
        root_fault(root, is_dir) is None ==> (file_fault(root, is_dir, path) is Some <==> resolved(
            root,
            path,
        ) is None),
        root_fault(root, is_dir) is None ==> (file_fault(root, is_dir, path) matches Some(m)
            ==> path.is_suffix_of(m)),
{
    let a = "path escapes workspace root: "@ + path;
    assert(path =~= a.subrange(a.len() - path.len(), a.len() as int));
}

/// No two classes of failures are called the same.
pub proof fn classes_are_told_apart(a: FailureView, b: FailureView)
    ensures
        class_of(a) == class_of(b) <==> (a is InvalidParams <==> b is InvalidParams) && (a
            is Internal <==> b is Internal),
{
    reveal_strlit("invalid_params");
    reveal_strlit("internal");
    reveal_strlit("other");
    assert("invalid_params"@.len() == 14 && "internal"@.len() == 8 && "other"@.len() == 5);
}

} // verus!
