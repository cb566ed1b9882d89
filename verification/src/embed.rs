//! Embedding models and rerankers: which there are, what they are called,
//! and how their answers are read.

use vstd::prelude::*;
use crate::bytes::{byte_len, byte_prefix, fit, lemma_fits_whole, lemma_fitting};
use crate::error::{Error, ErrorView};
use crate::jev::Scored;
use crate::order::{score_key, sort, sorted, views, Ranked};
use crate::paths::{join_of, join_path};
use crate::text::{chars_of, opt_str, same, starts_with, string_of, trim, trimmed};

verus! {

/// Env override for the reranker server URL.
pub const ENV_RERANK_URL: &'static str = "ONE_GREP_RERANK_URL";

/// The server's default address.
pub const DEFAULT_RERANK_URL: &'static str = "http://127.0.0.1:8080";

/// How much of a refusal is repeated, in bytes.
pub const REFUSAL_CAP: usize = 180;

/// Selectable ONNX embedding model. Ordered by quality/cost trade-off.
#[derive(Debug, Clone, PartialEq, Eq)]
pub enum OnnxModel {
    /// `all-MiniLM-L6-v2`, 22M params, 384 dims. Fastest, weakest.
    MiniLM,
    /// `snowflake-arctic-embed-m`, 109M params, 768 dims. Better
    /// separation, ~5x compute. Apache-2.0.
    ArcticM,
    /// `embeddinggemma-300m`, 300M params, 768 dims. Best retrieval
    /// under 500M params, slowest CPU per-query. Gemma license.
    Gemma300M,
    /// Bring-your-own directory: `model.onnx` (+`.onnx.data`), tokenizer
    /// files, mean pooling. From `embed --model <dir>`.
    Custom(String),
}

/// What an [`OnnxModel`] says, as mathematical values.
pub enum ModelView {
    MiniLM,
    ArcticM,
    Gemma300M,
    Custom(Seq<char>),
}

impl View for OnnxModel {
    type V = ModelView;

    open spec fn view(&self) -> ModelView {
        match self {
            OnnxModel::MiniLM => ModelView::MiniLM,
            OnnxModel::ArcticM => ModelView::ArcticM,
            OnnxModel::Gemma300M => ModelView::Gemma300M,
            OnnxModel::Custom(d) => ModelView::Custom(d@),
        }
    }
}

impl Default for OnnxModel {
    fn default() -> (r: OnnxModel)
        ensures
            r == OnnxModel::MiniLM,
    {
        OnnxModel::MiniLM
    }
}

/// The model that a label stands for. `has_model` says whether the directory
/// of that name holds a model.
pub open spec fn model_of(label: Seq<char>, has_model: bool) -> Result<ModelView, ErrorView> {
    if label == "minilm"@ {
        Ok(ModelView::MiniLM)
    } else if label == "arctic-m"@ {
        Ok(ModelView::ArcticM)
    } else if label == "gemma-300m"@ {
        Ok(ModelView::Gemma300M)
    } else if has_model {
        Ok(ModelView::Custom(label))
    } else {
        Err(
            ErrorView::InvalidInput(
                "unknown embedding model: "@ + label + " (minilm|arctic-m|gemma-300m|<dir>)"@,
            ),
        )
    }
}

/// What a model is called in the vector store.
pub open spec fn label_of(m: ModelView) -> Seq<char> {
    match m {
        ModelView::MiniLM => "fastembed/all-MiniLM-L6-v2"@,
        ModelView::ArcticM => "fastembed/snowflake-arctic-embed-m"@,
        ModelView::Gemma300M => "fastembed/embeddinggemma-300m"@,
        ModelView::Custom(d) => "user:"@ + d,
    }
}

/// The model that a name in the vector store stands for.
pub open spec fn stored_model(name: Seq<char>) -> Result<ModelView, ErrorView> {
    if name == "fastembed/all-MiniLM-L6-v2"@ {
        Ok(ModelView::MiniLM)
    } else if name == "fastembed/snowflake-arctic-embed-m"@ {
        Ok(ModelView::ArcticM)
    } else if name == "fastembed/embeddinggemma-300m"@ {
        Ok(ModelView::Gemma300M)
    } else if "user:"@.is_prefix_of(name) {
        Ok(ModelView::Custom(name.skip(5)))
    } else {
        Err(
            ErrorView::Embed(
                "vector store uses unknown model "@ + name + "; re-run `embed`"@,
            ),
        )
    }
}

/// What a model, or the reason for not having one, says.
pub open spec fn model_view(r: Result<OnnxModel, Error>) -> Result<ModelView, ErrorView> {
    match r {
        Ok(m) => Ok(m@),
        Err(e) => Err(e@),
    }
}

impl OnnxModel {
    /// Parse a CLI label or model directory. `has_model` says whether
    /// `label/model.onnx` is a file.
    pub fn parse(label: &str, has_model: bool) -> (r: Result<OnnxModel, Error>)
        ensures
            model_view(r) == model_of(label@, has_model),
    {
        if same(label, "minilm") {
            Ok(OnnxModel::MiniLM)
        } else if same(label, "arctic-m") {
            Ok(OnnxModel::ArcticM)
        } else if same(label, "gemma-300m") {
            Ok(OnnxModel::Gemma300M)
        } else if has_model {
            Ok(OnnxModel::Custom(label.to_owned()))
        } else {
            let mut m = "unknown embedding model: ".to_owned();
            m.append(label);
            m.append(" (minilm|arctic-m|gemma-300m|<dir>)");
            Err(Error::InvalidInput(m))
        }
    }

    /// Parse a stored provider name back, for `--hybrid` auto-detect.
    pub fn parse_stored(name: &str) -> (r: Result<OnnxModel, Error>)
        ensures
            model_view(r) == stored_model(name@),
    {
        if same(name, "fastembed/all-MiniLM-L6-v2") {
            Ok(OnnxModel::MiniLM)
        } else if same(name, "fastembed/snowflake-arctic-embed-m") {
            Ok(OnnxModel::ArcticM)
        } else if same(name, "fastembed/embeddinggemma-300m") {
            Ok(OnnxModel::Gemma300M)
        } else {
            let cs = chars_of(name);
            proof {
                reveal_strlit("user:");
            }
            if starts_with(&cs, "user:") {
                let rest = vstd::slice::slice_subrange(&cs, 5, cs.len());
                proof {
                    assert(rest@ =~= name@.skip(5));
                }
                Ok(OnnxModel::Custom(string_of(rest)))
            } else {
                let mut m = "vector store uses unknown model ".to_owned();
                m.append(name);
                m.append("; re-run `embed`");
                Err(Error::Embed(m))
            }
        }
    }

    /// What the model is called in the vector store.
    pub fn label(&self) -> (r: String)
        ensures
            r@ == label_of(self@),
    {
        match self {
            OnnxModel::MiniLM => "fastembed/all-MiniLM-L6-v2".to_owned(),
            OnnxModel::ArcticM => "fastembed/snowflake-arctic-embed-m".to_owned(),
            OnnxModel::Gemma300M => "fastembed/embeddinggemma-300m".to_owned(),
            OnnxModel::Custom(d) => {
                let mut s = "user:".to_owned();
                s.append(d.as_str());
                s
            },
        }
    }

    /// Query-side prefix (documents are embedded raw). Snowflake arctic
    /// models expect the BGE-style retrieval prefix; others use none.
    pub fn query_prefix(&self) -> (r: Option<&'static str>)
        ensures
            match r {
                Some(p) => self@ == ModelView::ArcticM && p@
                    == "Represent this sentence for searching relevant passages: "@,
                None => self@ != ModelView::ArcticM,
            },
    {
        match self {
            OnnxModel::ArcticM => Some(
                "Represent this sentence for searching relevant passages: ",
            ),
            _ => None,
        }
    }
}

/// What a model is called in the vector store stands for that model.
pub proof fn labels_round_trip(m: ModelView)
    ensures
        stored_model(label_of(m)) == Ok::<_, ErrorView>(m),
{
    reveal_strlit("user:");
    reveal_strlit("fastembed/all-MiniLM-L6-v2");
    reveal_strlit("fastembed/snowflake-arctic-embed-m");
    reveal_strlit("fastembed/embeddinggemma-300m");
    if let ModelView::Custom(d) = m {
        let l = "user:"@ + d;
        assert(l[0] == 'u');
        assert(l.subrange(0, 5) =~= "user:"@);
        assert(l.skip(5) =~= d);
    } else {
        assert("fastembed/all-MiniLM-L6-v2"@.len() != "fastembed/snowflake-arctic-embed-m"@.len());
        assert("fastembed/all-MiniLM-L6-v2"@.len() != "fastembed/embeddinggemma-300m"@.len());
        assert("fastembed/snowflake-arctic-embed-m"@.len()
            != "fastembed/embeddinggemma-300m"@.len());
    }
}

/// Where models are kept.
pub open spec fn cache_of(home: Option<Seq<char>>) -> Seq<char> {
    match home {
        Some(h) => join_of(join_of(h, ".one-grep"@), "models"@),
        None => ".one-grep-cache"@,
    }
}

/// Where models are kept: below the home directory, where there is one.
pub fn global_cache_dir(home: Option<&str>) -> (r: String)
    ensures
        r@ == cache_of(opt_str(home)),
{
    match home {
        Some(h) => join_path(join_path(h, ".one-grep").as_str(), "models"),
        None => ".one-grep-cache".to_owned(),
    }
}

/// Which ranker orders a shortlist.
#[derive(Debug, Clone, Copy, PartialEq, Eq, Structural)]
pub enum RankKind {
    /// The Jev scoring service.
    Jev,
    /// The in-process cross-encoder.
    Jina,
    /// A llama.cpp server.
    Llama,
}

/// The ranker that a label stands for.
pub open spec fn ranker_of(label: Seq<char>) -> Option<RankKind> {
    if label == "jev"@ {
        Some(RankKind::Jev)
    } else if label == "jina"@ {
        Some(RankKind::Jina)
    } else if label == "llama"@ {
        Some(RankKind::Llama)
    } else {
        None
    }
}

impl RankKind {
    /// The ranker that a lower-case label stands for.
    pub fn parse(label: &str) -> (r: Option<RankKind>)
        ensures
            r == ranker_of(label@),
    {
        if same(label, "jev") {
            Some(RankKind::Jev)
        } else if same(label, "jina") {
            Some(RankKind::Jina)
        } else if same(label, "llama") {
            Some(RankKind::Llama)
        } else {
            None
        }
    }
}

/// A result of a rerank server, as far as it says what it should.
#[derive(Debug)]
pub struct RerankItem {
    /// Which document.
    pub index: Option<u64>,
    /// The field `relevance_score`, where there is one: its number, as the bit
    /// pattern of a double, where it holds one.
    pub relevance_score: Option<Option<u64>>,
    /// The field `score`, likewise.
    pub score: Option<Option<u64>>,
}

/// The score of a result: that of the field `relevance_score`, and of the
/// field `score` where there is no such field.
pub open spec fn score_of(item: RerankItem) -> Option<u64> {
    match (item.relevance_score, item.score) {
        (Some(s), _) => s,
        (None, Some(s)) => s,
        (None, None) => None,
    }
}

/// The results among the first `n` that name one of `docs` documents and a score.
pub open spec fn usable_items(items: Seq<RerankItem>, docs: int, n: int) -> Seq<(usize, u64)>
    decreases n,
{
    if n <= 0 {
        Seq::empty()
    } else {
        let before = usable_items(items, docs, n - 1);
        match (items[n - 1].index, score_of(items[n - 1])) {
            (Some(i), Some(s)) => if i < docs {
                before.push((i as usize, s))
            } else {
                before
            },
            _ => before,
        }
    }
}

/// The results of a rerank server, best first: those that name a document
/// and a score.
pub fn order_results(items: &[RerankItem], docs: usize) -> (r: Vec<Scored>)
    ensures
        views(r@) == sorted::<Scored>(usable_items(items@, docs as int, items@.len() as int)),
{
    let mut v: Vec<Scored> = Vec::new();
    let mut i: usize = 0;
    proof {
        assert(views(v@) =~= usable_items(items@, docs as int, 0));
    }
    while i < items.len()
        invariant
            i <= items@.len(),
            views(v@) == usable_items(items@, docs as int, i as int),
        decreases items@.len() - i,
    {
        let ghost before = v@;
        let score = match (items[i].relevance_score, items[i].score) {
            (Some(s), _) => s,
            (None, Some(s)) => s,
            (None, None) => None,
        };
        if let (Some(k), Some(s)) = (items[i].index, score) {
            if k < docs as u64 {
                let x = Scored { index: k as usize, score: s };
                v.push(x);
                proof {
                    assert(views(v@) =~= views(before).push(x@));
                }
            }
        }
        i += 1;
    }
    sort(v)
}

/// What is said of a refusal by a rerank server.
pub open spec fn refusal_of(status: Seq<char>, text: Seq<char>) -> Seq<char> {
    "rerank HTTP "@ + status + ": "@ + byte_prefix(trimmed(text), REFUSAL_CAP as int)
}

/// What is said of a refusal by a rerank server: its status and the start of
/// its answer. A longer answer is cut between two characters, within
/// [`REFUSAL_CAP`] bytes.
pub fn rerank_refused(status: &str, text: &str) -> (r: Error)
    ensures
        r@ == ErrorView::Embed(
            "rerank HTTP "@ + status@ + ": "@ + byte_prefix(trimmed(text@), REFUSAL_CAP as int),
        ),
        r@ == ErrorView::Embed(refusal_of(status@, text@)),
{
    let cs = chars_of(text);
    let t = trim(&cs);
    let k = fit(t, REFUSAL_CAP);
    proof {
        assert(t@.subrange(0, k as int) =~= t@.take(k as int));
    }
    let mut m = "rerank HTTP ".to_owned();
    m.append(status);
    m.append(": ");
    m.append(string_of(vstd::slice::slice_subrange(t, 0, k)).as_str());
    Error::Embed(m)
}

/// The ranks of a rerank server name documents that were sent.
pub proof fn results_name_documents(items: Seq<RerankItem>, docs: int, i: int)
    requires
        0 <= docs <= usize::MAX,
        0 <= i < sorted::<Scored>(usable_items(items, docs, items.len() as int)).len(),
    ensures
        sorted::<Scored>(usable_items(items, docs, items.len() as int))[i].0 < docs,
{
    let a = usable_items(items, docs, items.len() as int);
    let s = sorted::<Scored>(a);
    crate::order::sort_orders::<Scored>(a);
    a.to_multiset_ensures();
    s.to_multiset_ensures();
    assert(s.contains(s[i]));
    assert(a.to_multiset().count(s[i]) > 0);
    assert(a.contains(s[i]));
    lemma_usable(items, docs, items.len() as int);
}

proof fn lemma_usable(items: Seq<RerankItem>, docs: int, n: int)
    requires
        0 <= docs <= usize::MAX,
        0 <= n <= items.len(),
    ensures
        forall|j: int|
            0 <= j < usable_items(items, docs, n).len() ==> (#[trigger] usable_items(
                items,
                docs,
                n,
            )[j]).0 < docs,
    decreases n,
{
    if n > 0 {
        lemma_usable(items, docs, n - 1);
        let before = usable_items(items, docs, n - 1);
        let now = usable_items(items, docs, n);
        assert forall|j: int| 0 <= j < now.len() implies (#[trigger] now[j]).0 < docs by {
            if j < before.len() {
                assert(now[j] == before[j]);
            }
        }
    }
}

/// What is said of a refusal names the status and ends with the answer: with
/// all of it where it is short enough, else with as much as keeps within the
/// cap.
pub proof fn refusals_show_status_and_answer(status: Seq<char>, text: Seq<char>)
    ensures
        ("rerank HTTP "@ + status + ": "@).is_prefix_of(refusal_of(status, text)),
        ({
            let shown = refusal_of(status, text).skip(
                ("rerank HTTP "@ + status + ": "@).len() as int,
            );
            &&& shown.is_prefix_of(trimmed(text))
            &&& byte_len(shown) <= REFUSAL_CAP
            &&& byte_len(trimmed(text)) <= REFUSAL_CAP ==> shown == trimmed(text)
            &&& forall|k: int|
                shown.len() < k <= trimmed(text).len() ==> byte_len(#[trigger] trimmed(text).take(k))
                    > REFUSAL_CAP
        }),
{
    let head = "rerank HTTP "@ + status + ": "@;
    let t = trimmed(text);
    let p = byte_prefix(t, REFUSAL_CAP as int);
    let r = refusal_of(status, text);
    assert(r.subrange(0, head.len() as int) =~= head);
    assert(r.skip(head.len() as int) =~= p);
    lemma_fitting(t, REFUSAL_CAP as int);
    if byte_len(t) <= REFUSAL_CAP {
        lemma_fits_whole(t, REFUSAL_CAP as int);
    }
    assert(p =~= t.subrange(0, p.len() as int));
}

/// A rerank server's results come best first, and of equal scores the document
/// that was sent first.
pub proof fn results_come_best_first(items: Seq<RerankItem>, docs: int, i: int, j: int)
    requires
        0 <= i < j < sorted::<Scored>(usable_items(items, docs, items.len() as int)).len(),
    ensures
        ({
            let s = sorted::<Scored>(usable_items(items, docs, items.len() as int));
            &&& score_key(s[i].1) >= score_key(s[j].1)
            &&& score_key(s[i].1) == score_key(s[j].1) ==> s[i].0 <= s[j].0
        }),
{
    let a = usable_items(items, docs, items.len() as int);
    let s = sorted::<Scored>(a);
    crate::order::sort_orders::<Scored>(a);
    assert(!<Scored as Ranked>::precedes(s[j], s[i]));
}

/// Whether a result of a rerank server says that a document has a score: the
/// field `relevance_score` says it, and `score` only where there is no such
/// field.
pub open spec fn says(item: RerankItem, doc: int, score: u64) -> bool {
    &&& item.index is Some && item.index->0 == doc
    &&& item.relevance_score == Some(Some(score)) || (item.relevance_score is None && item.score
        == Some(Some(score)))
}

/// The scores are those that the server gave: each that comes out stands in a
/// result, and each that a result gives a document that was sent comes out.
pub proof fn results_are_the_servers(items: Seq<RerankItem>, docs: int)
    requires
        0 <= docs <= usize::MAX,
    ensures
        ({
            let s = sorted::<Scored>(usable_items(items, docs, items.len() as int));
            &&& forall|k: int|
                0 <= k < s.len() ==> said_by(items, (#[trigger] s[k]).0 as int, s[k].1)
            &&& forall|n: int, doc: usize, score: u64|
                0 <= n < items.len() && doc < docs && #[trigger] says(items[n], doc as int, score)
                    ==> s.contains((doc, score))
        }),
{
    let a = usable_items(items, docs, items.len() as int);
    let s = sorted::<Scored>(a);
    crate::order::sort_orders::<Scored>(a);
    a.to_multiset_ensures();
    s.to_multiset_ensures();
    lemma_usable_said(items, docs, items.len() as int);
    assert forall|k: int| 0 <= k < s.len() implies said_by(items, (#[trigger] s[k]).0 as int, s[k].1) by {
        assert(s.contains(s[k]));
        assert(a.to_multiset().count(s[k]) > 0);
        let m = a.index_of(s[k]);
        assert(a[m] == s[k]);
    }
    assert forall|n: int, doc: usize, score: u64|
        0 <= n < items.len() && doc < docs && #[trigger] says(items[n], doc as int, score) implies s.contains(
        (doc, score),
    ) by {
        assert(a.contains((doc, score)));
        assert(s.to_multiset().count((doc, score)) > 0);
    }
}

/// Whether one of a server's results says that a document has a score.
pub open spec fn said_by(items: Seq<RerankItem>, doc: int, score: u64) -> bool {
    exists|n: int| 0 <= n < items.len() && #[trigger] says(items[n], doc, score)
}

proof fn lemma_usable_said(items: Seq<RerankItem>, docs: int, n: int)
    requires
        0 <= docs <= usize::MAX,
        0 <= n <= items.len(),
    ensures
        forall|k: int|
            0 <= k < usable_items(items, docs, n).len() ==> said_by(
                items,
                (#[trigger] usable_items(items, docs, n)[k]).0 as int,
                usable_items(items, docs, n)[k].1,
            ),
        forall|m: int, doc: usize, score: u64|
            0 <= m < n && doc < docs && #[trigger] says(items[m], doc as int, score)
                ==> usable_items(items, docs, n).contains((doc, score)),
    decreases n,
{
    if n > 0 {
        lemma_usable_said(items, docs, n - 1);
        let before = usable_items(items, docs, n - 1);
        let now = usable_items(items, docs, n);
        assert forall|k: int| 0 <= k < now.len() implies said_by(
            items,
            (#[trigger] now[k]).0 as int,
            now[k].1,
        ) by {
            if k < before.len() {
                assert(now[k] == before[k]);
            } else {
                assert(says(items[n - 1], now[k].0 as int, now[k].1));
            }
        }
        assert forall|m: int, doc: usize, score: u64|
            0 <= m < n && doc < docs && #[trigger] says(items[m], doc as int, score) implies now.contains(
            (doc, score),
        ) by {
            if m < n - 1 {
                let k = before.index_of((doc, score));
                assert(now[k] == before[k]);
            } else {
                assert(now[now.len() - 1] == (doc, score));
            }
        }
    }
}

/// Models are kept below the home directory.
pub proof fn caches_stand_below_home(home: Seq<char>)
    requires
        home.len() > 0,
        home.last() != '/',
    ensures
        cache_of(Some(home)) == home + "/.one-grep/models"@,
{
    reveal_strlit(".one-grep");
    reveal_strlit("models");
    reveal_strlit("/.one-grep/models");
    let d = home.push('/') + ".one-grep"@;
    assert(join_of(home, ".one-grep"@) == d);
    assert(d.last() == 'p');
    assert(d.push('/') + "models"@ =~= home + "/.one-grep/models"@);
}

/// A label names a model, or else a directory that holds one; any other is
/// refused by name. No two labels name the same model but as a directory does.
pub proof fn labels_name_models(label: Seq<char>, other: Seq<char>)
    ensures
        model_of(label, true) is Ok,
        model_of(label, true) matches Ok(ModelView::Custom(d)) ==> d == label && model_of(
            label,
            false,
        ) is Err,
        model_of(label, false) is Ok ==> model_of(label, true) == model_of(label, false),
        model_of(label, true) == model_of(other, true) ==> label == other,
        model_of(label, false) matches Err(ErrorView::InvalidInput(m)) ==> exists|
            a: Seq<char>,
            b: Seq<char>,
        | m == #[trigger] (a + label + b),
        model_of(label, false) matches Err(e) ==> e is InvalidInput,
{
    if model_of(label, false) is Err {
        let m = "unknown embedding model: "@ + label + " (minilm|arctic-m|gemma-300m|<dir>)"@;
        assert(model_of(label, false)->Err_0 == ErrorView::InvalidInput(m));
    }
}

/// No two labels name the same ranker.
pub proof fn rankers_are_told_apart(a: Seq<char>, b: Seq<char>)
    ensures
        ranker_of(a) is Some && ranker_of(a) == ranker_of(b) ==> a == b,
{
}

} // verus!
