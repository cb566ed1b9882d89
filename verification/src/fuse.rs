//! Hybrid retrieval: lexical, vector and structural ranks fused into one
//! list with reciprocal rank fusion.
//!
//! Which hit is credited with which rank, and the order that follows from
//! the scores, is decided here. A score is the bit pattern of a double; what
//! a hit is still to be credited with stands beside it as [`Credit`]s.

use vstd::prelude::*;
use vstd::string::StrSliceExecFns;
use crate::bytes::{byte_prefix, fit};
use crate::order::{
    at_most, greater, lesser, rank_before, rank_precedes, same_path, score_above, score_key, sort,
    sorted, views, Ranked,
};
use crate::paths::components;
use crate::rg::{Hit, HitView};
use crate::text::{chars_of, decimal, decimal_of, opt_str, same, texts};

verus! {

/// RRF smoothing constant.
pub const RRF_K: u32 = 20;

/// Lexical terms weigh double: exact matches outrank fuzzy ones, while
/// vector-only discovery still surfaces when lexical misses entirely.
pub const LEXICAL_WEIGHT: u32 = 2;

/// Fused candidates rescored by the reranker.
pub const RERANK_DEPTH: usize = 20;

/// How much of a candidate the reranker reads, in bytes.
pub const DOC_CAP: usize = 1000;

/// The lists a hit can be ranked in.
#[derive(Debug, Clone, Copy, PartialEq, Eq, Structural)]
pub enum List {
    Lexical,
    Vector,
    Ast,
}

/// One term of a fused score: the reciprocal of `RRF_K + rank`, times the
/// weight of the list.
#[derive(Debug, Clone, Copy, PartialEq, Eq, Structural)]
pub struct Credit {
    /// The list the hit is ranked in.
    pub list: List,
    /// Its 1-based rank there.
    pub rank: usize,
}

/// The weight of the terms of a list.
pub open spec fn weight_of(list: List) -> u32 {
    match list {
        List::Lexical => LEXICAL_WEIGHT,
        _ => 1,
    }
}

/// The weight of the terms of a list.
pub fn weight(list: List) -> (r: u32)
    ensures
        r == weight_of(list),
{
    match list {
        List::Lexical => LEXICAL_WEIGHT,
        List::Vector => 1,
        List::Ast => 1,
    }
}

/// One hit of a single list.
#[derive(Debug)]
pub struct RankedHit {
    /// Absolute file path.
    pub path: String,
    /// 1-based first line.
    pub start: u64,
    /// 1-based last line (inclusive).
    pub end: u64,
    /// Symbol path or heading stack.
    pub breadcrumb: String,
    /// Chunk text.
    pub text: String,
    /// The list's own score, as the bit pattern of a double.
    pub score: u64,
}

/// What a [`RankedHit`] says, as mathematical values.
pub struct RankedView {
    pub path: Seq<char>,
    pub start: int,
    pub end: int,
    pub breadcrumb: Seq<char>,
    pub text: Seq<char>,
    pub score: u64,
}

impl View for RankedHit {
    type V = RankedView;

    open spec fn view(&self) -> RankedView {
        RankedView {
            path: self.path@,
            start: self.start as int,
            end: self.end as int,
            breadcrumb: self.breadcrumb@,
            text: self.text@,
            score: self.score,
        }
    }
}

/// One fused hit.
#[derive(Debug)]
pub struct FusedHit {
    /// Absolute file path.
    pub path: String,
    /// 1-based first line.
    pub start: u64,
    /// 1-based last line (inclusive).
    pub end: u64,
    /// Symbol path or heading stack.
    pub breadcrumb: String,
    /// Chunk text.
    pub text: String,
    /// Fused score, as the bit pattern of a double.
    pub score: u64,
    /// 1-based lexical rank, when present.
    pub lexical_rank: Option<usize>,
    /// 1-based vector rank, when present.
    pub vector_rank: Option<usize>,
    /// 1-based structural (ast-grep) rank, when present.
    pub ast_rank: Option<usize>,
    /// The terms that are still to be added to the score, in order.
    pub terms: Vec<Credit>,
}

/// What a [`FusedHit`] says, as mathematical values.
pub struct FusedView {
    pub path: Seq<char>,
    pub start: int,
    pub end: int,
    pub breadcrumb: Seq<char>,
    pub text: Seq<char>,
    pub score: u64,
    pub lexical_rank: Option<usize>,
    pub vector_rank: Option<usize>,
    pub ast_rank: Option<usize>,
    pub terms: Seq<Credit>,
}

impl View for FusedHit {
    type V = FusedView;

    open spec fn view(&self) -> FusedView {
        FusedView {
            path: self.path@,
            start: self.start as int,
            end: self.end as int,
            breadcrumb: self.breadcrumb@,
            text: self.text@,
            score: self.score,
            lexical_rank: self.lexical_rank,
            vector_rank: self.vector_rank,
            ast_rank: self.ast_rank,
            terms: self.terms@,
        }
    }
}

/// Which list(s) produced a hit.
pub open spec fn source_of(h: FusedView) -> Seq<char> {
    match (h.lexical_rank, h.vector_rank) {
        (Some(_), Some(_)) => "bm25+vec"@,
        (Some(_), None) => "bm25"@,
        (None, Some(_)) => "vec"@,
        (None, None) => if h.ast_rank is Some {
            "ast"@
        } else {
            "rg"@
        },
    }
}

/// Retrieval source for output budgets: which list(s) produced the hit.
/// Live-`rg` fallbacks carry neither rank. Structural-only hits are "ast";
/// mixed hits keep their lexical/vector label (the ast term only boosts).
pub fn source(hit: &FusedHit) -> (r: &'static str)
    ensures
        r@ == source_of(hit@),
{
    match (hit.lexical_rank, hit.vector_rank) {
        (Some(_), Some(_)) => "bm25+vec",
        (Some(_), None) => "bm25",
        (None, Some(_)) => "vec",
        (None, None) => match hit.ast_rank {
            Some(_) => "ast",
            None => "rg",
        },
    }
}

/// What chunks are told apart by: `path:start-end:breadcrumb`.
pub open spec fn key_of(path: Seq<char>, start: int, end: int, breadcrumb: Seq<char>) -> Seq<char> {
    path + ":"@ + decimal(start as nat) + "-"@ + decimal(end as nat) + ":"@ + breadcrumb
}

/// What chunks are told apart by: `path:start-end:breadcrumb`.
pub fn chunk_key(path: &str, start: u64, end: u64, breadcrumb: &str) -> (r: String)
    ensures
        r@ == key_of(path@, start as int, end as int, breadcrumb@),
{
    let mut out = path.to_owned();
    out.append(":");
    out.append(decimal_of(start).as_str());
    out.append("-");
    out.append(decimal_of(end).as_str());
    out.append(":");
    out.append(breadcrumb);
    out
}

/// How many lines two ranges of lines (both ends inclusive) share.
pub open spec fn shared_lines(a_start: int, a_end: int, b_start: int, b_end: int) -> int {
    greater(lesser(a_end, b_end) + 1 - greater(a_start, b_start), 0)
}

/// Inclusive line overlap of two ranges.
pub fn overlap(a_start: u64, a_end: u64, b_start: u64, b_end: u64) -> (r: u64)
    requires
        a_end < u64::MAX || b_end < u64::MAX,
    ensures
        r == shared_lines(a_start as int, a_end as int, b_start as int, b_end as int),
{
    let end: u64 = if a_end <= b_end {
        a_end
    } else {
        b_end
    };
    let start: u64 = if a_start >= b_start {
        a_start
    } else {
        b_start
    };
    if end + 1 >= start {
        end + 1 - start
    } else {
        0
    }
}

/// The hit's rank in a list.
pub open spec fn rank_in(h: FusedView, list: List) -> Option<usize> {
    match list {
        List::Lexical => h.lexical_rank,
        List::Vector => h.vector_rank,
        List::Ast => h.ast_rank,
    }
}

/// `h` with a rank in a list, and the term that goes with it still to be added.
pub open spec fn with_credit(h: FusedView, list: List, rank: usize) -> FusedView {
    FusedView {
        lexical_rank: if list == List::Lexical {
            Some(rank)
        } else {
            h.lexical_rank
        },
        vector_rank: if list == List::Vector {
            Some(rank)
        } else {
            h.vector_rank
        },
        ast_rank: if list == List::Ast {
            Some(rank)
        } else {
            h.ast_rank
        },
        terms: h.terms.push(Credit { list, rank }),
        ..h
    }
}

/// A hit that no list has ranked yet.
pub open spec fn unranked(h: RankedView) -> FusedView {
    FusedView {
        path: h.path,
        start: h.start,
        end: h.end,
        breadcrumb: h.breadcrumb,
        text: h.text,
        score: 0,
        lexical_rank: None,
        vector_rank: None,
        ast_rank: None,
        terms: Seq::empty(),
    }
}

/// The number of the hit with a key; the number of hits where none has it.
pub open spec fn slot_with_key(slots: Seq<FusedView>, key: Seq<char>) -> int
    decreases slots.len(),
{
    if slots.len() == 0 || key_of(
        slots[0].path,
        slots[0].start,
        slots[0].end,
        slots[0].breadcrumb,
    ) == key {
        0
    } else {
        1 + slot_with_key(slots.skip(1), key)
    }
}

/// The hits of the first `n` places of the lexical list. A chunk that comes
/// again keeps its first rank and is credited with each.
pub open spec fn lexical_slots(lex: Seq<RankedView>, n: int) -> Seq<FusedView>
    decreases n,
{
    if n <= 0 {
        Seq::empty()
    } else {
        let slots = lexical_slots(lex, n - 1);
        let h = lex[n - 1];
        let k = slot_with_key(slots, key_of(h.path, h.start, h.end, h.breadcrumb));
        if 0 <= k < slots.len() {
            slots.update(
                k,
                FusedView {
                    terms: slots[k].terms.push(Credit { list: List::Lexical, rank: n as usize }),
                    ..slots[k]
                },
            )
        } else {
            slots.push(with_credit(unranked(h), List::Lexical, n as usize))
        }
    }
}

/// Whether a hit may be credited by a list with a region of a file: it is in
/// that file, and the list has not credited it yet.
pub open spec fn eligible(h: FusedView, list: List, path: Seq<char>) -> bool {
    components(h.path) == components(path) && rank_in(h, list) is None
}

/// Among the first `n` hits, the last of the eligible ones that share most
/// lines with a region.
pub open spec fn best_slot(slots: Seq<FusedView>, n: int, list: List, h: RankedView) -> Option<int>
    decreases n,
{
    if n <= 0 {
        None
    } else {
        let b = best_slot(slots, n - 1, list, h);
        let s = slots[n - 1];
        if !eligible(s, list, h.path) {
            b
        } else {
            match b {
                None => Some(n - 1),
                Some(k) => if shared_lines(s.start, s.end, h.start, h.end) >= shared_lines(
                    slots[k].start,
                    slots[k].end,
                    h.start,
                    h.end,
                ) {
                    Some(n - 1)
                } else {
                    b
                },
            }
        }
    }
}

/// What the choice of `best_slot` comes to.
pub proof fn best_slot_shares_most(slots: Seq<FusedView>, n: int, list: List, h: RankedView)
    requires
        0 <= n <= slots.len(),
    ensures
        match best_slot(slots, n, list, h) {
            None => forall|i: int| 0 <= i < n ==> !eligible(#[trigger] slots[i], list, h.path),
            Some(k) => {
                &&& 0 <= k < n
                &&& eligible(slots[k], list, h.path)
                &&& forall|i: int|
                    0 <= i < n && eligible(#[trigger] slots[i], list, h.path) ==> {
                        let si = shared_lines(slots[i].start, slots[i].end, h.start, h.end);
                        let sk = shared_lines(slots[k].start, slots[k].end, h.start, h.end);
                        si < sk || (si == sk && i <= k)
                    }
            },
        },
    decreases n,
{
    if n > 0 {
        best_slot_shares_most(slots, n - 1, list, h);
    }
}

/// The hits after a list has put a region at `rank`: the hit that shares most
/// lines with it is credited, and a region that none shares a line with
/// becomes a hit of its own.
pub open spec fn credited(slots: Seq<FusedView>, list: List, h: RankedView, rank: usize) -> Seq<FusedView> {
    match best_slot(slots, slots.len() as int, list, h) {
        Some(k) => if shared_lines(slots[k].start, slots[k].end, h.start, h.end) > 0 {
            slots.update(k, with_credit(slots[k], list, rank))
        } else {
            slots.push(with_credit(unranked(h), list, rank))
        },
        None => slots.push(with_credit(unranked(h), list, rank)),
    }
}

/// The hits after the first `n` places of a list have been credited.
pub open spec fn credited_all(slots: Seq<FusedView>, list: List, hits: Seq<RankedView>, n: int) -> Seq<FusedView>
    decreases n,
{
    if n <= 0 {
        slots
    } else {
        credited(credited_all(slots, list, hits, n - 1), list, hits[n - 1], n as usize)
    }
}

/// The hits of a lexical and a vector list, before they are scored.
pub open spec fn fused_slots(lex: Seq<RankedView>, vec: Seq<RankedView>) -> Seq<FusedView> {
    credited_all(lexical_slots(lex, lex.len() as int), List::Vector, vec, vec.len() as int)
}

proof fn lemma_slot_with_key(slots: Seq<FusedView>, key: Seq<char>, k: int)
    requires
        0 <= k <= slots.len(),
        forall|i: int|
            0 <= i < k ==> key_of(
                (#[trigger] slots[i]).path,
                slots[i].start,
                slots[i].end,
                slots[i].breadcrumb,
            ) != key,
        k < slots.len() ==> key_of(
            slots[k].path,
            slots[k].start,
            slots[k].end,
            slots[k].breadcrumb,
        ) == key,
    ensures
        slot_with_key(slots, key) == k,
    decreases k,
{
    if k > 0 {
        let t = slots.skip(1);
        assert forall|i: int| 0 <= i < k - 1 implies key_of(
            (#[trigger] t[i]).path,
            t[i].start,
            t[i].end,
            t[i].breadcrumb,
        ) != key by {
            assert(t[i] == slots[i + 1]);
        }
        if k < slots.len() {
            assert(t[k - 1] == slots[k]);
        }
        lemma_slot_with_key(t, key, k - 1);
    }
}

fn new_slot(h: &RankedHit, list: List, rank: usize) -> (r: FusedHit)
    ensures
        r@ == with_credit(unranked(h@), list, rank),
{
    let mut terms: Vec<Credit> = Vec::new();
    terms.push(Credit { list, rank });
    let r = FusedHit {
        path: h.path.clone(),
        start: h.start,
        end: h.end,
        breadcrumb: h.breadcrumb.clone(),
        text: h.text.clone(),
        score: 0,
        lexical_rank: if list == List::Lexical {
            Some(rank)
        } else {
            None
        },
        vector_rank: if list == List::Vector {
            Some(rank)
        } else {
            None
        },
        ast_rank: if list == List::Ast {
            Some(rank)
        } else {
            None
        },
        terms,
    };
    proof {
        assert(r.terms@ =~= Seq::<Credit>::empty().push(Credit { list, rank }));
    }
    r
}

/// The hits of a lexical list, each chunk once.
fn merge_lexical(lex: &[RankedHit]) -> (r: Vec<FusedHit>)
    ensures
        views(r@) == lexical_slots(views(lex@), lex@.len() as int),
{
    let mut fused: Vec<FusedHit> = Vec::new();
    let mut keys: Vec<String> = Vec::new();
    let ghost lv = views(lex@);
    let mut i: usize = 0;
    proof {
        assert(views(fused@) =~= lexical_slots(lv, 0));
    }
    while i < lex.len()
        invariant
            i <= lex@.len(),
            lv == views(lex@),
            keys@.len() == fused@.len(),
            forall|j: int|
                0 <= j < fused@.len() ==> (#[trigger] keys@[j])@ == key_of(
                    fused@[j]@.path,
                    fused@[j]@.start,
                    fused@[j]@.end,
                    fused@[j]@.breadcrumb,
                ),
            views(fused@) == lexical_slots(lv, i as int),
        decreases lex@.len() - i,
    {
        let h = &lex[i];
        let rank: usize = i + 1;
        let key = chunk_key(h.path.as_str(), h.start, h.end, h.breadcrumb.as_str());
        let ghost before = fused@;
        let mut k: usize = 0;
        while k < keys.len() && !same(keys[k].as_str(), key.as_str())
            invariant
                k <= keys@.len(),
                forall|j: int| 0 <= j < k ==> (#[trigger] keys@[j])@ != key@,
            decreases keys@.len() - k,
        {
            k += 1;
        }
        proof {
            assert(lv[i as int] == h@);
            assert forall|j: int| 0 <= j < k implies key_of(
                (#[trigger] views(fused@)[j]).path,
                views(fused@)[j].start,
                views(fused@)[j].end,
                views(fused@)[j].breadcrumb,
            ) != key@ by {
                assert(keys@[j]@ != key@);
            }
            if k < keys@.len() {
                assert(keys@[k as int]@ == key@);
            }
            lemma_slot_with_key(views(fused@), key@, k as int);
        }
        if k < keys.len() {
            let slot = &mut fused[k];
            slot.terms.push(Credit { list: List::Lexical, rank });
            proof {
                assert(views(fused@) =~= lexical_slots(lv, i + 1));
            }
        } else {
            let slot = new_slot(h, List::Lexical, rank);
            fused.push(slot);
            keys.push(key);
            proof {
                assert(views(fused@) =~= views(before).push(slot@));
            }
        }
        i += 1;
    }
    fused
}

fn rank_of(h: &FusedHit, list: List) -> (r: Option<usize>)
    ensures
        r == rank_in(h@, list),
{
    match list {
        List::Lexical => h.lexical_rank,
        List::Vector => h.vector_rank,
        List::Ast => h.ast_rank,
    }
}

/// Credits the hit that shares most lines with a region, or adds the region.
fn credit(fused: &mut Vec<FusedHit>, list: List, h: &RankedHit, rank: usize)
    requires
        h.end < u64::MAX,
    ensures
        views(final(fused)@) == credited(views(old(fused)@), list, h@, rank),
{
    let mut best: Option<usize> = None;
    let ghost fv = views(fused@);
    let mut i: usize = 0;
    while i < fused.len()
        invariant
            i <= fused@.len(),
            fused@ == old(fused)@,
            fv == views(fused@),
            h.end < u64::MAX,
            match best {
                Some(k) => best_slot(fv, i as int, list, h@) == Some(k as int) && k < i,
                None => best_slot(fv, i as int, list, h@) is None,
            },
        decreases fused@.len() - i,
    {
        proof {
            assert(fv[i as int] == fused@[i as int]@);
        }
        let s = &fused[i];
        if same_path(s.path.as_str(), h.path.as_str()) && rank_of(s, list).is_none() {
            match best {
                None => {
                    best = Some(i);
                },
                Some(k) => {
                    proof {
                        assert(fv[k as int] == fused@[k as int]@);
                    }
                    if overlap(s.start, s.end, h.start, h.end) >= overlap(
                        fused[k].start,
                        fused[k].end,
                        h.start,
                        h.end,
                    ) {
                        best = Some(i);
                    }
                },
            }
        }
        i += 1;
    }
    if let Some(k) = best {
        proof {
            assert(fv[k as int] == fused@[k as int]@);
        }
        if overlap(fused[k].start, fused[k].end, h.start, h.end) > 0 {
            let slot = &mut fused[k];
            match list {
                List::Lexical => {
                    slot.lexical_rank = Some(rank);
                },
                List::Vector => {
                    slot.vector_rank = Some(rank);
                },
                List::Ast => {
                    slot.ast_rank = Some(rank);
                },
            }
            slot.terms.push(Credit { list, rank });
            proof {
                assert(views(fused@) =~= credited(fv, list, h@, rank));
            }
            return;
        }
    }
    let slot = new_slot(h, list, rank);
    fused.push(slot);
    proof {
        assert(views(fused@) =~= fv.push(slot@));
    }
}

fn credit_all(fused: &mut Vec<FusedHit>, list: List, hits: &[RankedHit])
    requires
        forall|i: int| 0 <= i < hits@.len() ==> (#[trigger] hits@[i]).end < u64::MAX,
    ensures
        views(final(fused)@) == credited_all(
            views(old(fused)@),
            list,
            views(hits@),
            hits@.len() as int,
        ),
{
    let ghost start = views(fused@);
    let mut i: usize = 0;
    while i < hits.len()
        invariant
            i <= hits@.len(),
            forall|i: int| 0 <= i < hits@.len() ==> (#[trigger] hits@[i]).end < u64::MAX,
            start == views(old(fused)@),
            views(fused@) == credited_all(start, list, views(hits@), i as int),
        decreases hits@.len() - i,
    {
        proof {
            assert(views(hits@)[i as int] == hits@[i as int]@);
        }
        credit(fused, list, &hits[i], i + 1);
        i += 1;
    }
}

/// Merge a lexical and a vector list into hits that are still to be scored.
///
/// Vector windows are tighter than lexical chunks, so keys rarely match.
/// One vector term per slot goes to the most-overlapping lexical chunk in the
/// same file (extra overlapping windows are redundant votes, not independent
/// evidence); vector-only regions become their own entries.
pub fn fuse_ranks(lexical: &[RankedHit], vector: &[RankedHit]) -> (r: Vec<FusedHit>)
    requires
        forall|i: int| 0 <= i < vector@.len() ==> (#[trigger] vector@[i]).end < u64::MAX,
    ensures
        views(r@) == fused_slots(views(lexical@), views(vector@)),
{
    let mut fused = merge_lexical(lexical);
    credit_all(&mut fused, List::Vector, vector);
    fused
}

impl Ranked for FusedHit {
    open spec fn precedes(a: FusedView, b: FusedView) -> bool {
        score_key(a.score) > score_key(b.score) || (score_key(a.score) == score_key(b.score) && (
        rank_precedes(a.lexical_rank, b.lexical_rank) || (a.lexical_rank == b.lexical_rank && (
        rank_precedes(a.vector_rank, b.vector_rank) || (a.vector_rank == b.vector_rank
            && rank_precedes(a.ast_rank, b.ast_rank))))))
    }

    fn before(&self, other: &FusedHit) -> (r: bool) {
        if score_above(self.score, other.score) {
            return true;
        }
        if score_above(other.score, self.score) {
            return false;
        }
        if rank_before(self.lexical_rank, other.lexical_rank) {
            return true;
        }
        if rank_before(other.lexical_rank, self.lexical_rank) {
            return false;
        }
        if rank_before(self.vector_rank, other.vector_rank) {
            return true;
        }
        if rank_before(other.vector_rank, self.vector_rank) {
            return false;
        }
        rank_before(self.ast_rank, other.ast_rank)
    }

    proof fn lemma_order(a: FusedView, b: FusedView, c: FusedView) {
    }
}

/// Hits by score, the highest first. Exact beats fuzzy on ties: lexical rank
/// first, then vector rank, then structural rank.
pub fn rank_fused(fused: Vec<FusedHit>) -> (r: Vec<FusedHit>)
    ensures
        views(r@) == sorted::<FusedHit>(views(fused@)),
{
    sort(fused)
}

/// A shortlist that `found` structural hits have been credited to, by score:
/// without any of them it stays as it is.
pub open spec fn reranked_with(fused: Seq<FusedView>, found: int) -> Seq<FusedView> {
    if found == 0 {
        fused
    } else {
        sorted::<FusedHit>(fused)
    }
}

/// Ranks a shortlist that structural hits have been credited to, once the
/// credits have been added to the scores. An empty list is a no-op, so absent
/// ast-grep means identical results.
pub fn rank_with_ast(fused: Vec<FusedHit>, ast: &[(String, u64)]) -> (r: Vec<FusedHit>)
    ensures
        views(r@) == reranked_with(views(fused@), ast@.len() as int),
{
    if ast.len() == 0 {
        fused
    } else {
        rank_fused(fused)
    }
}

/// A structural match as a region of one line.
pub open spec fn ast_region(m: (Seq<char>, u64)) -> RankedView {
    RankedView {
        path: m.0,
        start: m.1 as int,
        end: m.1 as int,
        breadcrumb: "ast-grep"@,
        text: Seq::empty(),
        score: 0,
    }
}

/// Structural matches as regions.
pub open spec fn ast_regions(ast: Seq<(String, u64)>) -> Seq<RankedView> {
    Seq::new(ast.len(), |i: int| ast_region((ast[i].0@, ast[i].1)))
}

/// Credit structural (ast-grep) hits as a third list over an existing
/// shortlist. Each `(path, line)` credits the overlapping fused slot in the
/// same file (enumeration order is the ast rank); non-overlapping regions
/// become their own entries. An empty list is a no-op. The caller scores,
/// ranks and truncates to its limit afterwards.
pub fn credit_ast(fused: &mut Vec<FusedHit>, ast: &[(String, u64)])
    requires
        forall|i: int| 0 <= i < ast@.len() ==> (#[trigger] ast@[i]).1 < u64::MAX,
    ensures
        views(final(fused)@) == credited_all(
            views(old(fused)@),
            List::Ast,
            ast_regions(ast@),
            ast@.len() as int,
        ),
{
    let ghost start = views(fused@);
    let ghost rs = ast_regions(ast@);
    let mut i: usize = 0;
    while i < ast.len()
        invariant
            i <= ast@.len(),
            forall|i: int| 0 <= i < ast@.len() ==> (#[trigger] ast@[i]).1 < u64::MAX,
            start == views(old(fused)@),
            rs == ast_regions(ast@),
            views(fused@) == credited_all(start, List::Ast, rs, i as int),
        decreases ast@.len() - i,
    {
        let line: u64 = ast[i].1;
        let h = RankedHit {
            path: ast[i].0.clone(),
            start: line,
            end: line,
            breadcrumb: "ast-grep".to_owned(),
            text: String::new(),
            score: 0,
        };
        proof {
            assert(h.text@ =~= Seq::<char>::empty());
            assert(rs[i as int] == h@);
        }
        credit(fused, List::Ast, &h, i + 1);
        i += 1;
    }
}

/// The part of a chunk that the reranker reads: its longest prefix of at most
/// [`DOC_CAP`] bytes.
pub fn truncate_doc(text: &str) -> (r: &str)
    ensures
        r@ == byte_prefix(text@, DOC_CAP as int),
{
    let cs = chars_of(text);
    let k = fit(&cs, DOC_CAP);
    proof {
        assert(text@.subrange(0, k as int) =~= text@.take(k as int));
    }
    text.substring_char(0, k)
}

/// What the reranker reads of the best candidates.
pub open spec fn docs_of(fused: Seq<FusedView>) -> Seq<Seq<char>> {
    Seq::new(
        lesser(fused.len() as int, RERANK_DEPTH as int) as nat,
        |i: int| fused[i].breadcrumb + " "@ + byte_prefix(fused[i].text, DOC_CAP as int),
    )
}

/// What the reranker reads of the best candidates.
pub fn rerank_docs(fused: &[FusedHit]) -> (r: Vec<String>)
    ensures
        texts(r@) == docs_of(views(fused@)),
{
    let depth: usize = if fused.len() <= RERANK_DEPTH {
        fused.len()
    } else {
        RERANK_DEPTH
    };
    let mut out: Vec<String> = Vec::new();
    let ghost all = docs_of(views(fused@));
    let mut i: usize = 0;
    while i < depth
        invariant
            i <= depth <= fused@.len(),
            depth == all.len(),
            all == docs_of(views(fused@)),
            texts(out@) == all.take(i as int),
        decreases depth - i,
    {
        let ghost before = out@;
        let mut d = fused[i].breadcrumb.clone();
        d.append(" ");
        d.append(truncate_doc(fused[i].text.as_str()));
        out.push(d);
        proof {
            assert(views(fused@)[i as int] == fused@[i as int]@);
            assert(all[i as int] == d@);
            assert(texts(out@) =~= texts(before).push(d@));
            assert(texts(out@) =~= all.take(i + 1));
        }
        i += 1;
    }
    proof {
        assert(all.take(i as int) =~= all);
    }
    out
}

/// `h` with another score.
pub open spec fn rescored(h: FusedView, score: u64) -> FusedView {
    FusedView { score, ..h }
}

/// Whether a reranker's order names hit number `i`.
pub open spec fn named(order: Seq<(usize, u64)>, i: int) -> bool {
    exists|j: int| 0 <= j < order.len() && (#[trigger] order[j]).0 == i
}

/// The hits among the first `n` that an order does not name.
pub open spec fn unnamed(fused: Seq<FusedView>, order: Seq<(usize, u64)>, n: int) -> Seq<FusedView>
    decreases n,
{
    if n <= 0 {
        Seq::empty()
    } else if named(order, n - 1) {
        unnamed(fused, order, n - 1)
    } else {
        unnamed(fused, order, n - 1).push(fused[n - 1])
    }
}

/// The hits in a reranker's order with its scores; behind them, in the order
/// they had, those that it dropped, as far as there is room for them.
pub open spec fn reranked(fused: Seq<FusedView>, order: Seq<(usize, u64)>) -> Seq<FusedView> {
    Seq::new(order.len(), |i: int| rescored(fused[order[i].0 as int], order[i].1)) + at_most(
        unnamed(fused, order, fused.len() as int),
        greater(fused.len() - order.len(), 0),
    )
}

fn copy_terms(v: &Vec<Credit>) -> (r: Vec<Credit>)
    ensures
        r@ == v@,
{
    let mut out: Vec<Credit> = Vec::new();
    let mut i: usize = 0;
    while i < v.len()
        invariant
            i <= v@.len(),
            out@ == v@.take(i as int),
        decreases v@.len() - i,
    {
        out.push(v[i]);
        proof {
            assert(out@ =~= v@.take(i + 1));
        }
        i += 1;
    }
    proof {
        assert(out@ =~= v@);
    }
    out
}

/// The same hit with another score.
pub(crate) fn copy_scored(h: &FusedHit, score: u64) -> (r: FusedHit)
    ensures
        r@ == rescored(h@, score),
{
    FusedHit {
        path: h.path.clone(),
        start: h.start,
        end: h.end,
        breadcrumb: h.breadcrumb.clone(),
        text: h.text.clone(),
        score,
        lexical_rank: h.lexical_rank,
        vector_rank: h.vector_rank,
        ast_rank: h.ast_rank,
        terms: copy_terms(&h.terms),
    }
}

pub(crate) fn is_named(order: &[(usize, u64)], i: usize) -> (r: bool)
    ensures
        r == named(order@, i as int),
{
    let mut j: usize = 0;
    while j < order.len()
        invariant
            j <= order@.len(),
            forall|k: int| 0 <= k < j ==> (#[trigger] order@[k]).0 != i,
        decreases order@.len() - j,
    {
        if order[j].0 == i {
            return true;
        }
        j += 1;
    }
    false
}

/// Put hits in a reranker's order, with its scores; unranked tails keep fused
/// order behind rescored heads.
pub fn apply_rerank(fused: &[FusedHit], order: &[(usize, u64)]) -> (r: Vec<FusedHit>)
    requires
        forall|i: int| 0 <= i < order@.len() ==> (#[trigger] order@[i]).0 < fused@.len(),
    ensures
        views(r@) == reranked(views(fused@), order@),
{
    let ghost fv = views(fused@);
    let ghost heads = Seq::new(
        order@.len(),
        |i: int| rescored(fv[order@[i].0 as int], order@[i].1),
    );
    let mut out: Vec<FusedHit> = Vec::new();
    let mut i: usize = 0;
    while i < order.len()
        invariant
            i <= order@.len(),
            fv == views(fused@),
            heads == Seq::new(
                order@.len(),
                |i: int| rescored(fv[order@[i].0 as int], order@[i].1),
            ),
            forall|i: int| 0 <= i < order@.len() ==> (#[trigger] order@[i]).0 < fused@.len(),
            views(out@) == heads.take(i as int),
        decreases order@.len() - i,
    {
        let ghost before = out@;
        let h = copy_scored(&fused[order[i].0], order[i].1);
        out.push(h);
        proof {
            assert(fv[order@[i as int].0 as int] == fused@[order@[i as int].0 as int]@);
            assert(heads[i as int] == h@);
            assert(views(out@) =~= views(before).push(h@));
            assert(views(out@) =~= heads.take(i + 1));
        }
        i += 1;
    }
    proof {
        assert(heads.take(i as int) =~= heads);
    }
    let mut k: usize = 0;
    let ghost room = greater(fused@.len() - order@.len(), 0);
    proof {
        assert(heads + at_most(unnamed(fv, order@, 0), room) =~= heads);
    }
    while k < fused.len()
        invariant
            k <= fused@.len(),
            fv == views(fused@),
            heads.len() == order@.len(),
            room == greater(fused@.len() - order@.len(), 0),
            views(out@) == heads + at_most(unnamed(fv, order@, k as int), room),
        decreases fused@.len() - k,
    {
        let ghost before = out@;
        let ghost tail = unnamed(fv, order@, k as int);
        proof {
            assert(fv[k as int] == fused@[k as int]@);
            assert(views(out@).len() == out@.len());
        }
        if !is_named(order, k) {
            if out.len() < fused.len() {
                let h = copy_scored(&fused[k], fused[k].score);
                out.push(h);
                proof {
                    assert(views(out@) =~= views(before).push(h@));
                    assert(h@ == fv[k as int]);
                    assert(views(out@) =~= heads + at_most(tail.push(fv[k as int]), room));
                }
            } else {
                proof {
                    assert(at_most(tail.push(fv[k as int]), room) =~= at_most(tail, room));
                }
            }
        }
        k += 1;
    }
    out
}

/// Hits of the index alone, in its order.
pub open spec fn index_hits(hits: Seq<RankedView>) -> Seq<FusedView> {
    Seq::new(
        hits.len(),
        |i: int|
            FusedView {
                score: hits[i].score,
                lexical_rank: Some((i + 1) as usize),
                ..unranked(hits[i])
            },
    )
}

/// Hits of the index alone, in its order.
pub fn from_index(hits: &[RankedHit]) -> (r: Vec<FusedHit>)
    ensures
        views(r@) == index_hits(views(hits@)),
{
    let mut out: Vec<FusedHit> = Vec::new();
    let ghost all = index_hits(views(hits@));
    let mut i: usize = 0;
    while i < hits.len()
        invariant
            i <= hits@.len(),
            all == index_hits(views(hits@)),
            views(out@) == all.take(i as int),
        decreases hits@.len() - i,
    {
        let ghost before = out@;
        let h = FusedHit {
            path: hits[i].path.clone(),
            start: hits[i].start,
            end: hits[i].end,
            breadcrumb: hits[i].breadcrumb.clone(),
            text: hits[i].text.clone(),
            score: hits[i].score,
            lexical_rank: Some(i + 1),
            vector_rank: None,
            ast_rank: None,
            terms: Vec::new(),
        };
        out.push(h);
        proof {
            assert(h.terms@ =~= Seq::<Credit>::empty());
            assert(views(hits@)[i as int] == hits@[i as int]@);
            assert(all[i as int] == h@);
            assert(views(out@) =~= views(before).push(h@));
            assert(views(out@) =~= all.take(i + 1));
        }
        i += 1;
    }
    proof {
        assert(all.take(i as int) =~= all);
    }
    out
}

/// Live hits: no list claims them, so their source is "rg".
pub open spec fn live_hits(hits: Seq<HitView>) -> Seq<FusedView> {
    Seq::new(
        hits.len(),
        |i: int|
            FusedView {
                path: hits[i].path,
                start: hits[i].line,
                end: hits[i].line,
                breadcrumb: "rg-fallback"@,
                text: hits[i].text,
                score: 0,
                lexical_rank: None,
                vector_rank: None,
                ast_rank: None,
                terms: Seq::empty(),
            },
    )
}

/// Live hits: no list claims them, so their source is "rg".
pub fn from_rg(hits: &[Hit]) -> (r: Vec<FusedHit>)
    ensures
        views(r@) == live_hits(views(hits@)),
{
    let mut out: Vec<FusedHit> = Vec::new();
    let ghost all = live_hits(views(hits@));
    let mut i: usize = 0;
    while i < hits.len()
        invariant
            i <= hits@.len(),
            all == live_hits(views(hits@)),
            views(out@) == all.take(i as int),
        decreases hits@.len() - i,
    {
        let ghost before = out@;
        let h = FusedHit {
            path: hits[i].path.clone(),
            start: hits[i].line,
            end: hits[i].line,
            breadcrumb: "rg-fallback".to_owned(),
            text: hits[i].text.clone(),
            score: 0,
            lexical_rank: None,
            vector_rank: None,
            ast_rank: None,
            terms: Vec::new(),
        };
        out.push(h);
        proof {
            assert(h.terms@ =~= Seq::<Credit>::empty());
            assert(views(hits@)[i as int] == hits@[i as int]@);
            assert(all[i as int] == h@);
            assert(views(out@) =~= views(before).push(h@));
            assert(views(out@) =~= all.take(i + 1));
        }
        i += 1;
    }
    proof {
        assert(all.take(i as int) =~= all);
    }
    out
}

/// How many hits of each list are fetched for a result of `limit`.
pub open spec fn fetched(limit: int) -> int {
    greater(limit * 10, 50)
}

/// How many hits of each list are fetched for a result of `limit`.
pub fn fetch_size(limit: usize) -> (r: usize)
    requires
        limit * 10 <= usize::MAX,
    ensures
        r == greater(limit * 10, 50),
        r == fetched(limit as int),
{
    if limit * 10 >= 50 {
        limit * 10
    } else {
        50
    }
}

/// Whether stored vectors can be compared with those of a provider.
pub open spec fn comparable(store: Result<Option<usize>, ()>, provider: usize) -> bool {
    store matches Ok(Some(d)) ==> d == provider
}

/// Whether stored vectors can be compared with those of a provider: skip
/// vectors when the provider does not match the store, instead of scoring
/// against truncated dimensions. `store` is what the store says of its
/// dimensions: `Err` where it cannot be asked, `Ok(None)` where it does not say.
pub fn vectors_usable(store: Result<Option<usize>, ()>, provider: usize) -> (r: bool)
    ensures
        r == (store matches Ok(Some(d)) ==> d == provider),
        r == comparable(store, provider),
{
    match store {
        Ok(Some(d)) => d == provider,
        _ => true,
    }
}

/// A query behind a prefix, where there is one.
pub open spec fn prefixed(prefix: Option<Seq<char>>, query: Seq<char>) -> Seq<char> {
    match prefix {
        Some(p) => p + query,
        None => query,
    }
}

/// The text that is embedded for a query: behind the provider's prefix,
/// where it has one.
pub fn query_text(prefix: Option<&str>, query: &str) -> (r: String)
    ensures
        r@ == (match prefix {
            Some(p) => p@ + query@,
            None => query@,
        }),
        r@ == prefixed(opt_str(prefix), query@),
{
    match prefix {
        Some(p) => {
            let mut out = p.to_owned();
            out.append(query);
            out
        },
        None => query.to_owned(),
    }
}

/// Where a shortlist comes from.
#[derive(Debug, Clone, Copy, PartialEq, Eq, Structural)]
pub enum Retrieval {
    /// Live rg: the workspace has no index.
    Live,
    /// Lexical and vector lists, fused.
    Hybrid,
    /// The lexical index alone.
    Lexical,
}

/// Where a shortlist comes from: live rg when unindexed, hybrid or lexical otherwise.
pub fn collect_plan(indexed: bool, fuse: bool) -> (r: Retrieval)
    ensures
        r == (if !indexed {
            Retrieval::Live
        } else if fuse {
            Retrieval::Hybrid
        } else {
            Retrieval::Lexical
        }),
{
    if !indexed {
        Retrieval::Live
    } else if fuse {
        Retrieval::Hybrid
    } else {
        Retrieval::Lexical
    }
}

/// The first `limit` hits.
pub fn truncate_hits(fused: Vec<FusedHit>, limit: usize) -> (r: Vec<FusedHit>)
    ensures
        views(r@) == at_most(views(fused@), limit as int),
{
    let mut out = fused;
    let ghost all = views(out@);
    out.truncate(limit);
    proof {
        assert(views(out@) =~= at_most(all, limit as int));
    }
    out
}

/// An absent structural list leaves a shortlist exactly as it is, in whatever
/// order that is.
pub proof fn no_structural_hits_no_change(fused: Seq<FusedView>)
    ensures
        credited_all(fused, List::Ast, Seq::empty(), 0) == fused,
        reranked_with(fused, 0) == fused,
{
}

/// Whether each hit has at most one term of a list, namely the one of its
/// rank in it.
pub open spec fn one_credit_each(slots: Seq<FusedView>, list: List) -> bool {
    forall|i: int|
        0 <= i < slots.len() ==> {
            let h = #[trigger] slots[i];
            match rank_in(h, list) {
                Some(rank) => h.terms.filter(|c: Credit| c.list == list) == seq![
                    Credit { list, rank },
                ],
                None => h.terms.filter(|c: Credit| c.list == list).len() == 0,
            }
        }
}

proof fn lemma_filter_push(s: Seq<Credit>, c: Credit, list: List)
    ensures
        s.push(c).filter(|c: Credit| c.list == list) == (if c.list == list {
            s.filter(|c: Credit| c.list == list).push(c)
        } else {
            s.filter(|c: Credit| c.list == list)
        }),
{
    reveal(Seq::filter);
    assert(s.push(c).drop_last() =~= s);
}

/// A region of a list credits one hit and each hit at most once: after any
/// number of places of the list, every hit that the list has ranked carries
/// exactly the term of that rank, and every other hit none.
pub proof fn one_credit_per_hit(slots: Seq<FusedView>, list: List, hits: Seq<RankedView>, n: int)
    requires
        0 <= n <= hits.len(),
        one_credit_each(slots, list),
    ensures
        one_credit_each(credited_all(slots, list, hits, n), list),
        slots.len() <= credited_all(slots, list, hits, n).len() <= slots.len() + n,
    decreases n,
{
    if n > 0 {
        one_credit_per_hit(slots, list, hits, n - 1);
        let before = credited_all(slots, list, hits, n - 1);
        let h = hits[n - 1];
        let rank = n as usize;
        let after = credited(before, list, h, rank);
        best_slot_shares_most(before, before.len() as int, list, h);
        let c = Credit { list, rank };
        reveal(Seq::filter);
        lemma_filter_push(Seq::empty(), c, list);
        assert(Seq::<Credit>::empty().filter(|c: Credit| c.list == list).push(c) =~= seq![c]);
        assert forall|i: int| 0 <= i < after.len() implies ({
            let x = #[trigger] after[i];
            match rank_in(x, list) {
                Some(rank) => x.terms.filter(|c: Credit| c.list == list) == seq![
                    Credit { list, rank },
                ],
                None => x.terms.filter(|c: Credit| c.list == list).len() == 0,
            }
        }) by {
            if i < before.len() {
                lemma_filter_push(before[i].terms, c, list);
                if after[i] != before[i] {
                    assert(before[i].terms.filter(|c: Credit| c.list == list)
                        =~= Seq::<Credit>::empty());
                }
            }
        }
    }
}

/// A reranker that names candidates at most once loses none and adds none:
/// the result has as many hits as there were, the named ones first, and the
/// others behind them as they were.
pub proof fn rerank_loses_nothing(fused: Seq<FusedView>, order: Seq<(usize, u64)>)
    requires
        forall|i: int| 0 <= i < order.len() ==> (#[trigger] order[i]).0 < fused.len(),
        forall|i: int, j: int|
            0 <= i < j < order.len() ==> (#[trigger] order[i]).0 != (#[trigger] order[j]).0,
    ensures
        reranked(fused, order).len() == fused.len(),
        reranked(fused, order) == Seq::new(
            order.len(),
            |i: int| rescored(fused[order[i].0 as int], order[i].1),
        ) + unnamed(fused, order, fused.len() as int),
{
    lemma_unnamed_len(fused, order, fused.len() as int);
    let places = Seq::new(order.len(), |i: int| order[i].0 as int);
    let all = Set::<int>::range(0, fused.len() as int);
    vstd::set_lib::lemma_int_range(0, fused.len() as int);
    assert(places.no_duplicates());
    places.unique_seq_to_set();
    let ns = Set::<int>::range(0, fused.len() as int).filter(|i: int| named(order, i));
    assert(ns =~= places.to_set()) by {
        assert forall|i: int| ns.contains(i) <==> places.to_set().contains(i) by {
            if ns.contains(i) {
                let j = choose|j: int| 0 <= j < order.len() && (#[trigger] order[j]).0 == i;
                assert(places[j] == i);
            }
            if places.to_set().contains(i) {
                let j = choose|j: int| 0 <= j < places.len() && places[j] == i;
                assert(order[j].0 == i);
            }
        }
    }
    assert(at_most(
        unnamed(fused, order, fused.len() as int),
        greater(fused.len() - order.len(), 0),
    ) =~= unnamed(fused, order, fused.len() as int));
}

proof fn lemma_unnamed_len(fused: Seq<FusedView>, order: Seq<(usize, u64)>, n: int)
    requires
        0 <= n,
    ensures
        unnamed(fused, order, n).len() + Set::<int>::range(0, n).filter(
            |i: int| named(order, i),
        ).len() == n,
    decreases n,
{
    let f = |i: int| named(order, i);
    vstd::set_lib::lemma_int_range(0, n);
    if n > 0 {
        lemma_unnamed_len(fused, order, n - 1);
        vstd::set_lib::lemma_int_range(0, n - 1);
        let a = Set::<int>::range(0, n - 1).filter(f);
        let b = Set::<int>::range(0, n).filter(f);
        if named(order, n - 1) {
            assert(b =~= a.insert(n - 1));
        } else {
            assert(b =~= a);
        }
    } else {
        assert(Set::<int>::range(0, n).filter(f) =~= Set::<int>::empty());
    }
}

/// Whether a fused hit is a chunk of a list: the same file, lines, breadcrumb
/// and text.
pub open spec fn same_chunk(h: FusedView, x: RankedView) -> bool {
    h.path == x.path && h.start == x.start && h.end == x.end && h.breadcrumb == x.breadcrumb
        && h.text == x.text
}

/// Whether two hits are one chunk.
pub open spec fn one_chunk(h: FusedView, g: FusedView) -> bool {
    h.path == g.path && h.start == g.start && h.end == g.end && h.breadcrumb == g.breadcrumb
        && h.text == g.text
}

/// What the places of the lexical list come to.
spec fn lexical_place(h: FusedView, lex: Seq<RankedView>, n: int) -> bool {
    &&& h.lexical_rank matches Some(m) && 1 <= m <= n && same_chunk(h, lex[m - 1])
        && h.terms.contains(Credit { list: List::Lexical, rank: m })
    &&& h.vector_rank is None
    &&& h.ast_rank is None
    &&& h.score == 0
    &&& forall|c: Credit| #[trigger] h.terms.contains(c) ==> c.list == List::Lexical
}

proof fn lemma_slot_found(slots: Seq<FusedView>, key: Seq<char>)
    ensures
        0 <= slot_with_key(slots, key) <= slots.len(),
        slot_with_key(slots, key) < slots.len() ==> key_of(
            slots[slot_with_key(slots, key)].path,
            slots[slot_with_key(slots, key)].start,
            slots[slot_with_key(slots, key)].end,
            slots[slot_with_key(slots, key)].breadcrumb,
        ) == key,
    decreases slots.len(),
{
    if slots.len() > 0 {
        lemma_slot_found(slots.skip(1), key);
    }
}

proof fn lemma_lexical_places(lex: Seq<RankedView>, n: int)
    requires
        0 <= n <= lex.len() <= usize::MAX,
    ensures
        forall|i: int|
            0 <= i < lexical_slots(lex, n).len() ==> lexical_place(
                #[trigger] lexical_slots(lex, n)[i],
                lex,
                n,
            ),
    decreases n,
{
    if n > 0 {
        lemma_lexical_places(lex, n - 1);
        let before = lexical_slots(lex, n - 1);
        let now = lexical_slots(lex, n);
        let h = lex[n - 1];
        let key = key_of(h.path, h.start, h.end, h.breadcrumb);
        let k = slot_with_key(before, key);
        let c = Credit { list: List::Lexical, rank: n as usize };
        lemma_slot_found(before, key);
        assert forall|i: int| 0 <= i < now.len() implies lexical_place(#[trigger] now[i], lex, n) by {
            if i < before.len() {
                assert(lexical_place(before[i], lex, n - 1));
                if i == k {
                    lemma_push_contains(before[i].terms, c);
                }
            } else {
                lemma_push_contains(Seq::<Credit>::empty(), c);
                assert(same_chunk(now[i], lex[n - 1]));
            }
        }
    }
}

/// Whether a hit is credited with a place of the lexical list, and told apart
/// by the same key as the chunk there.
spec fn has_lexical(h: FusedView, lex: Seq<RankedView>, m: int) -> bool {
    h.terms.contains(Credit { list: List::Lexical, rank: m as usize }) && key_of(
        h.path,
        h.start,
        h.end,
        h.breadcrumb,
    ) == key_of(lex[m - 1].path, lex[m - 1].start, lex[m - 1].end, lex[m - 1].breadcrumb)
}

proof fn lemma_lexical_credit(lex: Seq<RankedView>, n: int, m: int) -> (i: int)
    requires
        1 <= m <= n <= lex.len() <= usize::MAX,
    ensures
        0 <= i < lexical_slots(lex, n).len(),
        has_lexical(lexical_slots(lex, n)[i], lex, m),
    decreases n,
{
    let before = lexical_slots(lex, n - 1);
    let now = lexical_slots(lex, n);
    let h = lex[n - 1];
    let key = key_of(h.path, h.start, h.end, h.breadcrumb);
    let k = slot_with_key(before, key);
    let c = Credit { list: List::Lexical, rank: n as usize };
    lemma_slot_found(before, key);
    if m < n {
        let i = lemma_lexical_credit(lex, n - 1, m);
        lemma_push_contains(before[i].terms, c);
        i
    } else if k < before.len() {
        lemma_push_contains(before[k].terms, c);
        k
    } else {
        lemma_push_contains(Seq::<Credit>::empty(), c);
        before.len() as int
    }
}

proof fn lemma_push_contains(s: Seq<Credit>, c: Credit)
    ensures
        forall|x: Credit| #[trigger] s.push(c).contains(x) <==> s.contains(x) || x == c,
{
    assert forall|x: Credit| #[trigger] s.push(c).contains(x) <==> s.contains(x) || x == c by {
        let p = s.push(c);
        if p.contains(x) {
            let i = choose|i: int| 0 <= i < p.len() && p[i] == x;
            if i < s.len() {
                assert(s[i] == x);
            }
        }
        if s.contains(x) {
            let i = choose|i: int| 0 <= i < s.len() && s[i] == x;
            assert(p[i] == x);
        }
        if x == c {
            assert(p[s.len() as int] == x);
        }
    }
}

/// Whether the lines of two regions of one file meet.
spec fn meet(h: FusedView, x: RankedView) -> bool {
    components(h.path) == components(x.path) && h.start <= x.end && x.start <= h.end
}

/// What a list may do to a hit that was there: rank it by a region that it
/// shares lines with, and nothing else.
spec fn credited_place(
    h: FusedView,
    was: FusedView,
    list: List,
    hits: Seq<RankedView>,
    n: int,
) -> bool {
    &&& one_chunk(h, was)
    &&& h.score == was.score
    &&& list != List::Lexical ==> h.lexical_rank == was.lexical_rank
    &&& list != List::Vector ==> h.vector_rank == was.vector_rank
    &&& list != List::Ast ==> h.ast_rank == was.ast_rank
    &&& forall|c: Credit| #[trigger] was.terms.contains(c) ==> h.terms.contains(c)
    &&& forall|c: Credit| #[trigger] h.terms.contains(c) ==> was.terms.contains(c) || c.list == list
    &&& rank_in(h, list) == rank_in(was, list) || (rank_in(was, list) is None && (rank_in(
        h,
        list,
    ) matches Some(m) && 1 <= m <= n && meet(h, hits[m - 1])))
}

/// What a hit is that a list adds.
spec fn added_place(h: FusedView, list: List, hits: Seq<RankedView>, n: int) -> bool {
    &&& rank_in(h, list) matches Some(m) && 1 <= m <= n && same_chunk(h, hits[m - 1])
    &&& list != List::Lexical ==> h.lexical_rank is None
    &&& list != List::Vector ==> h.vector_rank is None
    &&& list != List::Ast ==> h.ast_rank is None
    &&& h.score == 0
    &&& forall|c: Credit| #[trigger] h.terms.contains(c) ==> c.list == list
}

proof fn lemma_credited_places(slots: Seq<FusedView>, list: List, hits: Seq<RankedView>, n: int)
    requires
        0 <= n <= hits.len() <= usize::MAX,
    ensures
        slots.len() <= credited_all(slots, list, hits, n).len(),
        forall|i: int|
            0 <= i < slots.len() ==> credited_place(
                #[trigger] credited_all(slots, list, hits, n)[i],
                slots[i],
                list,
                hits,
                n,
            ),
        forall|i: int|
            slots.len() <= i < credited_all(slots, list, hits, n).len() ==> added_place(
                #[trigger] credited_all(slots, list, hits, n)[i],
                list,
                hits,
                n,
            ),
        forall|m: int|
            1 <= m <= n ==> exists|i: int|
                0 <= i < credited_all(slots, list, hits, n).len() && #[trigger] credited_all(
                    slots,
                    list,
                    hits,
                    n,
                )[i].terms.contains(Credit { list, rank: #[trigger] (m as usize) }),
    decreases n,
{
    if n > 0 {
        lemma_credited_places(slots, list, hits, n - 1);
        let before = credited_all(slots, list, hits, n - 1);
        let now = credited_all(slots, list, hits, n);
        let h = hits[n - 1];
        let c = Credit { list, rank: n as usize };
        best_slot_shares_most(before, before.len() as int, list, h);
        lemma_push_contains(Seq::<Credit>::empty(), c);
        assert forall|i: int| 0 <= i < before.len() implies stepped(
            #[trigger] now[i],
            before[i],
            list,
            h,
            n as usize,
        ) by {
            lemma_push_contains(before[i].terms, c);
        }
        assert forall|i: int| 0 <= i < slots.len() implies credited_place(
            #[trigger] now[i],
            slots[i],
            list,
            hits,
            n,
        ) by {
            assert(credited_place(before[i], slots[i], list, hits, n - 1));
            assert(stepped(now[i], before[i], list, h, n as usize));
        }
        assert forall|i: int| slots.len() <= i < now.len() implies added_place(
            #[trigger] now[i],
            list,
            hits,
            n,
        ) by {
            if i < before.len() {
                assert(added_place(before[i], list, hits, n - 1));
                assert(stepped(now[i], before[i], list, h, n as usize));
            } else {
                assert(same_chunk(now[i], hits[n - 1]));
            }
        }
        assert forall|m: int| 1 <= m <= n implies exists|i: int|
            0 <= i < now.len() && #[trigger] now[i].terms.contains(
                Credit { list, rank: #[trigger] (m as usize) },
            ) by {
            let cm = Credit { list, rank: m as usize };
            if m < n {
                let i = choose|i: int|
                    0 <= i < before.len() && #[trigger] before[i].terms.contains(cm);
                assert(stepped(now[i], before[i], list, h, n as usize));
                assert(now[i].terms.contains(cm));
            } else {
                match best_slot(before, before.len() as int, list, h) {
                    Some(k) => {
                        lemma_push_contains(before[k].terms, c);
                        if shared_lines(before[k].start, before[k].end, h.start, h.end) > 0 {
                            assert(now[k].terms.contains(cm));
                        } else {
                            assert(now[before.len() as int].terms.contains(cm));
                        }
                    },
                    None => {
                        assert(now[before.len() as int].terms.contains(cm));
                    },
                }
            }
        }
    }
}

/// What one region of a list does to one hit.
spec fn stepped(now: FusedView, was: FusedView, list: List, x: RankedView, rank: usize) -> bool {
    now == was || {
        &&& now == with_credit(was, list, rank)
        &&& rank_in(was, list) is None
        &&& rank_in(now, list) == Some(rank)
        &&& meet(now, x)
        &&& one_chunk(now, was)
        &&& forall|c: Credit| #[trigger] now.terms.contains(c) <==> was.terms.contains(c) || c
            == (Credit { list, rank })
    }
}

/// Every hit of the lists fused carries the file, the lines, the breadcrumb and
/// the text of one and the same chunk: the one at its rank in the lexical list,
/// or where that list does not rank it, the one at its rank in the vector list.
/// A rank in the vector list of a chunk of the lexical list is that of a region
/// of the same file with which it shares lines.
pub proof fn fused_hits_are_chunks_of_the_lists(
    lex: Seq<RankedView>,
    vec: Seq<RankedView>,
    i: int,
)
    requires
        lex.len() <= usize::MAX,
        vec.len() <= usize::MAX,
        0 <= i < fused_slots(lex, vec).len(),
    ensures
        ({
            let h = fused_slots(lex, vec)[i];
            &&& h.lexical_rank is Some || h.vector_rank is Some
            &&& h.ast_rank is None
            &&& h.lexical_rank matches Some(m) ==> 1 <= m <= lex.len() && h.path == lex[m - 1].path
                && h.start == lex[m - 1].start && h.end == lex[m - 1].end && h.breadcrumb
                == lex[m - 1].breadcrumb && h.text == lex[m - 1].text
            &&& h.vector_rank matches Some(m) ==> 1 <= m <= vec.len() && (h.lexical_rank is None
                ==> h.path == vec[m - 1].path && h.start == vec[m - 1].start && h.end
                == vec[m - 1].end && h.breadcrumb == vec[m - 1].breadcrumb && h.text
                == vec[m - 1].text) && (h.lexical_rank is Some ==> components(h.path)
                == components(vec[m - 1].path) && h.start <= vec[m - 1].end && vec[m - 1].start
                <= h.end)
        }),
{
    let slots = lexical_slots(lex, lex.len() as int);
    lemma_lexical_places(lex, lex.len() as int);
    lemma_credited_places(slots, List::Vector, vec, vec.len() as int);
    if i < slots.len() {
        assert(lexical_place(slots[i], lex, lex.len() as int));
    }
}

/// No place of a list is lost: each is credited to some hit, and that of the
/// lexical list to a hit with the key of the chunk at that place.
pub proof fn every_rank_is_credited(lex: Seq<RankedView>, vec: Seq<RankedView>, m: int)
    requires
        lex.len() <= usize::MAX,
        vec.len() <= usize::MAX,
    ensures
        1 <= m <= vec.len() ==> exists|i: int|
            0 <= i < fused_slots(lex, vec).len() && #[trigger] fused_slots(
                lex,
                vec,
            )[i].terms.contains(Credit { list: List::Vector, rank: m as usize }),
        1 <= m <= lex.len() ==> exists|i: int|
            0 <= i < fused_slots(lex, vec).len() && #[trigger] fused_slots(
                lex,
                vec,
            )[i].terms.contains(Credit { list: List::Lexical, rank: m as usize }) && key_of(
                fused_slots(lex, vec)[i].path,
                fused_slots(lex, vec)[i].start,
                fused_slots(lex, vec)[i].end,
                fused_slots(lex, vec)[i].breadcrumb,
            ) == key_of(
                lex[m - 1].path,
                lex[m - 1].start,
                lex[m - 1].end,
                lex[m - 1].breadcrumb,
            ),
{
    let slots = lexical_slots(lex, lex.len() as int);
    let all = fused_slots(lex, vec);
    lemma_credited_places(slots, List::Vector, vec, vec.len() as int);
    if 1 <= m <= vec.len() {
        let r = m as usize;
        assert(exists|i: int|
            0 <= i < all.len() && #[trigger] all[i].terms.contains(
                Credit { list: List::Vector, rank: r },
            ));
    }
    if 1 <= m <= lex.len() {
        let c = Credit { list: List::Lexical, rank: m as usize };
        let i = lemma_lexical_credit(lex, lex.len() as int, m);
        assert(credited_place(all[i], slots[i], List::Vector, vec, vec.len() as int));
        assert(all[i].terms.contains(c));
    }
}

/// Chunks that differ in their lines are told apart, whatever else they share.
pub proof fn keys_tell_lines_apart(
    path: Seq<char>,
    start: int,
    end: int,
    breadcrumb: Seq<char>,
    other: int,
)
    requires
        0 <= start,
        0 <= end,
        0 <= other,
        key_of(path, start, end, breadcrumb) == key_of(path, other, end, breadcrumb),
    ensures
        start == other,
{
    let tail = "-"@ + decimal(end as nat) + ":"@ + breadcrumb;
    let head = path + ":"@;
    let a = decimal(start as nat);
    let b = decimal(other as nat);
    assert(key_of(path, start, end, breadcrumb) =~= head + a + tail);
    assert(key_of(path, other, end, breadcrumb) =~= head + b + tail);
    assert((head + a + tail).len() == (head + b + tail).len());
    assert forall|i: int| 0 <= i < a.len() implies a[i] == b[i] by {
        assert((head + a + tail)[head.len() + i] == (head + b + tail)[head.len() + i]);
    }
    assert(a =~= b);
    crate::text::lemma_decimal_injective(start as nat, other as nat);
}

/// Structural hits leave what they meet as it is but for its rank among them,
/// and a place that they add is the very line that was found.
pub proof fn structural_hits_name_their_places(
    fused: Seq<FusedView>,
    ast: Seq<(String, u64)>,
    i: int,
)
    requires
        ast.len() <= usize::MAX,
        0 <= i < credited_all(fused, List::Ast, ast_regions(ast), ast.len() as int).len(),
    ensures
        ({
            let h = credited_all(fused, List::Ast, ast_regions(ast), ast.len() as int)[i];
            if i < fused.len() {
                &&& h.path == fused[i].path && h.start == fused[i].start && h.end == fused[i].end
                &&& h.breadcrumb == fused[i].breadcrumb && h.text == fused[i].text
                &&& h.score == fused[i].score && h.lexical_rank == fused[i].lexical_rank
                &&& h.vector_rank == fused[i].vector_rank
                &&& h.ast_rank == fused[i].ast_rank || (h.ast_rank matches Some(m) && 1 <= m
                    <= ast.len() && components(h.path) == components(ast[m - 1].0@) && h.start
                    <= ast[m - 1].1 <= h.end)
            } else {
                &&& h.ast_rank matches Some(m) && 1 <= m <= ast.len() && h.path == ast[m - 1].0@
                    && h.start == ast[m - 1].1 && h.end == ast[m - 1].1
                &&& h.lexical_rank is None && h.vector_rank is None && h.text.len() == 0
            }
        }),
{
    lemma_credited_places(fused, List::Ast, ast_regions(ast), ast.len() as int);
    if i < fused.len() {
        assert(credited_place(
            credited_all(fused, List::Ast, ast_regions(ast), ast.len() as int)[i],
            fused[i],
            List::Ast,
            ast_regions(ast),
            ast.len() as int,
        ));
    }
}

/// Ranked hits are the hits that were given, each as it was, a higher score
/// before a lower one, and among equal scores those that the lexical list ranks
/// before the others and in its order; where that list does not decide, the
/// vector list does, and then the structural one.
pub proof fn ranking_orders_by_score(fused: Seq<FusedView>, i: int, j: int)
    requires
        0 <= i < j < sorted::<FusedHit>(fused).len(),
    ensures
        sorted::<FusedHit>(fused).to_multiset() == fused.to_multiset(),
        ({
            let a = sorted::<FusedHit>(fused)[i];
            let b = sorted::<FusedHit>(fused)[j];
            &&& score_key(a.score) >= score_key(b.score)
            &&& score_key(a.score) == score_key(b.score) ==> (b.lexical_rank is Some
                ==> a.lexical_rank is Some && a.lexical_rank->0 <= b.lexical_rank->0)
            &&& score_key(a.score) == score_key(b.score) && a.lexical_rank == b.lexical_rank ==> (
            b.vector_rank is Some ==> a.vector_rank is Some && a.vector_rank->0 <= b.vector_rank->0)
            &&& score_key(a.score) == score_key(b.score) && a.lexical_rank == b.lexical_rank
                && a.vector_rank == b.vector_rank ==> (b.ast_rank is Some ==> a.ast_rank is Some
                && a.ast_rank->0 <= b.ast_rank->0)
        }),
{
    crate::order::sort_orders::<FusedHit>(fused);
    assert(!<FusedHit as Ranked>::precedes(
        sorted::<FusedHit>(fused)[j],
        sorted::<FusedHit>(fused)[i],
    ));
}

/// Terms of the lexical list weigh double, and those of the others alike.
pub proof fn exact_terms_weigh_double()
    ensures
        weight_of(List::Vector) == 1,
        weight_of(List::Ast) == weight_of(List::Vector),
        weight_of(List::Lexical) == 2 * weight_of(List::Vector),
{
}

/// Reranking changes nothing of a hit but its score: each hit that the order
/// names comes at its place there, with its score there, and each other hit is
/// one of the shortlist as it was, in the order that it had.
pub proof fn reranking_changes_scores_only(fused: Seq<FusedView>, order: Seq<(usize, u64)>, i: int)
    requires
        forall|i: int| 0 <= i < order.len() ==> (#[trigger] order[i]).0 < fused.len(),
        0 <= i < reranked(fused, order).len(),
    ensures
        exists|k: int|
            0 <= k < fused.len() && ({
                let h = reranked(fused, order)[i];
                let g = #[trigger] fused[k];
                &&& h.path == g.path && h.start == g.start && h.end == g.end
                &&& h.breadcrumb == g.breadcrumb && h.text == g.text
                &&& h.lexical_rank == g.lexical_rank && h.vector_rank == g.vector_rank
                &&& h.ast_rank == g.ast_rank && h.terms == g.terms
                &&& i < order.len() ==> k == order[i].0 && h.score == order[i].1
                &&& i >= order.len() ==> h.score == g.score && !(exists|j: int|
                    0 <= j < order.len() && (#[trigger] order[j]).0 == k)
            }),
{
    let h = reranked(fused, order)[i];
    if i < order.len() {
        assert(h.path == fused[order[i].0 as int].path);
    } else {
        let tail = unnamed(fused, order, fused.len() as int);
        lemma_unnamed_from(fused, order, fused.len() as int);
        assert(h == tail[i - order.len()]);
        let k = choose|k: int|
            0 <= k < fused.len() && tail[i - order.len()] == #[trigger] fused[k] && !named(order, k);
        assert(h.path == fused[k].path);
    }
}

proof fn lemma_unnamed_from(fused: Seq<FusedView>, order: Seq<(usize, u64)>, n: int)
    requires
        0 <= n <= fused.len(),
    ensures
        forall|i: int|
            0 <= i < unnamed(fused, order, n).len() ==> exists|k: int|
                0 <= k < n && (#[trigger] unnamed(fused, order, n)[i]) == (#[trigger] fused[k])
                    && !named(order, k),
    decreases n,
{
    if n > 0 {
        lemma_unnamed_from(fused, order, n - 1);
        let before = unnamed(fused, order, n - 1);
        let now = unnamed(fused, order, n);
        assert forall|i: int| 0 <= i < now.len() implies exists|k: int|
            0 <= k < n && (#[trigger] now[i]) == (#[trigger] fused[k]) && !named(order, k) by {
            if i < before.len() {
                assert(now[i] == before[i]);
            } else {
                assert(now[i] == fused[n - 1]);
            }
        }
    }
}

/// What a reranker reads of a candidate is its breadcrumb, a space and its text
/// from the start, whole where it is short enough; it reads the best candidates
/// and no more than twenty.
pub proof fn rerankers_read_breadcrumb_and_text(fused: Seq<FusedView>, i: int)
    requires
        0 <= i < docs_of(fused).len(),
    ensures
        docs_of(fused).len() <= 20,
        docs_of(fused).len() == fused.len() || docs_of(fused).len() == 20,
        exists|t: Seq<char>|
            docs_of(fused)[i] == fused[i].breadcrumb + seq![' '] + t && #[trigger] t.is_prefix_of(
                fused[i].text,
            ) && (crate::bytes::byte_len(fused[i].text) <= 1000 ==> t == fused[i].text)
                && crate::bytes::byte_len(t) <= 1000 && (forall|k: int|
                t.len() < k <= fused[i].text.len() ==> crate::bytes::byte_len(
                    #[trigger] fused[i].text.take(k),
                ) > 1000),
{
    reveal_strlit(" ");
    let text = fused[i].text;
    let t = byte_prefix(text, DOC_CAP as int);
    crate::bytes::lemma_fitting(text, DOC_CAP as int);
    if crate::bytes::byte_len(text) <= 1000 {
        crate::bytes::lemma_fits_whole(text, DOC_CAP as int);
    }
    assert(t =~= text.subrange(0, t.len() as int));
    assert(" "@ =~= seq![' ']);
    assert(t.is_prefix_of(text));
}

/// Hits of the index alone are its chunks, each at its place with its score.
pub proof fn index_hits_are_its_chunks(hits: Seq<RankedView>, i: int)
    requires
        0 <= i < hits.len() <= usize::MAX,
    ensures
        index_hits(hits).len() == hits.len(),
        ({
            let h = index_hits(hits)[i];
            &&& h.path == hits[i].path && h.start == hits[i].start && h.end == hits[i].end
            &&& h.breadcrumb == hits[i].breadcrumb && h.text == hits[i].text
            &&& h.score == hits[i].score && h.lexical_rank == Some((i + 1) as usize)
            &&& h.vector_rank is None && h.ast_rank is None && h.terms.len() == 0
            &&& source_of(h) == "bm25"@
        }),
{
}

/// A live hit cites its one line, shows its text, and no list claims it.
pub proof fn live_hits_are_lines(hits: Seq<HitView>, i: int)
    requires
        0 <= i < hits.len(),
    ensures
        live_hits(hits).len() == hits.len(),
        ({
            let h = live_hits(hits)[i];
            &&& h.path == hits[i].path && h.start == hits[i].line && h.end == hits[i].line
            &&& h.text == hits[i].text && h.breadcrumb == "rg-fallback"@
            &&& h.lexical_rank is None && h.vector_rank is None && h.ast_rank is None
            &&& h.terms.len() == 0 && source_of(h) == "rg"@
        }),
{
}

/// The source of a hit names the lists that ranked it: the lexical list and
/// the vector list where they did, structural search alone where only it did,
/// and live search where none did.
pub proof fn sources_name_the_lists(h: FusedView)
    ensures
        h.lexical_rank is Some && h.vector_rank is None ==> source_of(h) == "bm25"@,
        h.lexical_rank is None && h.vector_rank is Some ==> source_of(h) == "vec"@,
        h.lexical_rank is Some && h.vector_rank is Some ==> source_of(h) == "bm25+vec"@,
        h.lexical_rank is None && h.vector_rank is None && h.ast_rank is Some ==> source_of(h)
            == "ast"@,
        h.lexical_rank is None && h.vector_rank is None && h.ast_rank is None ==> source_of(h)
            == "rg"@,
{
}

/// Shared lines are the lines that lie in both ranges, each counted once: one
/// line shares itself with the ranges that hold it, no empty range shares any,
/// and the lines of a range are shared in turn.
pub proof fn shared_lines_are_counted(a: int, b: int, c: int, d: int, m: int)
    requires
        a <= m <= b,
        c <= d,
    ensures
        shared_lines(m, m, c, d) == (if c <= m <= d {
            1int
        } else {
            0int
        }),
        a < m ==> shared_lines(a, b, c, d) == shared_lines(a, m - 1, c, d) + shared_lines(
            m,
            b,
            c,
            d,
        ),
        shared_lines(a, b, c, d) == shared_lines(c, d, a, b),
{
}

/// How many lines a hit shares with a region that a list may credit it with: a
/// region of the same file, while the list has not ranked the hit. None
/// otherwise.
pub open spec fn lines_in_common(h: FusedView, list: List, x: RankedView) -> int {
    if components(h.path) == components(x.path) && rank_in(h, list) is None {
        shared_lines(h.start, h.end, x.start, x.end)
    } else {
        0
    }
}

/// A region credits the hit that it shares most lines with, and that hit alone:
/// the hit stays the chunk that it is and gains the rank and its term. Where no
/// hit shares a line with it, the region comes in as a hit of its own, behind
/// the others, which stay as they are.
pub proof fn regions_credit_the_hit_they_share_most_with(
    slots: Seq<FusedView>,
    list: List,
    x: RankedView,
    rank: usize,
) -> (k: int)
    ensures
        ({
            let after = credited(slots, list, x, rank);
            &&& (exists|i: int|
                0 <= i < slots.len() && lines_in_common(#[trigger] slots[i], list, x) > 0) ==> {
                &&& 0 <= k < slots.len()
                &&& lines_in_common(slots[k], list, x) > 0
                &&& forall|i: int|
                    0 <= i < slots.len() ==> lines_in_common(#[trigger] slots[i], list, x)
                        <= lines_in_common(slots[k], list, x)
                &&& after.len() == slots.len()
                &&& forall|i: int| 0 <= i < slots.len() && i != k ==> #[trigger] after[i] == slots[i]
                &&& one_chunk(after[k], slots[k]) && after[k].score == slots[k].score
                &&& after[k].terms == slots[k].terms.push(Credit { list, rank })
                &&& rank_in(after[k], list) == Some(rank)
                &&& forall|other: List|
                    other != list ==> #[trigger] rank_in(after[k], other) == rank_in(slots[k], other)
            }
            &&& (forall|i: int|
                0 <= i < slots.len() ==> lines_in_common(#[trigger] slots[i], list, x) <= 0) ==> {
                &&& after.len() == slots.len() + 1
                &&& forall|i: int| 0 <= i < slots.len() ==> #[trigger] after[i] == slots[i]
                &&& same_chunk(after.last(), x)
                &&& after.last().terms == seq![Credit { list, rank }]
                &&& forall|other: List| #[trigger]
                    rank_in(after.last(), other) == (if other == list {
                        Some(rank)
                    } else {
                        None
                    })
            }
        }),
{
    best_slot_shares_most(slots, slots.len() as int, list, x);
    match best_slot(slots, slots.len() as int, list, x) {
        Some(k) => {
            assert forall|i: int| 0 <= i < slots.len() implies lines_in_common(
                #[trigger] slots[i],
                list,
                x,
            ) <= lines_in_common(slots[k], list, x) by {
                if !eligible(slots[i], list, x.path) {
                    assert(lines_in_common(slots[i], list, x) == 0);
                }
            }
            k
        },
        None => {
            assert forall|i: int| 0 <= i < slots.len() implies lines_in_common(
                #[trigger] slots[i],
                list,
                x,
            ) == 0 by {
                assert(!eligible(slots[i], list, x.path));
            }
            0
        },
    }
}

/// What a hit of the lists fused is told apart by.
pub open spec fn slot_key(h: FusedView) -> Seq<char> {
    key_of(h.path, h.start, h.end, h.breadcrumb)
}

/// A chunk of the lexical list is one hit, however often it comes, and ranks at
/// the first place at which it comes.
pub proof fn chunks_rank_at_their_first_place(lex: Seq<RankedView>, n: int)
    requires
        0 <= n <= lex.len() <= usize::MAX,
    ensures
        forall|i: int, j: int|
            0 <= i < j < lexical_slots(lex, n).len() ==> slot_key(
                #[trigger] lexical_slots(lex, n)[i],
            ) != slot_key(#[trigger] lexical_slots(lex, n)[j]),
        forall|i: int|
            0 <= i < lexical_slots(lex, n).len() ==> ({
                let h = #[trigger] lexical_slots(lex, n)[i];
                &&& h.lexical_rank matches Some(m) && 1 <= m <= n
                &&& forall|j: int|
                    0 <= j < h.lexical_rank->0 - 1 ==> slot_key(unranked(#[trigger] lex[j]))
                        != slot_key(h)
            }),
    decreases n,
{
    if n > 0 {
        chunks_rank_at_their_first_place(lex, n - 1);
        let before = lexical_slots(lex, n - 1);
        let now = lexical_slots(lex, n);
        let x = lex[n - 1];
        let key = slot_key(unranked(x));
        let k = slot_with_key(before, key);
        lemma_slot_found(before, key);
        lemma_slot_missing(before, key);
        if k == before.len() {
            let h = now[k];
            assert(slot_key(h) == key);
            assert forall|j: int| 0 <= j < n - 1 implies slot_key(unranked(#[trigger] lex[j]))
                != key by {
                let i = lemma_lexical_credit(lex, n - 1, j + 1);
                assert(slot_key(before[i]) == slot_key(unranked(lex[j])));
            }
        }
        assert forall|i: int| 0 <= i < now.len() implies ({
            let h = #[trigger] now[i];
            &&& h.lexical_rank matches Some(m) && 1 <= m <= n
            &&& forall|j: int|
                0 <= j < h.lexical_rank->0 - 1 ==> slot_key(unranked(#[trigger] lex[j]))
                    != slot_key(h)
        }) by {
            if i < before.len() {
                assert(slot_key(now[i]) == slot_key(before[i]));
                assert(now[i].lexical_rank == before[i].lexical_rank);
            }
        }
        assert forall|i: int, j: int| 0 <= i < j < now.len() implies slot_key(#[trigger] now[i])
            != slot_key(#[trigger] now[j]) by {
            assert(slot_key(now[i]) == slot_key(before[i]));
            if j < before.len() {
                assert(slot_key(now[j]) == slot_key(before[j]));
            }
        }
    }
}

proof fn lemma_slot_missing(slots: Seq<FusedView>, key: Seq<char>)
    ensures
        slot_with_key(slots, key) >= slots.len() ==> forall|i: int|
            0 <= i < slots.len() ==> slot_key(#[trigger] slots[i]) != key,
    decreases slots.len(),
{
    if slots.len() > 0 {
        let t = slots.skip(1);
        lemma_slot_missing(t, key);
        if slot_with_key(slots, key) >= slots.len() {
            assert forall|i: int| 0 <= i < slots.len() implies slot_key(#[trigger] slots[i]) != key by {
                if i > 0 {
                    assert(t[i - 1] == slots[i]);
                }
            }
        }
    }
}

/// Chunks that differ in where they end or in their breadcrumb are told apart
/// too.
pub proof fn keys_tell_ends_and_breadcrumbs_apart(
    path: Seq<char>,
    start: int,
    end: int,
    breadcrumb: Seq<char>,
    other: Seq<char>,
)
    requires
        key_of(path, start, end, breadcrumb) == key_of(path, start, end, other),
    ensures
        breadcrumb == other,
{
    let head = path + ":"@ + decimal(start as nat) + "-"@ + decimal(end as nat) + ":"@;
    let n = head.len() as int;
    assert(key_of(path, start, end, breadcrumb).skip(n) =~= breadcrumb);
    assert(key_of(path, start, end, other).skip(n) =~= other);
}

/// Each list is asked for ten times as many hits as the result may hold, and
/// for fifty where that is fewer.
pub proof fn lists_are_asked_for_more_than_is_shown(limit: int)
    requires
        0 <= limit,
    ensures
        limit <= fetched(limit),
        50 <= fetched(limit),
        10 * limit <= fetched(limit),
        fetched(limit) == 50 || fetched(limit) == 10 * limit,
{
}

/// Vectors are left out only where the store says that they have another number
/// of dimensions.
pub proof fn vectors_of_other_dimensions_are_left_out(stored: usize, provider: usize)
    ensures
        comparable(Ok(Some(stored)), provider) <==> stored == provider,
        comparable(Ok(None), provider),
        comparable(Err(()), provider),
{
}

/// What is embedded for a query is the prefix and then the query, each whole.
pub proof fn queries_are_embedded_whole(prefix: Seq<char>, query: Seq<char>)
    ensures
        prefixed(None, query) == query,
        prefix.is_prefix_of(prefixed(Some(prefix), query)),
        query.is_suffix_of(prefixed(Some(prefix), query)),
        prefixed(Some(prefix), query).len() == prefix.len() + query.len(),
{
    let t = prefixed(Some(prefix), query);
    assert(t.subrange(0, prefix.len() as int) =~= prefix);
    assert(t.subrange(t.len() - query.len(), t.len() as int) =~= query);
}

/// The hits that a reranker does not name are all kept, in the order that they
/// had: their places among the hits rise, and every place that is not named is
/// among them.
pub proof fn unnamed_hits_keep_their_order(
    fused: Seq<FusedView>,
    order: Seq<(usize, u64)>,
    n: int,
) -> (places: Seq<int>)
    requires
        0 <= n <= fused.len(),
    ensures
        places.len() == unnamed(fused, order, n).len(),
        forall|i: int|
            0 <= i < places.len() ==> 0 <= #[trigger] places[i] < n && !named(order, places[i])
                && unnamed(fused, order, n)[i] == fused[places[i]],
        forall|i: int, j: int|
            0 <= i < j < places.len() ==> #[trigger] places[i] < #[trigger] places[j],
        forall|k: int| 0 <= k < n && !#[trigger] named(order, k) ==> places.contains(k),
    decreases n,
{
    if n <= 0 {
        Seq::empty()
    } else {
        let before = unnamed_hits_keep_their_order(fused, order, n - 1);
        if named(order, n - 1) {
            before
        } else {
            let places = before.push(n - 1);
            assert forall|k: int| 0 <= k < n && !#[trigger] named(order, k) implies places.contains(
                k,
            ) by {
                if k < n - 1 {
                    let i = before.index_of(k);
                    assert(places[i] == k);
                } else {
                    assert(places[before.len() as int] == k);
                }
            }
            places
        }
    }
}

} // verus!
