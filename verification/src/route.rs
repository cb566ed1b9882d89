//! Query router: one classification shared by CLI `query` and MCP `search`.
//!
//! Classes, checked in order:
//!
//! 1. [`Route::Literal`] — a quoted `"..."` / `'...'` anchor (unambiguous:
//!    non-empty, no inner quote of the same kind) or a standalone
//!    `foo::Bar` path. Goes to exact `rg`, never ranked.
//! 2. [`Route::Identifier`] — a single identifier-like token. Goes to
//!    lexical search: exact beats fuzzy, so no vectors and no meter are spent
//!    on what the index answers directly.
//! 3. [`Route::Intent`] — everything else (natural language, mixed
//!    queries, anything with `fts` anchors). Goes to hybrid + ranker.
//!
//! Explicit caller flags beat heuristics: `fts` anchors (MCP) or
//! `--hybrid` / `--rank` (CLI) force [`Route::Intent`].

use vstd::prelude::*;
use crate::rg::quoted;
use crate::text::{
    ascii_alnum, chars_of, find_from, find_text, first_at, is_ascii_alnum, pieces, split_text,
    string_of, texts, trim, trimmed,
};

verus! {

/// Where a query should execute.
#[derive(Debug, Clone, PartialEq, Eq)]
pub enum Route {
    /// Exact literal text for `rg` (quotes already stripped).
    Literal(String),
    /// Single identifier-like token for lexical search.
    Identifier(String),
    /// Natural language for hybrid retrieval + ranking.
    Intent(String),
}

/// What a [`Route`] says, as mathematical values.
pub enum RouteView {
    Literal(Seq<char>),
    Identifier(Seq<char>),
    Intent(Seq<char>),
}

impl View for Route {
    type V = RouteView;

    open spec fn view(&self) -> RouteView {
        match self {
            Route::Literal(s) => RouteView::Literal(s@),
            Route::Identifier(s) => RouteView::Identifier(s@),
            Route::Intent(s) => RouteView::Intent(s@),
        }
    }
}

/// Whether a token may start with `c`.
pub open spec fn starts_token(c: char) -> bool {
    'a' <= c <= 'z' || 'A' <= c <= 'Z' || c == '_'
}

/// Whether `s` is an identifier.
pub open spec fn identifier(s: Seq<char>) -> bool {
    &&& s.len() > 0
    &&& starts_token(s[0])
    &&& forall|i: int| 0 < i < s.len() ==> is_ascii_alnum(#[trigger] s[i]) || s[i] == '_'
}

/// Whether `q` is a path of two or more identifiers.
pub open spec fn standalone_path(q: Seq<char>) -> bool {
    &&& first_at(q, "::"@) >= 0
    &&& forall|i: int| 0 <= i < pieces(q, "::"@).len() ==> identifier(#[trigger] pieces(q, "::"@)[i])
}

/// Whether `q` is one token that looks like an identifier, a file or a flag.
pub open spec fn identifier_token(q: Seq<char>) -> bool {
    &&& q.len() > 0
    &&& starts_token(q[0])
    &&& forall|i: int|
        0 < i < q.len() ==> is_ascii_alnum(#[trigger] q[i]) || q[i] == '_' || q[i] == '-' || q[i]
            == '.' || q[i] == '/'
}

/// Where a query goes.
pub open spec fn route_of(query: Seq<char>, anchored: bool) -> RouteView {
    let t = trimmed(query);
    if anchored {
        RouteView::Intent(query)
    } else if quoted(t) {
        RouteView::Literal(t.subrange(1, t.len() - 1))
    } else if standalone_path(t) {
        RouteView::Literal(t)
    } else if identifier_token(t) {
        RouteView::Identifier(t)
    } else {
        RouteView::Intent(query)
    }
}

fn unquote(t: &[char]) -> (r: Option<String>)
    ensures
        match r {
            Some(s) => quoted(t@) && s@ == t@.subrange(1, t@.len() - 1),
            None => !quoted(t@),
        },
{
    if t.len() < 2 {
        return None;
    }
    let q = t[0];
    if !(q == '"' || q == '\'') || t[t.len() - 1] != q {
        return None;
    }
    let inner = vstd::slice::slice_subrange(t, 1, t.len() - 1);
    let k = find_from(inner, q, 0);
    proof {
        if inner@.contains(q) {
            let j = choose|j: int| 0 <= j < inner@.len() && inner@[j] == q;
            assert(inner@[j] == q);
        } else if k < inner@.len() {
            assert(inner@.contains(inner@[k as int]));
        }
    }
    if trim(inner).len() > 0 && k == inner.len() {
        Some(string_of(inner))
    } else {
        None
    }
}

fn token_start(c: char) -> (r: bool)
    ensures
        r == starts_token(c),
{
    ('a' <= c && c <= 'z') || ('A' <= c && c <= 'Z') || c == '_'
}

fn is_identifier(s: &str) -> (r: bool)
    ensures
        r == identifier(s@),
{
    let cs = chars_of(s);
    if cs.len() == 0 || !token_start(cs[0]) {
        return false;
    }
    let mut i: usize = 1;
    while i < cs.len()
        invariant
            1 <= i <= cs@.len(),
            cs@ == s@,
            forall|j: int| 0 < j < i ==> is_ascii_alnum(#[trigger] cs@[j]) || cs@[j] == '_',
        decreases cs@.len() - i,
    {
        if !(ascii_alnum(cs[i]) || cs[i] == '_') {
            return false;
        }
        i += 1;
    }
    true
}

fn is_standalone_path(t: &[char]) -> (r: bool)
    ensures
        r == standalone_path(t@),
{
    if find_text(t, "::").is_none() {
        return false;
    }
    proof {
        reveal_strlit("::");
    }
    let parts = split_text(string_of(t).as_str(), "::");
    let mut i: usize = 0;
    while i < parts.len()
        invariant
            i <= parts@.len(),
            texts(parts@) == pieces(t@, "::"@),
            forall|j: int| 0 <= j < i ==> identifier(#[trigger] pieces(t@, "::"@)[j]),
        decreases parts@.len() - i,
    {
        proof {
            assert(pieces(t@, "::"@)[i as int] == parts@[i as int]@);
        }
        if !is_identifier(parts[i].as_str()) {
            return false;
        }
        i += 1;
    }
    true
}

fn is_identifier_token(t: &[char]) -> (r: bool)
    ensures
        r == identifier_token(t@),
{
    if t.len() == 0 || !token_start(t[0]) {
        return false;
    }
    let mut i: usize = 1;
    while i < t.len()
        invariant
            1 <= i <= t@.len(),
            forall|j: int|
                0 < j < i ==> is_ascii_alnum(#[trigger] t@[j]) || t@[j] == '_' || t@[j] == '-'
                    || t@[j] == '.' || t@[j] == '/',
        decreases t@.len() - i,
    {
        let c = t[i];
        if !(ascii_alnum(c) || c == '_' || c == '-' || c == '.' || c == '/') {
            return false;
        }
        i += 1;
    }
    true
}

/// Classify `query`. Non-empty `fts` anchors force [`Route::Intent`]:
/// the caller already supplied exact terms, so the shortcut is skipped.
pub fn route(query: &str, fts: &[String]) -> (r: Route)
    ensures
        r@ == route_of(query@, fts@.len() > 0),
{
    if fts.len() > 0 {
        return Route::Intent(query.to_owned());
    }
    let cs = chars_of(query);
    let t = trim(&cs);
    if let Some(literal) = unquote(t) {
        return Route::Literal(literal);
    }
    if is_standalone_path(t) {
        return Route::Literal(string_of(t));
    }
    if is_identifier_token(t) {
        return Route::Identifier(string_of(t));
    }
    Route::Intent(query.to_owned())
}

/// Anchors send every query to hybrid search, as it was asked.
pub proof fn anchors_force_intent(query: Seq<char>)
    ensures
        route_of(query, true) == RouteView::Intent(query),
{
}

/// White space around a query makes no difference to a literal or an
/// identifier, and a query that is neither is handed on untouched.
pub proof fn routing_trims(query: Seq<char>)
    ensures
        match route_of(query, false) {
            RouteView::Literal(s) => route_of(trimmed(query), false) == RouteView::Literal(s),
            RouteView::Identifier(s) => s == trimmed(query) && route_of(s, false)
                == RouteView::Identifier(s),
            RouteView::Intent(s) => s == query && (route_of(trimmed(query), false) matches
                RouteView::Intent(_)),
        },
{
    crate::text::lemma_trimmed(query);
}

/// What goes to literal search is not blank, and goes there as the pattern
/// that the search itself would make of the query.
pub proof fn literals_agree_with_search(query: Seq<char>)
    ensures
        match route_of(query, false) {
            RouteView::Literal(s) => s.len() > 0 && s == crate::rg::normalized(query),
            _ => true,
        },
{
    let t = trimmed(query);
    if quoted(t) {
        if t.subrange(1, t.len() - 1).len() == 0 {
            assert(trimmed(t.subrange(1, t.len() - 1)).len() == 0);
        }
    } else if standalone_path(t) {
        crate::text::lemma_first_at_is(t, "::"@);
        reveal_strlit("::");
    }
}

/// A text in quotes goes to literal search as it stands between them.
pub proof fn quoted_text_is_literal(s: Seq<char>, q: char)
    requires
        q == '"' || q == '\'',
        trimmed(s).len() > 0,
        !s.contains(q),
    ensures
        route_of(seq![q] + s + seq![q], false) == RouteView::Literal(s),
{
    let w = seq![q] + s + seq![q];
    assert(w[0] == q && w.last() == q);
    crate::text::lemma_trimmed(w);
    assert(w.subrange(1, w.len() - 1) =~= s);
}

/// One token goes to the index as it is: a letter or an underscore and then
/// letters, digits, `_`, `-`, `.` and `/`; and only such a token does.
pub proof fn tokens_are_identifiers(s: Seq<char>)
    requires
        s.len() > 0,
    ensures
        ('a' <= s[0] <= 'z' || 'A' <= s[0] <= 'Z' || s[0] == '_') && (forall|i: int|
            0 < i < s.len() ==> ('a' <= #[trigger] s[i] <= 'z' || 'A' <= s[i] <= 'Z' || '0' <= s[i]
                <= '9' || s[i] == '_' || s[i] == '-' || s[i] == '.' || s[i] == '/')) ==> route_of(
            s,
            false,
        ) == RouteView::Identifier(s),
        route_of(s, false) matches RouteView::Identifier(t) ==> t.len() > 0 && ('a' <= t[0] <= 'z'
            || 'A' <= t[0] <= 'Z' || t[0] == '_') && (forall|i: int|
            0 < i < t.len() ==> ('a' <= #[trigger] t[i] <= 'z' || 'A' <= t[i] <= 'Z' || '0' <= t[i]
                <= '9' || t[i] == '_' || t[i] == '-' || t[i] == '.' || t[i] == '/')),
{
    let ok = ('a' <= s[0] <= 'z' || 'A' <= s[0] <= 'Z' || s[0] == '_') && (forall|i: int|
        0 < i < s.len() ==> ('a' <= #[trigger] s[i] <= 'z' || 'A' <= s[i] <= 'Z' || '0' <= s[i]
            <= '9' || s[i] == '_' || s[i] == '-' || s[i] == '.' || s[i] == '/'));
    if ok {
        assert(!crate::text::is_white(s[0]));
        assert(!crate::text::is_white(s[s.len() - 1]));
        crate::text::lemma_trimmed(s);
        assert(trimmed(s) == s);
        assert(!standalone_path(s)) by {
            reveal_strlit("::");
            crate::text::lemma_first_at_is(s, "::"@);
            let k = first_at(s, "::"@);
            if k >= 0 {
                assert("::"@.is_prefix_of(s.skip(k)));
                assert(s.skip(k)[0] == s.skip(k).subrange(0, 2)[0]);
                assert(s[k] == ':');
            }
        }
    }
}

/// A path of two identifiers goes to literal search whole.
pub proof fn standalone_paths_are_literal(a: Seq<char>, b: Seq<char>)
    requires
        identifier(a),
        identifier(b),
    ensures
        route_of(a + "::"@ + b, false) == RouteView::Literal(a + "::"@ + b),
{
    reveal_strlit("::");
    let s = a + "::"@ + b;
    let n = a.len() as int;
    assert(s[0] == a[0]);
    assert(s.last() == b.last());
    assert(!crate::text::is_white(s[0]));
    assert(!crate::text::is_white(b[b.len() - 1]));
    crate::text::lemma_trimmed(s);
    lemma_no_colons(a);
    lemma_no_colons(b);
    assert(s.skip(n) =~= "::"@ + b);
    assert("::"@ =~= s.skip(n).subrange(0, 2));
    assert forall|j: int| 0 <= j < n implies !"::"@.is_prefix_of(#[trigger] s.skip(j)) by {
        assert(s.skip(j)[0] == a[j]);
        if "::"@.is_prefix_of(s.skip(j)) {
            assert(s.skip(j).subrange(0, 2)[0] == ':');
        }
    }
    crate::text::lemma_first_at(s, "::"@, n);
    assert(s.take(n) =~= a);
    assert(s.skip(n + 2) =~= b);
    crate::text::lemma_first_at_is(b, "::"@);
    assert(first_at(b, "::"@) < 0) by {
        let k = first_at(b, "::"@);
        if k >= 0 {
            assert("::"@.is_prefix_of(b.skip(k)));
            assert(b.skip(k).subrange(0, 2)[0] == ':');
            assert(b[k] == ':');
        }
    }
    assert(pieces(b, "::"@) =~= seq![b]);
    assert(pieces(s, "::"@) =~= seq![a, b]);
    assert forall|i: int| 0 <= i < pieces(s, "::"@).len() implies identifier(
        #[trigger] pieces(s, "::"@)[i],
    ) by {
        assert(pieces(s, "::"@)[i] == seq![a, b][i]);
    }
}

proof fn lemma_no_colons(a: Seq<char>)
    requires
        identifier(a),
    ensures
        forall|i: int| 0 <= i < a.len() ==> #[trigger] a[i] != ':',
{
}

/// A query of several words that is not in quotes goes to hybrid search as it
/// was asked.
pub proof fn questions_are_intents(query: Seq<char>, k: int)
    requires
        0 <= k < trimmed(query).len(),
        crate::text::is_white(trimmed(query)[k]),
        trimmed(query)[0] != '"' && trimmed(query)[0] != '\'',
        first_at(query, "::"@) < 0,
        first_at(trimmed(query), "::"@) < 0,
    ensures
        route_of(query, false) == RouteView::Intent(query),
{
    crate::text::lemma_trimmed(query);
    assert(k > 0);
}

} // verus!
