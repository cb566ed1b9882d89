//! Ranking over a closed retrieval shortlist by the Jev scoring service.
//!
//! Retrieval makes the shortlist; Jev scores each candidate with a Noul and
//! an `exists` Noul (does any candidate answer). What is asked, how the
//! answers order the shortlist, where the key comes from and what may be
//! said when something fails is decided here. Key values are never put into
//! notes or errors.

use vstd::prelude::*;
use vstd::string::StrSliceExecFns;
use crate::bytes::{byte_len, byte_prefix, fit, within};
use crate::error::{Error, ErrorView};
use crate::fuse::{copy_scored, is_named, named, rescored, unnamed, FusedHit, FusedView};
use crate::order::{score_above, score_key, sort, sorted, views, Ranked};
use crate::text::{
    chars_of, decimal, decimal_of, find_from, first_at, is_white, lemma_decimal_injective,
    lemma_first_at, lemma_first_at_is, lines, lines_of, ltrimmed, opt_text, pieces, same_chars,
    split_text, starts_with, string_of, texts, trim, trim_start, trimmed, until, white,
};

verus! {

/// Process-env key name (also the assignment key in config files).
pub const ENV_API_KEY: &'static str = "TYPESAFE_API_KEY";

/// Where the key may be assigned, below the home directory.
pub const DOTENV_REL: &'static str = ".config/typesafe.env";

/// Where the key may be assigned next, below the home directory.
pub const ENVIRONMENTD_REL: &'static str = ".config/environment.d/60-typesafe.conf";

/// Names the service in the process environment.
pub const ENV_BASE_URL: &'static str = "TYPESAFE_BASE_URL";

/// Names the model in the process environment.
pub const ENV_MODEL: &'static str = "JEV_MCP_MODEL";

/// The service that is asked unless another is named.
pub const DEFAULT_BASE_URL: &'static str = "https://api.typesafe.ai";

/// The model that is asked unless another is named.
pub const DEFAULT_MODEL: &'static str = "jev-1.13.0";

/// How much of a candidate is put into a request, in bytes.
pub const STATE_CHARS: usize = 800;

/// How much of a refusal is repeated, in bytes.
pub const ERROR_CAP: usize = 180;

/// `s` behind a pair of quotes, or `s` itself where it has none around it.
pub open spec fn unquoted(s: Seq<char>) -> Seq<char> {
    if s.len() >= 2 && (s[0] == '"' || s[0] == '\'') && s.last() == s[0] {
        s.subrange(1, s.len() - 1)
    } else {
        s
    }
}

fn unquote(s: &[char]) -> (r: String)
    ensures
        r@ == unquoted(s@),
{
    if s.len() >= 2 && (s[0] == '"' || s[0] == '\'') && s[s.len() - 1] == s[0] {
        string_of(vstd::slice::slice_subrange(s, 1, s.len() - 1))
    } else {
        string_of(s)
    }
}

/// A line without the word `export` in front of it.
pub open spec fn unexported(line: Seq<char>) -> Seq<char> {
    let rest = line.skip(6);
    if "export"@.is_prefix_of(line) && rest.len() > 0 && is_white(rest[0]) {
        ltrimmed(rest)
    } else {
        line
    }
}

/// The value that a line assigns to `key`, unquoted; `None` where it is
/// blank, a comment or something else.
pub open spec fn line_value(raw: Seq<char>, key: Seq<char>) -> Option<Seq<char>> {
    let line = trimmed(raw);
    let body = unexported(line);
    let k = until(body, '=');
    if line.len() == 0 || line[0] == '#' || k >= body.len() || trimmed(body.take(k)) != key {
        None
    } else {
        Some(unquoted(trimmed(body.skip(k + 1))))
    }
}

/// The value of the last of the first `n` lines that assigns one to `key`.
pub open spec fn last_value(ls: Seq<Seq<char>>, key: Seq<char>, n: int) -> Option<Seq<char>>
    decreases n,
{
    if n <= 0 {
        None
    } else {
        match line_value(ls[n - 1], key) {
            Some(v) => Some(v),
            None => last_value(ls, key, n - 1),
        }
    }
}

/// `v` unless it is empty.
pub open spec fn unless_empty(v: Option<Seq<char>>) -> Option<Seq<char>> {
    match v {
        Some(s) => if s.len() > 0 {
            Some(s)
        } else {
            None
        },
        None => None,
    }
}

/// The value that `contents` assigns to `key`: that of the last assignment,
/// unless it is empty.
pub open spec fn assigned(contents: Seq<char>, key: Seq<char>) -> Option<Seq<char>> {
    unless_empty(last_value(lines_of(contents), key, lines_of(contents).len() as int))
}

fn value_in_line(raw: &str, key: &str) -> (r: Option<String>)
    ensures
        opt_text(r) == line_value(raw@, key@),
{
    let cs = chars_of(raw);
    let line = trim(&cs);
    if line.len() == 0 || line[0] == '#' {
        return None;
    }
    let mut body = line;
    proof {
        reveal_strlit("export");
    }
    if starts_with(line, "export") {
        let rest = vstd::slice::slice_subrange(line, 6, line.len());
        proof {
            assert(rest@ =~= line@.skip(6));
        }
        if rest.len() > 0 && white(rest[0]) {
            body = trim_start(rest);
        }
    }
    let k = find_from(body, '=', 0);
    proof {
        assert(body@ == unexported(line@));
        assert(body@.skip(0) =~= body@);
    }
    if k >= body.len() {
        return None;
    }
    let lhs = vstd::slice::slice_subrange(body, 0, k);
    let rhs = vstd::slice::slice_subrange(body, k + 1, body.len());
    proof {
        assert(lhs@ =~= body@.take(k as int));
        assert(rhs@ =~= body@.skip(k + 1));
    }
    if !same_chars(trim(lhs), &chars_of(key)) {
        return None;
    }
    Some(unquote(trim(rhs)))
}

/// Parse `KEY=value` / `export KEY=value` lines; last matching assignment wins.
pub fn parse_assignment_value(contents: &str, key: &str) -> (r: Option<String>)
    ensures
        opt_text(r) == assigned(contents@, key@),
{
    let ls = lines(contents);
    let ghost t = texts(ls@);
    let mut found: Option<String> = None;
    let mut i: usize = 0;
    while i < ls.len()
        invariant
            i <= ls@.len(),
            t == texts(ls@),
            opt_text(found) == last_value(t, key@, i as int),
        decreases ls@.len() - i,
    {
        proof {
            assert(t[i as int] == ls@[i as int]@);
        }
        if let Some(v) = value_in_line(ls[i].as_str(), key) {
            found = Some(v);
        }
        i += 1;
    }
    match found {
        None => None,
        Some(v) => if chars_of(v.as_str()).len() > 0 {
            Some(v)
        } else {
            None
        },
    }
}

/// A value without surrounding white space, unless nothing is left.
pub open spec fn nonblank(v: Option<Seq<char>>) -> Option<Seq<char>> {
    match v {
        Some(s) => unless_empty(Some(trimmed(s))),
        None => None,
    }
}

fn nonempty(value: Option<&str>) -> (r: Option<String>)
    ensures
        opt_text(r) == nonblank(
            match value {
                Some(s) => Some(s@),
                None => None,
            },
        ),
{
    match value {
        None => None,
        Some(s) => {
            let cs = chars_of(s);
            let t = trim(&cs);
            if t.len() > 0 {
                Some(string_of(t))
            } else {
                None
            }
        },
    }
}

/// A config file that is there.
#[derive(Debug)]
pub enum KeyFile {
    /// What the file holds.
    Text(String),
    /// The path of a file that cannot be read.
    Unreadable(String),
}

/// What a config file says about the key: its value, nothing, or why it
/// cannot be told.
pub open spec fn file_key(f: Option<KeyFile>) -> Result<Option<Seq<char>>, ErrorView> {
    match f {
        None => Ok(None),
        Some(KeyFile::Unreadable(path)) => Err(ErrorView::Jev("could not read "@ + path@)),
        Some(KeyFile::Text(t)) => Ok(nonblank(assigned(t@, ENV_API_KEY@))),
    }
}

fn read_key_file(f: &Option<KeyFile>) -> (r: Result<Option<String>, Error>)
    ensures
        match r {
            Ok(v) => file_key(*f) == Ok::<_, ErrorView>(opt_text(v)),
            Err(e) => file_key(*f) == Err::<Option<Seq<char>>, _>(e@),
        },
{
    match f {
        None => Ok(None),
        Some(KeyFile::Unreadable(path)) => {
            let mut m = "could not read ".to_owned();
            m.append(path.as_str());
            Err(Error::Jev(m))
        },
        Some(KeyFile::Text(t)) => match parse_assignment_value(t.as_str(), ENV_API_KEY) {
            None => Ok(None),
            Some(v) => Ok(nonempty(Some(v.as_str()))),
        },
    }
}

/// What a caller is told when there is no key: where it was looked for.
pub open spec fn missing_key() -> Seq<char> {
    "missing `"@ + ENV_API_KEY@ + "` (checked process env, ~/"@ + DOTENV_REL@ + ", ~/"@
        + ENVIRONMENTD_REL@ + ")"@
}

/// The key: from the process environment, then from the first config file,
/// then from the second one.
pub open spec fn key_of(env: Option<Seq<char>>, dotenv: Option<KeyFile>, environmentd: Option<KeyFile>) -> Result<
    Seq<char>,
    ErrorView,
> {
    match nonblank(env) {
        Some(k) => Ok(k),
        None => match file_key(dotenv) {
            Err(e) => Err(e),
            Ok(Some(k)) => Ok(k),
            Ok(None) => match file_key(environmentd) {
                Err(e) => Err(e),
                Ok(Some(k)) => Ok(k),
                Ok(None) => Err(ErrorView::Jev(missing_key())),
            },
        },
    }
}

/// The key chain: env string, then dotenv file, then environment.d file.
/// Errors name sources, never key values.
pub fn resolve_api_key(env_value: Option<&str>, dotenv: Option<KeyFile>, environmentd: Option<KeyFile>) -> (r:
    Result<String, Error>)
    ensures
        match r {
            Ok(k) => key_of(
                match env_value {
                    Some(s) => Some(s@),
                    None => None,
                },
                dotenv,
                environmentd,
            ) == Ok::<_, ErrorView>(k@),
            Err(e) => key_of(
                match env_value {
                    Some(s) => Some(s@),
                    None => None,
                },
                dotenv,
                environmentd,
            ) == Err::<Seq<char>, _>(e@),
        },
{
    if let Some(k) = nonempty(env_value) {
        return Ok(k);
    }
    match read_key_file(&dotenv) {
        Err(e) => {
            return Err(e);
        },
        Ok(Some(k)) => {
            return Ok(k);
        },
        Ok(None) => {},
    }
    match read_key_file(&environmentd) {
        Err(e) => Err(e),
        Ok(Some(k)) => Ok(k),
        Ok(None) => {
            let mut m = "missing `".to_owned();
            m.append(ENV_API_KEY);
            m.append("` (checked process env, ~/");
            m.append(DOTENV_REL);
            m.append(", ~/");
            m.append(ENVIRONMENTD_REL);
            m.append(")");
            Err(Error::Jev(m))
        },
    }
}

/// A key of the process environment wins over whatever the files hold, and
/// the first file over the second.
pub proof fn key_chain_prefers_first(env: Option<Seq<char>>, a: Option<KeyFile>, b: Option<KeyFile>)
    ensures
        nonblank(env) matches Some(k) ==> key_of(env, a, b) == Ok::<_, ErrorView>(k),
        nonblank(env) is None && (file_key(a) matches Ok(Some(k))) ==> key_of(env, a, b)
            == Ok::<_, ErrorView>(file_key(a)->Ok_0->0),
{
}

/// What goes wrong with the key says nothing about any value: it is the list
/// of places that were looked at, or the path of a file that cannot be read.
pub proof fn key_errors_hold_no_value(env: Option<Seq<char>>, a: Option<KeyFile>, b: Option<KeyFile>)
    ensures
        key_of(env, a, b) matches Err(e) ==> e == ErrorView::Jev(missing_key()) || (a matches Some(
            KeyFile::Unreadable(p),
        ) && e == ErrorView::Jev("could not read "@ + p@)) || (b matches Some(
            KeyFile::Unreadable(p),
        ) && e == ErrorView::Jev("could not read "@ + p@)),
{
}

/// Characters that end a token in an HTTP message.
pub open spec fn ends_token(c: char) -> bool {
    is_white(c) || c == '"' || c == ','
}

/// How many characters of `s` come before the first that ends a token.
pub open spec fn token_len(s: Seq<char>) -> int
    decreases s.len(),
{
    if s.len() == 0 || ends_token(s[0]) {
        0
    } else {
        1 + token_len(s.skip(1))
    }
}

/// The parts of a message between its bearer tokens, the tokens blotted out.
pub open spec fn blotted(parts: Seq<Seq<char>>) -> Seq<char>
    decreases parts.len(),
{
    if parts.len() == 0 {
        Seq::empty()
    } else if parts.len() == 1 {
        parts[0]
    } else {
        blotted(parts.drop_last()) + "Bearer <redacted>"@ + parts.last().skip(
            token_len(parts.last()),
        )
    }
}

/// A message without the tokens that follow `Bearer `.
pub open spec fn sanitized(msg: Seq<char>) -> Seq<char> {
    blotted(pieces(msg, "Bearer "@))
}

proof fn lemma_token_len(s: Seq<char>, k: int)
    requires
        0 <= k <= s.len(),
        forall|j: int| 0 <= j < k ==> !ends_token(#[trigger] s[j]),
        k < s.len() ==> ends_token(s[k]),
    ensures
        token_len(s) == k,
    decreases k,
{
    if k > 0 {
        let t = s.skip(1);
        assert forall|j: int| 0 <= j < k - 1 implies !ends_token(#[trigger] t[j]) by {
            assert(t[j] == s[j + 1]);
        }
        lemma_token_len(t, k - 1);
    }
}

/// Strip accidental bearer tokens if a library interpolates headers.
pub fn sanitize_http(msg: &str) -> (r: String)
    ensures
        r@ == sanitized(msg@),
{
    proof {
        reveal_strlit("Bearer ");
    }
    let parts = split_text(msg, "Bearer ");
    let ghost pv = texts(parts@);
    let mut out = String::new();
    let mut i: usize = 0;
    proof {
        assert(out@ =~= blotted(pv.take(0)));
    }
    while i < parts.len()
        invariant
            i <= parts@.len(),
            pv == texts(parts@),
            out@ == blotted(pv.take(i as int)),
        decreases parts@.len() - i,
    {
        proof {
            assert(pv.take(i + 1).drop_last() =~= pv.take(i as int));
            assert(pv.take(i + 1).last() == parts@[i as int]@);
        }
        if i == 0 {
            out.append(parts[0].as_str());
            proof {
                assert(out@ =~= parts@[0]@);
            }
        } else {
            let cs = chars_of(parts[i].as_str());
            let mut k: usize = 0;
            while k < cs.len() && !(white(cs[k]) || cs[k] == '"' || cs[k] == ',')
                invariant
                    k <= cs@.len(),
                    forall|j: int| 0 <= j < k ==> !ends_token(#[trigger] cs@[j]),
                decreases cs@.len() - k,
            {
                k += 1;
            }
            proof {
                lemma_token_len(cs@, k as int);
                assert(cs@.subrange(k as int, cs@.len() as int) =~= cs@.skip(k as int));
            }
            out.append("Bearer <redacted>");
            out.append(string_of(vstd::slice::slice_subrange(&cs, k, cs.len())).as_str());
        }
        i += 1;
    }
    proof {
        assert(pv.take(i as int) =~= pv);
    }
    out
}

/// What is shown of later parts does not depend on the earlier ones.
proof fn lemma_blotted_concat(xs: Seq<Seq<char>>, ys: Seq<Seq<char>>)
    requires
        xs.len() > 0,
    ensures
        blotted(xs + ys) == blotted(xs) + blotted(seq![Seq::<char>::empty()] + ys),
    decreases ys.len(),
{
    let e = seq![Seq::<char>::empty()];
    if ys.len() == 0 {
        assert(xs + ys =~= xs);
        assert(e + ys =~= e);
        assert(blotted(e) =~= Seq::<char>::empty());
        assert(blotted(xs) + blotted(e) =~= blotted(xs));
    } else {
        let t = ys.drop_last();
        lemma_blotted_concat(xs, t);
        assert((xs + ys).drop_last() =~= xs + t);
        assert((e + ys).drop_last() =~= e + t);
        assert((xs + ys).last() == ys.last());
        assert((e + ys).last() == ys.last());
        assert(blotted(xs + ys) =~= blotted(xs) + blotted(e + ys));
    }
}

/// A token in front of a text makes no new occurrence of `Bearer `.
proof fn lemma_token_in_front(v: Seq<char>, t: Seq<char>)
    requires
        forall|i: int| 0 <= i < v.len() ==> !ends_token(#[trigger] v[i]),
        first_at(v, "Bearer"@) < 0,
        t.len() > 0 ==> ends_token(t[0]),
    ensures
        first_at(t, "Bearer "@) < 0 ==> first_at(v + t, "Bearer "@) < 0,
        first_at(t, "Bearer "@) >= 0 ==> first_at(v + t, "Bearer "@) == v.len() + first_at(
            t,
            "Bearer "@,
        ),
{
    reveal_strlit("Bearer ");
    reveal_strlit("Bearer");
    let p = "Bearer "@;
    let s = v + t;
    let n = v.len() as int;
    lemma_first_at_is(t, p);
    lemma_first_at_is(v, "Bearer"@);
    assert forall|j: int| 0 <= j < n implies !p.is_prefix_of(#[trigger] s.skip(j)) by {
        let r = s.skip(j);
        if p.is_prefix_of(r) {
            assert(r.subrange(0, 7) =~= p);
            assert forall|i: int| 0 <= i < 7 implies s[j + i] == #[trigger] p[i] by {
                assert(r.subrange(0, 7)[i] == p[i]);
                assert(r[i] == s[j + i]);
            }
            assert(s[j + 6] == p[6]);
            if j + 6 < n {
                assert(s[j + 6] == v[j + 6]);
                assert(ends_token(' '));
            } else if n < j + 6 {
                assert(s[n] == t[0]);
                assert(s[j + (n - j)] == p[n - j]);
                assert(0 < n - j < 6);
                assert(!ends_token(p[n - j]));
            } else {
                let w = v.skip(j);
                assert(w =~= "Bearer"@) by {
                    assert forall|i: int| 0 <= i < 6 implies #[trigger] w[i] == "Bearer"@[i] by {
                        assert(w[i] == s[j + i]);
                        assert(s[j + i] == p[i]);
                    }
                }
                assert("Bearer"@.is_prefix_of(w)) by {
                    assert(w.subrange(0, 6) =~= "Bearer"@);
                }
            }
        }
    }
    let k = first_at(t, p);
    if k >= 0 {
        assert forall|j: int| 0 <= j < n + k implies !p.is_prefix_of(#[trigger] s.skip(j)) by {
            if j >= n {
                assert(s.skip(j) =~= t.skip(j - n));
            }
        }
        assert(s.skip(n + k) =~= t.skip(k));
        lemma_first_at(s, p, n + k);
    } else {
        lemma_first_at_is(s, p);
        let m = first_at(s, p);
        if m >= 0 {
            if m >= n {
                assert(s.skip(m) =~= t.skip(m - n));
            }
            assert(!p.is_prefix_of(s.skip(m)));
        }
    }
}

/// The parts of a message are what stands before its first `Bearer ` and the
/// parts of what follows it.
proof fn lemma_pieces_front(a: Seq<char>, x: Seq<char>)
    requires
        first_at(a + "Bearer "@, "Bearer "@) == a.len(),
    ensures
        pieces(a + "Bearer "@ + x, "Bearer "@) == seq![a] + pieces(x, "Bearer "@),
{
    reveal_strlit("Bearer ");
    let p = "Bearer "@;
    let n = a.len() as int;
    let h = a + p;
    let s = h + x;
    lemma_first_at_is(h, p);
    assert forall|j: int| 0 <= j < n implies !p.is_prefix_of(#[trigger] s.skip(j)) by {
        if p.is_prefix_of(s.skip(j)) {
            assert(h.skip(j).subrange(0, 7) =~= s.skip(j).subrange(0, 7));
            assert(p.is_prefix_of(h.skip(j)));
        }
    }
    assert(s.skip(n).subrange(0, 7) =~= p);
    lemma_first_at(s, p, n);
    assert(s.take(n) =~= a);
    assert(s.skip(n + 7) =~= x);
}

/// The parts of a text with a token in front are those of the text, the token
/// in front of the first.
proof fn lemma_pieces_token(v: Seq<char>, t: Seq<char>)
    requires
        forall|i: int| 0 <= i < v.len() ==> !ends_token(#[trigger] v[i]),
        first_at(v, "Bearer"@) < 0,
        t.len() > 0 ==> ends_token(t[0]),
    ensures
        pieces(t, "Bearer "@).len() > 0,
        pieces(v + t, "Bearer "@) == seq![v + pieces(t, "Bearer "@)[0]] + pieces(
            t,
            "Bearer "@,
        ).skip(1),
        token_len(v + pieces(t, "Bearer "@)[0]) == v.len(),
{
    reveal_strlit("Bearer ");
    let p = "Bearer "@;
    lemma_token_in_front(v, t);
    let ps = pieces(t, p);
    let k = first_at(t, p);
    lemma_first_at_is(t, p);
    let w = v + ps[0];
    let rest = ps.skip(1);
    if k >= 0 {
        assert((v + t).take(v.len() + k) =~= w);
        assert((v + t).skip(v.len() + k + 7) =~= t.skip(k + 7));
        assert(rest =~= pieces(t.skip(k + 7), p));
    } else {
        assert(rest =~= Seq::<Seq<char>>::empty());
        assert(seq![v + t] + rest =~= seq![v + t]);
    }
    assert forall|j: int| 0 <= j < v.len() implies !ends_token(#[trigger] w[j]) by {
        assert(w[j] == v[j]);
    }
    if v.len() < w.len() {
        assert(w[v.len() as int] == t[0]);
    }
    lemma_token_len(w, v.len() as int);
}

/// A bearer token is not repeated, whatever it is: a message that holds one
/// reads the same for every such token.
pub proof fn bearer_tokens_never_show(a: Seq<char>, v: Seq<char>, t: Seq<char>)
    requires
        first_at(a + "Bearer "@, "Bearer "@) == a.len(),
        forall|i: int| 0 <= i < v.len() ==> !ends_token(#[trigger] v[i]),
        first_at(v, "Bearer"@) < 0,
        t.len() > 0 ==> ends_token(t[0]),
    ensures
        sanitized(a + "Bearer "@ + (v + t)) == a + "Bearer <redacted>"@ + sanitized(t),
{
    lemma_pieces_front(a, v + t);
    lemma_pieces_token(v, t);
    let ps = pieces(t, "Bearer "@);
    let w = v + ps[0];
    let rest = ps.skip(1);
    assert(ps =~= seq![ps[0]] + rest);
    assert(w.skip(v.len() as int) =~= ps[0]);
    let two = seq![a, w];
    assert(seq![a] + (seq![w] + rest) =~= two + rest);
    lemma_blotted_concat(two, rest);
    lemma_blotted_concat(seq![ps[0]], rest);
    assert(two.drop_last() =~= seq![a]);
    assert(two.last() == w);
    assert(blotted(seq![a]) == a);
    assert(blotted(two) == a + "Bearer <redacted>"@ + ps[0]);
    assert(blotted(seq![ps[0]]) == ps[0]);
    assert(a + "Bearer <redacted>"@ + ps[0] + blotted(seq![Seq::<char>::empty()] + rest) =~= a
        + "Bearer <redacted>"@ + (ps[0] + blotted(seq![Seq::<char>::empty()] + rest)));
}

/// The start of a text, with a sign that it was cut.
pub open spec fn shortened(text: Seq<char>) -> Seq<char> {
    let t = trimmed(text);
    if byte_len(t) <= ERROR_CAP {
        t
    } else {
        byte_prefix(t, ERROR_CAP as int) + "…"@
    }
}

/// The start of a text, with a sign that it was cut.
pub fn truncate_err(text: &str) -> (r: String)
    ensures
        r@ == shortened(text@),
{
    let cs = chars_of(text);
    let t = trim(&cs);
    if within(t, ERROR_CAP) {
        return string_of(t);
    }
    let k = fit(t, ERROR_CAP);
    proof {
        assert(t@.subrange(0, k as int) =~= t@.take(k as int));
    }
    let mut out = string_of(vstd::slice::slice_subrange(t, 0, k));
    out.append("…");
    out
}

/// What is said of a refusal by the service.
pub open spec fn refusal_of(status: Seq<char>, body: Seq<char>) -> Seq<char> {
    "systemone HTTP "@ + status + ": "@ + sanitized(shortened(body))
}

/// What is said of a refusal by the service: its status and the start of its
/// answer, without tokens.
pub fn http_error(status: &str, body: &str) -> (r: Error)
    ensures
        r@ == ErrorView::Jev("systemone HTTP "@ + status@ + ": "@ + sanitized(shortened(body@))),
        r@ == ErrorView::Jev(refusal_of(status@, body@)),
{
    let mut m = "systemone HTTP ".to_owned();
    m.append(status);
    m.append(": ");
    m.append(sanitize_http(truncate_err(body).as_str()).as_str());
    Error::Jev(m)
}

/// `s` without the slashes at its end.
pub open spec fn unslashed(s: Seq<char>) -> Seq<char>
    decreases s.len(),
{
    if s.len() > 0 && s.last() == '/' {
        unslashed(s.drop_last())
    } else {
        s
    }
}

/// Where requests are sent, given where the service is.
pub open spec fn endpoint_of(base: Seq<char>) -> Seq<char> {
    unslashed(base) + "/v1/systemone"@
}

/// Where requests are sent, given where the service is.
pub fn endpoint(base: &str) -> (r: String)
    ensures
        r@ == unslashed(base@) + "/v1/systemone"@,
        r@ == endpoint_of(base@),
{
    let cs = chars_of(base);
    let mut i: usize = cs.len();
    proof {
        assert(cs@.take(i as int) =~= cs@);
    }
    while i > 0 && cs[i - 1] == '/'
        invariant
            cs@ == base@,
            i <= cs@.len(),
            unslashed(cs@.take(i as int)) == unslashed(cs@),
        decreases i,
    {
        proof {
            assert(cs@.take(i as int).drop_last() =~= cs@.take(i - 1));
        }
        i -= 1;
    }
    proof {
        assert(cs@.take(i as int) =~= cs@.subrange(0, i as int));
    }
    let mut out = string_of(vstd::slice::slice_subrange(&cs, 0, i));
    out.append("/v1/systemone");
    out
}

/// The part of a candidate that a request holds.
pub fn truncate_state(text: &str) -> (r: &str)
    ensures
        r@ == byte_prefix(text@, STATE_CHARS as int),
{
    let cs = chars_of(text);
    let k = fit(&cs, STATE_CHARS);
    proof {
        assert(text@.subrange(0, k as int) =~= text@.take(k as int));
    }
    text.substring_char(0, k)
}

/// Whether a bit pattern of a double is no number.
pub open spec fn not_a_number(bits: u64) -> bool {
    if bits >= 0x8000_0000_0000_0000 {
        bits - 0x8000_0000_0000_0000 > 0x7ff0_0000_0000_0000
    } else {
        bits > 0x7ff0_0000_0000_0000
    }
}

/// The bit pattern of 0.30 as a double.
pub const LOW_BITS: u64 = 0x3fd3_3333_3333_3333;

/// Whether a probability is below 0.30: the setpoint under which a caller
/// verifies instead of acting.
pub open spec fn is_low(bits: u64) -> bool {
    !not_a_number(bits) && score_key(bits) < score_key(LOW_BITS)
}

/// A probability: the bit pattern of the double, and how it is shown.
#[derive(Debug)]
pub struct Reading {
    /// The bit pattern.
    pub bits: u64,
    /// The number with two decimals.
    pub shown: String,
}

/// Outcome of an optional Jev pass.
#[derive(Debug)]
pub struct RankStatus {
    /// `jev` or `fallback`.
    pub mode: &'static str,
    /// Header line for CLI / MCP (never contains the API key).
    pub note: String,
    /// Absolute P(any candidate answers), when Jev ran, as the bit pattern
    /// of a double.
    pub exists: Option<u64>,
}

/// What a [`RankStatus`] says, as mathematical values.
pub struct StatusView {
    pub mode: Seq<char>,
    pub note: Seq<char>,
    pub exists: Option<u64>,
}

impl View for RankStatus {
    type V = StatusView;

    open spec fn view(&self) -> StatusView {
        StatusView { mode: self.mode@, note: self.note@, exists: self.exists }
    }
}

/// The status of a pass that ran. The setpoint lives next to the reading:
/// below it the shortlist is flagged low-confidence.
pub open spec fn ran(exists: Option<Reading>) -> StatusView {
    match exists {
        Some(p) => StatusView {
            mode: "jev"@,
            note: if is_low(p.bits) {
                "rank: jev exists="@ + p.shown@ + " (low — verify before acting)"@
            } else {
                "rank: jev exists="@ + p.shown@
            },
            exists: Some(p.bits),
        },
        None => StatusView { mode: "jev"@, note: "rank: jev"@, exists: None },
    }
}

/// The status of a pass that did not run.
pub open spec fn fell_back(reason: Seq<char>) -> StatusView {
    StatusView { mode: "fallback"@, note: "rank: fallback ("@ + reason + ")"@, exists: None }
}

fn low(bits: u64) -> (r: bool)
    ensures
        r == is_low(bits),
{
    let m: u64 = if bits >= 0x8000_0000_0000_0000 {
        bits - 0x8000_0000_0000_0000
    } else {
        bits
    };
    m <= 0x7ff0_0000_0000_0000 && score_above(LOW_BITS, bits)
}

impl RankStatus {
    /// The status of a pass that ran.
    pub fn jev(exists: Option<Reading>) -> (r: RankStatus)
        ensures
            r@ == ran(exists),
    {
        match exists {
            None => RankStatus { mode: "jev", note: "rank: jev".to_owned(), exists: None },
            Some(p) => {
                let mut note = "rank: jev exists=".to_owned();
                note.append(p.shown.as_str());
                if low(p.bits) {
                    note.append(" (low — verify before acting)");
                }
                RankStatus { mode: "jev", note, exists: Some(p.bits) }
            },
        }
    }

    /// The status of a pass that did not run.
    pub fn fallback(reason: &str) -> (r: RankStatus)
        ensures
            r@ == fell_back(reason@),
    {
        let mut note = "rank: fallback (".to_owned();
        note.append(reason);
        note.append(")");
        RankStatus { mode: "fallback", note, exists: None }
    }
}

/// What candidates are judged by.
#[derive(Debug, Clone, Copy, PartialEq, Eq, Structural)]
pub enum NoulWording {
    /// Whether they answer a query.
    Search,
    /// Whether they fit a task.
    Skill,
}

/// What the request calls the thing that is asked about.
pub open spec fn subject(w: NoulWording) -> Seq<char> {
    match w {
        NoulWording::Search => "query"@,
        NoulWording::Skill => "task"@,
    }
}

fn subject_word(w: NoulWording) -> (r: &'static str)
    ensures
        r@ == subject(w),
{
    match w {
        NoulWording::Search => "query",
        NoulWording::Skill => "task",
    }
}

/// One candidate of a request.
#[derive(Debug)]
pub struct Candidate {
    /// What the answers call it.
    pub id: String,
    /// The start of its text.
    pub text: String,
}

impl View for Candidate {
    type V = (Seq<char>, Seq<char>);

    open spec fn view(&self) -> (Seq<char>, Seq<char>) {
        (self.id@, self.text@)
    }
}

/// One yes-or-no question of a request.
#[derive(Debug)]
pub struct Question {
    /// What the answers call it.
    pub id: String,
    /// What is asked.
    pub instructions: String,
    /// When the answer is yes.
    pub yes: String,
    /// When the answer is no.
    pub no: String,
}

/// What a [`Question`] says, as mathematical values.
pub struct QuestionView {
    pub id: Seq<char>,
    pub instructions: Seq<char>,
    pub yes: Seq<char>,
    pub no: Seq<char>,
}

impl View for Question {
    type V = QuestionView;

    open spec fn view(&self) -> QuestionView {
        QuestionView {
            id: self.id@,
            instructions: self.instructions@,
            yes: self.yes@,
            no: self.no@,
        }
    }
}

/// What the service is asked about a shortlist.
#[derive(Debug)]
pub struct NoulRequest {
    /// The name under which the state holds what is asked about.
    pub subject: &'static str,
    /// What is asked about.
    pub query: String,
    /// The shortlist.
    pub candidates: Vec<Candidate>,
    /// The questions.
    pub questions: Vec<Question>,
}

/// What candidate number `i` is called.
pub open spec fn candidate_id(i: int) -> Seq<char> {
    "c"@ + decimal(i as nat)
}

/// The question whether any candidate answers.
pub open spec fn exists_question(w: NoulWording) -> QuestionView {
    QuestionView {
        id: "exists"@,
        instructions: "Does any candidate supply evidence that answers the "@ + subject(w) + "?"@,
        yes: "At least one candidate states or implements what the "@ + subject(w) + " asks for."@,
        no: "No candidate addresses the "@ + subject(w) + "."@,
    }
}

/// The question whether candidate number `i` answers. It judges that
/// candidate alone, never by rank against the others.
pub open spec fn candidate_question(w: NoulWording, i: int) -> QuestionView {
    QuestionView {
        id: candidate_id(i),
        instructions: "Does candidate "@ + candidate_id(i) + " answer the "@ + subject(w)
            + " directly?"@,
        yes: "This candidate states or implements what the "@ + subject(w) + " asks for."@,
        no: "This candidate is only loosely related, or is an example rather than the answer."@,
    }
}

/// The candidates of a request.
pub open spec fn candidates_of(docs: Seq<Seq<char>>) -> Seq<(Seq<char>, Seq<char>)> {
    Seq::new(docs.len(), |i: int| (candidate_id(i), byte_prefix(docs[i], STATE_CHARS as int)))
}

/// The questions of a request: whether any candidate answers, and one for
/// each candidate.
pub open spec fn questions_of(w: NoulWording, n: int) -> Seq<QuestionView> {
    Seq::new(
        (n + 1) as nat,
        |i: int|
            if i == 0 {
                exists_question(w)
            } else {
                candidate_question(w, i - 1)
            },
    )
}

fn id_of(i: usize) -> (r: String)
    ensures
        r@ == candidate_id(i as int),
{
    let mut id = "c".to_owned();
    id.append(decimal_of(i as u64).as_str());
    id
}

/// What the service is asked about a shortlist.
///
/// Meter discipline: one Noul per candidate plus one `exists` Noul, each an
/// absolute P(yes) with no confidence field. Questions share the same state
/// (query + candidate list) but must not read each other's answers.
pub fn noul_request(query: &str, docs: &[String], wording: NoulWording) -> (r: NoulRequest)
    ensures
        r.subject@ == subject(wording),
        r.query@ == query@,
        views(r.candidates@) == candidates_of(texts(docs@)),
        views(r.questions@) == questions_of(wording, docs@.len() as int),
{
    let word = subject_word(wording);
    let mut candidates: Vec<Candidate> = Vec::new();
    let mut questions: Vec<Question> = Vec::new();
    let ghost cv = candidates_of(texts(docs@));
    let ghost qv = questions_of(wording, docs@.len() as int);
    let mut ask = "Does any candidate supply evidence that answers the ".to_owned();
    ask.append(word);
    ask.append("?");
    let mut yes = "At least one candidate states or implements what the ".to_owned();
    yes.append(word);
    yes.append(" asks for.");
    let mut no = "No candidate addresses the ".to_owned();
    no.append(word);
    no.append(".");
    let first = Question { id: "exists".to_owned(), instructions: ask, yes, no };
    questions.push(first);
    proof {
        assert(first@ == qv[0]);
        assert(views(questions@) =~= qv.take(1));
    }
    let mut i: usize = 0;
    while i < docs.len()
        invariant
            i <= docs@.len(),
            word@ == subject(wording),
            cv == candidates_of(texts(docs@)),
            qv == questions_of(wording, docs@.len() as int),
            views(candidates@) == cv.take(i as int),
            views(questions@) == qv.take(i + 1),
        decreases docs@.len() - i,
    {
        let ghost c0 = candidates@;
        let ghost q0 = questions@;
        let c = Candidate { id: id_of(i), text: truncate_state(docs[i].as_str()).to_owned() };
        candidates.push(c);
        let mut ask = "Does candidate ".to_owned();
        ask.append(id_of(i).as_str());
        ask.append(" answer the ");
        ask.append(word);
        ask.append(" directly?");
        let mut yes = "This candidate states or implements what the ".to_owned();
        yes.append(word);
        yes.append(" asks for.");
        let q = Question {
            id: id_of(i),
            instructions: ask,
            yes,
            no: "This candidate is only loosely related, or is an example rather than the answer.".to_owned(),
        };
        questions.push(q);
        proof {
            assert(texts(docs@)[i as int] == docs@[i as int]@);
            assert(c@ == cv[i as int]);
            assert(views(candidates@) =~= views(c0).push(c@));
            assert(views(candidates@) =~= cv.take(i + 1));
            assert(q@ == qv[i + 1]);
            assert(views(questions@) =~= views(q0).push(q@));
            assert(views(questions@) =~= qv.take(i + 2));
        }
        i += 1;
    }
    proof {
        assert(cv.take(i as int) =~= cv);
        assert(qv.take(i + 1) =~= qv);
    }
    NoulRequest { subject: word, query: query.to_owned(), candidates, questions }
}

/// A candidate and its score, as the bit pattern of a double; higher scores
/// come first, and of equal ones the earlier candidate.
#[derive(Debug)]
pub struct Scored {
    /// Which candidate.
    pub index: usize,
    /// Its score.
    pub score: u64,
}

impl View for Scored {
    type V = (usize, u64);

    open spec fn view(&self) -> (usize, u64) {
        (self.index, self.score)
    }
}

impl Ranked for Scored {
    open spec fn precedes(a: (usize, u64), b: (usize, u64)) -> bool {
        score_key(a.1) > score_key(b.1) || (score_key(a.1) == score_key(b.1) && a.0 < b.0)
    }

    fn before(&self, other: &Scored) -> (r: bool) {
        if score_above(self.score, other.score) {
            true
        } else if score_above(other.score, self.score) {
            false
        } else {
            self.index < other.index
        }
    }

    proof fn lemma_order(a: (usize, u64), b: (usize, u64), c: (usize, u64)) {
    }
}

/// Each candidate with its score; a missing one fails closed to zero.
pub open spec fn scored_in_turn(scores: Seq<Option<u64>>) -> Seq<(usize, u64)> {
    Seq::new(
        scores.len(),
        |i: int|
            (
                i as usize,
                match scores[i] {
                    Some(s) => s,
                    None => 0,
                },
            ),
    )
}

/// The candidates by score, highest first.
pub open spec fn noul_order(scores: Seq<Option<u64>>) -> Seq<(usize, u64)> {
    sorted::<Scored>(scored_in_turn(scores))
}

/// Score each doc with a Noul; sort highest first. A missing Noul fails
/// closed to 0.0.
pub fn order_nouls(scores: &[Option<u64>]) -> (r: Vec<Scored>)
    ensures
        views(r@) == noul_order(scores@),
{
    let mut v: Vec<Scored> = Vec::new();
    let ghost all = scored_in_turn(scores@);
    let mut i: usize = 0;
    while i < scores.len()
        invariant
            i <= scores@.len(),
            all == scored_in_turn(scores@),
            views(v@) == all.take(i as int),
        decreases scores@.len() - i,
    {
        let ghost before = v@;
        let s = Scored {
            index: i,
            score: match scores[i] {
                Some(s) => s,
                None => 0,
            },
        };
        v.push(s);
        proof {
            assert(all[i as int] == s@);
            assert(views(v@) =~= views(before).push(s@));
            assert(views(v@) =~= all.take(i + 1));
        }
        i += 1;
    }
    proof {
        assert(all.take(i as int) =~= all);
    }
    sort(v)
}

/// The hits that the first `n` places of an order name, with their scores;
/// places that name no hit are passed over.
pub open spec fn heads(hits: Seq<FusedView>, order: Seq<(usize, u64)>, n: int) -> Seq<FusedView>
    decreases n,
{
    if n <= 0 {
        Seq::empty()
    } else if order[n - 1].0 < hits.len() {
        heads(hits, order, n - 1).push(rescored(hits[order[n - 1].0 as int], order[n - 1].1))
    } else {
        heads(hits, order, n - 1)
    }
}

/// The hits in an order, with its scores, and behind them those that it does
/// not name.
pub open spec fn placed_by(hits: Seq<FusedView>, order: Seq<(usize, u64)>) -> Seq<FusedView> {
    heads(hits, order, order.len() as int) + unnamed(hits, order, hits.len() as int)
}

/// What came of asking the service.
#[derive(Debug)]
pub enum Outcome {
    /// It was not asked or did not answer, and why.
    Failed(String),
    /// It answered: whether any candidate answers, and the score of each
    /// candidate as the bit pattern of a double.
    Answered { exists: Option<Reading>, scores: Vec<Option<u64>> },
}

/// What the service reads of each hit.
pub open spec fn hit_docs(hits: Seq<FusedView>) -> Seq<Seq<char>> {
    Seq::new(hits.len(), |i: int| hits[i].breadcrumb + " "@ + hits[i].text)
}

/// What the service reads of each hit.
pub fn docs_of_hits(hits: &[FusedHit]) -> (r: Vec<String>)
    ensures
        texts(r@) == hit_docs(views(hits@)),
{
    let mut out: Vec<String> = Vec::new();
    let ghost all = hit_docs(views(hits@));
    let mut i: usize = 0;
    while i < hits.len()
        invariant
            i <= hits@.len(),
            all == hit_docs(views(hits@)),
            texts(out@) == all.take(i as int),
        decreases hits@.len() - i,
    {
        let ghost before = out@;
        let mut d = hits[i].breadcrumb.clone();
        d.append(" ");
        d.append(hits[i].text.as_str());
        out.push(d);
        proof {
            assert(views(hits@)[i as int] == hits@[i as int]@);
            assert(all[i as int] == d@);
            assert(texts(out@) =~= texts(before).push(d@));
            assert(texts(out@) =~= all.take(i + 1));
        }
        i += 1;
    }
    proof {
        assert(all.take(i as int) =~= all);
    }
    out
}

/// What the status of a shortlist is once the service was asked.
pub open spec fn status_after(hits: Seq<FusedView>, outcome: Outcome) -> StatusView {
    if hits.len() == 0 {
        fell_back("empty shortlist"@)
    } else {
        match outcome {
            Outcome::Failed(reason) => fell_back(reason@),
            Outcome::Answered { exists, scores } => ran(exists),
        }
    }
}

/// What becomes of a shortlist once the service was asked.
pub open spec fn hits_after(hits: Seq<FusedView>, outcome: Outcome) -> Seq<FusedView> {
    match outcome {
        Outcome::Failed(_) => hits,
        Outcome::Answered { exists, scores } => if hits.len() == 0 {
            hits
        } else {
            placed_by(hits, noul_order(scores@))
        },
    }
}

/// Reorder hits by what the service answered; otherwise leave their order and
/// report fallback. Never fails the search.
pub fn rerank_hits(hits: Vec<FusedHit>, outcome: Outcome) -> (r: (RankStatus, Vec<FusedHit>))
    ensures
        hits@.len() == 0 ==> r.0@ == fell_back("empty shortlist"@) && r.1@ == hits@,
        hits@.len() > 0 ==> match outcome {
            Outcome::Failed(reason) => r.0@ == fell_back(reason@) && r.1@ == hits@,
            Outcome::Answered { exists, scores } => r.0@ == ran(exists) && views(r.1@) == placed_by(
                views(hits@),
                noul_order(scores@),
            ),
        },
        r.0@ == status_after(views(hits@), outcome),
        views(r.1@) == hits_after(views(hits@), outcome),
{
    if hits.len() == 0 {
        return (RankStatus::fallback("empty shortlist"), hits);
    }
    match outcome {
        Outcome::Failed(reason) => (RankStatus::fallback(reason.as_str()), hits),
        Outcome::Answered { exists, scores } => {
            let order = order_nouls(&scores);
            let ghost ov = views(order@);
            let ghost hv = views(hits@);
            let mut out: Vec<FusedHit> = Vec::new();
            let mut plain: Vec<(usize, u64)> = Vec::new();
            let mut i: usize = 0;
            proof {
                assert(views(out@) =~= heads(hv, ov, 0));
            }
            while i < order.len()
                invariant
                    i <= order@.len(),
                    ov == views(order@),
                    hv == views(hits@),
                    plain@ == ov.take(i as int),
                    views(out@) == heads(hv, ov, i as int),
                decreases order@.len() - i,
            {
                let ghost before = out@;
                let k: usize = order[i].index;
                let s: u64 = order[i].score;
                proof {
                    assert(ov[i as int] == order@[i as int]@);
                }
                plain.push((k, s));
                proof {
                    assert(plain@ =~= ov.take(i + 1));
                }
                if k < hits.len() {
                    let h = copy_scored(&hits[k], s);
                    out.push(h);
                    proof {
                        assert(hv[k as int] == hits@[k as int]@);
                        assert(views(out@) =~= views(before).push(h@));
                    }
                }
                i += 1;
            }
            proof {
                assert(plain@ =~= ov);
            }
            let ghost front = views(out@);
            let mut k: usize = 0;
            proof {
                assert(front + unnamed(hv, ov, 0) =~= front);
            }
            while k < hits.len()
                invariant
                    k <= hits@.len(),
                    hv == views(hits@),
                    plain@ == ov,
                    views(out@) == front + unnamed(hv, ov, k as int),
                decreases hits@.len() - k,
            {
                let ghost before = out@;
                if !is_named(&plain, k) {
                    let h = copy_scored(&hits[k], hits[k].score);
                    out.push(h);
                    proof {
                        assert(hv[k as int] == hits@[k as int]@);
                        assert(h@ == hv[k as int]);
                        assert(views(out@) =~= views(before).push(h@));
                        assert(views(out@) =~= front + unnamed(hv, ov, k as int).push(h@));
                    }
                }
                k += 1;
            }
            (RankStatus::jev(exists), out)
        },
    }
}

/// The order of the service names every candidate exactly once.
pub proof fn noul_order_names_all(scores: Seq<Option<u64>>)
    requires
        scores.len() <= usize::MAX,
    ensures
        noul_order(scores).len() == scores.len(),
        forall|i: int| 0 <= i < scores.len() ==> #[trigger] named(noul_order(scores), i),
        forall|j: int|
            0 <= j < noul_order(scores).len() ==> (#[trigger] noul_order(scores)[j]).0
                < scores.len(),
{
    let a = scored_in_turn(scores);
    let o = noul_order(scores);
    crate::order::sort_orders::<Scored>(a);
    a.to_multiset_ensures();
    o.to_multiset_ensures();
    assert forall|i: int| 0 <= i < scores.len() implies #[trigger] named(o, i) by {
        assert(a.contains(a[i]));
        assert(o.to_multiset().count(a[i]) > 0);
        assert(o.contains(a[i]));
        let j = choose|j: int| 0 <= j < o.len() && o[j] == a[i];
        assert(o[j].0 == i);
    }
    assert forall|j: int| 0 <= j < o.len() implies (#[trigger] o[j]).0 < scores.len() by {
        assert(o.contains(o[j]));
        assert(a.to_multiset().count(o[j]) > 0);
        assert(a.contains(o[j]));
        let i = choose|i: int| 0 <= i < a.len() && a[i] == o[j];
        assert(a[i].0 == i);
    }
}

proof fn lemma_heads_all(hits: Seq<FusedView>, order: Seq<(usize, u64)>, n: int)
    requires
        0 <= n <= order.len(),
        forall|j: int| 0 <= j < order.len() ==> (#[trigger] order[j]).0 < hits.len(),
    ensures
        heads(hits, order, n) == Seq::new(
            n as nat,
            |i: int| rescored(hits[order[i].0 as int], order[i].1),
        ),
    decreases n,
{
    if n > 0 {
        lemma_heads_all(hits, order, n - 1);
        assert(heads(hits, order, n) =~= Seq::new(
            n as nat,
            |i: int| rescored(hits[order[i].0 as int], order[i].1),
        ));
    } else {
        assert(heads(hits, order, n) =~= Seq::new(
            n as nat,
            |i: int| rescored(hits[order[i].0 as int], order[i].1),
        ));
    }
}

proof fn lemma_unnamed_none(hits: Seq<FusedView>, order: Seq<(usize, u64)>, n: int)
    requires
        0 <= n,
        forall|i: int| 0 <= i < n ==> #[trigger] named(order, i),
    ensures
        unnamed(hits, order, n).len() == 0,
    decreases n,
{
    if n > 0 {
        lemma_unnamed_none(hits, order, n - 1);
        assert(named(order, n - 1));
    }
}

/// A shortlist scored candidate by candidate comes back whole: as many hits
/// as before, each of them one of the shortlist with its new score.
pub proof fn rerank_keeps_every_hit(hits: Seq<FusedView>, scores: Seq<Option<u64>>)
    requires
        scores.len() == hits.len(),
        hits.len() <= usize::MAX,
    ensures
        placed_by(hits, noul_order(scores)) == Seq::new(
            hits.len(),
            |i: int| rescored(hits[noul_order(scores)[i].0 as int], noul_order(scores)[i].1),
        ),
        forall|i: int| 0 <= i < hits.len() ==> #[trigger] named(noul_order(scores), i),
{
    let o = noul_order(scores);
    noul_order_names_all(scores);
    lemma_heads_all(hits, o, o.len() as int);
    lemma_unnamed_none(hits, o, hits.len() as int);
    assert(placed_by(hits, o) =~= Seq::new(
        hits.len(),
        |i: int| rescored(hits[o[i].0 as int], o[i].1),
    ));
}

/// A request asks one question per candidate and one about all of them, and
/// no two answers share a name.
pub proof fn one_question_per_candidate(w: NoulWording, docs: Seq<Seq<char>>)
    ensures
        questions_of(w, docs.len() as int).len() == docs.len() + 1,
        forall|i: int|
            0 <= i < docs.len() ==> (#[trigger] candidates_of(docs)[i]).0 == questions_of(
                w,
                docs.len() as int,
            )[i + 1].id,
        forall|i: int, j: int|
            0 <= i < j <= docs.len() ==> (#[trigger] questions_of(w, docs.len() as int)[i]).id != (
            #[trigger] questions_of(w, docs.len() as int)[j]).id,
{
    reveal_strlit("c");
    reveal_strlit("exists");
    let qs = questions_of(w, docs.len() as int);
    assert forall|i: int, j: int| 0 <= i < j <= docs.len() implies (#[trigger] qs[i]).id != (
    #[trigger] qs[j]).id by {
        if qs[i].id == qs[j].id {
            if i == 0 {
                assert(qs[i].id[0] == 'e');
                assert(qs[j].id[0] == 'c');
            } else {
                assert(qs[i].id.skip(1) =~= decimal((i - 1) as nat));
                assert(qs[j].id.skip(1) =~= decimal((j - 1) as nat));
                lemma_decimal_injective((i - 1) as nat, (j - 1) as nat);
            }
        }
    }
}

proof fn lemma_heads_from(hits: Seq<FusedView>, order: Seq<(usize, u64)>, n: int)
    requires
        0 <= n <= order.len(),
    ensures
        forall|i: int|
            0 <= i < heads(hits, order, n).len() ==> exists|j: int|
                0 <= j < n && (#[trigger] order[j]).0 < hits.len() && (#[trigger] heads(
                    hits,
                    order,
                    n,
                )[i]) == rescored(hits[order[j].0 as int], order[j].1),
    decreases n,
{
    if n > 0 {
        lemma_heads_from(hits, order, n - 1);
        let before = heads(hits, order, n - 1);
        let now = heads(hits, order, n);
        assert forall|i: int| 0 <= i < now.len() implies exists|j: int|
            0 <= j < n && (#[trigger] order[j]).0 < hits.len() && (#[trigger] now[i]) == rescored(
                hits[order[j].0 as int],
                order[j].1,
            ) by {
            if i < before.len() {
                assert(now[i] == before[i]);
            } else {
                assert(order[n - 1].0 < hits.len());
            }
        }
    }
}

proof fn lemma_unnamed_are(hits: Seq<FusedView>, order: Seq<(usize, u64)>, n: int)
    requires
        0 <= n <= hits.len(),
    ensures
        forall|i: int|
            0 <= i < unnamed(hits, order, n).len() ==> exists|k: int|
                0 <= k < n && (#[trigger] unnamed(hits, order, n)[i]) == (#[trigger] hits[k])
                    && !named(order, k),
    decreases n,
{
    if n > 0 {
        lemma_unnamed_are(hits, order, n - 1);
        let before = unnamed(hits, order, n - 1);
        let now = unnamed(hits, order, n);
        assert forall|i: int| 0 <= i < now.len() implies exists|k: int|
            0 <= k < n && (#[trigger] now[i]) == (#[trigger] hits[k]) && !named(order, k) by {
            if i < before.len() {
                assert(now[i] == before[i]);
            } else {
                assert(now[i] == hits[n - 1]);
            }
        }
    }
}

/// What the service scores changes nothing of a hit but its score: every hit
/// of the result is one of the shortlist with the same place, breadcrumb, text
/// and ranks, and has the score that the service gave it, zero where it gave
/// none, and its own where it was not asked about.
pub proof fn scoring_changes_scores_only(hits: Seq<FusedView>, scores: Seq<Option<u64>>, i: int)
    requires
        scores.len() <= usize::MAX,
        0 <= i < placed_by(hits, noul_order(scores)).len(),
    ensures
        exists|k: int|
            0 <= k < hits.len() && ({
                let h = placed_by(hits, noul_order(scores))[i];
                let g = #[trigger] hits[k];
                &&& h.path == g.path && h.start == g.start && h.end == g.end
                &&& h.breadcrumb == g.breadcrumb && h.text == g.text
                &&& h.lexical_rank == g.lexical_rank && h.vector_rank == g.vector_rank
                &&& h.ast_rank == g.ast_rank && h.terms == g.terms
                &&& h.score == (if k < scores.len() {
                    match scores[k] {
                        Some(s) => s,
                        None => 0,
                    }
                } else {
                    g.score
                })
            }),
{
    let o = noul_order(scores);
    let front = heads(hits, o, o.len() as int);
    let tail = unnamed(hits, o, hits.len() as int);
    let h = placed_by(hits, o)[i];
    noul_order_names_all(scores);
    if i < front.len() {
        lemma_heads_from(hits, o, o.len() as int);
        assert(h == front[i]);
        let j = choose|j: int|
            0 <= j < o.len() && (#[trigger] o[j]).0 < hits.len() && front[i] == rescored(
                hits[o[j].0 as int],
                o[j].1,
            );
        lemma_order_scores(scores, j);
        assert(h.path == hits[o[j].0 as int].path);
    } else {
        lemma_unnamed_are(hits, o, hits.len() as int);
        assert(h == tail[i - front.len()]);
        let k = choose|k: int|
            0 <= k < hits.len() && tail[i - front.len()] == (#[trigger] hits[k]) && !named(o, k);
        if k < scores.len() {
            assert(named(o, k));
        }
        assert(h.path == hits[k].path);
    }
}

/// A place of the order has the score of the candidate that it names.
pub proof fn lemma_order_scores(scores: Seq<Option<u64>>, j: int)
    requires
        scores.len() <= usize::MAX,
        0 <= j < noul_order(scores).len(),
    ensures
        noul_order(scores)[j].0 < scores.len(),
        noul_order(scores)[j].1 == (match scores[noul_order(scores)[j].0 as int] {
            Some(s) => s,
            None => 0,
        }),
{
    let a = scored_in_turn(scores);
    let o = noul_order(scores);
    crate::order::sort_orders::<Scored>(a);
    a.to_multiset_ensures();
    o.to_multiset_ensures();
    assert(o.contains(o[j]));
    assert(a.to_multiset().count(o[j]) > 0);
    let i = choose|i: int| 0 <= i < a.len() && a[i] == o[j];
    assert(a[i].0 == i);
}

/// A scored shortlist comes best first: a higher score before a lower one, and
/// of equal scores the one that came first.
pub proof fn scored_hits_come_best_first(scores: Seq<Option<u64>>, i: int, j: int)
    requires
        0 <= i < j < noul_order(scores).len(),
    ensures
        score_key(noul_order(scores)[i].1) >= score_key(noul_order(scores)[j].1),
        score_key(noul_order(scores)[i].1) == score_key(noul_order(scores)[j].1) ==> noul_order(
            scores,
        )[i].0 <= noul_order(scores)[j].0,
{
    let a = scored_in_turn(scores);
    crate::order::sort_orders::<Scored>(a);
    assert(!<Scored as Ranked>::precedes(noul_order(scores)[j], noul_order(scores)[i]));
}

/// The service reads of each hit its breadcrumb and its text, from the start
/// and whole where they are short enough.
pub proof fn the_service_reads_breadcrumb_and_text(hits: Seq<FusedView>, i: int)
    requires
        0 <= i < hits.len(),
    ensures
        hit_docs(hits).len() == hits.len(),
        candidates_of(hit_docs(hits)).len() == hits.len(),
        ({
            let doc = hits[i].breadcrumb + seq![' '] + hits[i].text;
            let t = candidates_of(hit_docs(hits))[i].1;
            t.is_prefix_of(doc) && byte_len(t) <= STATE_CHARS && (byte_len(doc) <= STATE_CHARS ==> t
                == doc) && (forall|k: int|
                t.len() < k <= doc.len() ==> byte_len(#[trigger] doc.take(k)) > STATE_CHARS)
        }),
{
    reveal_strlit(" ");
    let doc = hits[i].breadcrumb + seq![' '] + hits[i].text;
    assert(" "@ =~= seq![' ']);
    assert(hit_docs(hits)[i] =~= doc);
    let t = byte_prefix(doc, STATE_CHARS as int);
    crate::bytes::lemma_fitting(doc, STATE_CHARS as int);
    if byte_len(doc) <= STATE_CHARS {
        crate::bytes::lemma_fits_whole(doc, STATE_CHARS as int);
    }
    assert(t =~= doc.subrange(0, t.len() as int));
}

/// A line `KEY=value` assigns that value, in quotes or not, behind `export` or
/// not; a comment and a line for another key assign none.
pub proof fn key_lines_assign_their_value(key: Seq<char>, v: Seq<char>, other: Seq<char>)
    requires
        key.len() > 0,
        forall|i: int| 0 <= i < key.len() ==> !is_white(#[trigger] key[i]) && key[i] != '=',
        key[0] != '#',
        !("export"@.is_prefix_of(key)),
        trimmed(v) == v,
        v.len() > 0,
        v[0] != '"' && v[0] != '\'',
        other != key,
    ensures
        line_value(key + seq!['='] + v, key) == Some(v),
        line_value(key + seq!['='] + v, other) is None,
        line_value(seq!['#'] + (key + seq!['='] + v), key) is None,
{
    reveal_strlit("export");
    let line = key + seq!['='] + v;
    crate::text::lemma_trimmed(v);
    assert(line[0] == key[0]);
    assert(line.last() == v.last());
    crate::text::lemma_trimmed(line);
    let k = key.len() as int;
    assert forall|j: int| 0 <= j < k implies line[j] != '=' by {
        assert(line[j] == key[j]);
    }
    crate::text::lemma_until(line, '=', k);
    assert(line.take(k) =~= key);
    assert(line.skip(k + 1) =~= v);
    crate::text::lemma_trimmed(key);
    assert(!is_white(key[key.len() - 1]));
    assert(unexported(line) == line) by {
        if "export"@.is_prefix_of(line) && line.skip(6).len() > 0 && is_white(line.skip(6)[0]) {
            assert(line[6] == line.skip(6)[0]);
            if k >= 6 {
                assert("export"@ =~= key.subrange(0, 6));
            } else {
                assert(line[k] == '=');
                assert("export"@[k] == line.subrange(0, 6)[k]);
            }
        }
    }
    let c = seq!['#'] + line;
    assert(c[0] == '#' && c.last() == v.last());
    crate::text::lemma_trimmed(c);
}

/// A complaint that is short enough is passed on whole.
pub proof fn short_complaints_are_whole(text: Seq<char>)
    ensures
        byte_len(trimmed(text)) <= ERROR_CAP ==> shortened(text) == trimmed(text),
        byte_len(trimmed(text)) > ERROR_CAP ==> exists|t: Seq<char>|
            shortened(text) == t + "…"@ && #[trigger] t.is_prefix_of(trimmed(text)) && byte_len(t)
                <= ERROR_CAP && (forall|k: int|
                t.len() < k <= trimmed(text).len() ==> byte_len(#[trigger] trimmed(text).take(k))
                    > ERROR_CAP),
{
    let s = trimmed(text);
    let t = byte_prefix(s, ERROR_CAP as int);
    crate::bytes::lemma_fitting(s, ERROR_CAP as int);
    assert(t =~= s.subrange(0, t.len() as int));
    assert(t.is_prefix_of(s));
}

/// A shortlist whose scoring failed stays as it is and says why; one that was
/// scored says so.
pub proof fn failed_scoring_changes_nothing(hits: Seq<FusedView>, outcome: Outcome)
    ensures
        outcome matches Outcome::Failed(reason) ==> hits_after(hits, outcome) == hits && (hits.len()
            > 0 ==> status_after(hits, outcome).note == "rank: fallback ("@ + reason@ + ")"@),
        hits.len() == 0 ==> hits_after(hits, outcome) == hits && status_after(hits, outcome).mode
            == "fallback"@,
        outcome is Failed ==> status_after(hits, outcome).mode == "fallback"@ && status_after(
            hits,
            outcome,
        ).exists is None,
        outcome is Answered && hits.len() > 0 ==> status_after(hits, outcome).mode == "jev"@,
{
}

/// A reading is shown and kept, and carries a warning if and only if it is a
/// number below the setpoint; every number below zero is.
pub proof fn low_readings_carry_a_warning(p: Reading)
    ensures
        ran(Some(p)).exists == Some(p.bits),
        ("rank: jev exists="@ + p.shown@).is_prefix_of(ran(Some(p)).note),
        ran(Some(p)).note == "rank: jev exists="@ + p.shown@ <==> !is_low(p.bits),
        ran(Some(p)).note == "rank: jev exists="@ + p.shown@ + " (low — verify before acting)"@
            <==> is_low(p.bits),
        p.bits < 0x8000_0000_0000_0000 ==> (is_low(p.bits) <==> p.bits < LOW_BITS),
        0x8000_0000_0000_0000 <= p.bits <= 0xfff0_0000_0000_0000 ==> is_low(p.bits),
        p.bits > 0xfff0_0000_0000_0000 ==> !is_low(p.bits),
{
    reveal_strlit(" (low — verify before acting)");
    let head = "rank: jev exists="@ + p.shown@;
    let long = head + " (low — verify before acting)"@;
    assert(long.subrange(0, head.len() as int) =~= head);
    assert(head.subrange(0, head.len() as int) =~= head);
    assert(long.len() > head.len());
}

/// The value of a key is the last one assigned to it: no line behind it assigns
/// another. There is none where no line assigns one or the last one is empty.
pub proof fn the_last_assignment_wins(contents: Seq<char>, key: Seq<char>)
    ensures
        ({
            let ls = lines_of(contents);
            match assigned(contents, key) {
                Some(v) => v.len() > 0 && exists|k: int|
                    0 <= k < ls.len() && line_value(#[trigger] ls[k], key) == Some(v) && (forall|
                        j: int,
                    |
                        k < j < ls.len() ==> line_value(#[trigger] ls[j], key) is None),
                None => (forall|k: int|
                    0 <= k < ls.len() ==> line_value(#[trigger] ls[k], key) is None) || (exists|
                    k: int,
                |
                    0 <= k < ls.len() && line_value(#[trigger] ls[k], key) == Some(
                        Seq::<char>::empty(),
                    ) && (forall|j: int|
                        k < j < ls.len() ==> line_value(#[trigger] ls[j], key) is None)),
            }
        }),
{
    let ls = lines_of(contents);
    let k = lemma_last_value(ls, key, ls.len() as int);
    if let Some(v) = last_value(ls, key, ls.len() as int) {
        assert(line_value(ls[k], key) == Some(v));
        if v.len() == 0 {
            assert(v =~= Seq::<char>::empty());
        }
    }
}

proof fn lemma_last_value(ls: Seq<Seq<char>>, key: Seq<char>, n: int) -> (k: int)
    requires
        0 <= n <= ls.len(),
    ensures
        last_value(ls, key, n) is Some ==> 0 <= k < n && line_value(ls[k], key) == last_value(
            ls,
            key,
            n,
        ),
        last_value(ls, key, n) is None ==> k == -1,
        forall|j: int| k < j < n ==> line_value(#[trigger] ls[j], key) is None,
    decreases n,
{
    if n <= 0 {
        -1
    } else if line_value(ls[n - 1], key) is Some {
        n - 1
    } else {
        lemma_last_value(ls, key, n - 1)
    }
}

/// The key is looked for in three places in turn: what one place holds but
/// for white space is the key, a file that cannot be read ends the search, and
/// a blank value counts as none.
pub proof fn keys_are_looked_for_in_turn(env: Seq<char>, t: String, path: String, b: Option<KeyFile>)
    ensures
        trimmed(env).len() > 0 ==> key_of(Some(env), b, b) == Ok::<_, ErrorView>(trimmed(env)),
        trimmed(env).len() == 0 ==> key_of(Some(env), b, b) == key_of(None, b, b),
        key_of(None, Some(KeyFile::Unreadable(path)), b) is Err,
        key_of(None, None, Some(KeyFile::Unreadable(path))) is Err,
        key_of(None, None, None) == Err::<Seq<char>, _>(ErrorView::Jev(missing_key())),
        key_of(None, None, b) == key_of(None, b, None),
        assigned(t@, ENV_API_KEY@) matches Some(v) ==> (trimmed(v).len() > 0 ==> key_of(
            None,
            Some(KeyFile::Text(t)),
            b,
        ) == Ok::<_, ErrorView>(trimmed(v))),
        assigned(t@, ENV_API_KEY@) is None ==> key_of(None, Some(KeyFile::Text(t)), b) == key_of(
            None,
            None,
            b,
        ),
{
}

/// Requests go to one place below the service, whether or not the address of
/// the service ends in slashes.
pub proof fn slashes_make_no_difference(base: Seq<char>)
    ensures
        endpoint_of(base.push('/')) == endpoint_of(base),
        base.len() > 0 && base.last() != '/' ==> endpoint_of(base) == base + "/v1/systemone"@,
{
    assert(base.push('/').drop_last() =~= base);
}

/// What is said of a refusal starts with its status, and shows the answer whole
/// where it is short and holds no token.
pub proof fn refusals_show_the_status(status: Seq<char>, body: Seq<char>)
    ensures
        ("systemone HTTP "@ + status + ": "@).is_prefix_of(refusal_of(status, body)),
        byte_len(trimmed(body)) <= ERROR_CAP && first_at(trimmed(body), "Bearer "@) < 0
            ==> refusal_of(status, body) == "systemone HTTP "@ + status + ": "@ + trimmed(body),
{
    let head = "systemone HTTP "@ + status + ": "@;
    let r = refusal_of(status, body);
    assert(r.subrange(0, head.len() as int) =~= head);
    messages_without_a_token_are_whole(shortened(body));
}

/// A message that holds no bearer token is passed on whole.
pub proof fn messages_without_a_token_are_whole(msg: Seq<char>)
    ensures
        first_at(msg, "Bearer "@) < 0 ==> sanitized(msg) == msg,
{
    if first_at(msg, "Bearer "@) < 0 {
        assert(pieces(msg, "Bearer "@) =~= seq![msg]);
    }
}

/// A question about a candidate names that candidate and the thing that is
/// asked about; the one about all of them names the thing.
pub proof fn questions_name_what_they_ask(w: NoulWording, n: int, i: int)
    requires
        0 <= i < n,
    ensures
        ({
            let all = questions_of(w, n)[0];
            let one = questions_of(w, n)[i + 1];
            &&& names(all.instructions, subject(w)) && names(all.yes, subject(w)) && names(
                all.no,
                subject(w),
            )
            &&& names(one.instructions, subject(w)) && names(one.yes, subject(w))
            &&& names(one.instructions, one.id) && one.id == "c"@ + decimal(i as nat)
        }),
        subject(NoulWording::Search) == "query"@,
        subject(NoulWording::Skill) == "task"@,
{
    let s = subject(w);
    let all = questions_of(w, n)[0];
    let one = questions_of(w, n)[i + 1];
    lemma_names("Does any candidate supply evidence that answers the "@, s, "?"@);
    lemma_names(
        "At least one candidate states or implements what the "@,
        s,
        " asks for."@,
    );
    lemma_names("No candidate addresses the "@, s, "."@);
    lemma_names("This candidate states or implements what the "@, s, " asks for."@);
    lemma_names(
        "Does candidate "@ + candidate_id(i) + " answer the "@,
        s,
        " directly?"@,
    );
    lemma_names("Does candidate "@, candidate_id(i), " answer the "@ + s + " directly?"@);
    assert(one.instructions =~= "Does candidate "@ + candidate_id(i) + (" answer the "@ + s
        + " directly?"@));
}

/// Whether a text holds another one.
pub open spec fn names(whole: Seq<char>, part: Seq<char>) -> bool {
    exists|a: Seq<char>, b: Seq<char>| whole == #[trigger] (a + part + b)
}

proof fn lemma_names(a: Seq<char>, part: Seq<char>, b: Seq<char>)
    ensures
        names(a + part + b, part),
{
}

/// What is said of a refusal repeats no bearer token of the answer.
pub proof fn refusals_show_no_token(
    status: Seq<char>,
    a: Seq<char>,
    v: Seq<char>,
    t: Seq<char>,
)
    requires
        first_at(a + "Bearer "@, "Bearer "@) == a.len(),
        forall|i: int| 0 <= i < v.len() ==> !ends_token(#[trigger] v[i]),
        first_at(v, "Bearer"@) < 0,
        t.len() > 0 ==> ends_token(t[0]),
        trimmed(a + "Bearer "@ + (v + t)) == a + "Bearer "@ + (v + t),
        byte_len(a + "Bearer "@ + (v + t)) <= ERROR_CAP,
    ensures
        refusal_of(status, a + "Bearer "@ + (v + t)) == "systemone HTTP "@ + status + ": "@ + (a
            + "Bearer <redacted>"@ + sanitized(t)),
{
    bearer_tokens_never_show(a, v, t);
}

} // verus!
