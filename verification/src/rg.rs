//! Managed ripgrep path: exact text + regex over workspace files.
//!
//! No index required. Exhaustive by default, results carry file-oriented
//! locations for terminal reading or agent context.

use vstd::prelude::*;
use vstd::string::StrSliceExecFns;
use crate::bytes::{lossy, utf8_lossy};
use crate::error::{Error, ErrorView};
use crate::extract::ext_of;
use crate::globs::{globs_fault, GlobFilter};
use crate::matching::{
    compile_fault, line_matches, lines_increase, match_views, matching_lines, pattern_fault,
    LineMatch,
};
use crate::order::{
    at_most, lemma_comps_order, lemma_text_order, lesser, path_before, path_precedes, sort,
    sorted, text_before, text_precedes, views, Ranked,
};
use crate::paths::{components, extension, join_of, join_path};
use crate::text::{
    ascii_alnum, chars_of, chomp, chomped, is_ascii_alnum, is_longest_run, join, joined,
    lemma_filter_step, lemma_trimmed, longest_run, lower, lowered, runs, runs_are_the_longest,
    same, split_runs, str_texts, string_of, texts, trim, trim_bounds, trimmed,
};

verus! {

/// Strip one layer of shell-style surrounding quotes: whether `t` is a pair
/// of quotes around a text that is not blank and does not hold the quote.
pub open spec fn quoted(t: Seq<char>) -> bool {
    &&& t.len() >= 2
    &&& (t[0] == '"' || t[0] == '\'')
    &&& t.last() == t[0]
    &&& trimmed(t.subrange(1, t.len() - 1)).len() > 0
    &&& !t.subrange(1, t.len() - 1).contains(t[0])
}

/// A pattern without surrounding white space and one pair of quotes.
pub open spec fn normalized(p: Seq<char>) -> Seq<char> {
    let t = trimmed(p);
    if quoted(t) {
        t.subrange(1, t.len() - 1)
    } else {
        t
    }
}

/// Strip one layer of shell-style surrounding quotes (`"..."` or `'...'`).
///
/// Agents often copy a shell-quoted pattern (`one-grep rg "foo bar" .`) into
/// the MCP `rg` JSON field, where no shell runs. Without this, the literal
/// search looks for the quote characters themselves and returns zero hits,
/// which reads as "MCP regex fails on quoted patterns". Stripping here makes
/// CLI and MCP agree: pass raw text, surrounding quotes are ignored.
///
/// Returns the original string, trimmed, when there is no clean outer pair
/// (empty inner text, or the inner text still contains the same quote char,
/// e.g. a real quoted-string search like `"foo" OR "bar"`).
pub fn normalize_pattern(pattern: &str) -> (r: &str)
    ensures
        r@ == normalized(pattern@),
{
    let cs = chars_of(pattern);
    let (a, b) = trim_bounds(&cs);
    let ghost t = trimmed(pattern@);
    if b - a >= 2 {
        let q = cs[a];
        proof {
            assert(t[0] == q);
            assert(t.last() == cs@[b - 1]);
        }
        if (q == '"' || q == '\'') && cs[b - 1] == q {
            let inner = vstd::slice::slice_subrange(&cs, a + 1, b - 1);
            let k = crate::text::find_from(inner, q, 0);
            proof {
                assert(inner@ =~= t.subrange(1, t.len() - 1));
                if inner@.contains(q) {
                    let j = choose|j: int| 0 <= j < inner@.len() && inner@[j] == q;
                    assert(inner@[j] == q);
                } else if k < inner@.len() {
                    assert(inner@.contains(inner@[k as int]));
                }
            }
            if trim(inner).len() > 0 && k == inner.len() {
                return pattern.substring_char(a + 1, b - 1);
            }
        }
    }
    pattern.substring_char(a, b)
}

/// Normalizing is a fixed point, unless the text inside the stripped quotes
/// starts or ends with white space or is itself in quotes.
pub proof fn normalize_is_stable(p: Seq<char>)
    requires
        quoted(trimmed(p)) ==> trimmed(normalized(p)) == normalized(p) && !quoted(normalized(p)),
    ensures
        normalized(normalized(p)) == normalized(p),
{
    lemma_trimmed(p);
}

/// A pattern in quotes searches for the same as the bare pattern.
pub proof fn quotes_make_no_difference(p: Seq<char>, q: char)
    requires
        q == '"' || q == '\'',
        p.len() > 0,
        trimmed(p) == p,
        !p.contains(q),
        !quoted(p),
    ensures
        normalized(seq![q] + p + seq![q]) == p,
        normalized(p) == p,
{
    let w = seq![q] + p + seq![q];
    lemma_trimmed(w);
    assert(w.subrange(1, w.len() - 1) =~= p);
    assert(w[0] == q && w.last() == q);
}

/// Languages accepted by [`Options::langs`].
pub const SUPPORTED_LANGS: [&'static str; 7] = [
    "rust",
    "python",
    "typescript",
    "go",
    "java",
    "nix",
    "markdown",
];

/// The names of the supported languages.
pub open spec fn supported() -> Seq<Seq<char>> {
    seq!["rust"@, "python"@, "typescript"@, "go"@, "java"@, "nix"@, "markdown"@]
}

/// The file extensions of a language, given by its name or by an extension.
pub open spec fn extensions_of(lang: Seq<char>) -> Option<Seq<Seq<char>>> {
    let l = lowered(trimmed(lang));
    if l == "rust"@ || l == "rs"@ {
        Some(seq!["rs"@])
    } else if l == "python"@ || l == "py"@ {
        Some(seq!["py"@])
    } else if l == "typescript"@ || l == "ts"@ || l == "tsx"@ || l == "js"@ || l == "jsx"@ || l
        == "mjs"@ || l == "cjs"@ || l == "mts"@ || l == "cts"@ {
        Some(
            seq!["ts"@, "mts"@, "cts"@, "tsx"@, "jsx"@, "js"@, "mjs"@, "cjs"@],
        )
    } else if l == "go"@ {
        Some(seq!["go"@])
    } else if l == "java"@ {
        Some(seq!["java"@])
    } else if l == "nix"@ {
        Some(seq!["nix"@])
    } else if l == "markdown"@ || l == "md"@ {
        Some(seq!["md"@, "markdown"@])
    } else {
        None
    }
}

/// Map a `--lang` value to file extensions, à la `ast-grep --lang`.
/// Accepts canonical names and bare extensions (`rs`, `py`, `md`).
pub fn lang_extensions(lang: &str) -> (r: Option<&'static [&'static str]>)
    ensures
        match r {
            Some(v) => extensions_of(lang@) == Some(str_texts(v@)),
            None => extensions_of(lang@) is None,
        },
{
    let cs = chars_of(lang);
    let low = lower(string_of(trim(&cs)).as_str());
    let l = low.as_str();
    let r: Option<&'static [&'static str]> = if same(l, "rust") || same(l, "rs") {
        Some(&["rs"])
    } else if same(l, "python") || same(l, "py") {
        Some(&["py"])
    } else if same(l, "typescript") || same(l, "ts") || same(l, "tsx") || same(l, "js") || same(
        l,
        "jsx",
    ) || same(l, "mjs") || same(l, "cjs") || same(l, "mts") || same(l, "cts") {
        Some(&["ts", "mts", "cts", "tsx", "jsx", "js", "mjs", "cjs"])
    } else if same(l, "go") {
        Some(&["go"])
    } else if same(l, "java") {
        Some(&["java"])
    } else if same(l, "nix") {
        Some(&["nix"])
    } else if same(l, "markdown") || same(l, "md") {
        Some(&["md", "markdown"])
    } else {
        None
    };
    proof {
        if let Some(v) = r {
            assert(str_texts(v@) =~= extensions_of(lang@)->0);
        }
    }
    r
}

/// Whether every language is known.
pub open spec fn all_known(langs: Seq<Seq<char>>) -> bool {
    forall|i: int| 0 <= i < langs.len() ==> extensions_of(#[trigger] langs[i]) is Some
}

/// The number of the first language that is not known; the number of
/// languages when all are.
pub open spec fn first_unknown(langs: Seq<Seq<char>>) -> int
    decreases langs.len(),
{
    if langs.len() == 0 || extensions_of(langs[0]) is None {
        0
    } else {
        1 + first_unknown(langs.skip(1))
    }
}

/// Whether one of the languages has the extension `ext`.
pub open spec fn accepted(langs: Seq<Seq<char>>, ext: Seq<char>) -> bool {
    exists|i: int|
        0 <= i < langs.len() && extensions_of(#[trigger] langs[i]) is Some && extensions_of(
            langs[i],
        )->0.contains(ext)
}

/// The extensions of the languages, one language after the other.
pub open spec fn exts_in_turn(langs: Seq<Seq<char>>) -> Seq<Seq<char>>
    decreases langs.len(),
{
    if langs.len() == 0 {
        Seq::empty()
    } else {
        match extensions_of(langs.last()) {
            Some(es) => exts_in_turn(langs.drop_last()) + es,
            None => exts_in_turn(langs.drop_last()),
        }
    }
}

/// `s` without the values that repeat the one before them.
pub open spec fn deduped(s: Seq<Seq<char>>) -> Seq<Seq<char>>
    decreases s.len(),
{
    if s.len() == 0 {
        s
    } else {
        let r = deduped(s.drop_last());
        if r.len() > 0 && r.last() == s.last() {
            r
        } else {
            r.push(s.last())
        }
    }
}

/// The extensions of the languages in order, each once.
pub open spec fn exts_of(langs: Seq<Seq<char>>) -> Seq<Seq<char>> {
    deduped(sorted::<String>(exts_in_turn(langs)))
}

/// What a caller is told about a language that is not known.
pub open spec fn unknown_lang(lang: Seq<char>) -> Seq<char> {
    "unknown --lang `"@ + lang + "` (supported: "@ + joined(supported(), ", "@) + ")"@
}

/// Removing repetitions keeps what occurs.
proof fn lemma_deduped(s: Seq<Seq<char>>)
    ensures
        forall|e: Seq<char>| deduped(s).contains(e) <==> #[trigger] s.contains(e),
        s.len() > 0 ==> deduped(s).len() > 0 && deduped(s).last() == s.last(),
    decreases s.len(),
{
    if s.len() > 0 {
        let t = s.drop_last();
        let d = deduped(t);
        lemma_deduped(t);
        assert forall|e: Seq<char>| deduped(s).contains(e) <==> #[trigger] s.contains(e) by {
            if s.contains(e) {
                let i = choose|i: int| 0 <= i < s.len() && s[i] == e;
                if i < t.len() {
                    assert(t[i] == e);
                    assert(t.contains(e));
                    let j = choose|j: int| 0 <= j < d.len() && d[j] == e;
                    assert(deduped(s)[j] == e);
                } else {
                    assert(deduped(s)[deduped(s).len() - 1] == e);
                }
            }
            if deduped(s).contains(e) {
                let j = choose|j: int| 0 <= j < deduped(s).len() && deduped(s)[j] == e;
                if j < d.len() {
                    assert(d[j] == e);
                    assert(t.contains(e));
                    let i = choose|i: int| 0 <= i < t.len() && t[i] == e;
                    assert(s[i] == e);
                } else {
                    assert(s[s.len() - 1] == e);
                }
            }
        }
    }
}

proof fn lemma_exts_in_turn(langs: Seq<Seq<char>>, ext: Seq<char>)
    ensures
        exts_in_turn(langs).contains(ext) <==> accepted(langs, ext),
    decreases langs.len(),
{
    if langs.len() > 0 {
        let t = langs.drop_last();
        lemma_exts_in_turn(t, ext);
        let a = exts_in_turn(t);
        if accepted(langs, ext) {
            let i = choose|i: int|
                0 <= i < langs.len() && extensions_of(#[trigger] langs[i]) is Some && extensions_of(
                    langs[i],
                )->0.contains(ext);
            if i < t.len() {
                assert(t[i] == langs[i]);
                assert(accepted(t, ext));
                let j = choose|j: int| 0 <= j < a.len() && a[j] == ext;
                assert(exts_in_turn(langs)[j] == ext);
            } else {
                let es = extensions_of(langs.last())->0;
                let j = choose|j: int| 0 <= j < es.len() && es[j] == ext;
                assert(exts_in_turn(langs)[a.len() + j] == ext);
            }
        }
        if exts_in_turn(langs).contains(ext) {
            let j = choose|j: int|
                0 <= j < exts_in_turn(langs).len() && exts_in_turn(langs)[j] == ext;
            if j < a.len() {
                assert(a[j] == ext);
                assert(a.contains(ext));
                let i = choose|i: int|
                    0 <= i < t.len() && extensions_of(#[trigger] t[i]) is Some && extensions_of(
                        t[i],
                    )->0.contains(ext);
                assert(langs[i] == t[i]);
            } else {
                let es = extensions_of(langs.last())->0;
                assert(es[j - a.len()] == ext);
                assert(langs[langs.len() - 1] == langs.last());
            }
        }
    }
}

/// The extensions of a list of languages are those that one of them has.
pub proof fn lemma_exts_of(langs: Seq<Seq<char>>, ext: Seq<char>)
    ensures
        exts_of(langs).contains(ext) <==> accepted(langs, ext),
{
    let turn = exts_in_turn(langs);
    let s = sorted::<String>(turn);
    lemma_exts_in_turn(langs, ext);
    lemma_deduped(s);
    crate::order::sort_orders::<String>(turn);
    turn.to_multiset_ensures();
    s.to_multiset_ensures();
    assert(s.contains(ext) <==> s.to_multiset().contains(ext));
    assert(turn.contains(ext) <==> turn.to_multiset().contains(ext));
}

/// The names of the supported languages in one line.
pub(crate) fn supported_list() -> (r: String)
    ensures
        r@ == joined(supported(), ", "@),
{
    let names = SUPPORTED_LANGS;
    let mut list: Vec<String> = Vec::new();
    let mut i: usize = 0;
    while i < names.len()
        invariant
            i <= names@.len(),
            names == SUPPORTED_LANGS,
            texts(list@) == supported().take(i as int),
        decreases names@.len() - i,
    {
        let ghost before = list@;
        list.push(names[i].to_owned());
        proof {
            assert(names@[i as int]@ == supported()[i as int]);
            assert(texts(list@) =~= texts(before).push(names@[i as int]@));
            assert(texts(list@) =~= supported().take(i + 1));
        }
        i += 1;
    }
    proof {
        assert(texts(list@) =~= supported());
    }
    join(&list, ", ")
}

fn message_unknown(lang: &str) -> (r: String)
    ensures
        r@ == unknown_lang(lang@),
{
    let mut out = "unknown --lang `".to_owned();
    out.append(lang);
    out.append("` (supported: ");
    out.append(supported_list().as_str());
    out.append(")");
    out
}

/// `v` without the strings that repeat the one before them.
fn dedup(v: Vec<String>) -> (r: Vec<String>)
    ensures
        texts(r@) == deduped(texts(v@)),
{
    let mut out: Vec<String> = Vec::new();
    let ghost all = texts(v@);
    proof {
        assert(texts(out@) =~= deduped(all.take(0)));
    }
    for x in it: v
        invariant
            it.seq() == v@,
            all == texts(v@),
            texts(out@) == deduped(all.take(it.index())),
    {
        let ghost before = out@;
        let ghost k = it.index();
        let ghost xv = x@;
        proof {
            assert(all.take(k + 1).drop_last() =~= all.take(k));
            assert(all.take(k + 1).last() == xv);
            assert(texts(out@).len() == out@.len());
            if out@.len() > 0 {
                assert(texts(out@).last() == out@.last()@);
            }
        }
        if !(out.len() > 0 && same(out[out.len() - 1].as_str(), x.as_str())) {
            out.push(x);
            proof {
                assert(texts(out@) =~= texts(before).push(xv));
            }
        }
    }
    proof {
        assert(all.take(all.len() as int) =~= all);
    }
    out
}

proof fn lemma_first_unknown(langs: Seq<Seq<char>>, k: int)
    requires
        0 <= k <= langs.len(),
        forall|i: int| 0 <= i < k ==> extensions_of(#[trigger] langs[i]) is Some,
        k < langs.len() ==> extensions_of(langs[k]) is None,
    ensures
        first_unknown(langs) == k,
    decreases k,
{
    if k > 0 {
        let t = langs.skip(1);
        assert forall|i: int| 0 <= i < k - 1 implies extensions_of(#[trigger] t[i]) is Some by {
            assert(t[i] == langs[i + 1]);
        }
        lemma_first_unknown(t, k - 1);
    }
}

/// Resolve [`Options::langs`] to an extension set, or fail closed naming
/// what is supported. Unknown languages are caller errors, never silent
/// match-nothings.
pub fn resolve_lang_exts(langs: &[String]) -> (r: Result<Option<Vec<String>>, Error>)
    ensures
        match r {
            Ok(None) => langs@.len() == 0,
            Ok(Some(v)) => langs@.len() > 0 && all_known(texts(langs@)) && texts(v@) == exts_of(
                texts(langs@),
            ),
            Err(e) => !all_known(texts(langs@)) && e@ == ErrorView::InvalidInput(
                unknown_lang(texts(langs@)[first_unknown(texts(langs@))]),
            ),
        },
{
    if langs.len() == 0 {
        return Ok(None);
    }
    let ghost ls = texts(langs@);
    let mut exts: Vec<String> = Vec::new();
    let mut i: usize = 0;
    proof {
        assert(texts(exts@) =~= exts_in_turn(ls.take(0)));
    }
    while i < langs.len()
        invariant
            i <= langs@.len(),
            langs@.len() > 0,
            ls == texts(langs@),
            forall|j: int| 0 <= j < i ==> extensions_of(#[trigger] ls[j]) is Some,
            texts(exts@) == exts_in_turn(ls.take(i as int)),
        decreases langs@.len() - i,
    {
        proof {
            assert(ls[i as int] == langs@[i as int]@);
            assert(ls.take(i + 1).drop_last() =~= ls.take(i as int));
            assert(ls.take(i + 1).last() == ls[i as int]);
        }
        match lang_extensions(langs[i].as_str()) {
            None => {
                proof {
                    lemma_first_unknown(ls, i as int);
                }
                return Err(Error::InvalidInput(message_unknown(langs[i].as_str())));
            },
            Some(list) => {
                let ghost start = texts(exts@);
                let ghost es = str_texts(list@);
                let mut k: usize = 0;
                while k < list.len()
                    invariant
                        k <= list@.len(),
                        es == str_texts(list@),
                        texts(exts@) == start + es.take(k as int),
                    decreases list@.len() - k,
                {
                    let ghost before = exts@;
                    exts.push(list[k].to_owned());
                    proof {
                        assert(texts(exts@) =~= texts(before).push(list@[k as int]@));
                        assert(texts(exts@) =~= start + es.take(k + 1));
                    }
                    k += 1;
                }
                proof {
                    assert(es.take(k as int) =~= es);
                    assert(texts(exts@) =~= exts_in_turn(ls.take(i + 1)));
                }
            },
        }
        i += 1;
    }
    proof {
        assert(ls.take(i as int) =~= ls);
        assert(views(exts@) =~= texts(exts@));
    }
    let in_order = sort(exts);
    proof {
        assert(views(in_order@) =~= texts(in_order@));
    }
    Ok(Some(dedup(in_order)))
}

/// Whether a path's extension passes a language allowlist.
pub open spec fn lang_passes(path: Seq<char>, langs: Seq<Seq<char>>) -> bool {
    langs.len() == 0 || accepted(langs, lowered(ext_of(path)))
}

/// Whether the extension of `path` is one of `exts`.
fn ext_among(path: &str, exts: &[String]) -> (r: bool)
    ensures
        r == texts(exts@).contains(lowered(ext_of(path@))),
{
    let ext = match extension(path) {
        Some(e) => lower(e.as_str()),
        None => String::new(),
    };
    proof {
        assert(ext@ =~= lowered(ext_of(path@)));
    }
    let mut i: usize = 0;
    while i < exts.len()
        invariant
            i <= exts@.len(),
            ext@ == lowered(ext_of(path@)),
            forall|j: int| 0 <= j < i ==> exts@[j]@ != ext@,
        decreases exts@.len() - i,
    {
        if same(exts[i].as_str(), ext.as_str()) {
            proof {
                assert(texts(exts@)[i as int] == ext@);
            }
            return true;
        }
        i += 1;
    }
    proof {
        if texts(exts@).contains(ext@) {
            let j = choose|j: int| 0 <= j < texts(exts@).len() && texts(exts@)[j] == ext@;
            assert(exts@[j]@ == ext@);
        }
    }
    false
}

/// Whether `path` passes a language allowlist. Empty `langs` passes
/// everything; unknown entries fail closed like [`Options::langs`].
pub fn matches_lang(path: &str, langs: &[String]) -> (r: Result<bool, Error>)
    ensures
        match r {
            Ok(b) => all_known(texts(langs@)) && b == lang_passes(path@, texts(langs@)),
            Err(e) => !all_known(texts(langs@)) && e@ == ErrorView::InvalidInput(
                unknown_lang(texts(langs@)[first_unknown(texts(langs@))]),
            ),
        },
{
    match resolve_lang_exts(langs) {
        Err(e) => Err(e),
        Ok(None) => Ok(true),
        Ok(Some(exts)) => {
            proof {
                lemma_exts_of(texts(langs@), lowered(ext_of(path@)));
            }
            Ok(ext_among(path, &exts))
        },
    }
}

/// Fail fast on unknown languages before any retrieval runs.
pub fn validate_langs(langs: &[String]) -> (r: Result<(), Error>)
    ensures
        match r {
            Ok(_) => all_known(texts(langs@)),
            Err(e) => !all_known(texts(langs@)) && e@ == ErrorView::InvalidInput(
                unknown_lang(texts(langs@)[first_unknown(texts(langs@))]),
            ),
        },
{
    match resolve_lang_exts(langs) {
        Ok(_) => Ok(()),
        Err(e) => Err(e),
    }
}

/// Stopwords dropped when turning a natural-language query into live-grep terms.
pub open spec fn stopwords() -> Seq<Seq<char>> {
    seq![
        "a"@, "an"@, "and"@, "are"@, "as"@, "at"@, "be"@, "by"@, "can"@, "do"@, "does"@, "for"@,
        "from"@, "how"@, "i"@, "in"@, "into"@, "is"@, "it"@, "its"@, "of"@, "on"@, "or"@, "that"@,
        "the"@, "this"@, "to"@, "we"@, "what"@, "when"@, "where"@, "which"@, "who"@, "why"@,
        "with"@, "you"@,
    ]
}

const STOPWORDS: [&'static str; 36] = [
    "a", "an", "and", "are", "as", "at", "be", "by", "can", "do", "does", "for", "from", "how", "i",
    "in", "into", "is", "it", "its", "of", "on", "or", "that", "the", "this", "to", "we", "what",
    "when", "where", "which", "who", "why", "with", "you",
];

/// Whether a term is a stopword, whatever its case.
pub open spec fn stopword(t: Seq<char>) -> bool {
    exists|i: int| 0 <= i < stopwords().len() && lowered(#[trigger] stopwords()[i]) == lowered(t)
}

fn is_stopword(term: &str) -> (r: bool)
    ensures
        r == stopword(term@),
{
    let words = STOPWORDS;
    let low = lower(term);
    let mut i: usize = 0;
    while i < words.len()
        invariant
            i <= words@.len(),
            words == STOPWORDS,
            low@ == lowered(term@),
            forall|j: int| 0 <= j < i ==> lowered(#[trigger] stopwords()[j]) != low@,
        decreases words@.len() - i,
    {
        proof {
            assert(words@[i as int]@ == stopwords()[i as int]);
        }
        if same(lower(words[i]).as_str(), low.as_str()) {
            return true;
        }
        i += 1;
    }
    false
}

/// Characters that belong to a term of a query.
pub open spec fn term_char(c: char) -> bool {
    is_ascii_alnum(c) || c == '-' || c == '_' || c == '.' || c == '/'
}

/// Which characters of a query belong to terms.
pub open spec fn term_marks(q: Seq<char>) -> Seq<bool> {
    Seq::new(q.len(), |i: int| term_char(q[i]))
}

/// Whether a run of term characters is a term.
pub open spec fn is_term(t: Seq<char>) -> bool {
    t.len() >= 2 && !stopword(t)
}

/// Whether a term looks like an identifier or a path.
pub open spec fn identifier(t: Seq<char>) -> bool {
    exists|i: int|
        0 <= i < t.len() && ({
            let c = #[trigger] t[i];
            c == '-' || c == '_' || c == '/' || c == '.' || 'A' <= c <= 'Z'
        })
}

fn identifier_like(term: &str) -> (r: bool)
    ensures
        r == identifier(term@),
{
    let cs = chars_of(term);
    let mut i: usize = 0;
    while i < cs.len()
        invariant
            i <= cs@.len(),
            cs@ == term@,
            forall|j: int|
                0 <= j < i ==> {
                    let c = #[trigger] cs@[j];
                    !(c == '-' || c == '_' || c == '/' || c == '.' || 'A' <= c <= 'Z')
                },
        decreases cs@.len() - i,
    {
        let c = cs[i];
        if c == '-' || c == '_' || c == '/' || c == '.' || ('A' <= c && c <= 'Z') {
            return true;
        }
        i += 1;
    }
    false
}

/// A term of a query; longer terms come first, equally long ones in the
/// order of their texts.
pub struct Term(pub String);

impl View for Term {
    type V = Seq<char>;

    open spec fn view(&self) -> Seq<char> {
        self.0@
    }
}

/// Whether term `a` comes before `b`: it is longer, or as long and smaller.
pub open spec fn term_precedes(a: Seq<char>, b: Seq<char>) -> bool {
    a.len() > b.len() || (a.len() == b.len() && text_precedes(a, b))
}

impl Ranked for Term {
    open spec fn precedes(a: Seq<char>, b: Seq<char>) -> bool {
        term_precedes(a, b)
    }

    fn before(&self, other: &Term) -> (r: bool) {
        let a = chars_of(self.0.as_str());
        let b = chars_of(other.0.as_str());
        a.len() > b.len() || (a.len() == b.len() && text_before(
            self.0.as_str(),
            other.0.as_str(),
        ))
    }

    proof fn lemma_order(a: Seq<char>, b: Seq<char>, c: Seq<char>) {
        lemma_text_order(a, b, c);
    }
}

/// Terms in the order in which a query is searched for them.
pub open spec fn terms_sorted(ts: Seq<Seq<char>>) -> Seq<Seq<char>> {
    sorted::<Term>(ts)
}

/// Longer terms are searched for first, and terms of one length in the order
/// of their texts; none is lost or made up by that.
pub proof fn terms_come_longest_first(ts: Seq<Seq<char>>)
    ensures
        terms_sorted(ts).to_multiset() == ts.to_multiset(),
        forall|i: int, j: int|
            0 <= i < j < terms_sorted(ts).len() ==> !term_precedes(
                #[trigger] terms_sorted(ts)[j],
                #[trigger] terms_sorted(ts)[i],
            ),
{
    crate::order::sort_orders::<Term>(ts);
    assert forall|i: int, j: int| 0 <= i < j < terms_sorted(ts).len() implies !term_precedes(
        #[trigger] terms_sorted(ts)[j],
        #[trigger] terms_sorted(ts)[i],
    ) by {
        assert(!<Term as Ranked>::precedes(sorted::<Term>(ts)[j], sorted::<Term>(ts)[i]));
    }
}

/// `ts` without the terms that repeat the one kept before them in another case.
pub open spec fn case_deduped(ts: Seq<Seq<char>>) -> Seq<Seq<char>>
    decreases ts.len(),
{
    if ts.len() == 0 {
        ts
    } else {
        let r = case_deduped(ts.drop_last());
        if r.len() > 0 && lowered(r.last()) == lowered(ts.last()) {
            r
        } else {
            r.push(ts.last())
        }
    }
}

/// The terms of a query, longest first.
pub open spec fn query_terms(q: Seq<char>) -> Seq<Seq<char>> {
    case_deduped(terms_sorted(runs(q, term_marks(q)).filter(|t: Seq<char>| is_term(t))))
}

/// At most eight terms to search for: only the identifiers of a query where
/// it has any.
pub open spec fn terms_of(q: Seq<char>) -> Seq<Seq<char>> {
    let ts = query_terms(q);
    let specific = ts.filter(|t: Seq<char>| identifier(t));
    let pick = if specific.len() > 0 {
        specific
    } else {
        ts
    };
    if pick.len() > 8 {
        pick.take(8)
    } else {
        pick
    }
}

/// Terms that are left when repeats go were there before.
proof fn lemma_deduped_in(ts: Seq<Seq<char>>, i: int)
    requires
        0 <= i < case_deduped(ts).len(),
    ensures
        ts.contains(case_deduped(ts)[i]),
    decreases ts.len(),
{
    let before = ts.drop_last();
    let kept = case_deduped(before);
    if i < kept.len() {
        lemma_deduped_in(before, i);
        let k = choose|k: int| 0 <= k < before.len() && before[k] == kept[i];
        assert(ts[k] == kept[i]);
    } else {
        assert(ts[ts.len() - 1] == case_deduped(ts)[i]);
    }
}

/// A query is searched for eight terms at most, each a run of it that has two
/// characters or more and is no stopword.
pub proof fn terms_are_few_and_telling(q: Seq<char>, i: int)
    requires
        0 <= i < terms_of(q).len(),
    ensures
        terms_of(q).len() <= 8,
        is_term(terms_of(q)[i]),
        runs(q, term_marks(q)).contains(terms_of(q)[i]),
{
    let ts = query_terms(q);
    let specific = ts.filter(|t: Seq<char>| identifier(t));
    let t = terms_of(q)[i];
    if specific.len() > 0 {
        assert(t == specific[i]);
        assert(specific.contains(t));
        ts.lemma_filter_contains_rev(|t: Seq<char>| identifier(t), t);
    } else {
        assert(t == ts[i]);
    }
    let k = choose|k: int| 0 <= k < ts.len() && ts[k] == t;
    let all = runs(q, term_marks(q)).filter(|t: Seq<char>| is_term(t));
    lemma_deduped_in(terms_sorted(all), k);
    terms_come_longest_first(all);
    broadcast use vstd::seq_lib::group_to_multiset_ensures;
    assert(terms_sorted(all).to_multiset().count(t) > 0);
    assert(all.contains(t));
    let j = choose|j: int| 0 <= j < all.len() && all[j] == t;
    runs(q, term_marks(q)).lemma_filter_pred(|t: Seq<char>| is_term(t), j);
    runs(q, term_marks(q)).lemma_filter_contains_rev(|t: Seq<char>| is_term(t), t);
}

fn case_dedup(v: Vec<Term>) -> (r: Vec<String>)
    ensures
        texts(r@) == case_deduped(views(v@)),
{
    let mut out: Vec<String> = Vec::new();
    let ghost all = views(v@);
    proof {
        assert(texts(out@) =~= case_deduped(all.take(0)));
    }
    for x in it: v
        invariant
            it.seq() == v@,
            all == views(v@),
            texts(out@) == case_deduped(all.take(it.index())),
    {
        let ghost before = out@;
        let ghost k = it.index();
        let ghost xv = x@;
        proof {
            assert(all.take(k + 1).drop_last() =~= all.take(k));
            assert(all.take(k + 1).last() == xv);
            assert(texts(out@).len() == out@.len());
            if out@.len() > 0 {
                assert(texts(out@).last() == out@.last()@);
            }
        }
        if !(out.len() > 0 && same(
            lower(out[out.len() - 1].as_str()).as_str(),
            lower(x.0.as_str()).as_str(),
        )) {
            out.push(x.0);
            proof {
                assert(texts(out@) =~= texts(before).push(xv));
            }
        }
    }
    proof {
        assert(all.take(all.len() as int) =~= all);
    }
    out
}

/// Distinctive tokens from a natural-language query for live-grep fallback.
pub fn fallback_terms(query: &str) -> (r: Vec<String>)
    ensures
        texts(r@) == terms_of(query@),
{
    let cs = chars_of(query);
    let mut marks: Vec<bool> = Vec::new();
    let mut i: usize = 0;
    while i < cs.len()
        invariant
            i <= cs@.len(),
            cs@ == query@,
            marks@ == term_marks(query@).take(i as int),
        decreases cs@.len() - i,
    {
        let c = cs[i];
        marks.push(ascii_alnum(c) || c == '-' || c == '_' || c == '.' || c == '/');
        proof {
            assert(marks@ =~= term_marks(query@).take(i + 1));
        }
        i += 1;
    }
    proof {
        assert(marks@ =~= term_marks(query@));
    }
    let found = split_runs(&cs, &marks);
    let ghost all = texts(found@);
    let ghost wanted = |t: Seq<char>| is_term(t);
    let mut terms: Vec<Term> = Vec::new();
    let mut k: usize = 0;
    proof {
        reveal(Seq::filter);
        assert(views(terms@) =~= all.take(0).filter(wanted));
    }
    while k < found.len()
        invariant
            k <= found@.len(),
            all == texts(found@),
            wanted == (|t: Seq<char>| is_term(t)),
            views(terms@) == all.take(k as int).filter(wanted),
        decreases found@.len() - k,
    {
        let ghost before = terms@;
        proof {
            lemma_filter_step(all, k as int, wanted);
            assert(all[k as int] == found@[k as int]@);
        }
        if chars_of(found[k].as_str()).len() >= 2 && !is_stopword(found[k].as_str()) {
            let t = Term(found[k].clone());
            terms.push(t);
            proof {
                assert(views(terms@) =~= views(before).push(t@));
            }
        }
        k += 1;
    }
    proof {
        assert(all.take(k as int) =~= all);
    }
    let mut ts = case_dedup(sort(terms));
    let ghost tv = texts(ts@);
    let ghost ident = |t: Seq<char>| identifier(t);
    let mut specific: Vec<String> = Vec::new();
    let mut n: usize = 0;
    proof {
        assert(tv == query_terms(query@));
        reveal(Seq::filter);
        assert(texts(specific@) =~= tv.take(0).filter(ident));
    }
    while n < ts.len()
        invariant
            n <= ts@.len(),
            tv == texts(ts@),
            ident == (|t: Seq<char>| identifier(t)),
            texts(specific@) == tv.take(n as int).filter(ident),
        decreases ts@.len() - n,
    {
        let ghost before = specific@;
        proof {
            lemma_filter_step(tv, n as int, ident);
            assert(tv[n as int] == ts@[n as int]@);
        }
        if identifier_like(ts[n].as_str()) {
            let t = ts[n].clone();
            specific.push(t);
            proof {
                assert(texts(specific@) =~= texts(before).push(t@));
            }
        }
        n += 1;
    }
    proof {
        assert(tv.take(n as int) =~= tv);
        assert(texts(specific@).len() == specific@.len());
    }
    if specific.len() > 0 {
        ts = specific;
    }
    let ghost pick = texts(ts@);
    ts.truncate(8);
    proof {
        if pick.len() > 8 {
            assert(texts(ts@) =~= pick.take(8));
        } else {
            assert(texts(ts@) =~= pick);
        }
    }
    ts
}

/// Characters with a meaning in a regular expression.
pub open spec fn meta(c: char) -> bool {
    c == '\\' || c == '.' || c == '+' || c == '*' || c == '?' || c == '(' || c == ')' || c == '['
        || c == ']' || c == '{' || c == '}' || c == '|' || c == '^' || c == '$'
}

/// A term as a regular expression that matches it literally.
pub open spec fn escaped(t: Seq<char>) -> Seq<char>
    decreases t.len(),
{
    if t.len() == 0 {
        t
    } else if meta(t.last()) {
        escaped(t.drop_last()).push('\\').push(t.last())
    } else {
        escaped(t.drop_last()).push(t.last())
    }
}

fn regex_escape(term: &str) -> (r: String)
    ensures
        r@ == escaped(term@),
{
    let cs = chars_of(term);
    let mut out = String::new();
    let mut i: usize = 0;
    proof {
        assert(out@ =~= escaped(cs@.take(0)));
    }
    while i < cs.len()
        invariant
            i <= cs@.len(),
            cs@ == term@,
            out@ == escaped(cs@.take(i as int)),
        decreases cs@.len() - i,
    {
        let c = cs[i];
        proof {
            assert(cs@.take(i + 1).drop_last() =~= cs@.take(i as int));
            assert(cs@.take(i + 1).last() == c);
        }
        if c == '\\' || c == '.' || c == '+' || c == '*' || c == '?' || c == '(' || c == ')' || c
            == '[' || c == ']' || c == '{' || c == '}' || c == '|' || c == '^' || c == '$' {
            out.push('\\');
        }
        out.push(c);
        i += 1;
    }
    proof {
        assert(cs@.take(i as int) =~= cs@);
    }
    out
}

/// What a natural-language query is searched for, and whether that is a
/// regular expression: its terms, or the query itself where it has none.
pub open spec fn fallback_pattern_of(q: Seq<char>) -> (Seq<char>, bool) {
    let ts = terms_of(q);
    if ts.len() == 0 {
        (trimmed(q), false)
    } else {
        (joined(Seq::new(ts.len(), |i: int| escaped(ts[i])), "|"@), true)
    }
}

/// What a natural-language query is searched for, and whether that is a
/// regular expression.
pub fn fallback_pattern(query: &str) -> (r: (String, bool))
    ensures
        (r.0@, r.1) == fallback_pattern_of(query@),
{
    let ts = fallback_terms(query);
    let ghost tv = texts(ts@);
    if ts.len() == 0 {
        let cs = chars_of(query);
        return (string_of(trim(&cs)), false);
    }
    let ghost all = Seq::new(tv.len(), |i: int| escaped(tv[i]));
    let mut parts: Vec<String> = Vec::new();
    let mut i: usize = 0;
    while i < ts.len()
        invariant
            i <= ts@.len(),
            tv == texts(ts@),
            all == Seq::new(tv.len(), |i: int| escaped(tv[i])),
            texts(parts@) == all.take(i as int),
        decreases ts@.len() - i,
    {
        let ghost before = parts@;
        let e = regex_escape(ts[i].as_str());
        parts.push(e);
        proof {
            assert(all[i as int] == e@);
            assert(texts(parts@) =~= texts(before).push(e@));
            assert(texts(parts@) =~= all.take(i + 1));
        }
        i += 1;
    }
    proof {
        assert(all.take(i as int) =~= all);
    }
    (join(&parts, "|"), true)
}

/// The directory a workspace's index is kept in.
pub open spec fn index_dir_of(workspace: Seq<char>) -> Seq<char> {
    join_of(workspace, ".one-grep"@)
}

/// Note shown when `search` degrades to live rg because `.one-grep` is missing.
pub fn unindexed_note(workspace: &str) -> (r: String)
    ensures
        r@ == "mode: rg-fallback (no index at "@ + index_dir_of(workspace@)
            + "). Indexing is available for better ranking: one-grep index "@ + workspace@
            + " && one-grep embed "@ + workspace@,
{
    let mut out = "mode: rg-fallback (no index at ".to_owned();
    out.append(join_path(workspace, ".one-grep").as_str());
    out.append("). Indexing is available for better ranking: one-grep index ");
    out.append(workspace);
    out.append(" && one-grep embed ");
    out.append(workspace);
    out
}

/// One matching line.
#[derive(Debug, Clone, PartialEq, Eq)]
pub struct Hit {
    /// File containing the match.
    pub path: String,
    /// 1-based line number.
    pub line: u64,
    /// Line text without trailing newline.
    pub text: String,
}

/// What a [`Hit`] says, as mathematical values.
pub struct HitView {
    pub path: Seq<char>,
    pub line: int,
    pub text: Seq<char>,
}

impl View for Hit {
    type V = HitView;

    open spec fn view(&self) -> HitView {
        HitView { path: self.path@, line: self.line as int, text: self.text@ }
    }
}

impl Ranked for Hit {
    open spec fn precedes(a: HitView, b: HitView) -> bool {
        path_precedes(a.path, b.path) || (!path_precedes(b.path, a.path) && a.line < b.line)
    }

    fn before(&self, other: &Hit) -> (r: bool) {
        path_before(self.path.as_str(), other.path.as_str()) || (!path_before(
            other.path.as_str(),
            self.path.as_str(),
        ) && self.line < other.line)
    }

    proof fn lemma_order(a: HitView, b: HitView, c: HitView) {
        lemma_comps_order(components(a.path), components(b.path), components(c.path));
        lemma_comps_order(components(c.path), components(b.path), components(a.path));
        lemma_comps_order(components(b.path), components(a.path), components(c.path));
        lemma_comps_order(components(b.path), components(c.path), components(a.path));
        lemma_comps_order(components(a.path), components(c.path), components(b.path));
        lemma_comps_order(components(c.path), components(a.path), components(b.path));
    }
}

/// Search options.
#[derive(Debug, Clone)]
pub struct Options {
    /// Treat pattern as regex; otherwise match literally.
    pub regex: bool,
    /// Case-insensitive matching.
    pub case_insensitive: bool,
    /// Extra ignore-style globs (e.g. `["!target/*"]`).
    pub globs: Vec<String>,
    /// Language filter (`rust`, `python`, `nix`, `markdown`, or an
    /// extension like `rs`). Empty means all files.
    pub langs: Vec<String>,
    /// Maximum hits to collect.
    pub limit: usize,
}

impl Default for Options {
    fn default() -> (r: Options)
        ensures
            !r.regex,
            !r.case_insensitive,
            r.globs@.len() == 0,
            r.langs@.len() == 0,
            r.limit == 100,
    {
        Options {
            regex: false,
            case_insensitive: false,
            globs: Vec::new(),
            langs: Vec::new(),
            limit: 100,
        }
    }
}

/// What files are searched for.
#[derive(Debug)]
pub struct Query {
    /// The pattern, normalized.
    pub pattern: String,
    /// Case-insensitive matching.
    pub case_insensitive: bool,
    /// Match the pattern literally.
    pub fixed: bool,
    /// The extensions of files to search; `None` means all files.
    pub exts: Option<Vec<String>>,
    /// Maximum hits to return.
    pub limit: usize,
}

/// What a [`Query`] says, as mathematical values.
pub struct QueryView {
    pub pattern: Seq<char>,
    pub case_insensitive: bool,
    pub fixed: bool,
    pub exts: Option<Seq<Seq<char>>>,
    pub limit: int,
}

impl View for Query {
    type V = QueryView;

    open spec fn view(&self) -> QueryView {
        QueryView {
            pattern: self.pattern@,
            case_insensitive: self.case_insensitive,
            fixed: self.fixed,
            exts: match self.exts {
                Some(v) => Some(texts(v@)),
                None => None,
            },
            limit: self.limit as int,
        }
    }
}

/// How a search goes about.
#[derive(Debug)]
pub enum Plan {
    /// There is nothing to search for.
    Nothing,
    /// The workspace is a file: search it.
    File(Query),
    /// The workspace is a directory: search the files below it.
    Walk(Query),
}

/// What a [`Plan`] says, as mathematical values.
pub enum PlanView {
    Nothing,
    File(QueryView),
    Walk(QueryView),
}

impl View for Plan {
    type V = PlanView;

    open spec fn view(&self) -> PlanView {
        match self {
            Plan::Nothing => PlanView::Nothing,
            Plan::File(q) => PlanView::File(q@),
            Plan::Walk(q) => PlanView::Walk(q@),
        }
    }
}

/// What a search for `pattern` looks for.
pub open spec fn query_of(pattern: Seq<char>, options: Options) -> QueryView {
    QueryView {
        pattern: normalized(pattern),
        case_insensitive: options.case_insensitive,
        fixed: !options.regex,
        exts: if options.langs@.len() == 0 {
            None
        } else {
            Some(exts_of(texts(options.langs@)))
        },
        limit: options.limit as int,
    }
}

/// How a search of a workspace goes about, or why it cannot: the workspace is
/// missing, a language is unknown, the pattern does not compile or, where
/// there are files to walk, a glob is malformed. An empty pattern finds
/// nothing in any workspace that exists, as long as the languages are known.
pub open spec fn plan_of(
    workspace: Seq<char>,
    exists_: bool,
    is_file: bool,
    pattern: Seq<char>,
    options: Options,
) -> Result<PlanView, ErrorView> {
    let q = query_of(pattern, options);
    let langs = texts(options.langs@);
    if !exists_ {
        Err(ErrorView::InvalidInput("workspace does not exist: "@ + workspace))
    } else if !all_known(langs) {
        Err(ErrorView::InvalidInput(unknown_lang(langs[first_unknown(langs)])))
    } else if q.pattern.len() == 0 {
        Ok(PlanView::Nothing)
    } else {
        match pattern_fault(q.pattern, q.case_insensitive, q.fixed) {
            Some(m) => Err(ErrorView::BadPattern(m)),
            None => if is_file {
                Ok(PlanView::File(q))
            } else {
                match globs_fault(texts(options.globs@)) {
                    Some(m) => Err(ErrorView::Walk(m)),
                    None => Ok(PlanView::Walk(q)),
                }
            },
        }
    }
}

/// What a plan, or the reason for not having one, says.
pub open spec fn plan_view(r: Result<Plan, Error>) -> Result<PlanView, ErrorView> {
    match r {
        Ok(p) => Ok(p@),
        Err(e) => Err(e@),
    }
}

/// How a search of `workspace` for `pattern` goes about. `present` says
/// whether the workspace exists and `is_file` whether it is a file.
pub fn plan_search(workspace: &str, present: bool, is_file: bool, pattern: &str, options: &Options) -> (r:
    Result<Plan, Error>)
    ensures
        plan_view(r) == plan_of(workspace@, present, is_file, pattern@, *options),
{
    if !present {
        let mut m = "workspace does not exist: ".to_owned();
        m.append(workspace);
        return Err(Error::InvalidInput(m));
    }
    let exts = match resolve_lang_exts(&options.langs) {
        Err(e) => {
            return Err(e);
        },
        Ok(exts) => exts,
    };
    let effective = normalize_pattern(pattern);
    if chars_of(effective).len() == 0 {
        return Ok(Plan::Nothing);
    }
    if let Some(m) = compile_fault(effective, options.case_insensitive, !options.regex) {
        return Err(Error::BadPattern(m));
    }
    let query = Query {
        pattern: effective.to_owned(),
        case_insensitive: options.case_insensitive,
        fixed: !options.regex,
        exts,
        limit: options.limit,
    };
    if is_file {
        return Ok(Plan::File(query));
    }
    match GlobFilter::build(workspace, &options.globs) {
        Err(e) => Err(e),
        Ok(_) => Ok(Plan::Walk(query)),
    }
}

/// The hits that matching lines of a file make.
pub open spec fn hits_in(path: Seq<char>, found: Seq<(u64, Seq<u8>)>) -> Seq<HitView> {
    Seq::new(
        found.len(),
        |i: int| HitView { path, line: found[i].0 as int, text: chomped(utf8_lossy(found[i].1)) },
    )
}

/// The hits that matching lines of a file make: their text without line
/// terminators.
pub fn hits_of(path: &str, found: &[LineMatch]) -> (r: Vec<Hit>)
    ensures
        views(r@) == hits_in(path@, Seq::new(found@.len(), |i: int| found@[i]@)),
{
    let mut out: Vec<Hit> = Vec::new();
    let ghost fv = Seq::new(found@.len(), |i: int| found@[i]@);
    let mut i: usize = 0;
    while i < found.len()
        invariant
            i <= found@.len(),
            fv == Seq::new(found@.len(), |i: int| found@[i]@),
            views(out@) == hits_in(path@, fv).take(i as int),
        decreases found@.len() - i,
    {
        let ghost before = out@;
        let h = Hit {
            path: path.to_owned(),
            line: found[i].line,
            text: chomp(lossy(&found[i].bytes).as_str()),
        };
        out.push(h);
        proof {
            assert(fv[i as int] == found@[i as int]@);
            assert(views(out@) =~= views(before).push(h@));
            assert(views(out@) =~= hits_in(path@, fv).take(i + 1));
        }
        i += 1;
    }
    proof {
        assert(hits_in(path@, fv).take(i as int) =~= hits_in(path@, fv));
    }
    out
}

/// The hits of a query in the bytes of one file.
pub open spec fn file_hits(q: QueryView, path: Seq<char>, bytes: Seq<u8>) -> Seq<HitView> {
    match line_matches(q.pattern, q.case_insensitive, q.fixed, bytes) {
        Some(found) => hits_in(path, found),
        None => Seq::empty(),
    }
}

/// Whether the lines of a file that a query matches come by line number.
pub open spec fn matches_increase(q: QueryView, bytes: Seq<u8>) -> bool {
    lines_increase(line_matches(q.pattern, q.case_insensitive, q.fixed, bytes))
}

/// The hits of a query in the bytes of one file.
pub fn search_bytes(query: &Query, path: &str, bytes: &[u8]) -> (r: Vec<Hit>)
    ensures
        views(r@) == file_hits(query@, path@, bytes@),
        matches_increase(query@, bytes@),
{
    let found = matching_lines(query.pattern.as_str(), query.case_insensitive, query.fixed, bytes);
    match found {
        Some(v) => {
            let r = hits_of(path, &v);
            proof {
                assert(match_views(found) == Some(Seq::new(v@.len(), |i: int| v@[i]@)));
            }
            r
        },
        None => {
            let none: Vec<Hit> = Vec::new();
            proof {
                assert(views(none@) =~= Seq::<HitView>::empty());
            }
            none
        },
    }
}

/// Whether a file is one that a query searches.
pub open spec fn searched(q: QueryView, path: Seq<char>) -> bool {
    match q.exts {
        None => true,
        Some(exts) => exts.contains(lowered(ext_of(path))),
    }
}

/// Whether a file is one that a query searches.
pub fn wants_file(query: &Query, path: &str) -> (r: bool)
    ensures
        r == searched(query@, path@),
{
    match &query.exts {
        None => true,
        Some(exts) => ext_among(path, exts),
    }
}

/// A file and what it holds.
#[derive(Debug)]
pub struct SourceFile {
    /// Where the file is.
    pub path: String,
    /// What it holds.
    pub bytes: Vec<u8>,
}

impl View for SourceFile {
    type V = (Seq<char>, Seq<u8>);

    open spec fn view(&self) -> (Seq<char>, Seq<u8>) {
        (self.path@, self.bytes@)
    }
}

/// The hits of a query in the first `n` files.
pub open spec fn hits_up_to(q: QueryView, files: Seq<(Seq<char>, Seq<u8>)>, n: int) -> Seq<HitView>
    decreases n,
{
    if n <= 0 {
        Seq::empty()
    } else if searched(q, files[n - 1].0) {
        hits_up_to(q, files, n - 1) + file_hits(q, files[n - 1].0, files[n - 1].1)
    } else {
        hits_up_to(q, files, n - 1)
    }
}

/// Whether no two files are the same file.
pub open spec fn distinct_files(files: Seq<(Seq<char>, Seq<u8>)>) -> bool {
    forall|i: int, j: int|
        0 <= i < j < files.len() ==> components((#[trigger] files[i]).0) != components(
            (#[trigger] files[j]).0,
        )
}

/// Whether the lines of each of the first `n` files that a query searches
/// come by line number.
pub open spec fn all_increase(q: QueryView, files: Seq<(Seq<char>, Seq<u8>)>, n: int) -> bool {
    forall|i: int|
        0 <= i < n && searched(q, (#[trigger] files[i]).0) ==> matches_increase(q, files[i].1)
}

/// Whether the matching lines that a plan looks at come by line number.
pub open spec fn plan_increases(plan: PlanView, files: Seq<(Seq<char>, Seq<u8>)>) -> bool {
    match plan {
        PlanView::Nothing => true,
        PlanView::File(q) => all_increase(q, files, lesser(files.len() as int, 1)),
        PlanView::Walk(q) => all_increase(q, files, files.len() as int),
    }
}

/// Whether hits come strictly by path and, within a path, by line.
pub open spec fn strictly_ordered(hits: Seq<HitView>) -> bool {
    forall|i: int, j: int|
        0 <= i < j < hits.len() ==> <Hit as Ranked>::precedes(
            #[trigger] hits[i],
            #[trigger] hits[j],
        )
}

/// Whether no two hits share a path and a line.
pub open spec fn distinct_places(hits: Seq<HitView>) -> bool {
    forall|i: int, j: int|
        0 <= i < j < hits.len() ==> components((#[trigger] hits[i]).path) != components(
            (#[trigger] hits[j]).path,
        ) || hits[i].line != hits[j].line
}

/// Each hit is in a file.
proof fn lemma_hits_in_files(q: QueryView, files: Seq<(Seq<char>, Seq<u8>)>, n: int)
    requires
        0 <= n <= files.len(),
    ensures
        forall|i: int|
            0 <= i < hits_up_to(q, files, n).len() ==> exists|f: int|
                0 <= f < n && (#[trigger] hits_up_to(q, files, n)[i]).path == (
                #[trigger] files[f]).0,
    decreases n,
{
    if n > 0 {
        lemma_hits_in_files(q, files, n - 1);
        let before = hits_up_to(q, files, n - 1);
        let now = hits_up_to(q, files, n);
        assert forall|i: int| 0 <= i < now.len() implies exists|f: int|
            0 <= f < n && (#[trigger] now[i]).path == (#[trigger] files[f]).0 by {
            if i < before.len() {
                assert(now[i] == before[i]);
            } else {
                assert(now[i].path == files[n - 1].0);
            }
        }
    }
}

/// Hits of different files, each with its lines in order, share no place.
proof fn lemma_distinct_places(q: QueryView, files: Seq<(Seq<char>, Seq<u8>)>, n: int)
    requires
        0 <= n <= files.len(),
        distinct_files(files),
        all_increase(q, files, n),
    ensures
        distinct_places(hits_up_to(q, files, n)),
    decreases n,
{
    if n > 0 {
        lemma_distinct_places(q, files, n - 1);
        lemma_hits_in_files(q, files, n - 1);
        let before = hits_up_to(q, files, n - 1);
        let now = hits_up_to(q, files, n);
        let m = before.len();
        assert forall|i: int, j: int| 0 <= i < j < now.len() implies components(
            (#[trigger] now[i]).path,
        ) != components((#[trigger] now[j]).path) || now[i].line != now[j].line by {
            if j < m {
                assert(now[i] == before[i] && now[j] == before[j]);
            } else if i < m {
                assert(now[i] == before[i]);
                let f = choose|f: int| 0 <= f < n - 1 && before[i].path == (#[trigger] files[f]).0;
                assert(now[j].path == files[n - 1].0);
                assert(components(files[f].0) != components(files[n - 1].0));
            } else {
                let found = line_matches(
                    q.pattern,
                    q.case_insensitive,
                    q.fixed,
                    files[n - 1].1,
                )->0;
                assert(searched(q, files[n - 1].0));
                assert(matches_increase(q, files[n - 1].1));
                assert(found[i - m].0 < found[j - m].0);
            }
        }
    }
}

/// Hits that share no place are strictly in order once they are sorted.
proof fn lemma_sorted_strictly(hits: Seq<HitView>, limit: int)
    requires
        0 <= limit,
        distinct_places(hits),
    ensures
        strictly_ordered(at_most(sorted::<Hit>(hits), limit)),
{
    let s = sorted::<Hit>(hits);
    crate::order::sort_orders::<Hit>(hits);
    assert(hits.no_duplicates());
    hits.lemma_multiset_has_no_duplicates();
    s.lemma_multiset_has_no_duplicates_conv();
    s.to_multiset_ensures();
    hits.to_multiset_ensures();
    assert forall|i: int, j: int| 0 <= i < j < s.len() implies <Hit as Ranked>::precedes(
        #[trigger] s[i],
        #[trigger] s[j],
    ) by {
        assert(!<Hit as Ranked>::precedes(s[j], s[i]));
        lemma_comps_order(components(s[i].path), components(s[j].path), components(s[i].path));
        assert(s.to_multiset().count(s[i]) > 0);
        assert(s.to_multiset().count(s[j]) > 0);
        let a = choose|a: int| 0 <= a < hits.len() && hits[a] == s[i];
        let b = choose|b: int| 0 <= b < hits.len() && hits[b] == s[j];
        assert(s[i] != s[j]);
        assert(a < b || b < a);
    }
}

/// What a plan finds comes strictly by path and line.
proof fn lemma_found_strictly(plan: PlanView, files: Seq<(Seq<char>, Seq<u8>)>)
    requires
        distinct_files(files),
        plan_increases(plan, files),
        match plan {
            PlanView::Nothing => true,
            PlanView::File(q) => 0 <= q.limit,
            PlanView::Walk(q) => 0 <= q.limit,
        },
    ensures
        strictly_ordered(found_by(plan, files)),
{
    match plan {
        PlanView::Nothing => {},
        PlanView::File(q) => {
            if files.len() > 0 && searched(q, files[0].0) {
                let hits = file_hits(q, files[0].0, files[0].1);
                assert(matches_increase(q, files[0].1));
                assert forall|i: int, j: int| 0 <= i < j < hits.len() implies <Hit as Ranked>::precedes(
                    #[trigger] hits[i],
                    #[trigger] hits[j],
                ) by {
                    let found = line_matches(
                        q.pattern,
                        q.case_insensitive,
                        q.fixed,
                        files[0].1,
                    )->0;
                    assert(found[i].0 < found[j].0);
                }
            }
        },
        PlanView::Walk(q) => {
            lemma_distinct_places(q, files, files.len() as int);
            lemma_sorted_strictly(hits_up_to(q, files, files.len() as int), q.limit);
        },
    }
}

/// Taking a file out of a list takes its hits out.
proof fn lemma_hits_without(q: QueryView, files: Seq<(Seq<char>, Seq<u8>)>, k: int, n: int)
    requires
        0 <= k < n <= files.len(),
    ensures
        hits_up_to(q, files, n).to_multiset() == hits_up_to(
            q,
            files.remove(k),
            n - 1,
        ).to_multiset().add(hits_up_to(q, seq![files[k]], 1).to_multiset()),
    decreases n,
{
    let rest = files.remove(k);
    let one = hits_up_to(q, seq![files[k]], 1);
    assert(hits_up_to(q, seq![files[k]], 0) =~= Seq::<HitView>::empty());
    if n - 1 == k {
        lemma_hits_prefix(q, files, rest, k);
        if searched(q, files[k].0) {
            let h = file_hits(q, files[k].0, files[k].1);
            assert(one =~= h);
            vstd::seq_lib::lemma_multiset_commutative(hits_up_to(q, rest, k), h);
        } else {
            assert(one =~= Seq::<HitView>::empty());
            one.to_multiset_ensures();
            assert(hits_up_to(q, files, n).to_multiset() =~= hits_up_to(
                q,
                rest,
                n - 1,
            ).to_multiset().add(one.to_multiset()));
        }
    } else {
        lemma_hits_without(q, files, k, n - 1);
        assert(rest[n - 2] == files[n - 1]);
        if searched(q, files[n - 1].0) {
            let h = file_hits(q, files[n - 1].0, files[n - 1].1);
            vstd::seq_lib::lemma_multiset_commutative(hits_up_to(q, files, n - 1), h);
            vstd::seq_lib::lemma_multiset_commutative(hits_up_to(q, rest, n - 2), h);
            assert(hits_up_to(q, files, n).to_multiset() =~= hits_up_to(
                q,
                rest,
                n - 1,
            ).to_multiset().add(one.to_multiset()));
        }
    }
}

/// The hits of the first files are the same in lists that start with them.
proof fn lemma_hits_prefix(
    q: QueryView,
    a: Seq<(Seq<char>, Seq<u8>)>,
    b: Seq<(Seq<char>, Seq<u8>)>,
    n: int,
)
    requires
        0 <= n <= a.len(),
        n <= b.len(),
        forall|i: int| 0 <= i < n ==> a[i] == b[i],
    ensures
        hits_up_to(q, a, n) == hits_up_to(q, b, n),
    decreases n,
{
    if n > 0 {
        lemma_hits_prefix(q, a, b, n - 1);
    }
}

/// The same files in another order have the same hits.
proof fn lemma_hits_permuted(q: QueryView, a: Seq<(Seq<char>, Seq<u8>)>, b: Seq<(Seq<char>, Seq<u8>)>)
    requires
        a.to_multiset() == b.to_multiset(),
    ensures
        hits_up_to(q, a, a.len() as int).to_multiset() == hits_up_to(
            q,
            b,
            b.len() as int,
        ).to_multiset(),
    decreases a.len(),
{
    a.to_multiset_ensures();
    b.to_multiset_ensures();
    if a.len() > 0 {
        let x = a[0];
        assert(a.contains(x));
        assert(b.to_multiset().count(x) > 0);
        let k = choose|k: int| 0 <= k < b.len() && b[k] == x;
        lemma_hits_without(q, a, 0, a.len() as int);
        lemma_hits_without(q, b, k, b.len() as int);
        let ra = a.remove(0);
        let rb = b.remove(k);
        assert(ra.to_multiset() =~= a.to_multiset().remove(x));
        assert(rb.to_multiset() =~= b.to_multiset().remove(x));
        lemma_hits_permuted(q, ra, rb);
    }
}

/// Hits by path and line, at most `limit` of them.
pub fn finish(hits: Vec<Hit>, limit: usize) -> (r: Vec<Hit>)
    ensures
        views(r@) == at_most(sorted::<Hit>(views(hits@)), limit as int),
{
    let mut out = sort(hits);
    let ghost all = views(out@);
    out.truncate(limit);
    proof {
        assert(views(out@) =~= at_most(all, limit as int));
    }
    out
}

/// What a plan finds in the files that can be read: at most the limit, and
/// from a walk by path and line.
pub open spec fn found_by(plan: PlanView, files: Seq<(Seq<char>, Seq<u8>)>) -> Seq<HitView> {
    match plan {
        PlanView::Nothing => Seq::empty(),
        PlanView::File(q) => if files.len() == 0 || !searched(q, files[0].0) {
            Seq::empty()
        } else {
            at_most(file_hits(q, files[0].0, files[0].1), q.limit)
        },
        PlanView::Walk(q) => at_most(
            sorted::<Hit>(hits_up_to(q, files, files.len() as int)),
            q.limit,
        ),
    }
}

/// What a plan finds in the files that can be read. `files` are the files of
/// the workspace, or the workspace itself where it is a file.
pub fn run_plan(plan: &Plan, files: &[SourceFile]) -> (r: Vec<Hit>)
    ensures
        views(r@) == found_by(plan@, views(files@)),
        plan_increases(plan@, views(files@)),
        distinct_files(views(files@)) ==> strictly_ordered(views(r@)),
{
    let ghost fv = views(files@);
    match plan {
        Plan::Nothing => {
            let none: Vec<Hit> = Vec::new();
            proof {
                assert(views(none@) =~= Seq::<HitView>::empty());
            }
            none
        },
        Plan::File(q) => {
            proof {
                if files@.len() > 0 {
                    assert(fv[0] == files@[0]@);
                }
            }
            if files.len() == 0 || !wants_file(q, files[0].path.as_str()) {
                let none: Vec<Hit> = Vec::new();
                proof {
                    assert(views(none@) =~= Seq::<HitView>::empty());
                }
                return none;
            }
            let mut out = search_bytes(q, files[0].path.as_str(), &files[0].bytes);
            let ghost all = views(out@);
            out.truncate(q.limit);
            proof {
                assert(views(out@) =~= at_most(all, q.limit as int));
                if distinct_files(fv) {
                    lemma_found_strictly(plan@, fv);
                }
            }
            out
        },
        Plan::Walk(q) => {
            let mut hits: Vec<Hit> = Vec::new();
            let mut i: usize = 0;
            proof {
                assert(views(hits@) =~= hits_up_to(q@, fv, 0));
            }
            while i < files.len()
                invariant
                    i <= files@.len(),
                    fv == views(files@),
                    views(hits@) == hits_up_to(q@, fv, i as int),
                    all_increase(q@, fv, i as int),
                decreases files@.len() - i,
            {
                proof {
                    assert(fv[i as int] == files@[i as int]@);
                }
                if wants_file(q, files[i].path.as_str()) {
                    let ghost before = views(hits@);
                    let mut more = search_bytes(q, files[i].path.as_str(), &files[i].bytes);
                    let ghost mv = views(more@);
                    hits.append(&mut more);
                    proof {
                        assert(views(hits@) =~= before + mv);
                    }
                }
                i += 1;
            }
            proof {
                if distinct_files(fv) {
                    lemma_found_strictly(plan@, fv);
                }
            }
            finish(hits, q.limit)
        },
    }
}

/// What a search finds, or why it cannot search.
pub open spec fn search_of(
    workspace: Seq<char>,
    exists_: bool,
    is_file: bool,
    pattern: Seq<char>,
    options: Options,
    files: Seq<(Seq<char>, Seq<u8>)>,
) -> Result<Seq<HitView>, ErrorView> {
    match plan_of(workspace, exists_, is_file, pattern, options) {
        Ok(plan) => Ok(found_by(plan, files)),
        Err(e) => Err(e),
    }
}

/// What the outcome of a search says.
pub open spec fn hits_view(r: Result<Vec<Hit>, Error>) -> Result<Seq<HitView>, ErrorView> {
    match r {
        Ok(v) => Ok(views(v@)),
        Err(e) => Err(e@),
    }
}

/// Search `workspace` for `pattern`, returning up to `options.limit` hits.
///
/// `workspace` is a directory with the given `files`, or a single file (like
/// ripgrep: harnesses sometimes map a file `path` onto the workspace slot).
/// Hits are sorted by `(path, line)` and truncated, so output is
/// deterministic across runs. `limit` caps output lines, not files scanned.
/// Surrounding shell-style quotes are ignored via [`normalize_pattern`], so
/// `"foo bar"` and `foo bar` agree between CLI and MCP. An empty pattern
/// after normalization returns no hits instead of matching every line.
pub fn search(
    workspace: &str,
    present: bool,
    is_file: bool,
    pattern: &str,
    options: &Options,
    files: &[SourceFile],
) -> (r: Result<Vec<Hit>, Error>)
    ensures
        hits_view(r) == search_of(
            workspace@,
            present,
            is_file,
            pattern@,
            *options,
            views(files@),
        ),
        plan_of(workspace@, present, is_file, pattern@, *options) matches Ok(plan)
            ==> plan_increases(plan, views(files@)),
        r matches Ok(hits) ==> (distinct_files(views(files@)) ==> strictly_ordered(views(hits@))),
{
    match plan_search(workspace, present, is_file, pattern, options) {
        Err(e) => Err(e),
        Ok(plan) => Ok(run_plan(&plan, files)),
    }
}

/// How a live grep for a natural-language query goes about, or why it
/// cannot. There is nothing to do for a blank query.
pub open spec fn fallback_plan_of(
    workspace: Seq<char>,
    exists_: bool,
    is_file: bool,
    query: Seq<char>,
    limit: usize,
) -> Result<PlanView, ErrorView> {
    let (pattern, regex) = fallback_pattern_of(query);
    let p = normalized(pattern);
    let q = QueryView {
        pattern: p,
        case_insensitive: true,
        fixed: !regex,
        exts: None,
        limit: limit as int,
    };
    if pattern.len() == 0 {
        Ok(PlanView::Nothing)
    } else if !exists_ {
        Err(ErrorView::InvalidInput("workspace does not exist: "@ + workspace))
    } else if p.len() == 0 {
        Ok(PlanView::Nothing)
    } else {
        match pattern_fault(p, true, !regex) {
            Some(m) => Err(ErrorView::BadPattern(m)),
            None => if is_file {
                Ok(PlanView::File(q))
            } else {
                Ok(PlanView::Walk(q))
            },
        }
    }
}

/// How a live grep for a natural-language query goes about: distinctive
/// tokens, case-insensitive.
pub fn plan_fallback(workspace: &str, present: bool, is_file: bool, query: &str, limit: usize) -> (r:
    Result<Plan, Error>)
    ensures
        plan_view(r) == fallback_plan_of(workspace@, present, is_file, query@, limit),
{
    let (pattern, regex) = fallback_pattern(query);
    if chars_of(pattern.as_str()).len() == 0 {
        return Ok(Plan::Nothing);
    }
    let options = Options {
        regex,
        case_insensitive: true,
        globs: Vec::new(),
        langs: Vec::new(),
        limit,
    };
    plan_search(workspace, present, is_file, pattern.as_str(), &options)
}

/// What a live grep for a natural-language query finds, or why it cannot search.
pub open spec fn fallback_of(
    workspace: Seq<char>,
    exists_: bool,
    is_file: bool,
    query: Seq<char>,
    limit: usize,
    files: Seq<(Seq<char>, Seq<u8>)>,
) -> Result<Seq<HitView>, ErrorView> {
    match fallback_plan_of(workspace, exists_, is_file, query, limit) {
        Ok(plan) => Ok(found_by(plan, files)),
        Err(e) => Err(e),
    }
}

/// Live grep for an unindexed `search` query: distinctive tokens, case-insensitive.
pub fn fallback_search(
    workspace: &str,
    present: bool,
    is_file: bool,
    query: &str,
    limit: usize,
    files: &[SourceFile],
) -> (r: Result<Vec<Hit>, Error>)
    ensures
        hits_view(r) == (match fallback_plan_of(workspace@, present, is_file, query@, limit) {
            Ok(plan) => Ok(found_by(plan, views(files@))),
            Err(e) => Err(e),
        }),
        hits_view(r) == fallback_of(workspace@, present, is_file, query@, limit, views(files@)),
        r matches Ok(hits) ==> (distinct_files(views(files@)) ==> strictly_ordered(views(hits@))),
{
    match plan_fallback(workspace, present, is_file, query, limit) {
        Err(e) => Err(e),
        Ok(plan) => Ok(run_plan(&plan, files)),
    }
}

/// The hits of a search come out the same in whatever order files are walked
/// and hits arrive, as long as no two hits share a path and a line.
pub proof fn output_ignores_arrival(a: Seq<HitView>, b: Seq<HitView>, limit: int)
    requires
        a.to_multiset() == b.to_multiset(),
        forall|i: int, j: int|
            0 <= i < a.len() && 0 <= j < a.len() && components((#[trigger] a[i]).path)
                == components((#[trigger] a[j]).path) && a[i].line == a[j].line ==> a[i] == a[j],
    ensures
        at_most(sorted::<Hit>(a), limit) == at_most(sorted::<Hit>(b), limit),
{
    assert forall|i: int, j: int|
        0 <= i < a.len() && 0 <= j < a.len() && !<Hit as Ranked>::precedes(
            #[trigger] a[i],
            #[trigger] a[j],
        ) && !<Hit as Ranked>::precedes(a[j], a[i]) implies a[i] == a[j] by {
        lemma_comps_order(components(a[i].path), components(a[j].path), components(a[i].path));
    }
    crate::order::sort_ignores_arrival::<Hit>(a, b);
}

/// The hits of a search come by path and, within a path, by line; no more
/// than the limit; and each is a hit of some file.
pub proof fn output_is_ordered(hits: Seq<HitView>, limit: int)
    requires
        0 <= limit,
    ensures
        at_most(sorted::<Hit>(hits), limit).len() <= limit,
        forall|i: int, j: int|
            0 <= i < j < at_most(sorted::<Hit>(hits), limit).len() ==> {
                let a = #[trigger] at_most(sorted::<Hit>(hits), limit)[i];
                let b = #[trigger] at_most(sorted::<Hit>(hits), limit)[j];
                path_precedes(a.path, b.path) || (components(a.path) == components(b.path)
                    && a.line <= b.line)
            },
        forall|i: int|
            0 <= i < at_most(sorted::<Hit>(hits), limit).len() ==> hits.contains(
                #[trigger] at_most(sorted::<Hit>(hits), limit)[i],
            ),
{
    let s = sorted::<Hit>(hits);
    let r = at_most(s, limit);
    crate::order::sort_orders::<Hit>(hits);
    s.to_multiset_ensures();
    hits.to_multiset_ensures();
    assert forall|i: int, j: int| 0 <= i < j < r.len() implies {
        let a = #[trigger] r[i];
        let b = #[trigger] r[j];
        path_precedes(a.path, b.path) || (components(a.path) == components(b.path) && a.line
            <= b.line)
    } by {
        assert(!<Hit as Ranked>::precedes(s[j], s[i]));
        lemma_comps_order(components(r[i].path), components(r[j].path), components(r[i].path));
    }
    assert forall|i: int| 0 <= i < r.len() implies hits.contains(#[trigger] r[i]) by {
        assert(s.contains(s[i]));
        assert(s.to_multiset().count(s[i]) > 0);
    }
}

/// A search finds the same, in the same order, in whatever order the files of
/// a workspace are walked. What [`search`] ensures of the lines that match is
/// taken from it.
pub proof fn search_ignores_file_order(
    workspace: Seq<char>,
    exists_: bool,
    is_file: bool,
    pattern: Seq<char>,
    options: Options,
    a: Seq<(Seq<char>, Seq<u8>)>,
    b: Seq<(Seq<char>, Seq<u8>)>,
)
    requires
        a.to_multiset() == b.to_multiset(),
        distinct_files(a),
        is_file ==> a.len() <= 1,
        plan_of(workspace, exists_, is_file, pattern, options) matches Ok(plan) ==> plan_increases(
            plan,
            a,
        ),
    ensures
        search_of(workspace, exists_, is_file, pattern, options, a) == search_of(
            workspace,
            exists_,
            is_file,
            pattern,
            options,
            b,
        ),
{
    a.to_multiset_ensures();
    b.to_multiset_ensures();
    match plan_of(workspace, exists_, is_file, pattern, options) {
        Ok(PlanView::Walk(q)) => {
            let ha = hits_up_to(q, a, a.len() as int);
            lemma_hits_permuted(q, a, b);
            lemma_distinct_places(q, a, a.len() as int);
            assert forall|i: int, j: int|
                0 <= i < ha.len() && 0 <= j < ha.len() && components((#[trigger] ha[i]).path)
                    == components((#[trigger] ha[j]).path) && ha[i].line
                    == ha[j].line implies ha[i] == ha[j] by {
                assert(!(i < j) && !(j < i));
            }
            output_ignores_arrival(ha, hits_up_to(q, b, b.len() as int), q.limit);
        },
        Ok(PlanView::File(_)) => {
            if a.len() == 1 {
                assert(a.contains(a[0]));
                assert(b.to_multiset().count(a[0]) > 0);
                assert(b[0] == a[0]);
            }
        },
        _ => {},
    }
}

/// Every hit of a search with a language filter is in a file that the filter
/// passes, be the workspace a directory or a file.
pub proof fn hits_pass_the_lang_filter(
    workspace: Seq<char>,
    exists_: bool,
    is_file: bool,
    pattern: Seq<char>,
    options: Options,
    files: Seq<(Seq<char>, Seq<u8>)>,
    i: int,
)
    requires
        search_of(workspace, exists_, is_file, pattern, options, files) matches Ok(hits) && 0 <= i
            < hits.len(),
    ensures
        lang_passes(
            search_of(workspace, exists_, is_file, pattern, options, files)->Ok_0[i].path,
            texts(options.langs@),
        ),
{
    let hits = search_of(workspace, exists_, is_file, pattern, options, files)->Ok_0;
    let plan = plan_of(workspace, exists_, is_file, pattern, options)->Ok_0;
    match plan {
        PlanView::Nothing => {},
        PlanView::File(q) => {
            assert(hits[i].path == files[0].0);
            lemma_searched_passes(pattern, options, files[0].0);
        },
        PlanView::Walk(q) => {
            let all = hits_up_to(q, files, files.len() as int);
            output_is_ordered(all, q.limit);
            assert(all.contains(hits[i]));
            let k = choose|k: int| 0 <= k < all.len() && all[k] == hits[i];
            lemma_hits_searched(q, files, files.len() as int);
            assert(searched(q, all[k].path));
            lemma_searched_passes(pattern, options, hits[i].path);
        },
    }
}

/// A file that a query searches passes the language filter.
proof fn lemma_searched_passes(pattern: Seq<char>, options: Options, path: Seq<char>)
    requires
        searched(query_of(pattern, options), path),
    ensures
        lang_passes(path, texts(options.langs@)),
{
    lemma_exts_of(texts(options.langs@), lowered(ext_of(path)));
}

/// Each hit is in a file that its query searches.
proof fn lemma_hits_searched(q: QueryView, files: Seq<(Seq<char>, Seq<u8>)>, n: int)
    requires
        0 <= n <= files.len(),
    ensures
        forall|i: int|
            0 <= i < hits_up_to(q, files, n).len() ==> searched(
                q,
                (#[trigger] hits_up_to(q, files, n)[i]).path,
            ),
    decreases n,
{
    if n > 0 {
        lemma_hits_searched(q, files, n - 1);
        let before = hits_up_to(q, files, n - 1);
        let now = hits_up_to(q, files, n);
        assert forall|i: int| 0 <= i < now.len() implies searched(
            q,
            (#[trigger] now[i]).path,
        ) by {
            if i < before.len() {
                assert(now[i] == before[i]);
            } else {
                assert(now[i].path == files[n - 1].0);
            }
        }
    }
}

/// A language filter that names no language passes every path; naming the
/// same language by its name or by an extension makes no difference.
pub proof fn lang_aliases_agree(path: Seq<char>)
    ensures
        lang_passes(path, Seq::empty()),
        lang_passes(path, seq!["rust"@]) == lang_passes(path, seq!["rs"@]),
        lang_passes(path, seq!["python"@]) == lang_passes(path, seq!["py"@]),
        lang_passes(path, seq!["markdown"@]) == lang_passes(path, seq!["md"@]),
        lang_passes(path, seq!["typescript"@]) == lang_passes(path, seq!["ts"@]),
{
    reveal_strlit("rust");
    reveal_strlit("rs");
    reveal_strlit("python");
    reveal_strlit("py");
    reveal_strlit("markdown");
    reveal_strlit("md");
    reveal_strlit("typescript");
    reveal_strlit("ts");
    reveal_strlit("tsx");
    reveal_strlit("js");
    reveal_strlit("jsx");
    reveal_strlit("mjs");
    reveal_strlit("cjs");
    reveal_strlit("mts");
    reveal_strlit("cts");
    reveal_strlit("go");
    reveal_strlit("java");
    reveal_strlit("nix");
    lemma_plain_lang("rust"@);
    lemma_plain_lang("rs"@);
    lemma_plain_lang("python"@);
    lemma_plain_lang("py"@);
    lemma_plain_lang("markdown"@);
    lemma_plain_lang("md"@);
    lemma_plain_lang("typescript"@);
    lemma_plain_lang("ts"@);
    let ext = lowered(ext_of(path));
    lemma_one_lang("rust"@, ext);
    lemma_one_lang("rs"@, ext);
    lemma_one_lang("python"@, ext);
    lemma_one_lang("py"@, ext);
    lemma_one_lang("markdown"@, ext);
    lemma_one_lang("md"@, ext);
    lemma_one_lang("typescript"@, ext);
    lemma_one_lang("ts"@, ext);
}

proof fn lemma_plain_lang(l: Seq<char>)
    requires
        l.len() > 0,
        forall|i: int| 0 <= i < l.len() ==> 'a' <= #[trigger] l[i] <= 'z',
    ensures
        lowered(trimmed(l)) == l,
{
    lemma_trimmed(l);
    assert(lowered(l) =~= l);
}

proof fn lemma_one_lang(l: Seq<char>, ext: Seq<char>)
    ensures
        accepted(seq![l], ext) <==> (extensions_of(l) is Some && extensions_of(l)->0.contains(ext)),
{
    assert(seq![l][0] == l);
}

/// A search looks for what it was asked for: its pattern without outer quotes,
/// case-insensitively exactly where that was asked for, literally unless it was
/// asked for as a regular expression, up to the limit; and only for a pattern
/// that compiles that way.
pub proof fn queries_are_as_asked(
    workspace: Seq<char>,
    exists_: bool,
    is_file: bool,
    pattern: Seq<char>,
    options: Options,
)
    ensures
        ({
            let plan = plan_of(workspace, exists_, is_file, pattern, options);
            let asked = |q: QueryView|
                {
                    &&& q.case_insensitive == options.case_insensitive
                    &&& q.fixed == !options.regex
                    &&& q.pattern == normalized(pattern)
                    &&& q.limit == options.limit
                    &&& options.langs@.len() == 0 ==> q.exts is None
                    &&& pattern_fault(
                        normalized(pattern),
                        options.case_insensitive,
                        !options.regex,
                    ) is None
                };
            &&& plan matches Ok(PlanView::File(q)) ==> is_file && asked(q)
            &&& plan matches Ok(PlanView::Walk(q)) ==> !is_file && asked(q)
            &&& plan matches Ok(PlanView::Nothing) ==> normalized(pattern).len() == 0
            &&& plan is Ok ==> exists_
        }),
{
}

/// A live grep ignores case, whatever it looks for, and keeps to its limit; it
/// searches all languages.
pub proof fn live_greps_ignore_case(
    workspace: Seq<char>,
    exists_: bool,
    is_file: bool,
    query: Seq<char>,
    limit: usize,
)
    ensures
        ({
            let plan = fallback_plan_of(workspace, exists_, is_file, query, limit);
            let asked = |q: QueryView|
                {
                    &&& q.case_insensitive
                    &&& q.limit == limit
                    &&& q.exts is None
                    &&& q.fixed == (terms_of(query).len() == 0)
                    &&& q.fixed ==> q.pattern == normalized(trimmed(query))
                    &&& pattern_fault(q.pattern, true, q.fixed) is None
                };
            &&& plan matches Ok(PlanView::File(q)) ==> is_file && asked(q)
            &&& plan matches Ok(PlanView::Walk(q)) ==> !is_file && asked(q)
        }),
{
}

/// Whether a hit is a line of a file that matches a query.
pub open spec fn is_match(
    h: HitView,
    file: (Seq<char>, Seq<u8>),
    pattern: Seq<char>,
    case_insensitive: bool,
    fixed: bool,
) -> bool {
    line_matches(pattern, case_insensitive, fixed, file.1) matches Some(found) && exists|m: int|
        0 <= m < found.len() && h.path == file.0 && h.line == (#[trigger] found[m]).0
            && h.text.is_prefix_of(utf8_lossy(found[m].1)) && (forall|k: int|
            h.text.len() <= k < utf8_lossy(found[m].1).len() ==> (#[trigger] utf8_lossy(
                found[m].1,
            )[k] == '\r' || utf8_lossy(found[m].1)[k] == '\n')) && (h.text.len() > 0
            ==> h.text.last() != '\n' && h.text.last() != '\r')
}

proof fn lemma_file_hits_match(q: QueryView, path: Seq<char>, bytes: Seq<u8>, i: int)
    requires
        0 <= i < file_hits(q, path, bytes).len(),
    ensures
        is_match(
            file_hits(q, path, bytes)[i],
            (path, bytes),
            q.pattern,
            q.case_insensitive,
            q.fixed,
        ),
{
    let found = line_matches(q.pattern, q.case_insensitive, q.fixed, bytes)->0;
    crate::text::chomping_takes_line_breaks_only(utf8_lossy(found[i].1));
    assert(file_hits(q, path, bytes)[i].line == found[i].0);
}

/// Whether a hit is a line that matches in one of the files.
spec fn from_some_file(h: HitView, q: QueryView, files: Seq<(Seq<char>, Seq<u8>)>, n: int) -> bool {
    exists|f: int|
        0 <= f < n && is_match(
            h,
            #[trigger] files[f],
            q.pattern,
            q.case_insensitive,
            q.fixed,
        )
}

proof fn lemma_hits_match(q: QueryView, files: Seq<(Seq<char>, Seq<u8>)>, n: int)
    requires
        0 <= n <= files.len(),
    ensures
        forall|i: int|
            0 <= i < hits_up_to(q, files, n).len() ==> from_some_file(
                #[trigger] hits_up_to(q, files, n)[i],
                q,
                files,
                n,
            ),
    decreases n,
{
    if n > 0 {
        lemma_hits_match(q, files, n - 1);
        let before = hits_up_to(q, files, n - 1);
        let now = hits_up_to(q, files, n);
        assert forall|i: int| 0 <= i < now.len() implies from_some_file(
            #[trigger] now[i],
            q,
            files,
            n,
        ) by {
            if i < before.len() {
                assert(now[i] == before[i]);
                assert(from_some_file(before[i], q, files, n - 1));
            } else {
                lemma_file_hits_match(q, files[n - 1].0, files[n - 1].1, i - before.len());
                assert(is_match(
                    now[i],
                    files[n - 1],
                    q.pattern,
                    q.case_insensitive,
                    q.fixed,
                ));
            }
        }
    }
}

/// Every hit of a search is a matching line of one of the files: it has the
/// path of the file, the number of the line, and the text of the line without
/// its end, under the pattern, the case and the reading that were asked for.
pub proof fn hits_are_matching_lines(
    workspace: Seq<char>,
    exists_: bool,
    is_file: bool,
    pattern: Seq<char>,
    options: Options,
    files: Seq<(Seq<char>, Seq<u8>)>,
    i: int,
)
    requires
        search_of(workspace, exists_, is_file, pattern, options, files) matches Ok(hits) && 0 <= i
            < hits.len(),
    ensures
        ({
            let hits = search_of(workspace, exists_, is_file, pattern, options, files)->Ok_0;
            &&& hits.len() <= options.limit
            &&& exists|f: int|
                0 <= f < files.len() && is_match(
                    hits[i],
                    #[trigger] files[f],
                    normalized(pattern),
                    options.case_insensitive,
                    !options.regex,
                )
        }),
{
    let hits = search_of(workspace, exists_, is_file, pattern, options, files)->Ok_0;
    match plan_of(workspace, exists_, is_file, pattern, options)->Ok_0 {
        PlanView::Nothing => {},
        PlanView::File(q) => {
            lemma_file_hits_match(q, files[0].0, files[0].1, i);
            assert(is_match(
                hits[i],
                files[0],
                normalized(pattern),
                options.case_insensitive,
                !options.regex,
            ));
        },
        PlanView::Walk(q) => {
            let all = hits_up_to(q, files, files.len() as int);
            output_is_ordered(all, q.limit);
            lemma_hits_match(q, files, files.len() as int);
            let k = choose|k: int| 0 <= k < all.len() && all[k] == hits[i];
            assert(from_some_file(all[k], q, files, files.len() as int));
        },
    }
}

/// No match is lost within the limit: a line that matches in a file that the
/// languages pass is a hit, or the search found as many hits as it may.
pub proof fn no_match_is_lost(
    workspace: Seq<char>,
    exists_: bool,
    pattern: Seq<char>,
    options: Options,
    files: Seq<(Seq<char>, Seq<u8>)>,
    f: int,
    m: int,
)
    requires
        plan_of(workspace, exists_, false, pattern, options) is Ok,
        normalized(pattern).len() > 0,
        0 <= f < files.len(),
        lang_passes(files[f].0, texts(options.langs@)),
        line_matches(
            normalized(pattern),
            options.case_insensitive,
            !options.regex,
            files[f].1,
        ) matches Some(found) && 0 <= m < found.len(),
    ensures
        ({
            let hits = search_of(workspace, exists_, false, pattern, options, files)->Ok_0;
            let found = line_matches(
                normalized(pattern),
                options.case_insensitive,
                !options.regex,
                files[f].1,
            )->0;
            hits.len() == options.limit || exists|i: int|
                0 <= i < hits.len() && (#[trigger] hits[i]).path == files[f].0 && hits[i].line
                    == found[m].0
        }),
{
    let q = query_of(pattern, options);
    let n = files.len() as int;
    let all = hits_up_to(q, files, n);
    let hits = search_of(workspace, exists_, false, pattern, options, files)->Ok_0;
    let s = sorted::<Hit>(all);
    lemma_exts_of(texts(options.langs@), lowered(ext_of(files[f].0)));
    assert(searched(q, files[f].0));
    let k = lemma_file_in_hits(q, files, n, f, m);
    crate::order::sort_orders::<Hit>(all);
    all.to_multiset_ensures();
    s.to_multiset_ensures();
    assert(all.contains(all[k]));
    assert(s.to_multiset().count(all[k]) > 0);
    let i = choose|i: int| 0 <= i < s.len() && s[i] == all[k];
    if hits.len() != options.limit {
        assert(hits =~= s);
        assert(hits[i].path == files[f].0);
    }
}

proof fn lemma_file_in_hits(
    q: QueryView,
    files: Seq<(Seq<char>, Seq<u8>)>,
    n: int,
    f: int,
    m: int,
) -> (k: int)
    requires
        0 <= f < n <= files.len(),
        searched(q, files[f].0),
        0 <= m < file_hits(q, files[f].0, files[f].1).len(),
    ensures
        0 <= k < hits_up_to(q, files, n).len(),
        hits_up_to(q, files, n)[k] == file_hits(q, files[f].0, files[f].1)[m],
    decreases n,
{
    if f == n - 1 {
        hits_up_to(q, files, n - 1).len() + m
    } else {
        let k = lemma_file_in_hits(q, files, n - 1, f, m);
        assert(hits_up_to(q, files, n)[k] == hits_up_to(q, files, n - 1)[k]);
        k
    }
}

/// An escaped term holds the characters of the term in order, each that has a
/// meaning behind a backslash and no other: it is what is left when the term
/// goes on character by character.
pub proof fn escaping_goes_character_by_character(t: Seq<char>, c: char)
    ensures
        escaped(Seq::empty()) == Seq::<char>::empty(),
        escaped(t.push(c)) == escaped(t) + (if c == '.' || c == '*' || c == '+' || c == '?' || c
            == '(' || c == ')' || c == '[' || c == ']' || c == '{' || c == '}' || c == '|' || c
            == '^' || c == '$' || c == '\\' {
            seq!['\\', c]
        } else {
            seq![c]
        }),
{
    assert(t.push(c).drop_last() =~= t);
    assert(escaped(t).push('\\').push(c) =~= escaped(t) + seq!['\\', c]);
    assert(escaped(t).push(c) =~= escaped(t) + seq![c]);
}

/// A live grep looks for every term of the query: its pattern is the escaped
/// terms with `|` between them, or the query itself where it has no terms.
pub proof fn live_greps_look_for_every_term(q: Seq<char>, i: int)
    requires
        0 <= i < terms_of(q).len(),
    ensures
        fallback_pattern_of(q).1,
        exists|a: Seq<char>, b: Seq<char>|
            fallback_pattern_of(q).0 == #[trigger] (a + escaped(terms_of(q)[i]) + b) && (a.len()
                == 0 || a.last() == '|') && (b.len() == 0 || b[0] == '|'),
{
    reveal_strlit("|");
    let ts = terms_of(q);
    let parts = Seq::new(ts.len(), |k: int| escaped(ts[k]));
    crate::text::joining_keeps_each_part(parts, "|"@, i);
    let a = if i == 0 {
        Seq::empty()
    } else {
        joined(parts.take(i), "|"@) + "|"@
    };
    let b = if i == parts.len() - 1 {
        Seq::empty()
    } else {
        "|"@ + joined(parts.skip(i + 1), "|"@)
    };
    assert(fallback_pattern_of(q).0 == a + escaped(ts[i]) + b);
}

/// The languages that can be asked for are those whose files are parsed: a
/// language has the extensions that its parser reads.
pub proof fn languages_are_those_that_are_parsed(lang: Seq<char>, ext: Seq<char>)
    requires
        extensions_of(lang) is Some,
        (extensions_of(lang)->0).contains(ext),
    ensures
        crate::extract::grammar_of(ext) is Some || crate::extract::markdown(ext),
{
    let es = extensions_of(lang)->0;
    let k = choose|k: int| 0 <= k < es.len() && es[k] == ext;
    assert(es[k] == ext);
}

/// Whether a term stands for another one: they differ in case at most.
pub open spec fn stands_for(ts: Seq<Seq<char>>, t: Seq<char>) -> bool {
    exists|i: int| 0 <= i < ts.len() && lowered(#[trigger] ts[i]) == lowered(t)
}

proof fn lemma_case_deduped(ts: Seq<Seq<char>>)
    ensures
        forall|i: int| 0 <= i < ts.len() ==> stands_for(case_deduped(ts), #[trigger] ts[i]),
        ts.len() > 0 ==> case_deduped(ts).len() > 0,
    decreases ts.len(),
{
    if ts.len() > 0 {
        let t = ts.drop_last();
        lemma_case_deduped(t);
        let r = case_deduped(t);
        let all = case_deduped(ts);
        assert forall|i: int| 0 <= i < ts.len() implies stands_for(all, #[trigger] ts[i]) by {
            if i < t.len() {
                assert(t[i] == ts[i]);
                let k = choose|k: int| 0 <= k < r.len() && lowered(#[trigger] r[k]) == lowered(ts[i]);
                assert(all[k] == r[k]);
            } else if r.len() > 0 && lowered(r.last()) == lowered(ts.last()) {
                assert(all[r.len() - 1] == r.last());
            } else {
                assert(all[r.len() as int] == ts.last());
            }
        }
    }
}

/// No telling word of a query is lost: a longest run of term characters that
/// has two characters or more and is no stopword is among its terms, but for
/// its case.
pub proof fn no_term_is_lost(q: Seq<char>, a: int, b: int)
    requires
        0 <= a < b <= q.len(),
        forall|j: int| a <= j < b ==> term_char(#[trigger] q[j]),
        a > 0 ==> !term_char(q[a - 1]),
        b < q.len() ==> !term_char(q[b]),
        b - a >= 2,
        !stopword(q.subrange(a, b)),
    ensures
        stands_for(query_terms(q), q.subrange(a, b)),
{
    let w = q.subrange(a, b);
    let marks = term_marks(q);
    runs_are_the_longest(q, marks);
    assert(longest_run(marks, a, b));
    let rs = runs(q, marks);
    let telling = |t: Seq<char>| is_term(t);
    let kept = rs.filter(telling);
    rs.lemma_filter_contains_rev(telling, w);
    let i = rs.index_of(w);
    crate::order::lemma_filter_keeps(rs, telling);
    assert(telling(rs[i]));
    let ts = terms_sorted(kept);
    terms_come_longest_first(kept);
    kept.to_multiset_ensures();
    ts.to_multiset_ensures();
    assert(kept.contains(w));
    assert(ts.to_multiset().count(w) > 0);
    let k = ts.index_of(w);
    lemma_case_deduped(ts);
    assert(stands_for(case_deduped(ts), ts[k]));
}

/// A query is searched for its identifiers where it has any, and for its other
/// terms where it has none; a term is left out only behind eight others.
pub proof fn identifiers_come_before_words(q: Seq<char>, k: int)
    requires
        0 <= k < query_terms(q).len(),
    ensures
        identifier(query_terms(q)[k]) ==> forall|i: int|
            0 <= i < terms_of(q).len() ==> identifier(#[trigger] terms_of(q)[i]),
        identifier(query_terms(q)[k]) ==> terms_of(q).contains(query_terms(q)[k]) || terms_of(
            q,
        ).len() == 8,
        (forall|j: int| 0 <= j < query_terms(q).len() ==> !identifier(#[trigger] query_terms(q)[j]))
            ==> terms_of(q).contains(query_terms(q)[k]) || terms_of(q).len() == 8,
{
    let ts = query_terms(q);
    let p = |t: Seq<char>| identifier(t);
    let specific = ts.filter(p);
    let out = terms_of(q);
    if identifier(ts[k]) {
        crate::order::lemma_filter_keeps(ts, p);
        assert(p(ts[k]));
        let at = specific.index_of(ts[k]);
        if out.len() < 8 {
            assert(out[at] == ts[k]);
        }
        assert forall|i: int| 0 <= i < out.len() implies identifier(#[trigger] out[i]) by {
            assert(out[i] == specific[i]);
            ts.lemma_filter_pred(p, i);
        }
    }
    if forall|j: int| 0 <= j < ts.len() ==> !identifier(#[trigger] ts[j]) {
        assert(specific.len() == 0) by {
            if specific.len() > 0 {
                ts.lemma_filter_pred(p, 0);
                assert(specific.contains(specific[0]));
                ts.lemma_filter_contains_rev(p, specific[0]);
                let j = choose|j: int| 0 <= j < ts.len() && ts[j] == specific[0];
                assert(!identifier(ts[j]));
            }
        }
        if out.len() < 8 {
            assert(out[k] == ts[k]);
        }
    }
}

/// Longer terms of a query come before shorter ones.
pub proof fn terms_of_a_query_come_longest_first(q: Seq<char>, i: int, j: int)
    requires
        0 <= i < j < terms_of(q).len(),
    ensures
        terms_of(q)[i].len() >= terms_of(q)[j].len(),
{
    let all = runs(q, term_marks(q)).filter(|t: Seq<char>| is_term(t));
    let sorted = terms_sorted(all);
    terms_come_longest_first(all);
    let r = |a: Seq<char>, b: Seq<char>| a.len() >= b.len();
    assert forall|a: int, b: int| 0 <= a < b < sorted.len() implies r(
        #[trigger] sorted[a],
        #[trigger] sorted[b],
    ) by {
        assert(!term_precedes(sorted[b], sorted[a]));
    }
    lemma_deduped_ordered(sorted);
    let ts = query_terms(q);
    assert forall|a: int, b: int| 0 <= a < b < ts.len() implies r(
        #[trigger] ts[a],
        #[trigger] ts[b],
    ) by {}
    let p = |t: Seq<char>| identifier(t);
    crate::order::lemma_filter_ordered(ts, p, r);
    let specific = ts.filter(p);
    if specific.len() > 0 {
        assert(terms_of(q)[i] == specific[i] && terms_of(q)[j] == specific[j]);
        assert(r(specific[i], specific[j]));
    } else {
        assert(terms_of(q)[i] == ts[i] && terms_of(q)[j] == ts[j]);
        assert(r(ts[i], ts[j]));
    }
}

proof fn lemma_deduped_ordered(ts: Seq<Seq<char>>)
    requires
        forall|i: int, j: int|
            0 <= i < j < ts.len() ==> (#[trigger] ts[i]).len() >= (#[trigger] ts[j]).len(),
    ensures
        forall|i: int, j: int|
            0 <= i < j < case_deduped(ts).len() ==> (#[trigger] case_deduped(ts)[i]).len() >= (
            #[trigger] case_deduped(ts)[j]).len(),
    decreases ts.len(),
{
    if ts.len() > 0 {
        let t = ts.drop_last();
        assert forall|i: int, j: int| 0 <= i < j < t.len() implies (#[trigger] t[i]).len() >= (
        #[trigger] t[j]).len() by {
            assert(t[i] == ts[i] && t[j] == ts[j]);
        }
        lemma_deduped_ordered(t);
        let r = case_deduped(t);
        let all = case_deduped(ts);
        assert forall|i: int, j: int| 0 <= i < j < all.len() implies (#[trigger] all[i]).len() >= (
        #[trigger] all[j]).len() by {
            assert(all[i] == r[i]);
            if j < r.len() {
                assert(all[j] == r[j]);
            } else {
                lemma_deduped_in(t, i);
                let k = choose|k: int| 0 <= k < t.len() && t[k] == r[i];
                assert(ts[k] == r[i]);
                assert(ts[ts.len() - 1] == all[j]);
            }
        }
    }
}

/// No match of a single file is lost within the limit, and the first ones are
/// kept.
pub proof fn no_match_of_a_single_file_is_lost(
    workspace: Seq<char>,
    exists_: bool,
    pattern: Seq<char>,
    options: Options,
    files: Seq<(Seq<char>, Seq<u8>)>,
    m: int,
)
    requires
        plan_of(workspace, exists_, true, pattern, options) is Ok,
        normalized(pattern).len() > 0,
        files.len() > 0,
        lang_passes(files[0].0, texts(options.langs@)),
        line_matches(
            normalized(pattern),
            options.case_insensitive,
            !options.regex,
            files[0].1,
        ) matches Some(found) && 0 <= m < found.len(),
    ensures
        ({
            let hits = search_of(workspace, exists_, true, pattern, options, files)->Ok_0;
            let found = line_matches(
                normalized(pattern),
                options.case_insensitive,
                !options.regex,
                files[0].1,
            )->0;
            m < options.limit ==> m < hits.len() && hits[m].path == files[0].0 && hits[m].line
                == found[m].0
        }),
{
    lemma_exts_of(texts(options.langs@), lowered(ext_of(files[0].0)));
    assert(texts(options.langs@).len() == options.langs@.len());
}

/// Of more matches than the limit allows, the first ones by path and line are
/// kept: no match that is left out comes before one that is shown.
pub proof fn the_first_matches_are_kept(
    workspace: Seq<char>,
    exists_: bool,
    pattern: Seq<char>,
    options: Options,
    files: Seq<(Seq<char>, Seq<u8>)>,
    f: int,
    m: int,
    i: int,
)
    requires
        plan_of(workspace, exists_, false, pattern, options) is Ok,
        normalized(pattern).len() > 0,
        0 <= f < files.len(),
        lang_passes(files[f].0, texts(options.langs@)),
        line_matches(
            normalized(pattern),
            options.case_insensitive,
            !options.regex,
            files[f].1,
        ) matches Some(found) && 0 <= m < found.len(),
        search_of(workspace, exists_, false, pattern, options, files) matches Ok(hits) && 0 <= i
            < hits.len() && (forall|k: int|
            0 <= k < hits.len() ==> !((#[trigger] hits[k]).path == files[f].0 && hits[k].line
                == line_matches(
                normalized(pattern),
                options.case_insensitive,
                !options.regex,
                files[f].1,
            )->0[m].0)),
    ensures
        ({
            let h = search_of(workspace, exists_, false, pattern, options, files)->Ok_0[i];
            let found = line_matches(
                normalized(pattern),
                options.case_insensitive,
                !options.regex,
                files[f].1,
            )->0;
            path_precedes(h.path, files[f].0) || (components(h.path) == components(files[f].0)
                && h.line <= found[m].0)
        }),
{
    let q = query_of(pattern, options);
    let n = files.len() as int;
    let all = hits_up_to(q, files, n);
    let hits = search_of(workspace, exists_, false, pattern, options, files)->Ok_0;
    let s = sorted::<Hit>(all);
    lemma_exts_of(texts(options.langs@), lowered(ext_of(files[f].0)));
    assert(searched(q, files[f].0));
    let k = lemma_file_in_hits(q, files, n, f, m);
    crate::order::sort_orders::<Hit>(all);
    all.to_multiset_ensures();
    s.to_multiset_ensures();
    assert(all.contains(all[k]));
    assert(s.to_multiset().count(all[k]) > 0);
    let at = choose|at: int| 0 <= at < s.len() && s[at] == all[k];
    if at < hits.len() {
        assert(hits[at] == all[k]);
    }
    assert(hits[i] == s[i]);
    assert(!<Hit as Ranked>::precedes(s[at], s[i]));
    lemma_comps_order(components(s[i].path), components(s[at].path), components(s[i].path));
}

/// A search is refused for a missing workspace, an unknown language, a pattern
/// that cannot be read or a malformed glob, in this order, and for nothing
/// else; an empty pattern finds nothing.
pub proof fn searches_are_refused_for_what_is_wrong(
    workspace: Seq<char>,
    exists_: bool,
    is_file: bool,
    pattern: Seq<char>,
    options: Options,
)
    ensures
        ({
            let p = normalized(pattern);
            let plan = plan_of(workspace, exists_, is_file, pattern, options);
            let fault = pattern_fault(p, options.case_insensitive, !options.regex);
            let globs = globs_fault(texts(options.globs@));
            let known = all_known(texts(options.langs@));
            &&& plan is Ok <==> exists_ && known && (p.len() == 0 || (fault is None && (is_file
                || globs is None)))
            &&& exists_ && known && p.len() == 0 ==> plan == Ok::<_, ErrorView>(PlanView::Nothing)
            &&& plan matches Ok(PlanView::File(_)) ==> is_file
            &&& plan matches Ok(PlanView::Walk(_)) ==> !is_file
            &&& plan matches Ok(PlanView::Nothing) ==> p.len() == 0
            &&& !exists_ || !known ==> plan is Err && plan->Err_0 is InvalidInput
            &&& exists_ && known && p.len() > 0 && fault is Some ==> plan is Err && plan->Err_0
                == ErrorView::BadPattern(fault->0)
            &&& exists_ && known && p.len() > 0 && fault is None && !is_file && globs is Some
                ==> plan is Err && plan->Err_0 == ErrorView::Walk(globs->0)
        }),
{
}

/// The extensions of languages come in order, each once.
pub proof fn extensions_come_in_order(langs: Seq<Seq<char>>, i: int, j: int)
    requires
        0 <= i < j < exts_of(langs).len(),
    ensures
        text_precedes(exts_of(langs)[i], exts_of(langs)[j]),
{
    let a = exts_in_turn(langs);
    let s = sorted::<String>(a);
    crate::order::sort_orders::<String>(a);
    assert forall|x: int, y: int| 0 <= x < y < s.len() implies !text_precedes(
        #[trigger] s[y],
        #[trigger] s[x],
    ) by {
        assert(!<String as Ranked>::precedes(s[y], s[x]));
    }
    lemma_deduped_rises(s);
}

proof fn lemma_deduped_rises(s: Seq<Seq<char>>)
    requires
        forall|x: int, y: int|
            0 <= x < y < s.len() ==> !text_precedes(#[trigger] s[y], #[trigger] s[x]),
    ensures
        forall|x: int, y: int|
            0 <= x < y < deduped(s).len() ==> text_precedes(
                #[trigger] deduped(s)[x],
                #[trigger] deduped(s)[y],
            ),
    decreases s.len(),
{
    if s.len() > 0 {
        let t = s.drop_last();
        assert forall|x: int, y: int| 0 <= x < y < t.len() implies !text_precedes(
            #[trigger] t[y],
            #[trigger] t[x],
        ) by {
            assert(t[x] == s[x] && t[y] == s[y]);
        }
        lemma_deduped_rises(t);
        lemma_deduped(t);
        let r = deduped(t);
        let all = deduped(s);
        let new = s.last();
        assert forall|x: int, y: int| 0 <= x < y < all.len() implies text_precedes(
            #[trigger] all[x],
            #[trigger] all[y],
        ) by {
            if y < r.len() {
                assert(all[x] == r[x] && all[y] == r[y]);
            } else {
                assert(all[x] == r[x] && all[y] == new);
                assert(r.contains(r[x]));
                assert(t.contains(r[x]));
                let k = choose|k: int| 0 <= k < t.len() && t[k] == r[x];
                assert(!text_precedes(s[s.len() - 1], s[k]));
                if r[x] == new {
                    if x < r.len() - 1 {
                        assert(text_precedes(r[x], r[r.len() - 1]));
                        assert(s[t.len() - 1] == t.last());
                        assert(!text_precedes(s[s.len() - 1], s[t.len() - 1]));
                    }
                }
                lemma_text_order(r[x], new, r[x]);
            }
        }
    }
}

/// The words that say nothing are no terms, whatever their case, and neither is
/// a single character; a term keeps the case that it has in the query.
pub proof fn stopwords_are_no_terms(q: Seq<char>, i: int, k: int)
    requires
        0 <= i < terms_of(q).len(),
        0 <= k < stopwords().len(),
    ensures
        lowered(terms_of(q)[i]) != lowered(stopwords()[k]),
        terms_of(q)[i].len() >= 2,
        is_longest_run(terms_of(q)[i], q, term_marks(q)),
{
    terms_are_few_and_telling(q, i);
    let rs = runs(q, term_marks(q));
    runs_are_the_longest(q, term_marks(q));
    let j = rs.index_of(terms_of(q)[i]);
    assert(is_longest_run(rs[j], q, term_marks(q)));
    assert(lowered(stopwords()[k]) == lowered(terms_of(q)[i]) ==> stopword(terms_of(q)[i]));
}

/// What is said of unknown languages names the first of them, and the languages
/// that there are.
pub proof fn the_first_unknown_language_is_named(langs: Seq<Seq<char>>, k: int)
    requires
        0 <= k < langs.len(),
        extensions_of(langs[k]) is None,
        forall|i: int| 0 <= i < k ==> extensions_of(#[trigger] langs[i]) is Some,
    ensures
        first_unknown(langs) == k,
        unknown_lang(langs[first_unknown(langs)]) == "unknown --lang `"@ + langs[k]
            + "` (supported: "@ + joined(supported(), ", "@) + ")"@,
    decreases k,
{
    if k > 0 {
        let t = langs.skip(1);
        assert(extensions_of(langs[0]) is Some);
        assert forall|i: int| 0 <= i < k - 1 implies extensions_of(#[trigger] t[i]) is Some by {
            assert(t[i] == langs[i + 1]);
        }
        the_first_unknown_language_is_named(t, k - 1);
    }
}

/// Every hit of a live grep is a line of one of the files that matches the
/// terms of the query, whatever the case of its letters; there are no more
/// than were asked for.
pub proof fn live_hits_match_the_query(
    workspace: Seq<char>,
    exists_: bool,
    is_file: bool,
    query: Seq<char>,
    limit: usize,
    files: Seq<(Seq<char>, Seq<u8>)>,
    i: int,
)
    requires
        fallback_of(workspace, exists_, is_file, query, limit, files) matches Ok(hits) && 0 <= i
            < hits.len(),
    ensures
        ({
            let hits = fallback_of(workspace, exists_, is_file, query, limit, files)->Ok_0;
            &&& hits.len() <= limit
            &&& exists|f: int|
                0 <= f < files.len() && is_match(
                    hits[i],
                    #[trigger] files[f],
                    normalized(fallback_pattern_of(query).0),
                    true,
                    !fallback_pattern_of(query).1,
                )
        }),
{
    let hits = fallback_of(workspace, exists_, is_file, query, limit, files)->Ok_0;
    match fallback_plan_of(workspace, exists_, is_file, query, limit)->Ok_0 {
        PlanView::Nothing => {},
        PlanView::File(q) => {
            lemma_file_hits_match(q, files[0].0, files[0].1, i);
            assert(is_match(hits[i], files[0], q.pattern, true, q.fixed));
        },
        PlanView::Walk(q) => {
            let all = hits_up_to(q, files, files.len() as int);
            output_is_ordered(all, q.limit);
            lemma_hits_match(q, files, files.len() as int);
            let k = choose|k: int| 0 <= k < all.len() && all[k] == hits[i];
            assert(from_some_file(all[k], q, files, files.len() as int));
        },
    }
}

/// No line that a live grep looks for is lost within the limit.
pub proof fn no_live_match_is_lost(
    workspace: Seq<char>,
    exists_: bool,
    query: Seq<char>,
    limit: usize,
    files: Seq<(Seq<char>, Seq<u8>)>,
    f: int,
    m: int,
)
    requires
        fallback_plan_of(workspace, exists_, false, query, limit) is Ok,
        normalized(fallback_pattern_of(query).0).len() > 0,
        fallback_pattern_of(query).0.len() > 0,
        0 <= f < files.len(),
        line_matches(
            normalized(fallback_pattern_of(query).0),
            true,
            !fallback_pattern_of(query).1,
            files[f].1,
        ) matches Some(found) && 0 <= m < found.len(),
    ensures
        ({
            let hits = fallback_of(workspace, exists_, false, query, limit, files)->Ok_0;
            let found = line_matches(
                normalized(fallback_pattern_of(query).0),
                true,
                !fallback_pattern_of(query).1,
                files[f].1,
            )->0;
            hits.len() == limit || exists|i: int|
                0 <= i < hits.len() && (#[trigger] hits[i]).path == files[f].0 && hits[i].line
                    == found[m].0
        }),
{
    let q = fallback_plan_of(workspace, exists_, false, query, limit)->Ok_0->Walk_0;
    let n = files.len() as int;
    let all = hits_up_to(q, files, n);
    let hits = fallback_of(workspace, exists_, false, query, limit, files)->Ok_0;
    let s = sorted::<Hit>(all);
    assert(searched(q, files[f].0));
    let k = lemma_file_in_hits(q, files, n, f, m);
    crate::order::sort_orders::<Hit>(all);
    all.to_multiset_ensures();
    s.to_multiset_ensures();
    assert(all.contains(all[k]));
    assert(s.to_multiset().count(all[k]) > 0);
    let i = choose|i: int| 0 <= i < s.len() && s[i] == all[k];
    if hits.len() != limit {
        assert(hits[i] == all[k]);
    }
}

} // verus!
