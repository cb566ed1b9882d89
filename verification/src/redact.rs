//! What is taken out of free text before it is logged: e-mail addresses and
//! the values of key-like assignments. Paths are left alone.

use vstd::prelude::*;
use crate::order::greater;
use crate::text::{
    ascii_alnum, chars_of, find_from, is_ascii_alnum, is_white, lower, lowered, same, string_of,
    until, white,
};

verus! {

/// Characters of the part of an address before its `@`.
pub open spec fn local_char(c: char) -> bool {
    is_ascii_alnum(c) || c == '.' || c == '_' || c == '%' || c == '+' || c == '-'
}

/// Characters of the part of an address behind its `@`.
pub open spec fn domain_char(c: char) -> bool {
    is_ascii_alnum(c) || c == '.' || c == '-'
}

/// Whether a word is an e-mail address: one `@`, something before it, and a
/// domain with a dot behind it.
pub open spec fn is_email(t: Seq<char>) -> bool {
    let k = until(t, '@');
    &&& 0 < k < t.len()
    &&& forall|i: int| 0 <= i < k ==> local_char(#[trigger] t[i])
    &&& forall|i: int| k < i < t.len() ==> domain_char(#[trigger] t[i])
    &&& exists|i: int| k < i < t.len() && #[trigger] t[i] == '.'
}

/// Whether a word is an e-mail address.
pub fn is_email_token(t: &[char]) -> (r: bool)
    ensures
        r == is_email(t@),
{
    let k = find_from(t, '@', 0);
    proof {
        assert(t@.skip(0) =~= t@);
    }
    if k == 0 || k >= t.len() {
        return false;
    }
    let mut i: usize = 0;
    while i < k
        invariant
            i <= k < t@.len(),
            k == until(t@, '@'),
            forall|j: int| 0 <= j < i ==> local_char(#[trigger] t@[j]),
        decreases k - i,
    {
        let c = t[i];
        if !(ascii_alnum(c) || c == '.' || c == '_' || c == '%' || c == '+' || c == '-') {
            return false;
        }
        i += 1;
    }
    let mut dot = false;
    let mut n: usize = k + 1;
    while n < t.len()
        invariant
            0 < k < n <= t@.len(),
            k == until(t@, '@'),
            forall|j: int| 0 <= j < k ==> local_char(#[trigger] t@[j]),
            forall|j: int| k < j < n ==> domain_char(#[trigger] t@[j]),
            dot == exists|j: int| k < j < n && #[trigger] t@[j] == '.',
        decreases t@.len() - n,
    {
        let c = t[n];
        if !(ascii_alnum(c) || c == '.' || c == '-') {
            return false;
        }
        if c == '.' {
            dot = true;
        }
        n += 1;
    }
    dot
}

/// How many characters of `s` come before the first white space.
pub open spec fn word_len(s: Seq<char>) -> int
    decreases s.len(),
{
    if s.len() == 0 || is_white(s[0]) {
        0
    } else {
        1 + word_len(s.skip(1))
    }
}

/// `word_len` is the one position before which there is no white space and
/// at which there is.
pub proof fn lemma_word_len(s: Seq<char>, k: int)
    requires
        0 <= k <= s.len(),
        forall|j: int| 0 <= j < k ==> !is_white(#[trigger] s[j]),
        k < s.len() ==> is_white(s[k]),
    ensures
        word_len(s) == k,
    decreases k,
{
    if k > 0 {
        let t = s.skip(1);
        assert forall|j: int| 0 <= j < k - 1 implies !is_white(#[trigger] t[j]) by {
            assert(t[j] == s[j + 1]);
        }
        lemma_word_len(t, k - 1);
    }
}

/// What `word_len` says of `s`.
pub proof fn lemma_word_len_is(s: Seq<char>)
    ensures
        0 <= word_len(s) <= s.len(),
        forall|j: int| 0 <= j < word_len(s) ==> !is_white(#[trigger] s[j]),
        word_len(s) < s.len() ==> is_white(s[word_len(s)]),
    decreases s.len(),
{
    if s.len() > 0 && !is_white(s[0]) {
        let t = s.skip(1);
        lemma_word_len_is(t);
        assert forall|j: int| 0 <= j < word_len(s) implies !is_white(#[trigger] s[j]) by {
            if j > 0 {
                assert(s[j] == t[j - 1]);
            }
        }
    }
}

/// A word, or what stands in its place when it is an address.
pub open spec fn word_shown(t: Seq<char>) -> Seq<char> {
    if is_email(t) {
        "<redacted-email>"@
    } else {
        t
    }
}

/// `s` with its e-mail addresses taken out, white space as it is.
pub open spec fn without_emails(s: Seq<char>) -> Seq<char>
    decreases s.len(),
{
    let k = word_len(s);
    if 0 <= k < s.len() {
        word_shown(s.take(k)) + seq![s[k]] + without_emails(s.skip(k + 1))
    } else {
        word_shown(s)
    }
}

/// `s` with its e-mail addresses taken out, white space as it is.
pub fn redact_emails(text: &str) -> (r: String)
    ensures
        r@ == without_emails(text@),
{
    let cs = chars_of(text);
    let mut out = String::new();
    let mut pos: usize = 0;
    proof {
        assert(cs@.skip(0) =~= cs@);
        assert(out@ + without_emails(cs@) =~= without_emails(cs@));
    }
    loop
        invariant
            cs@ == text@,
            pos <= cs@.len(),
            out@ + without_emails(cs@.skip(pos as int)) == without_emails(cs@),
        decreases cs@.len() - pos,
    {
        let ghost rest = cs@.skip(pos as int);
        let ghost before = out@;
        let mut k: usize = pos;
        while k < cs.len() && !white(cs[k])
            invariant
                pos <= k <= cs@.len(),
                forall|j: int| pos <= j < k ==> !is_white(#[trigger] cs@[j]),
            decreases cs@.len() - k,
        {
            k += 1;
        }
        let word = vstd::slice::slice_subrange(&cs, pos, k);
        proof {
            assert forall|j: int| 0 <= j < k - pos implies !is_white(#[trigger] rest[j]) by {
                assert(rest[j] == cs@[pos + j]);
            }
            lemma_word_len(rest, k - pos);
            assert(word@ =~= rest.take(k - pos));
        }
        if is_email_token(word) {
            out.append("<redacted-email>");
        } else {
            out.append(string_of(word).as_str());
        }
        if k >= cs.len() {
            proof {
                assert(rest.take(k - pos) =~= rest);
                assert(out@ =~= before + word_shown(rest));
            }
            return out;
        }
        out.push(cs[k]);
        proof {
            assert(rest.skip(k - pos + 1) =~= cs@.skip(k + 1));
            assert(out@ + without_emails(cs@.skip(k + 1)) =~= before + without_emails(rest));
        }
        pos = k + 1;
    }
}

/// Characters of a key.
pub open spec fn key_char(c: char) -> bool {
    is_ascii_alnum(c) || c == '_' || c == '-'
}

/// White space within a line.
pub open spec fn gap_char(c: char) -> bool {
    is_white(c) && c != '\n'
}

/// Where the key characters from `i` on end.
pub open spec fn key_end(s: Seq<char>, i: int) -> int
    decreases s.len() - i,
{
    if 0 <= i < s.len() && key_char(s[i]) {
        key_end(s, i + 1)
    } else {
        i
    }
}

/// Where the white space within the line from `i` on ends.
pub open spec fn gap_end(s: Seq<char>, i: int) -> int
    decreases s.len() - i,
{
    if 0 <= i < s.len() && gap_char(s[i]) {
        gap_end(s, i + 1)
    } else {
        i
    }
}

/// At `i`: a key, optional white space, `=` or `:`, optional white space.
/// Where the key ends and where the value starts.
pub open spec fn assignment(s: Seq<char>, i: int) -> Option<(int, int)> {
    let k = key_end(s, i);
    let j = gap_end(s, k);
    if k > i && j < s.len() && (s[j] == '=' || s[j] == ':') {
        Some((k, gap_end(s, j + 1)))
    } else {
        None
    }
}

/// Keys end after they start and within the text.
pub proof fn lemma_key_end(s: Seq<char>, i: int)
    requires
        0 <= i <= s.len(),
    ensures
        i <= key_end(s, i) <= s.len(),
        forall|j: int| i <= j < key_end(s, i) ==> key_char(#[trigger] s[j]),
        key_end(s, i) < s.len() ==> !key_char(s[key_end(s, i)]),
    decreases s.len() - i,
{
    if i < s.len() && key_char(s[i]) {
        lemma_key_end(s, i + 1);
    }
}

/// White space ends after it starts and within the text.
pub proof fn lemma_gap_end(s: Seq<char>, i: int)
    requires
        0 <= i <= s.len(),
    ensures
        i <= gap_end(s, i) <= s.len(),
        forall|j: int| i <= j < gap_end(s, i) ==> gap_char(#[trigger] s[j]),
        gap_end(s, i) < s.len() ==> !gap_char(s[gap_end(s, i)]),
    decreases s.len() - i,
{
    if i < s.len() && gap_char(s[i]) {
        lemma_gap_end(s, i + 1);
    }
}

/// Where the key characters from `i` on end.
fn key_stop(s: &[char], i: usize) -> (r: usize)
    requires
        i <= s@.len(),
    ensures
        r == key_end(s@, i as int),
        i <= r <= s@.len(),
{
    let mut j: usize = i;
    while j < s.len() && (ascii_alnum(s[j]) || s[j] == '_' || s[j] == '-')
        invariant
            i <= j <= s@.len(),
            key_end(s@, j as int) == key_end(s@, i as int),
        decreases s@.len() - j,
    {
        j += 1;
    }
    j
}

/// Where the white space within the line from `i` on ends.
fn gap_stop(s: &[char], i: usize) -> (r: usize)
    requires
        i <= s@.len(),
    ensures
        r == gap_end(s@, i as int),
        i <= r <= s@.len(),
{
    let mut j: usize = i;
    while j < s.len() && white(s[j]) && s[j] != '\n'
        invariant
            i <= j <= s@.len(),
            gap_end(s@, j as int) == gap_end(s@, i as int),
        decreases s@.len() - j,
    {
        j += 1;
    }
    j
}

/// At `i`: a key, optional white space, `=` or `:`, optional white space.
fn assignment_at(s: &[char], i: usize) -> (r: Option<(usize, usize)>)
    requires
        i <= s@.len(),
    ensures
        match r {
            Some((k, v)) => assignment(s@, i as int) == Some((k as int, v as int)) && i < k < v
                <= s@.len(),
            None => assignment(s@, i as int) is None,
        },
{
    let k = key_stop(s, i);
    if k == i {
        return None;
    }
    let j = gap_stop(s, k);
    if j < s.len() && (s[j] == '=' || s[j] == ':') {
        Some((k, gap_stop(s, j + 1)))
    } else {
        None
    }
}

/// Key names whose values never belong in a log.
pub open spec fn secret_keys() -> Seq<Seq<char>> {
    seq![
        "api_key"@, "apikey"@, "auth"@, "authorization"@, "bearer"@, "key"@, "passwd"@,
        "password"@, "secret"@, "token"@,
    ]
}

const SECRET_KEYS: [&'static str; 10] = [
    "api_key", "apikey", "auth", "authorization", "bearer", "key", "passwd", "password", "secret",
    "token",
];

/// Whether a key's value never belongs in a log, whatever the key's case.
pub open spec fn secret(key: Seq<char>) -> bool {
    exists|i: int|
        0 <= i < secret_keys().len() && lowered(#[trigger] secret_keys()[i]) == lowered(key)
}

fn is_secret(key: &[char]) -> (r: bool)
    ensures
        r == secret(key@),
{
    let names = SECRET_KEYS;
    let low = lower(string_of(key).as_str());
    let mut i: usize = 0;
    while i < names.len()
        invariant
            i <= names@.len(),
            names == SECRET_KEYS,
            low@ == lowered(key@),
            forall|j: int| 0 <= j < i ==> lowered(#[trigger] secret_keys()[j]) != low@,
        decreases names@.len() - i,
    {
        proof {
            assert(names@[i as int]@ == secret_keys()[i as int]);
        }
        if same(lower(names[i]).as_str(), low.as_str()) {
            return true;
        }
        i += 1;
    }
    false
}

/// The scheme of an authorization header, which stands before its secret.
pub const SCHEME: &'static str = "bearer";

/// Whether a word is the scheme of an authorization header, whatever its case.
pub open spec fn is_scheme(word: Seq<char>) -> bool {
    lowered(word) == SCHEME@
}

/// Where the value that starts at `v` ends: behind its closing quote where it
/// starts with a quote, and at the next white space otherwise. Where it starts
/// with a secret key that is assigned a value itself, it takes in that value;
/// where it is the scheme of an authorization header, it takes in the next
/// word of the line.
pub open spec fn value_end(s: Seq<char>, v: int) -> int
    decreases s.len() - v,
    via value_end_moves_on
{
    if v < 0 || v >= s.len() {
        v
    } else if s[v] == '"' || s[v] == '\'' {
        let k = v + 1 + until(s.skip(v + 1), s[v]);
        if k < s.len() {
            k + 1
        } else {
            s.len() as int
        }
    } else {
        let k = key_end(s, v);
        let n = gap_end(s, k);
        if !secret(s.subrange(v, k)) {
            v + word_len(s.skip(v))
        } else {
            match assignment(s, v) {
                Some((_, w)) => greater(v + word_len(s.skip(v)), value_end(s, w)),
                None => if is_scheme(s.subrange(v, k)) && k < n < s.len() && !is_white(s[n]) {
                    value_end(s, n)
                } else {
                    v + word_len(s.skip(v))
                },
            }
        }
    }
}

#[via_fn]
proof fn value_end_moves_on(s: Seq<char>, v: int) {
    if 0 <= v < s.len() {
        lemma_key_end(s, v);
        lemma_gap_end(s, key_end(s, v));
        if let Some((k, w)) = assignment(s, v) {
            lemma_gap_end(s, gap_end(s, k) + 1);
        }
    }
}

/// A value ends after it starts and within the text.
pub proof fn lemma_value_end(s: Seq<char>, v: int)
    requires
        0 <= v <= s.len(),
    ensures
        v <= value_end(s, v) <= s.len(),
    decreases s.len() - v,
{
    if v < s.len() {
        if s[v] == '"' || s[v] == '\'' {
            crate::text::lemma_until_is(s.skip(v + 1), s[v]);
        } else {
            let k = key_end(s, v);
            let n = gap_end(s, k);
            lemma_word_len_is(s.skip(v));
            lemma_key_end(s, v);
            lemma_gap_end(s, k);
            match assignment(s, v) {
                Some((_, w)) => {
                    lemma_gap_end(s, n + 1);
                    lemma_value_end(s, w);
                },
                None => {
                    if k < n < s.len() {
                        lemma_value_end(s, n);
                    }
                },
            }
        }
    }
}

/// Where the white space from `v` on starts.
fn word_stop(s: &[char], v: usize) -> (r: usize)
    requires
        v <= s@.len(),
    ensures
        r == v + word_len(s@.skip(v as int)),
        v <= r <= s@.len(),
{
    let mut e: usize = v;
    while e < s.len() && !white(s[e])
        invariant
            v <= e <= s@.len(),
            forall|j: int| v <= j < e ==> !is_white(#[trigger] s@[j]),
        decreases s@.len() - e,
    {
        e += 1;
    }
    proof {
        let rest = s@.skip(v as int);
        assert forall|j: int| 0 <= j < e - v implies !is_white(#[trigger] rest[j]) by {
            assert(rest[j] == s@[v + j]);
        }
        lemma_word_len(rest, e - v);
    }
    e
}

/// Where the value that starts at `v` ends.
fn value_stop(s: &[char], v: usize) -> (r: usize)
    requires
        v <= s@.len(),
    ensures
        r == value_end(s@, v as int),
        v <= r <= s@.len(),
    decreases s@.len() - v,
{
    proof {
        lemma_value_end(s@, v as int);
    }
    if v >= s.len() {
        return v;
    }
    if s[v] == '"' || s[v] == '\'' {
        let q = find_from(s, s[v], v + 1);
        return if q < s.len() {
            q + 1
        } else {
            s.len()
        };
    }
    let k = key_stop(s, v);
    if !is_secret(vstd::slice::slice_subrange(s, v, k)) {
        return word_stop(s, v);
    }
    let e = word_stop(s, v);
    if let Some((_, w)) = assignment_at(s, v) {
        let inner = value_stop(s, w);
        return if inner > e {
            inner
        } else {
            e
        };
    }
    let n = gap_stop(s, k);
    let name = lower(string_of(vstd::slice::slice_subrange(s, v, k)).as_str());
    if same(name.as_str(), SCHEME) && k < n && n < s.len() && !white(s[n]) {
        value_stop(s, n)
    } else {
        e
    }
}

/// `s` from `i` on with the values of secret keys taken out.
pub open spec fn unassigned_from(s: Seq<char>, i: int) -> Seq<char>
    decreases s.len() - i,
    via unassigned_from_shrinks
{
    if i < 0 || i >= s.len() {
        Seq::empty()
    } else {
        match assignment(s, i) {
            Some((k, v)) => if secret(s.subrange(i, k)) {
                s.subrange(i, v) + "<redacted>"@ + unassigned_from(s, value_end(s, v))
            } else {
                seq![s[i]] + unassigned_from(s, i + 1)
            },
            None => seq![s[i]] + unassigned_from(s, i + 1),
        }
    }
}

#[via_fn]
proof fn unassigned_from_shrinks(s: Seq<char>, i: int) {
    if 0 <= i < s.len() {
        let k = key_end(s, i);
        lemma_key_end(s, i);
        lemma_gap_end(s, k);
        if let Some((k, v)) = assignment(s, i) {
            lemma_gap_end(s, gap_end(s, k) + 1);
            lemma_value_end(s, v);
        }
    }
}

/// `s` with the values of secret keys taken out.
pub open spec fn without_secrets(s: Seq<char>) -> Seq<char> {
    unassigned_from(s, 0)
}

/// `s` with the values of secret keys taken out.
pub fn redact_assignments(text: &str) -> (r: String)
    ensures
        r@ == without_secrets(text@),
{
    let cs = chars_of(text);
    let mut out = String::new();
    let mut i: usize = 0;
    proof {
        assert(out@ + unassigned_from(cs@, 0) =~= unassigned_from(cs@, 0));
    }
    while i < cs.len()
        invariant
            cs@ == text@,
            i <= cs@.len(),
            out@ + unassigned_from(cs@, i as int) == without_secrets(cs@),
        decreases cs@.len() - i,
    {
        let ghost before = out@;
        let mut next: usize = i;
        if let Some((k, v)) = assignment_at(&cs, i) {
            if is_secret(vstd::slice::slice_subrange(&cs, i, k)) {
                let e = value_stop(&cs, v);
                out.append(string_of(vstd::slice::slice_subrange(&cs, i, v)).as_str());
                out.append("<redacted>");
                proof {
                    assert(out@ + unassigned_from(cs@, e as int) =~= before + unassigned_from(
                        cs@,
                        i as int,
                    ));
                }
                next = e;
            }
        }
        if next == i {
            out.push(cs[i]);
            proof {
                assert(out@ + unassigned_from(cs@, i + 1) =~= before + unassigned_from(
                    cs@,
                    i as int,
                ));
            }
            i += 1;
        } else {
            i = next;
        }
    }
    proof {
        assert(out@ + unassigned_from(cs@, i as int) =~= out@);
    }
    out
}

/// Text as it may be logged.
pub open spec fn redacted(s: Seq<char>) -> Seq<char> {
    without_secrets(without_emails(s))
}

/// Redact emails and key-like secrets from text bound for the serving log.
/// The log must stay joinable, so paths are left alone — only free text
/// (queries, error notes) passes through here.
pub fn redact(text: &str) -> (r: String)
    ensures
        r@ == redacted(text@),
{
    redact_assignments(redact_emails(text).as_str())
}

proof fn lemma_no_emails(s: Seq<char>)
    requires
        !s.contains('@'),
    ensures
        without_emails(s) == s,
    decreases s.len(),
{
    let k = word_len(s);
    lemma_word_len_is(s);
    if k < s.len() {
        let w = s.take(k);
        let rest = s.skip(k + 1);
        lemma_no_address(w, s);
        assert(!rest.contains('@')) by {
            if rest.contains('@') {
                let j = choose|j: int| 0 <= j < rest.len() && rest[j] == '@';
                assert(s[j + k + 1] == '@');
            }
        }
        lemma_no_emails(rest);
        assert(w + seq![s[k]] + rest =~= s);
    } else {
        assert(s.take(s.len() as int) =~= s);
        lemma_no_address(s, s);
    }
}

proof fn lemma_no_address(w: Seq<char>, s: Seq<char>)
    requires
        !s.contains('@'),
        w.len() <= s.len(),
        w == s.take(w.len() as int),
    ensures
        word_shown(w) == w,
{
    crate::text::lemma_until_is(w, '@');
    let k = until(w, '@');
    if k < w.len() {
        assert(s[k] == '@');
    }
}

proof fn lemma_no_assignment(s: Seq<char>, i: int)
    requires
        0 <= i <= s.len(),
        !s.contains('='),
        !s.contains(':'),
    ensures
        unassigned_from(s, i) == s.skip(i),
    decreases s.len() - i,
{
    if i < s.len() {
        lemma_key_end(s, i);
        let j = gap_end(s, key_end(s, i));
        lemma_gap_end(s, key_end(s, i));
        if j < s.len() {
            assert(s.contains(s[j]));
        }
        lemma_no_assignment(s, i + 1);
        assert(seq![s[i]] + s.skip(i + 1) =~= s.skip(i));
    } else {
        assert(s.skip(i) =~= Seq::<char>::empty());
    }
}

/// Text that holds neither an address nor an assignment is logged as it is.
pub proof fn plain_text_is_untouched(s: Seq<char>)
    requires
        !s.contains('@'),
        !s.contains('='),
        !s.contains(':'),
    ensures
        redacted(s) == s,
{
    lemma_no_emails(s);
    lemma_no_assignment(s, 0);
    assert(s.skip(0) =~= s);
}

proof fn lemma_key_end_shift(p: Seq<char>, t: Seq<char>, i: int)
    requires
        0 <= i <= t.len(),
    ensures
        key_end(p + t, p.len() + i) == p.len() + key_end(t, i),
    decreases t.len() - i,
{
    if i < t.len() {
        assert((p + t)[p.len() + i] == t[i]);
        if key_char(t[i]) {
            lemma_key_end_shift(p, t, i + 1);
        }
    }
}

proof fn lemma_gap_end_shift(p: Seq<char>, t: Seq<char>, i: int)
    requires
        0 <= i <= t.len(),
    ensures
        gap_end(p + t, p.len() + i) == p.len() + gap_end(t, i),
    decreases t.len() - i,
{
    if i < t.len() {
        assert((p + t)[p.len() + i] == t[i]);
        if gap_char(t[i]) {
            lemma_gap_end_shift(p, t, i + 1);
        }
    }
}

proof fn lemma_assignment_shift(p: Seq<char>, t: Seq<char>, i: int)
    requires
        0 <= i <= t.len(),
    ensures
        assignment(p + t, p.len() + i) == (match assignment(t, i) {
            Some((k, v)) => Some((p.len() + k, p.len() + v)),
            None => None,
        }),
        (assignment(t, i) matches Some((k, v)) ==> i < k < v <= t.len()),
{
    let k = key_end(t, i);
    lemma_key_end(t, i);
    lemma_key_end_shift(p, t, i);
    lemma_gap_end(t, k);
    lemma_gap_end_shift(p, t, k);
    let j = gap_end(t, k);
    if j < t.len() {
        assert((p + t)[p.len() + j] == t[j]);
        lemma_gap_end(t, j + 1);
        lemma_gap_end_shift(p, t, j + 1);
    }
}

proof fn lemma_value_end_shift(p: Seq<char>, t: Seq<char>, v: int)
    requires
        0 <= v <= t.len(),
    ensures
        value_end(p + t, p.len() + v) == p.len() + value_end(t, v),
    decreases t.len() - v,
{
    let s = p + t;
    let m = p.len() as int;
    if v < t.len() {
        assert(s[m + v] == t[v]);
        assert(s.skip(m + v) =~= t.skip(v));
        assert(s.skip(m + v + 1) =~= t.skip(v + 1));
        let k = key_end(t, v);
        let n = gap_end(t, k);
        lemma_key_end(t, v);
        lemma_gap_end(t, k);
        lemma_key_end_shift(p, t, v);
        lemma_gap_end_shift(p, t, k);
        lemma_assignment_shift(p, t, v);
        assert(s.subrange(m + v, m + k) =~= t.subrange(v, k));
        if n < t.len() {
            assert(s[m + n] == t[n]);
        }
        match assignment(t, v) {
            Some((_, w)) => {
                lemma_value_end_shift(p, t, w);
            },
            None => {
                if k < n < t.len() {
                    lemma_value_end_shift(p, t, n);
                }
            },
        }
    }
}

proof fn lemma_unassigned_shift(p: Seq<char>, t: Seq<char>, i: int)
    requires
        0 <= i <= t.len(),
    ensures
        unassigned_from(p + t, p.len() + i) == unassigned_from(t, i),
    decreases t.len() - i,
{
    let s = p + t;
    let n = p.len() as int;
    if i < t.len() {
        assert(s[n + i] == t[i]);
        lemma_assignment_shift(p, t, i);
        match assignment(t, i) {
            Some((k, v)) => {
                assert(assignment(s, n + i) == Some((n + k, n + v)));
                assert(s.subrange(n + i, n + k) =~= t.subrange(i, k));
                assert(s.subrange(n + i, n + v) =~= t.subrange(i, v));
                lemma_value_end_shift(p, t, v);
                lemma_value_end(t, v);
                if secret(t.subrange(i, k)) {
                    lemma_unassigned_shift(p, t, value_end(t, v));
                } else {
                    lemma_unassigned_shift(p, t, i + 1);
                }
            },
            None => {
                assert(assignment(s, n + i) is None);
                lemma_unassigned_shift(p, t, i + 1);
            },
        }
    }
}

/// The characters of a secret key are key characters.
proof fn lemma_secret_key(key: Seq<char>)
    requires
        secret(key),
    ensures
        key.len() > 0,
        forall|i: int| 0 <= i < key.len() ==> key_char(#[trigger] key[i]),
{
    reveal_strlit("api_key");
    reveal_strlit("apikey");
    reveal_strlit("auth");
    reveal_strlit("authorization");
    reveal_strlit("bearer");
    reveal_strlit("key");
    reveal_strlit("passwd");
    reveal_strlit("password");
    reveal_strlit("secret");
    reveal_strlit("token");
    let n = choose|n: int|
        0 <= n < secret_keys().len() && lowered(#[trigger] secret_keys()[n]) == lowered(key);
    let name = secret_keys()[n];
    assert(name.len() > 0);
    assert forall|i: int| 0 <= i < name.len() implies 'a' <= #[trigger] name[i] <= 'z' || name[i]
        == '_' by {}
    assert(lowered(name).len() == lowered(key).len());
    assert forall|i: int| 0 <= i < key.len() implies key_char(#[trigger] key[i]) by {
        assert(lowered(key)[i] == lowered(name)[i]);
        assert('a' <= name[i] <= 'z' || name[i] == '_');
    }
}

/// A scheme is the name of a secret key.
proof fn lemma_scheme(word: Seq<char>)
    requires
        is_scheme(word),
    ensures
        secret(word),
{
    reveal_strlit("bearer");
    assert(secret_keys()[4] == "bearer"@);
    assert(lowered("bearer"@) =~= "bearer"@);
}

proof fn lemma_passes_over(a: Seq<char>, rest: Seq<char>, i: int)
    requires
        0 <= i <= a.len(),
        !a.contains('='),
        !a.contains(':'),
        a.len() > 0 ==> is_white(a.last()),
        rest.len() > 0,
        key_char(rest[0]),
    ensures
        unassigned_from(a + rest, i) == a.skip(i) + unassigned_from(a + rest, a.len() as int),
    decreases a.len() - i,
{
    let s = a + rest;
    let n = a.len() as int;
    if i < n {
        lemma_key_end(s, i);
        let k = key_end(s, i);
        assert(s[n - 1] == a.last());
        assert(!key_char(s[n - 1]));
        assert(k <= n - 1) by {
            if k > n - 1 {
                assert(key_char(s[n - 1]));
            }
        }
        lemma_gap_end(s, k);
        let j = gap_end(s, k);
        assert(s[n] == rest[0]);
        assert(!gap_char(s[n]));
        assert(j <= n) by {
            if j > n {
                assert(gap_char(s[n]));
            }
        }
        if j < n {
            assert(s[j] == a[j]);
            assert(a.contains(a[j]));
        }
        assert(assignment(s, i) is None);
        lemma_passes_over(a, rest, i + 1);
        assert(seq![s[i]] + (a.skip(i + 1) + unassigned_from(s, n)) =~= a.skip(i)
            + unassigned_from(s, n));
    } else {
        assert(a.skip(i) + unassigned_from(s, n) =~= unassigned_from(s, n));
    }
}

/// Whether text is white space within a line.
pub open spec fn is_gap(g: Seq<char>) -> bool {
    forall|i: int| 0 <= i < g.len() ==> gap_char(#[trigger] g[i])
}

/// Whether `v`, with `t` behind it, is a word that stands for itself: it starts
/// with no quote, is no scheme, and no secret key is assigned a value there.
pub open spec fn plain_word(v: Seq<char>, t: Seq<char>) -> bool {
    let name = v.take(key_end(v, 0));
    &&& v.len() > 0
    &&& forall|i: int| 0 <= i < v.len() ==> !is_white(#[trigger] v[i])
    &&& v[0] != '"' && v[0] != '\''
    &&& secret(name) ==> !is_scheme(name) && assignment(v + t, 0) is None
}

/// How an assignment to `key` begins: the key and a mark, white space around
/// the mark.
pub open spec fn assigning(key: Seq<char>, g: Seq<char>, mark: char, h: Seq<char>) -> Seq<char> {
    key + g + seq![mark] + h
}

proof fn lemma_key_end_at(s: Seq<char>, i: int, k: int)
    requires
        0 <= i <= k <= s.len(),
        forall|j: int| i <= j < k ==> key_char(#[trigger] s[j]),
        k < s.len() ==> !key_char(s[k]),
    ensures
        key_end(s, i) == k,
    decreases k - i,
{
    if i < k {
        assert(key_char(s[i]));
        lemma_key_end_at(s, i + 1, k);
    }
}

proof fn lemma_gap_end_at(s: Seq<char>, i: int, k: int)
    requires
        0 <= i <= k <= s.len(),
        forall|j: int| i <= j < k ==> gap_char(#[trigger] s[j]),
        k < s.len() ==> !gap_char(s[k]),
    ensures
        gap_end(s, i) == k,
    decreases k - i,
{
    if i < k {
        assert(gap_char(s[i]));
        lemma_gap_end_at(s, i + 1, k);
    }
}

/// Where an assignment that starts a text stands.
proof fn lemma_assigning(key: Seq<char>, g: Seq<char>, mark: char, h: Seq<char>, x: Seq<char>)
    requires
        secret(key),
        is_gap(g),
        is_gap(h),
        mark == '=' || mark == ':',
        x.len() > 0 ==> !gap_char(x[0]),
    ensures
        assignment(assigning(key, g, mark, h) + x, 0) == Some(
            (key.len() as int, assigning(key, g, mark, h).len() as int),
        ),
{
    let s = assigning(key, g, mark, h) + x;
    let k = key.len() as int;
    let j = k + g.len();
    let v = j + 1 + h.len();
    lemma_secret_key(key);
    assert forall|i: int| 0 <= i < k implies key_char(#[trigger] s[i]) by {
        assert(s[i] == key[i]);
    }
    assert forall|i: int| k <= i < j implies gap_char(#[trigger] s[i]) by {
        assert(s[i] == g[i - k]);
    }
    assert(s[j] == mark);
    assert forall|i: int| j + 1 <= i < v implies gap_char(#[trigger] s[i]) by {
        assert(s[i] == h[i - j - 1]);
    }
    if x.len() > 0 {
        assert(s[v] == x[0]);
    }
    assert(!key_char(s[k])) by {
        if k < j {
            assert(gap_char(s[k]));
        }
    }
    lemma_key_end_at(s, 0, k);
    lemma_gap_end_at(s, k, j);
    lemma_gap_end_at(s, j + 1, v);
}

/// Where a plain word that starts a text ends.
proof fn lemma_plain_word(v: Seq<char>, t: Seq<char>)
    requires
        plain_word(v, t),
        t.len() > 0 ==> is_white(t[0]),
    ensures
        value_end(v + t, 0) == v.len(),
{
    let x = v + t;
    assert(x.skip(0) =~= x);
    assert forall|j: int| 0 <= j < v.len() implies !is_white(#[trigger] x[j]) by {
        assert(x[j] == v[j]);
    }
    if t.len() > 0 {
        assert(x[v.len() as int] == t[0]);
    }
    lemma_word_len(x, v.len() as int);
    lemma_key_end(v, 0);
    let k = key_end(v, 0);
    assert forall|j: int| 0 <= j < k implies key_char(#[trigger] x[j]) by {
        assert(x[j] == v[j]);
    }
    if k < v.len() {
        assert(x[k] == v[k]);
    }
    lemma_key_end_at(x, 0, k);
    assert(x.subrange(0, k) =~= v.take(k));
    assert(x[0] == v[0]);
}

/// What is left of an assignment to a secret key that starts a text.
proof fn lemma_redacts_first(key: Seq<char>, lead: Seq<char>, x: Seq<char>, n: int)
    requires
        secret(key),
        0 < key.len() <= lead.len(),
        lead.take(key.len() as int) == key,
        assignment(lead + x, 0) == Some((key.len() as int, lead.len() as int)),
        0 <= n <= x.len(),
        value_end(x, 0) == n,
    ensures
        unassigned_from(lead + x, 0) == lead + "<redacted>"@ + without_secrets(x.skip(n)),
{
    let rest = lead + x;
    assert(rest.subrange(0, key.len() as int) =~= lead.take(key.len() as int));
    assert(rest.subrange(0, lead.len() as int) =~= lead);
    lemma_value_end_shift(lead, x, 0);
    let front = lead + x.take(n);
    assert(front + x.skip(n) =~= rest);
    lemma_unassigned_shift(front, x.skip(n), 0);
    assert(front.len() == lead.len() + n);
}

/// What is left of an assignment to a secret key.
proof fn lemma_redacts(a: Seq<char>, key: Seq<char>, lead: Seq<char>, x: Seq<char>, n: int)
    requires
        !a.contains('='),
        !a.contains(':'),
        a.len() > 0 ==> is_white(a.last()),
        secret(key),
        key.len() <= lead.len(),
        lead.take(key.len() as int) == key,
        assignment(lead + x, 0) == Some((key.len() as int, lead.len() as int)),
        0 <= n <= x.len(),
        value_end(x, 0) == n,
    ensures
        without_secrets(a + (lead + x)) == a + lead + "<redacted>"@ + without_secrets(x.skip(n)),
{
    let rest = lead + x;
    lemma_secret_key(key);
    assert(rest[0] == lead.take(key.len() as int)[0]);
    lemma_passes_over(a, rest, 0);
    lemma_unassigned_shift(a, rest, 0);
    lemma_redacts_first(key, lead, x, n);
    let tail = without_secrets(x.skip(n));
    assert(a.skip(0) + (lead + "<redacted>"@ + tail) =~= a + lead + "<redacted>"@ + tail);
}

/// The value of a secret key is not logged, whatever it is: a text in which
/// the key is assigned a word reads the same for every such word.
pub proof fn secret_values_never_show(
    a: Seq<char>,
    key: Seq<char>,
    g: Seq<char>,
    mark: char,
    h: Seq<char>,
    v: Seq<char>,
    t: Seq<char>,
)
    requires
        !a.contains('='),
        !a.contains(':'),
        a.len() > 0 ==> is_white(a.last()),
        secret(key),
        is_gap(g),
        is_gap(h),
        mark == '=' || mark == ':',
        plain_word(v, t),
        t.len() > 0 ==> is_white(t[0]),
    ensures
        without_secrets(a + (assigning(key, g, mark, h) + (v + t))) == a + assigning(
            key,
            g,
            mark,
            h,
        ) + "<redacted>"@ + without_secrets(t),
{
    let lead = assigning(key, g, mark, h);
    assert((v + t)[0] == v[0]);
    lemma_assigning(key, g, mark, h, v + t);
    lemma_plain_word(v, t);
    assert(lead.take(key.len() as int) =~= key);
    lemma_redacts(a, key, lead, v + t, v.len() as int);
    assert((v + t).skip(v.len() as int) =~= t);
}

/// A quoted value of a secret key is not logged either, whatever stands
/// between the quotes.
pub proof fn quoted_secrets_never_show(
    a: Seq<char>,
    key: Seq<char>,
    g: Seq<char>,
    mark: char,
    h: Seq<char>,
    quote: char,
    v: Seq<char>,
    t: Seq<char>,
)
    requires
        !a.contains('='),
        !a.contains(':'),
        a.len() > 0 ==> is_white(a.last()),
        secret(key),
        is_gap(g),
        is_gap(h),
        mark == '=' || mark == ':',
        quote == '"' || quote == '\'',
        !v.contains(quote),
    ensures
        without_secrets(a + (assigning(key, g, mark, h) + (seq![quote] + v + seq![quote] + t))) == a
            + assigning(key, g, mark, h) + "<redacted>"@ + without_secrets(t),
{
    let lead = assigning(key, g, mark, h);
    let x = seq![quote] + v + seq![quote] + t;
    let n = v.len() as int + 2;
    assert(x[0] == quote);
    lemma_assigning(key, g, mark, h, x);
    let inner = x.skip(1);
    assert forall|j: int| 0 <= j < v.len() implies inner[j] != quote by {
        assert(inner[j] == v[j]);
        assert(v.contains(v[j]));
    }
    assert(inner[v.len() as int] == quote);
    crate::text::lemma_until(inner, quote, v.len() as int);
    assert(lead.take(key.len() as int) =~= key);
    lemma_redacts(a, key, lead, x, n);
    assert(x.skip(n) =~= t);
}

/// A value that names its scheme first, as the bearer token of a header does,
/// is not logged either: the scheme and the word behind it go together.
pub proof fn secrets_behind_a_scheme_never_show(
    a: Seq<char>,
    key: Seq<char>,
    g: Seq<char>,
    mark: char,
    h: Seq<char>,
    scheme: Seq<char>,
    gap: Seq<char>,
    v: Seq<char>,
    t: Seq<char>,
)
    requires
        !a.contains('='),
        !a.contains(':'),
        a.len() > 0 ==> is_white(a.last()),
        secret(key),
        is_gap(g),
        is_gap(h),
        mark == '=' || mark == ':',
        is_scheme(scheme),
        is_gap(gap),
        gap.len() > 0,
        plain_word(v, t),
        v[0] != '=' && v[0] != ':',
        t.len() > 0 ==> is_white(t[0]),
    ensures
        without_secrets(a + (assigning(key, g, mark, h) + (scheme + gap + (v + t)))) == a
            + assigning(key, g, mark, h) + "<redacted>"@ + without_secrets(t),
{
    let lead = assigning(key, g, mark, h);
    let head = scheme + gap;
    let x = head + (v + t);
    let k = scheme.len() as int;
    let n = head.len() as int;
    lemma_scheme(scheme);
    lemma_secret_key(scheme);
    assert(x[0] == scheme[0]);
    lemma_assigning(key, g, mark, h, x);
    assert forall|i: int| 0 <= i < k implies key_char(#[trigger] x[i]) by {
        assert(x[i] == scheme[i]);
    }
    assert forall|i: int| k <= i < n implies gap_char(#[trigger] x[i]) by {
        assert(x[i] == gap[i - k]);
    }
    assert(x[n] == v[0]);
    assert(gap_char(x[k]));
    lemma_key_end_at(x, 0, k);
    lemma_gap_end_at(x, k, n);
    assert(x.subrange(0, k) =~= scheme);
    assert(key_char(x[0]));
    lemma_plain_word(v, t);
    lemma_value_end_shift(head, v + t, 0);
    assert(lead.take(key.len() as int) =~= key);
    lemma_redacts(a, key, lead, x, n + v.len());
    assert(x.skip(n + v.len()) =~= t);
}

/// Words are looked at one by one: white space stays where it is, and what
/// becomes of a word depends on that word alone. A word without an `@` stays.
pub proof fn words_are_looked_at_one_by_one(w: Seq<char>, space: char, rest: Seq<char>)
    requires
        forall|i: int| 0 <= i < w.len() ==> !is_white(#[trigger] w[i]),
        is_white(space),
    ensures
        without_emails(w + seq![space] + rest) == without_emails(w) + seq![space] + without_emails(
            rest,
        ),
        !w.contains('@') ==> without_emails(w) == w,
{
    let s = w + seq![space] + rest;
    assert forall|j: int| 0 <= j < w.len() implies !is_white(#[trigger] s[j]) by {
        assert(s[j] == w[j]);
    }
    lemma_word_len(s, w.len() as int);
    lemma_word_len(w, w.len() as int);
    assert(s.take(w.len() as int) =~= w);
    assert(s.skip(w.len() as int + 1) =~= rest);
    if !w.contains('@') {
        lemma_no_emails(w);
    }
}

/// An e-mail address does not show, and nothing else is taken for one: a word
/// is one if and only if something stands before its first `@`, a dot stands
/// behind it, and each side holds only the characters that it may.
pub proof fn addresses_never_show(local: Seq<char>, domain: Seq<char>)
    requires
        !local.contains('@'),
        forall|i: int| 0 <= i < local.len() ==> !is_white(#[trigger] local[i]),
        forall|i: int| 0 <= i < domain.len() ==> !is_white(#[trigger] domain[i]),
    ensures
        without_emails(local + seq!['@'] + domain) == (if local.len() > 0 && domain.contains('.') && (
        forall|i: int| 0 <= i < local.len() ==> local_char(#[trigger] local[i])) && (forall|i: int|
            0 <= i < domain.len() ==> domain_char(#[trigger] domain[i])) {
            "<redacted-email>"@
        } else {
            local + seq!['@'] + domain
        }),
{
    let t = local + seq!['@'] + domain;
    let k = local.len() as int;
    assert forall|j: int| 0 <= j < t.len() implies !is_white(#[trigger] t[j]) by {
        if j < k {
            assert(t[j] == local[j]);
        } else if j > k {
            assert(t[j] == domain[j - k - 1]);
        }
    }
    lemma_word_len(t, t.len() as int);
    assert forall|j: int| 0 <= j < k implies t[j] != '@' by {
        assert(t[j] == local[j]);
        assert(local.contains(local[j]));
    }
    crate::text::lemma_until_is(t, '@');
    assert(t[k] == '@');
    assert(until(t, '@') == k);
    assert((forall|i: int| 0 <= i < k ==> local_char(#[trigger] t[i])) <==> (forall|i: int|
        0 <= i < local.len() ==> local_char(#[trigger] local[i]))) by {
        if forall|i: int| 0 <= i < k ==> local_char(#[trigger] t[i]) {
            assert forall|i: int| 0 <= i < local.len() implies local_char(#[trigger] local[i]) by {
                assert(t[i] == local[i]);
            }
        }
    }
    assert((forall|i: int| k < i < t.len() ==> domain_char(#[trigger] t[i])) <==> (forall|i: int|
        0 <= i < domain.len() ==> domain_char(#[trigger] domain[i]))) by {
        if forall|i: int| k < i < t.len() ==> domain_char(#[trigger] t[i]) {
            assert forall|i: int| 0 <= i < domain.len() implies domain_char(#[trigger] domain[i]) by {
                assert(t[i + k + 1] == domain[i]);
            }
        }
        if forall|i: int| 0 <= i < domain.len() ==> domain_char(#[trigger] domain[i]) {
            assert forall|i: int| k < i < t.len() implies domain_char(#[trigger] t[i]) by {
                assert(t[i] == domain[i - k - 1]);
            }
        }
    }
    assert((exists|i: int| k < i < t.len() && #[trigger] t[i] == '.') <==> domain.contains('.')) by {
        if exists|i: int| k < i < t.len() && #[trigger] t[i] == '.' {
            let i = choose|i: int| k < i < t.len() && #[trigger] t[i] == '.';
            assert(domain[i - k - 1] == '.');
        }
        if domain.contains('.') {
            let i = choose|i: int| 0 <= i < domain.len() && domain[i] == '.';
            assert(t[i + k + 1] == '.');
        }
    }
}

proof fn lemma_no_secret(s: Seq<char>, i: int)
    requires
        0 <= i <= s.len(),
        forall|j: int|
            0 <= j < s.len() ==> (#[trigger] assignment(s, j) matches Some((k, _)) ==> !secret(
                s.subrange(j, k),
            )),
    ensures
        unassigned_from(s, i) == s.skip(i),
    decreases s.len() - i,
{
    if i < s.len() {
        lemma_no_secret(s, i + 1);
        assert(assignment(s, i) matches Some((k, _)) ==> !secret(s.subrange(i, k)));
        assert(seq![s[i]] + s.skip(i + 1) =~= s.skip(i));
    } else {
        assert(s.skip(i) =~= Seq::<char>::empty());
    }
}

/// Only the values of secret keys are taken out: a text that assigns none is
/// logged as it is, whatever else it assigns.
pub proof fn other_values_are_kept(s: Seq<char>)
    requires
        forall|j: int|
            0 <= j < s.len() ==> (#[trigger] assignment(s, j) matches Some((k, _)) ==> !secret(
                s.subrange(j, k),
            )),
    ensures
        without_secrets(s) == s,
{
    lemma_no_secret(s, 0);
    assert(s.skip(0) =~= s);
}

/// Keys, tokens, passwords and the like are secret, whatever their case, and no
/// other keys are.
pub proof fn secret_keys_are_known_by_name(key: Seq<char>)
    ensures
        secret(key) <==> {
            let k = lowered(key);
            ||| k == "key"@ || k == "api_key"@ || k == "apikey"@
            ||| k == "token"@ || k == "bearer"@ || k == "auth"@ || k == "authorization"@
            ||| k == "password"@ || k == "passwd"@ || k == "secret"@
        },
{
    reveal_strlit("api_key");
    reveal_strlit("apikey");
    reveal_strlit("auth");
    reveal_strlit("authorization");
    reveal_strlit("bearer");
    reveal_strlit("key");
    reveal_strlit("passwd");
    reveal_strlit("password");
    reveal_strlit("secret");
    reveal_strlit("token");
    let all = secret_keys();
    assert(lowered("api_key"@) =~= "api_key"@);
    assert(lowered("apikey"@) =~= "apikey"@);
    assert(lowered("auth"@) =~= "auth"@);
    assert(lowered("authorization"@) =~= "authorization"@);
    assert(lowered("bearer"@) =~= "bearer"@);
    assert(lowered("key"@) =~= "key"@);
    assert(lowered("passwd"@) =~= "passwd"@);
    assert(lowered("password"@) =~= "password"@);
    assert(lowered("secret"@) =~= "secret"@);
    assert(lowered("token"@) =~= "token"@);
    assert(all[0] == "api_key"@ && all[1] == "apikey"@ && all[2] == "auth"@);
    assert(all[3] == "authorization"@ && all[4] == "bearer"@ && all[5] == "key"@);
    assert(all[6] == "passwd"@ && all[7] == "password"@ && all[8] == "secret"@);
    assert(all[9] == "token"@);
}

proof fn lemma_email_marks(s: Seq<char>, c: char)
    requires
        !s.contains(c),
        c == '=' || c == ':',
    ensures
        !without_emails(s).contains(c),
    decreases s.len(),
{
    reveal_strlit("<redacted-email>");
    let k = word_len(s);
    lemma_word_len_is(s);
    let out = without_emails(s);
    if k < s.len() {
        let w = s.take(k);
        let rest = s.skip(k + 1);
        assert(!rest.contains(c)) by {
            if rest.contains(c) {
                let j = choose|j: int| 0 <= j < rest.len() && rest[j] == c;
                assert(s[j + k + 1] == c);
            }
        }
        lemma_email_marks(rest, c);
        if out.contains(c) {
            let j = choose|j: int| 0 <= j < out.len() && out[j] == c;
            let n = word_shown(w).len() as int;
            if j < n {
                assert(word_shown(w)[j] == c);
                if !is_email(w) {
                    assert(s[j] == c);
                }
            } else if j == n {
                assert(s[k] == c);
            } else {
                assert(without_emails(rest)[j - n - 1] == c);
                assert(without_emails(rest).contains(c));
            }
        }
    } else if out.contains(c) {
        let j = choose|j: int| 0 <= j < out.len() && out[j] == c;
        if !is_email(s) {
            assert(s[j] == c);
        }
    }
}

/// Text that is logged has both its addresses and its secrets taken out: where
/// it holds no address its secrets go, and where it assigns nothing its
/// addresses do.
pub proof fn addresses_and_secrets_both_go(s: Seq<char>)
    ensures
        !s.contains('@') ==> redacted(s) == without_secrets(s),
        !s.contains('=') && !s.contains(':') ==> redacted(s) == without_emails(s),
{
    if !s.contains('@') {
        lemma_no_emails(s);
    }
    if !s.contains('=') && !s.contains(':') {
        lemma_email_marks(s, '=');
        lemma_email_marks(s, ':');
        let t = without_emails(s);
        lemma_no_assignment(t, 0);
        assert(t.skip(0) =~= t);
    }
}

} // verus!
