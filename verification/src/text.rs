//! Characters and text: the string operations the rest of the crate is
//! written in, each specified over the sequence of characters it works on.

use vstd::prelude::*;

verus! {

/// Unicode `White_Space`.
pub open spec fn is_white(c: char) -> bool {
    ||| '\u{9}' <= c <= '\u{d}'
    ||| c == '\u{20}'
    ||| c == '\u{85}'
    ||| c == '\u{a0}'
    ||| c == '\u{1680}'
    ||| '\u{2000}' <= c <= '\u{200a}'
    ||| c == '\u{2028}'
    ||| c == '\u{2029}'
    ||| c == '\u{202f}'
    ||| c == '\u{205f}'
    ||| c == '\u{3000}'
}

/// Whether `c` is white space.
pub fn white(c: char) -> (r: bool)
    ensures
        r == is_white(c),
{
    ('\u{9}' <= c && c <= '\u{d}') || c == '\u{20}' || c == '\u{85}' || c == '\u{a0}' || c
        == '\u{1680}' || ('\u{2000}' <= c && c <= '\u{200a}') || c == '\u{2028}' || c == '\u{2029}'
        || c == '\u{202f}' || c == '\u{205f}' || c == '\u{3000}'
}

/// `String::push`: appends one character.
pub assume_specification[ String::push ](s: &mut String, c: char)
    ensures
        final(s)@ == old(s)@.push(c),
;

/// The characters of `s`.
pub fn chars_of(s: &str) -> (r: Vec<char>)
    ensures
        r@ == s@,
{
    let mut out: Vec<char> = Vec::new();
    for c in it: s.chars()
        invariant
            out@ == it.seq().take(it.index()),
            it.seq() == s@,
    {
        out.push(c);
    }
    out
}

/// The string made of `cs`.
pub fn string_of(cs: &[char]) -> (r: String)
    ensures
        r@ == cs@,
{
    let mut out = String::new();
    let mut i: usize = 0;
    while i < cs.len()
        invariant
            i <= cs.len(),
            out@ == cs@.take(i as int),
        decreases cs.len() - i,
    {
        out.push(cs[i]);
        i += 1;
    }
    assert(cs@.take(i as int) =~= cs@);
    out
}

/// The texts held by a sequence of strings.
pub open spec fn texts(v: Seq<String>) -> Seq<Seq<char>> {
    Seq::new(v.len(), |i: int| v[i]@)
}

/// The texts held by a sequence of borrowed strings.
pub open spec fn str_texts(v: Seq<&str>) -> Seq<Seq<char>> {
    Seq::new(v.len(), |i: int| v[i]@)
}

/// `s` without its leading white space.
pub open spec fn ltrimmed(s: Seq<char>) -> Seq<char>
    decreases s.len(),
{
    if s.len() > 0 && is_white(s[0]) {
        ltrimmed(s.skip(1))
    } else {
        s
    }
}

/// `s` without its trailing white space.
pub open spec fn rtrimmed(s: Seq<char>) -> Seq<char>
    decreases s.len(),
{
    if s.len() > 0 && is_white(s.last()) {
        rtrimmed(s.drop_last())
    } else {
        s
    }
}

/// `s` without leading and trailing white space.
pub open spec fn trimmed(s: Seq<char>) -> Seq<char> {
    rtrimmed(ltrimmed(s))
}

/// The part of `s` from its first character that is not white space on.
pub fn trim_start(s: &[char]) -> (r: &[char])
    ensures
        r@ == ltrimmed(s@),
        r@.len() <= s@.len(),
{
    let mut i: usize = 0;
    proof {
        assert(s@.skip(0) =~= s@);
    }
    while i < s.len() && white(s[i])
        invariant
            i <= s.len(),
            ltrimmed(s@.skip(i as int)) == ltrimmed(s@),
        decreases s.len() - i,
    {
        proof {
            assert(s@.skip(i as int).skip(1) =~= s@.skip(i + 1));
        }
        i += 1;
    }
    proof {
        assert(s@.skip(i as int) =~= s@.subrange(i as int, s@.len() as int));
    }
    vstd::slice::slice_subrange(s, i, s.len())
}

/// The part of `s` up to its last character that is not white space.
pub fn trim_end(s: &[char]) -> (r: &[char])
    ensures
        r@ == rtrimmed(s@),
        r@.len() <= s@.len(),
{
    let mut i: usize = s.len();
    proof {
        assert(s@.take(i as int) =~= s@);
    }
    while i > 0 && white(s[i - 1])
        invariant
            i <= s.len(),
            rtrimmed(s@.take(i as int)) == rtrimmed(s@),
        decreases i,
    {
        proof {
            assert(s@.take(i as int).drop_last() =~= s@.take(i - 1));
        }
        i -= 1;
    }
    proof {
        assert(s@.take(i as int) =~= s@.subrange(0, i as int));
    }
    vstd::slice::slice_subrange(s, 0, i)
}

/// `s` without its surrounding white space.
pub fn trim(s: &[char]) -> (r: &[char])
    ensures
        r@ == trimmed(s@),
        r@.len() <= s@.len(),
{
    trim_end(trim_start(s))
}

/// What is left after leading white space is the end of the text.
pub proof fn lemma_ltrimmed(s: Seq<char>)
    ensures
        ltrimmed(s).len() <= s.len(),
        ltrimmed(s) == s.skip(s.len() - ltrimmed(s).len()),
        ltrimmed(s).len() > 0 ==> !is_white(ltrimmed(s)[0]),
        forall|j: int| 0 <= j < s.len() - ltrimmed(s).len() ==> is_white(#[trigger] s[j]),
    decreases s.len(),
{
    if s.len() > 0 && is_white(s[0]) {
        let t = s.skip(1);
        lemma_ltrimmed(t);
        assert(t.skip(t.len() - ltrimmed(t).len()) =~= s.skip(s.len() - ltrimmed(s).len()));
        assert forall|j: int| 0 <= j < s.len() - ltrimmed(s).len() implies is_white(
            #[trigger] s[j],
        ) by {
            if j > 0 {
                assert(t[j - 1] == s[j]);
            }
        }
    } else {
        assert(s.skip(0) =~= s);
    }
}

/// What is left before trailing white space is the start of the text.
pub proof fn lemma_rtrimmed(s: Seq<char>)
    ensures
        rtrimmed(s).len() <= s.len(),
        rtrimmed(s) == s.take(rtrimmed(s).len() as int),
        rtrimmed(s).len() > 0 ==> !is_white(rtrimmed(s).last()),
        forall|j: int| rtrimmed(s).len() <= j < s.len() ==> is_white(#[trigger] s[j]),
    decreases s.len(),
{
    if s.len() > 0 && is_white(s.last()) {
        let t = s.drop_last();
        lemma_rtrimmed(t);
        assert(t.take(rtrimmed(t).len() as int) =~= s.take(rtrimmed(s).len() as int));
        assert forall|j: int| rtrimmed(s).len() <= j < s.len() implies is_white(#[trigger] s[j]) by {
            if j < t.len() {
                assert(t[j] == s[j]);
            }
        }
    } else {
        assert(s.take(s.len() as int) =~= s);
    }
}

/// A trimmed text neither starts nor ends with white space, and trimming
/// leaves such a text as it is.
pub proof fn lemma_trimmed(s: Seq<char>)
    ensures
        trimmed(s).len() <= s.len(),
        trimmed(s).len() > 0 ==> !is_white(trimmed(s)[0]) && !is_white(trimmed(s).last()),
        trimmed(trimmed(s)) == trimmed(s),
        s.len() > 0 && !is_white(s[0]) && !is_white(s.last()) ==> trimmed(s) == s,
{
    lemma_ltrimmed(s);
    lemma_rtrimmed(ltrimmed(s));
}

/// Where `s` starts and ends once its surrounding white space is left out.
pub fn trim_bounds(s: &[char]) -> (r: (usize, usize))
    ensures
        r.0 <= r.1 <= s@.len(),
        s@.subrange(r.0 as int, r.1 as int) == trimmed(s@),
{
    let t = trim_start(s);
    let a: usize = s.len() - t.len();
    let u = trim_end(t);
    let b: usize = a + u.len();
    proof {
        lemma_ltrimmed(s@);
        lemma_rtrimmed(t@);
        assert(s@.subrange(a as int, b as int) =~= t@.take(u@.len() as int));
    }
    (a, b)
}

/// Where `c` first occurs in `s`; the length of `s` when it does not.
pub open spec fn until(s: Seq<char>, c: char) -> int
    decreases s.len(),
{
    if s.len() == 0 || s[0] == c {
        0
    } else {
        1 + until(s.skip(1), c)
    }
}

/// `until` is the one position before which `c` does not occur and at which it does.
pub proof fn lemma_until(s: Seq<char>, c: char, k: int)
    requires
        0 <= k <= s.len(),
        forall|j: int| 0 <= j < k ==> s[j] != c,
        k < s.len() ==> s[k] == c,
    ensures
        until(s, c) == k,
    decreases s.len(),
{
    if s.len() > 0 && s[0] != c {
        lemma_until(s.skip(1), c, k - 1);
    }
}

/// What `until` says of the characters of `s`.
pub proof fn lemma_until_is(s: Seq<char>, c: char)
    ensures
        0 <= until(s, c) <= s.len(),
        forall|j: int| 0 <= j < until(s, c) ==> s[j] != c,
        until(s, c) < s.len() ==> s[until(s, c)] == c,
    decreases s.len(),
{
    if s.len() > 0 && s[0] != c {
        let t = s.skip(1);
        lemma_until_is(t, c);
        assert forall|j: int| 0 <= j < until(s, c) implies s[j] != c by {
            if j > 0 {
                assert(s[j] == t[j - 1]);
            }
        }
    }
}

/// Where `c` first occurs in `s` at or after `from`, counted from the start of `s`.
pub fn find_from(s: &[char], c: char, from: usize) -> (r: usize)
    requires
        from <= s@.len(),
    ensures
        from <= r <= s@.len(),
        r == from + until(s@.skip(from as int), c),
        r < s@.len() ==> s@[r as int] == c,
        forall|j: int| from <= j < r ==> s@[j] != c,
{
    let mut k: usize = from;
    while k < s.len() && s[k] != c
        invariant
            from <= k <= s.len(),
            forall|j: int| from <= j < k ==> s@[j] != c,
        decreases s.len() - k,
    {
        k += 1;
    }
    proof {
        lemma_until(s@.skip(from as int), c, k - from);
    }
    k
}

/// `s` without one carriage return at its end.
pub open spec fn without_cr(s: Seq<char>) -> Seq<char> {
    if s.len() > 0 && s.last() == '\r' {
        s.drop_last()
    } else {
        s
    }
}

/// The lines of `s`: what stands before each line feed, without a carriage
/// return right before it, and what is left after the last one, if anything.
pub open spec fn lines_of(s: Seq<char>) -> Seq<Seq<char>>
    decreases s.len(),
{
    let k = until(s, '\n');
    if s.len() == 0 {
        Seq::empty()
    } else if k < 0 || k >= s.len() {
        seq![s]
    } else {
        seq![without_cr(s.take(k))] + lines_of(s.skip(k + 1))
    }
}

/// The lines of `s`.
pub fn lines(s: &str) -> (r: Vec<String>)
    ensures
        texts(r@) == lines_of(s@),
{
    let cs = chars_of(s);
    let mut out: Vec<String> = Vec::new();
    let mut pos: usize = 0;
    proof {
        assert(cs@.skip(0) =~= cs@);
        assert(texts(out@) + lines_of(cs@) =~= lines_of(cs@));
    }
    while pos < cs.len()
        invariant
            cs@ == s@,
            pos <= cs.len(),
            texts(out@) + lines_of(cs@.skip(pos as int)) == lines_of(cs@),
        decreases cs.len() - pos,
    {
        let ghost rest = cs@.skip(pos as int);
        let ghost before = out@;
        let k = find_from(&cs, '\n', pos);
        let mut e: usize = k;
        if k < cs.len() && k > pos && cs[k - 1] == '\r' {
            e = k - 1;
        }
        let line = string_of(vstd::slice::slice_subrange(&cs, pos, e));
        out.push(line);
        proof {
            assert(texts(out@) =~= texts(before).push(line@));
            if k < cs.len() {
                assert(line@ =~= without_cr(rest.take(k - pos)));
                assert(rest.skip(k - pos + 1) =~= cs@.skip(k + 1));
                assert(texts(out@) + lines_of(cs@.skip(k + 1)) =~= texts(before) + lines_of(rest));
            } else {
                assert(line@ =~= rest);
                assert(lines_of(cs@.skip(k as int)) =~= Seq::<Seq<char>>::empty());
                assert(texts(out@) + lines_of(cs@.skip(k as int)) =~= texts(before) + lines_of(rest));
            }
        }
        if k >= cs.len() {
            pos = k;
        } else {
            pos = k + 1;
        }
    }
    proof {
        assert(cs@.skip(pos as int) =~= Seq::<char>::empty());
        assert(texts(out@) + lines_of(cs@.skip(pos as int)) =~= texts(out@));
    }
    out
}

/// Whether `a` and `b` hold the same characters.
pub fn same_chars(a: &[char], b: &[char]) -> (r: bool)
    ensures
        r == (a@ == b@),
{
    if a.len() != b.len() {
        return false;
    }
    let mut i: usize = 0;
    while i < a.len()
        invariant
            a.len() == b.len(),
            i <= a.len(),
            forall|j: int| 0 <= j < i ==> a@[j] == b@[j],
        decreases a.len() - i,
    {
        if a[i] != b[i] {
            return false;
        }
        i += 1;
    }
    proof {
        assert(a@ =~= b@);
    }
    true
}

/// Whether `a` and `b` are the same text.
pub fn same(a: &str, b: &str) -> (r: bool)
    ensures
        r == (a@ == b@),
{
    same_chars(&chars_of(a), &chars_of(b))
}

/// Whether `s` starts with the text `p`.
pub fn starts_with(s: &[char], p: &str) -> (r: bool)
    ensures
        r == p@.is_prefix_of(s@),
{
    let q = chars_of(p);
    if q.len() > s.len() {
        return false;
    }
    let r = same_chars(&q, vstd::slice::slice_subrange(s, 0, q.len()));
    r
}

/// Whether the texts of `v` hold `s`.
pub fn holds(v: &[&str], s: &str) -> (r: bool)
    ensures
        r == str_texts(v@).contains(s@),
{
    let mut i: usize = 0;
    while i < v.len()
        invariant
            i <= v.len(),
            forall|j: int| 0 <= j < i ==> v@[j]@ != s@,
        decreases v.len() - i,
    {
        if same(v[i], s) {
            proof {
                assert(str_texts(v@)[i as int] == s@);
            }
            return true;
        }
        i += 1;
    }
    proof {
        if str_texts(v@).contains(s@) {
            let j = choose|j: int| 0 <= j < str_texts(v@).len() && str_texts(v@)[j] == s@;
            assert(v@[j]@ == s@);
        }
    }
    false
}

/// `parts` put together with `sep` between each two.
pub open spec fn joined(parts: Seq<Seq<char>>, sep: Seq<char>) -> Seq<char>
    decreases parts.len(),
{
    if parts.len() == 0 {
        Seq::empty()
    } else if parts.len() == 1 {
        parts[0]
    } else {
        joined(parts.drop_last(), sep) + sep + parts.last()
    }
}

/// The strings of `parts` from `lo` up to `hi`, with `sep` between each two.
pub fn join_range(parts: &[String], lo: usize, hi: usize, sep: &str) -> (r: String)
    requires
        lo <= hi <= parts@.len(),
    ensures
        r@ == joined(texts(parts@).subrange(lo as int, hi as int), sep@),
{
    let mut out = String::new();
    let mut i: usize = lo;
    let ghost all = texts(parts@);
    while i < hi
        invariant
            lo <= i <= hi <= parts@.len(),
            all == texts(parts@),
            out@ == joined(all.subrange(lo as int, i as int), sep@),
        decreases hi - i,
    {
        if i > lo {
            out.append(sep);
        }
        out.append(parts[i].as_str());
        proof {
            let now = all.subrange(lo as int, i + 1);
            assert(now.drop_last() =~= all.subrange(lo as int, i as int));
            assert(now.last() == parts@[i as int]@);
            if i == lo {
                assert(out@ =~= parts@[i as int]@);
            }
        }
        i += 1;
    }
    out
}

/// The strings of `parts` with `sep` between each two.
pub fn join(parts: &[String], sep: &str) -> (r: String)
    ensures
        r@ == joined(texts(parts@), sep@),
{
    proof {
        assert(texts(parts@).subrange(0, parts@.len() as int) =~= texts(parts@));
    }
    join_range(parts, 0, parts.len(), sep)
}

/// The decimal digit of value `d`.
pub open spec fn digit_char(d: nat) -> char {
    if d == 0 {
        '0'
    } else if d == 1 {
        '1'
    } else if d == 2 {
        '2'
    } else if d == 3 {
        '3'
    } else if d == 4 {
        '4'
    } else if d == 5 {
        '5'
    } else if d == 6 {
        '6'
    } else if d == 7 {
        '7'
    } else if d == 8 {
        '8'
    } else {
        '9'
    }
}

/// `n` in decimal.
pub open spec fn decimal(n: nat) -> Seq<char>
    decreases n,
{
    if n < 10 {
        seq![digit_char(n)]
    } else {
        decimal(n / 10).push(digit_char(n % 10))
    }
}

fn digit(d: u64) -> (r: char)
    requires
        d < 10,
    ensures
        r == digit_char(d as nat),
{
    if d == 0 {
        '0'
    } else if d == 1 {
        '1'
    } else if d == 2 {
        '2'
    } else if d == 3 {
        '3'
    } else if d == 4 {
        '4'
    } else if d == 5 {
        '5'
    } else if d == 6 {
        '6'
    } else if d == 7 {
        '7'
    } else if d == 8 {
        '8'
    } else {
        '9'
    }
}

/// `n` in decimal.
pub fn decimal_of(n: u64) -> (r: String)
    ensures
        r@ == decimal(n as nat),
    decreases n,
{
    if n < 10 {
        let mut out = String::new();
        out.push(digit(n));
        proof {
            assert(out@ =~= decimal(n as nat));
        }
        out
    } else {
        let mut out = decimal_of(n / 10);
        out.push(digit(n % 10));
        out
    }
}

/// The lower case of an ASCII letter; any other character as it is.
pub open spec fn ascii_lower(c: char) -> char {
    if 'A' <= c <= 'Z' {
        (c as u8 + 32) as u8 as char
    } else {
        c
    }
}

/// `s` with its ASCII letters in lower case.
pub open spec fn lowered(s: Seq<char>) -> Seq<char> {
    Seq::new(s.len(), |i: int| ascii_lower(s[i]))
}

/// The lower case of an ASCII letter; any other character as it is.
pub fn lower_char(c: char) -> (r: char)
    ensures
        r == ascii_lower(c),
{
    if 'A' <= c && c <= 'Z' {
        (c as u8 + 32) as char
    } else {
        c
    }
}

/// `s` with its ASCII letters in lower case.
pub fn lower(s: &str) -> (r: String)
    ensures
        r@ == lowered(s@),
{
    let cs = chars_of(s);
    let mut out = String::new();
    let mut i: usize = 0;
    while i < cs.len()
        invariant
            cs@ == s@,
            i <= cs@.len(),
            out@ == lowered(cs@).take(i as int),
        decreases cs@.len() - i,
    {
        out.push(lower_char(cs[i]));
        proof {
            assert(out@ =~= lowered(cs@).take(i + 1));
        }
        i += 1;
    }
    proof {
        assert(lowered(cs@).take(i as int) =~= lowered(cs@));
    }
    out
}

/// Whether `c` is an ASCII letter or digit.
pub open spec fn is_ascii_alnum(c: char) -> bool {
    'a' <= c <= 'z' || 'A' <= c <= 'Z' || '0' <= c <= '9'
}

/// Whether `c` is an ASCII letter or digit.
pub fn ascii_alnum(c: char) -> (r: bool)
    ensures
        r == is_ascii_alnum(c),
{
    ('a' <= c && c <= 'z') || ('A' <= c && c <= 'Z') || ('0' <= c && c <= '9')
}

/// How many of the marks at the start are set.
pub open spec fn lead(keep: Seq<bool>) -> int
    decreases keep.len(),
{
    if keep.len() == 0 || !keep[0] {
        0
    } else {
        1 + lead(keep.skip(1))
    }
}

/// `lead` is the one position before which all marks are set and at which none is.
pub proof fn lemma_lead(keep: Seq<bool>, k: int)
    requires
        0 <= k <= keep.len(),
        forall|j: int| 0 <= j < k ==> keep[j],
        k < keep.len() ==> !keep[k],
    ensures
        lead(keep) == k,
    decreases keep.len(),
{
    if k > 0 {
        lemma_lead(keep.skip(1), k - 1);
    }
}

/// The longest runs of characters of `s` whose marks are set.
pub open spec fn runs(s: Seq<char>, keep: Seq<bool>) -> Seq<Seq<char>>
    decreases s.len(),
{
    let k = lead(keep);
    if s.len() == 0 {
        Seq::empty()
    } else if k <= 0 {
        runs(s.skip(1), keep.skip(1))
    } else if k >= s.len() {
        seq![s]
    } else {
        seq![s.take(k)] + runs(s.skip(k), keep.skip(k))
    }
}

/// The longest runs of characters of `s` whose marks are set.
pub fn split_runs(s: &[char], keep: &[bool]) -> (r: Vec<String>)
    requires
        keep@.len() == s@.len(),
    ensures
        texts(r@) == runs(s@, keep@),
{
    let mut out: Vec<String> = Vec::new();
    let mut pos: usize = 0;
    proof {
        assert(s@.skip(0) =~= s@);
        assert(keep@.skip(0) =~= keep@);
        assert(texts(out@) + runs(s@, keep@) =~= runs(s@, keep@));
    }
    while pos < s.len()
        invariant
            keep@.len() == s@.len(),
            pos <= s@.len(),
            texts(out@) + runs(s@.skip(pos as int), keep@.skip(pos as int)) == runs(s@, keep@),
        decreases s@.len() - pos,
    {
        let ghost before = out@;
        let ghost st = s@.skip(pos as int);
        let ghost kt = keep@.skip(pos as int);
        let mut k: usize = pos;
        while k < s.len() && keep[k]
            invariant
                keep@.len() == s@.len(),
                pos <= k <= s@.len(),
                forall|j: int| pos <= j < k ==> keep@[j],
            decreases s@.len() - k,
        {
            k += 1;
        }
        proof {
            lemma_lead(kt, k - pos);
        }
        if k == pos {
            proof {
                assert(st.skip(1) =~= s@.skip(pos + 1));
                assert(kt.skip(1) =~= keep@.skip(pos + 1));
            }
            pos += 1;
        } else {
            let run = string_of(vstd::slice::slice_subrange(s, pos, k));
            out.push(run);
            proof {
                assert(texts(out@) =~= texts(before).push(run@));
                assert(run@ =~= st.take(k - pos));
                assert(st.take(st.len() as int) =~= st);
                assert(st.skip(k - pos) =~= s@.skip(k as int));
                assert(kt.skip(k - pos) =~= keep@.skip(k as int));
                assert(texts(out@) + runs(s@.skip(k as int), keep@.skip(k as int)) =~= texts(
                    before,
                ) + runs(st, kt));
            }
            pos = k;
        }
    }
    proof {
        assert(texts(out@) + runs(s@.skip(pos as int), keep@.skip(pos as int)) =~= texts(out@));
    }
    out
}

/// `s` without the carriage returns and line feeds at its end.
pub open spec fn chomped(s: Seq<char>) -> Seq<char>
    decreases s.len(),
{
    if s.len() > 0 && (s.last() == '\r' || s.last() == '\n') {
        chomped(s.drop_last())
    } else {
        s
    }
}

/// `s` without the carriage returns and line feeds at its end.
pub fn chomp(s: &str) -> (r: String)
    ensures
        r@ == chomped(s@),
{
    let cs = chars_of(s);
    let mut i: usize = cs.len();
    proof {
        assert(cs@.take(i as int) =~= cs@);
    }
    while i > 0 && (cs[i - 1] == '\r' || cs[i - 1] == '\n')
        invariant
            cs@ == s@,
            i <= cs@.len(),
            chomped(cs@.take(i as int)) == chomped(cs@),
        decreases i,
    {
        proof {
            assert(cs@.take(i as int).drop_last() =~= cs@.take(i - 1));
        }
        i -= 1;
    }
    proof {
        assert(cs@.take(i as int) =~= cs@.subrange(0, i as int));
    }
    string_of(vstd::slice::slice_subrange(&cs, 0, i))
}

/// Filtering goes value by value.
pub proof fn lemma_filter_step<A>(s: Seq<A>, i: int, pred: spec_fn(A) -> bool)
    requires
        0 <= i < s.len(),
    ensures
        s.take(i + 1).filter(pred) == (if pred(s[i]) {
            s.take(i).filter(pred).push(s[i])
        } else {
            s.take(i).filter(pred)
        }),
{
    reveal(Seq::filter);
    assert(s.take(i + 1).drop_last() =~= s.take(i));
}

/// Where `p` first occurs in `s`; -1 when it does not.
pub open spec fn first_at(s: Seq<char>, p: Seq<char>) -> int
    decreases s.len(),
{
    if p.is_prefix_of(s) {
        0
    } else if s.len() == 0 || first_at(s.skip(1), p) < 0 {
        -1
    } else {
        1 + first_at(s.skip(1), p)
    }
}

/// `first_at` is the first place at which `p` stands.
pub proof fn lemma_first_at(s: Seq<char>, p: Seq<char>, k: int)
    requires
        0 <= k <= s.len(),
        forall|j: int| 0 <= j < k ==> !p.is_prefix_of(#[trigger] s.skip(j)),
        p.is_prefix_of(s.skip(k)),
    ensures
        first_at(s, p) == k,
    decreases k,
{
    assert(s.skip(0) =~= s);
    if k > 0 {
        let t = s.skip(1);
        assert(!p.is_prefix_of(s.skip(0)));
        assert forall|j: int| 0 <= j < k - 1 implies !p.is_prefix_of(#[trigger] t.skip(j)) by {
            assert(t.skip(j) =~= s.skip(j + 1));
        }
        assert(t.skip(k - 1) =~= s.skip(k));
        lemma_first_at(t, p, k - 1);
    }
}

/// What `first_at` says of `s`.
pub proof fn lemma_first_at_is(s: Seq<char>, p: Seq<char>)
    ensures
        -1 <= first_at(s, p) <= s.len(),
        first_at(s, p) >= 0 ==> p.is_prefix_of(s.skip(first_at(s, p))) && first_at(s, p) + p.len()
            <= s.len(),
        forall|j: int|
            0 <= j <= s.len() && (first_at(s, p) < 0 || j < first_at(s, p)) ==> !p.is_prefix_of(
                #[trigger] s.skip(j),
            ),
    decreases s.len(),
{
    assert(s.skip(0) =~= s);
    if s.len() > 0 && !p.is_prefix_of(s) {
        let t = s.skip(1);
        lemma_first_at_is(t, p);
        assert forall|j: int|
            0 <= j <= s.len() && (first_at(s, p) < 0 || j < first_at(s, p)) implies !p.is_prefix_of(
            #[trigger] s.skip(j),
        ) by {
            if j > 0 {
                assert(t.skip(j - 1) =~= s.skip(j));
            }
        }
        if first_at(s, p) >= 0 {
            assert(t.skip(first_at(t, p)) =~= s.skip(first_at(s, p)));
        }
    } else if s.len() == 0 {
        assert forall|j: int|
            0 <= j <= s.len() && (first_at(s, p) < 0 || j < first_at(s, p)) implies !p.is_prefix_of(
            #[trigger] s.skip(j),
        ) by {
            assert(s.skip(j) =~= s);
        }
    }
}

/// Where the text `p` first occurs in `s`.
pub fn find_text(s: &[char], p: &str) -> (r: Option<usize>)
    ensures
        match r {
            Some(k) => first_at(s@, p@) == k && k + p@.len() <= s@.len(),
            None => first_at(s@, p@) < 0,
        },
{
    let mut i: usize = 0;
    loop
        invariant
            i <= s@.len(),
            forall|j: int| 0 <= j < i ==> !p@.is_prefix_of(#[trigger] s@.skip(j)),
        decreases s@.len() - i,
    {
        let rest = vstd::slice::slice_subrange(s, i, s.len());
        proof {
            assert(rest@ =~= s@.skip(i as int));
        }
        if starts_with(rest, p) {
            proof {
                lemma_first_at(s@, p@, i as int);
            }
            return Some(i);
        }
        if i >= s.len() {
            proof {
                lemma_first_at_is(s@, p@);
            }
            return None;
        }
        i += 1;
    }
}

/// The parts of `s` between the occurrences of `p`, from left to right.
pub open spec fn pieces(s: Seq<char>, p: Seq<char>) -> Seq<Seq<char>>
    decreases s.len(),
{
    let k = first_at(s, p);
    if k < 0 || p.len() == 0 || k + p.len() > s.len() {
        seq![s]
    } else {
        seq![s.take(k)] + pieces(s.skip(k + p.len()), p)
    }
}

/// The parts of `s` between the occurrences of `p`, from left to right.
pub fn split_text(s: &str, p: &str) -> (r: Vec<String>)
    requires
        p@.len() > 0,
    ensures
        texts(r@) == pieces(s@, p@),
{
    let cs = chars_of(s);
    let n = chars_of(p).len();
    let mut out: Vec<String> = Vec::new();
    let mut pos: usize = 0;
    proof {
        assert(cs@.skip(0) =~= cs@);
        assert(texts(out@) + pieces(cs@, p@) =~= pieces(cs@, p@));
    }
    loop
        invariant
            cs@ == s@,
            n == p@.len(),
            n > 0,
            pos <= cs@.len(),
            texts(out@) + pieces(cs@.skip(pos as int), p@) == pieces(cs@, p@),
        decreases cs@.len() - pos,
    {
        let rest = vstd::slice::slice_subrange(&cs, pos, cs.len());
        let ghost before = out@;
        proof {
            assert(rest@ =~= cs@.skip(pos as int));
        }
        match find_text(rest, p) {
            None => {
                let last = string_of(rest);
                out.push(last);
                proof {
                    assert(texts(out@) =~= texts(before) + seq![last@]);
                }
                return out;
            },
            Some(k) => {
                let part = string_of(vstd::slice::slice_subrange(rest, 0, k));
                out.push(part);
                proof {
                    assert(part@ =~= rest@.take(k as int));
                    assert(texts(out@) =~= texts(before).push(part@));
                    assert(rest@.skip((k + n) as int) =~= cs@.skip(pos + k + n));
                    assert(texts(out@) + pieces(cs@.skip(pos + k + n), p@) =~= texts(before)
                        + pieces(rest@, p@));
                }
                pos = pos + k + n;
            },
        }
    }
}

/// Different numbers have different decimals.
pub proof fn lemma_decimal_injective(a: nat, b: nat)
    requires
        decimal(a) == decimal(b),
    ensures
        a == b,
    decreases a,
{
    if a < 10 && b < 10 {
        assert(decimal(a)[0] == digit_char(a));
        assert(decimal(b)[0] == digit_char(b));
    } else if a < 10 {
        lemma_decimal_nonempty(b / 10);
        assert(decimal(a).len() == 1);
        assert(decimal(b).len() >= 2);
    } else if b < 10 {
        lemma_decimal_nonempty(a / 10);
        assert(decimal(b).len() == 1);
        assert(decimal(a).len() >= 2);
    } else {
        assert(decimal(a).drop_last() =~= decimal(a / 10));
        assert(decimal(b).drop_last() =~= decimal(b / 10));
        assert(decimal(a).last() == digit_char(a % 10));
        assert(decimal(b).last() == digit_char(b % 10));
        assert(a % 10 == b % 10);
        lemma_decimal_injective(a / 10, b / 10);
    }
}

proof fn lemma_decimal_nonempty(n: nat)
    ensures
        decimal(n).len() >= 1,
    decreases n,
{
    if n >= 10 {
        lemma_decimal_nonempty(n / 10);
    }
}

/// A number in decimal is a row of digits.
pub proof fn lemma_decimal_digits(n: nat)
    ensures
        forall|i: int| 0 <= i < decimal(n).len() ==> '0' <= #[trigger] decimal(n)[i] <= '9',
    decreases n,
{
    if n >= 10 {
        lemma_decimal_digits(n / 10);
        let d = decimal(n / 10);
        assert forall|i: int| 0 <= i < decimal(n).len() implies '0' <= #[trigger] decimal(n)[i]
            <= '9' by {
            if i < d.len() {
                assert(decimal(n)[i] == d[i]);
            } else {
                assert(decimal(n)[i] == digit_char(n % 10));
            }
        }
    } else {
        assert(decimal(n) =~= seq![digit_char(n)]);
    }
}

/// What an optional string holds.
pub open spec fn opt_text(s: Option<String>) -> Option<Seq<char>> {
    match s {
        Some(s) => Some(s@),
        None => None,
    }
}

/// What an optional borrowed string holds.
pub open spec fn opt_str(s: Option<&str>) -> Option<Seq<char>> {
    match s {
        Some(s) => Some(s@),
        None => None,
    }
}

/// A joined text is its first part, a separator and the other parts joined.
pub proof fn lemma_joined_first(parts: Seq<Seq<char>>, sep: Seq<char>)
    requires
        parts.len() > 1,
    ensures
        joined(parts, sep) == parts[0] + sep + joined(parts.skip(1), sep),
    decreases parts.len(),
{
    let init = parts.drop_last();
    let rest = parts.skip(1);
    if parts.len() == 2 {
        assert(init =~= seq![parts[0]]);
        assert(rest =~= seq![parts[1]]);
        assert(joined(init, sep) == parts[0]);
        assert(joined(rest, sep) == parts[1]);
    } else {
        lemma_joined_first(init, sep);
        assert(init.skip(1) =~= rest.drop_last());
        assert(rest.last() == parts.last());
        assert(init[0] == parts[0]);
        assert(joined(rest, sep) == joined(rest.drop_last(), sep) + sep + rest.last());
        assert(parts[0] + sep + joined(init.skip(1), sep) + sep + parts.last() =~= parts[0] + sep
            + (joined(init.skip(1), sep) + sep + parts.last()));
    }
}

/// Parts are joined in order, each whole, with the separator between each two
/// and nowhere else: what stands before a part and what stands behind it are
/// the parts before it and behind it, joined.
pub proof fn joining_keeps_each_part(parts: Seq<Seq<char>>, sep: Seq<char>, i: int)
    requires
        0 <= i < parts.len(),
    ensures
        joined(parts, sep) == (if i == 0 {
            Seq::empty()
        } else {
            joined(parts.take(i), sep) + sep
        }) + parts[i] + (if i == parts.len() - 1 {
            Seq::empty()
        } else {
            sep + joined(parts.skip(i + 1), sep)
        }),
        joined(seq![parts[i]], sep) == parts[i],
        joined(Seq::<Seq<char>>::empty(), sep) == Seq::<char>::empty(),
    decreases parts.len(),
{
    if i == 0 {
        if parts.len() > 1 {
            lemma_joined_first(parts, sep);
            assert(Seq::<char>::empty() + parts[0] + (sep + joined(parts.skip(1), sep)) =~= parts[0]
                + sep + joined(parts.skip(1), sep));
        } else {
            assert(Seq::<char>::empty() + parts[0] + Seq::<char>::empty() =~= parts[0]);
        }
    } else {
        let t = parts.skip(1);
        lemma_joined_first(parts, sep);
        joining_keeps_each_part(t, sep, i - 1);
        assert(t.skip(i) =~= parts.skip(i + 1));
        assert(t.take(i - 1) =~= parts.take(i).skip(1));
        let tail = if i == parts.len() - 1 {
            Seq::empty()
        } else {
            sep + joined(parts.skip(i + 1), sep)
        };
        assert(parts.take(i)[0] == parts[0]);
        if i == 1 {
            assert(parts.take(1) =~= seq![parts[0]]);
            assert(parts[0] + sep + (Seq::<char>::empty() + parts[1] + tail) =~= parts[0] + sep
                + parts[1] + tail);
        } else {
            lemma_joined_first(parts.take(i), sep);
            let mid = joined(t.take(i - 1), sep);
            assert(parts[0] + sep + (mid + sep + parts[i] + tail) =~= parts[0] + sep + mid + sep
                + parts[i] + tail);
        }
    }
}

/// The lines of a text, joined again, are the text, but for a line feed at its
/// end; no line holds a line feed.
pub proof fn lines_read_back(s: Seq<char>)
    requires
        !s.contains('\r'),
    ensures
        s == joined(lines_of(s), "\n"@) || s == joined(lines_of(s), "\n"@) + "\n"@,
        s.len() > 0 && s.last() != '\n' ==> s == joined(lines_of(s), "\n"@),
        s.len() > 0 && s.last() == '\n' ==> s == joined(lines_of(s), "\n"@) + "\n"@,
        forall|i: int| 0 <= i < lines_of(s).len() ==> !(#[trigger] lines_of(s)[i]).contains('\n'),
    decreases s.len(),
{
    reveal_strlit("\n");
    lemma_until_is(s, '\n');
    let k = until(s, '\n');
    if s.len() > 0 && k < s.len() {
        let head = s.take(k);
        let rest = s.skip(k + 1);
        assert(!rest.contains('\r')) by {
            if rest.contains('\r') {
                let j = choose|j: int| 0 <= j < rest.len() && rest[j] == '\r';
                assert(s[j + k + 1] == '\r');
            }
        }
        assert(without_cr(head) == head) by {
            if head.len() > 0 && head.last() == '\r' {
                assert(s[k - 1] == '\r');
            }
        }
        lines_read_back(rest);
        let ls = lines_of(s);
        assert(ls =~= seq![head] + lines_of(rest));
        assert(ls.skip(1) =~= lines_of(rest));
        assert forall|i: int| 0 <= i < ls.len() implies !(#[trigger] ls[i]).contains('\n') by {
            if i > 0 {
                assert(ls[i] == lines_of(rest)[i - 1]);
            }
        }
        assert(s =~= head + "\n"@ + rest);
        if rest.len() == 0 {
            assert(ls =~= seq![head]);
            assert(s =~= head + "\n"@);
        } else {
            lemma_lines_some(rest);
            lemma_joined_first(ls, "\n"@);
            assert(rest.last() == s.last());
            let j = joined(lines_of(rest), "\n"@);
            assert(head + "\n"@ + (j + "\n"@) =~= head + "\n"@ + j + "\n"@);
        }
    } else if s.len() > 0 {
        assert(lines_of(s) =~= seq![s]);
        assert forall|i: int| 0 <= i < lines_of(s).len() implies !(
        #[trigger] lines_of(s)[i]).contains('\n') by {
            assert(lines_of(s)[i] == s);
        }
    } else {
        assert(joined(lines_of(s), "\n"@) =~= s);
    }
}

proof fn lemma_lines_some(s: Seq<char>)
    requires
        s.len() > 0,
    ensures
        lines_of(s).len() > 0,
{
}

/// Trimming takes white space off both ends, all of it, and nothing else.
pub proof fn trimming_takes_white_space_only(s: Seq<char>)
    ensures
        exists|a: int, b: int|
            0 <= a <= b <= s.len() && trimmed(s) == #[trigger] s.subrange(a, b) && (forall|i: int|
                0 <= i < a || b <= i < s.len() ==> is_white(#[trigger] s[i])),
        trimmed(s).len() > 0 ==> !is_white(trimmed(s)[0]) && !is_white(trimmed(s).last()),
{
    let t = ltrimmed(s);
    lemma_ltrimmed(s);
    lemma_rtrimmed(t);
    let a = s.len() - t.len();
    let n = rtrimmed(t).len() as int;
    let b = a + n;
    assert(t.take(n) =~= s.subrange(a, b));
    assert forall|i: int| 0 <= i < a || b <= i < s.len() implies is_white(#[trigger] s[i]) by {
        if i >= b {
            assert(is_white(t[i - a]));
        }
    }
    assert(trimmed(s) == s.subrange(a, b));
    if trimmed(s).len() > 0 {
        assert(trimmed(s)[0] == t[0]);
    }
}

/// A chomped line is the line without the breaks at its end, and with all that
/// stands before them.
pub proof fn chomping_takes_line_breaks_only(s: Seq<char>)
    ensures
        chomped(s).is_prefix_of(s),
        forall|i: int|
            chomped(s).len() <= i < s.len() ==> (#[trigger] s[i] == '\r' || s[i] == '\n'),
        chomped(s).len() > 0 ==> chomped(s).last() != '\r' && chomped(s).last() != '\n',
    decreases s.len(),
{
    if s.len() > 0 && (s.last() == '\r' || s.last() == '\n') {
        let t = s.drop_last();
        chomping_takes_line_breaks_only(t);
        let c = chomped(s);
        assert(c =~= s.subrange(0, c.len() as int));
        assert forall|i: int| c.len() <= i < s.len() implies (#[trigger] s[i] == '\r' || s[i]
            == '\n') by {
            if i < t.len() {
                assert(s[i] == t[i]);
            }
        }
    } else {
        assert(s =~= s.subrange(0, s.len() as int));
    }
}

proof fn lemma_lead_is(keep: Seq<bool>)
    ensures
        0 <= lead(keep) <= keep.len(),
        forall|j: int| 0 <= j < lead(keep) ==> #[trigger] keep[j],
        lead(keep) < keep.len() ==> !keep[lead(keep)],
    decreases keep.len(),
{
    if keep.len() > 0 && keep[0] {
        let t = keep.skip(1);
        lemma_lead_is(t);
        assert forall|j: int| 0 <= j < lead(keep) implies #[trigger] keep[j] by {
            if j > 0 {
                assert(t[j - 1] == keep[j]);
            }
        }
        if lead(keep) < keep.len() {
            assert(t[lead(t)] == keep[lead(keep)]);
        }
    }
}

/// Whether `a..b` is a longest run of set marks.
pub open spec fn longest_run(keep: Seq<bool>, a: int, b: int) -> bool {
    &&& 0 <= a < b <= keep.len()
    &&& forall|j: int| a <= j < b ==> #[trigger] keep[j]
    &&& a > 0 ==> !keep[a - 1]
    &&& b < keep.len() ==> !keep[b]
}

/// Every longest run of characters whose marks are set comes out whole, and
/// nothing else does.
pub proof fn runs_are_the_longest(s: Seq<char>, keep: Seq<bool>)
    requires
        keep.len() == s.len(),
    ensures
        forall|a: int, b: int| #[trigger]
            longest_run(keep, a, b) ==> runs(s, keep).contains(s.subrange(a, b)),
        forall|i: int|
            0 <= i < runs(s, keep).len() ==> is_longest_run(#[trigger] runs(s, keep)[i], s, keep),
    decreases s.len(),
{
    let k = lead(keep);
    lemma_lead_is(keep);
    let all = runs(s, keep);
    if s.len() == 0 {
    } else if k <= 0 {
        let t = s.skip(1);
        let kt = keep.skip(1);
        runs_are_the_longest(t, kt);
        assert forall|a: int, b: int| #[trigger] longest_run(keep, a, b) implies all.contains(
            s.subrange(a, b),
        ) by {
            if a == 0 {
                assert(keep[0]);
            }
            assert forall|j: int| a - 1 <= j < b - 1 implies #[trigger] kt[j] by {
                assert(keep[j + 1]);
            }
            if a > 1 {
                assert(!kt[a - 2]);
            }
            assert(longest_run(kt, a - 1, b - 1));
            assert(t.subrange(a - 1, b - 1) =~= s.subrange(a, b));
        }
        assert forall|i: int| 0 <= i < all.len() implies is_longest_run(
            #[trigger] all[i],
            s,
            keep,
        ) by {
            assert(is_longest_run(all[i], t, kt));
            let (a, b) = choose|a: int, b: int| #[trigger]
                longest_run(kt, a, b) && all[i] == t.subrange(a, b);
            lemma_run_behind(keep, 1, a, b);
            assert(t.subrange(a, b) =~= s.subrange(a + 1, b + 1));
            assert(longest_run(keep, a + 1, b + 1));
        }
    } else if k >= s.len() {
        assert(longest_run(keep, 0, s.len() as int));
        assert(s.subrange(0, s.len() as int) =~= s);
        assert(all[0] == s);
        assert forall|a: int, b: int| #[trigger] longest_run(keep, a, b) implies all.contains(
            s.subrange(a, b),
        ) by {
            if a > 0 {
                assert(keep[a - 1]);
            }
            if b < keep.len() {
                assert(keep[b]);
            }
        }
    } else {
        let t = s.skip(k);
        let kt = keep.skip(k);
        let rest = runs(t, kt);
        runs_are_the_longest(t, kt);
        assert(longest_run(keep, 0, k));
        assert(s.subrange(0, k) =~= s.take(k));
        assert(all[0] == s.take(k));
        assert forall|a: int, b: int| #[trigger] longest_run(keep, a, b) implies all.contains(
            s.subrange(a, b),
        ) by {
            if a < k {
                if a > 0 {
                    assert(keep[a - 1]);
                }
                if b < k {
                    assert(keep[b]);
                }
                if b > k {
                    assert(keep[k]);
                }
                assert(a == 0 && b == k);
            } else {
                if a == k {
                    assert(keep[a]);
                }
                assert forall|j: int| a - k <= j < b - k implies #[trigger] kt[j] by {
                    assert(keep[j + k]);
                }
                if a > k {
                    assert(!kt[a - k - 1]);
                }
                assert(longest_run(kt, a - k, b - k));
                assert(t.subrange(a - k, b - k) =~= s.subrange(a, b));
                let i = rest.index_of(s.subrange(a, b));
                assert(all[i + 1] == rest[i]);
            }
        }
        assert forall|i: int| 0 <= i < all.len() implies is_longest_run(
            #[trigger] all[i],
            s,
            keep,
        ) by {
            if i > 0 {
                assert(all[i] == rest[i - 1]);
                assert(is_longest_run(rest[i - 1], t, kt));
                let (a, b) = choose|a: int, b: int| #[trigger]
                    longest_run(kt, a, b) && all[i] == t.subrange(a, b);
                if a == 0 {
                    assert(kt[0] == keep[k]);
                }
                lemma_run_behind(keep, k, a, b);
                assert(t.subrange(a, b) =~= s.subrange(a + k, b + k));
                assert(longest_run(keep, a + k, b + k));
            }
        }
    }
}

/// Whether a text is the text of a longest run of set marks.
pub open spec fn is_longest_run(t: Seq<char>, s: Seq<char>, keep: Seq<bool>) -> bool {
    exists|a: int, b: int| #[trigger] longest_run(keep, a, b) && t == s.subrange(a, b)
}

proof fn lemma_run_behind(keep: Seq<bool>, k: int, a: int, b: int)
    requires
        0 < k <= keep.len(),
        longest_run(keep.skip(k), a, b),
        a == 0 ==> !keep[k - 1],
    ensures
        longest_run(keep, a + k, b + k),
{
    let kt = keep.skip(k);
    assert forall|j: int| a + k <= j < b + k implies #[trigger] keep[j] by {
        assert(kt[j - k]);
    }
    if a > 0 {
        assert(!kt[a - 1]);
    }
    if b + k < keep.len() {
        assert(!kt[b]);
    }
}

/// The pieces of a text, joined by what they were split at, are the text, and
/// no piece holds it.
pub proof fn pieces_read_back(s: Seq<char>, p: Seq<char>)
    requires
        p.len() > 0,
    ensures
        pieces(s, p).len() > 0,
        joined(pieces(s, p), p) == s,
        forall|i: int| 0 <= i < pieces(s, p).len() ==> first_at(#[trigger] pieces(s, p)[i], p) < 0,
    decreases s.len(),
{
    let k = first_at(s, p);
    lemma_first_at_is(s, p);
    if k < 0 {
        assert(pieces(s, p) =~= seq![s]);
    } else {
        let head = s.take(k);
        let rest = s.skip(k + p.len());
        let tail = pieces(rest, p);
        pieces_read_back(rest, p);
        let all = pieces(s, p);
        assert(all == seq![head] + tail);
        assert(all.skip(1) =~= tail);
        lemma_joined_first(all, p);
        assert(s.skip(k).subrange(0, p.len() as int) == p);
        assert(head + p + rest =~= s);
        lemma_first_at_is(head, p);
        if first_at(head, p) >= 0 {
            let j = first_at(head, p);
            assert(head.skip(j).subrange(0, p.len() as int) == p);
            assert(s.skip(j).subrange(0, p.len() as int) =~= head.skip(j).subrange(
                0,
                p.len() as int,
            ));
            assert(p.is_prefix_of(s.skip(j)));
        }
        assert forall|i: int| 0 <= i < all.len() implies first_at(#[trigger] all[i], p) < 0 by {
            if i > 0 {
                assert(all[i] == tail[i - 1]);
            }
        }
    }
}

/// Lower case changes the ASCII capitals, each to its small letter, and nothing
/// else; what is in lower case stays.
pub proof fn lower_case_changes_capitals_only(s: Seq<char>, i: int)
    requires
        0 <= i < s.len(),
    ensures
        lowered(s).len() == s.len(),
        'A' <= s[i] <= 'Z' ==> lowered(s)[i] as u32 == s[i] as u32 + 32,
        !('A' <= s[i] <= 'Z') ==> lowered(s)[i] == s[i],
        lowered(lowered(s)) == lowered(s),
{
    assert forall|k: int| 0 <= k < s.len() implies lowered(lowered(s))[k] == lowered(s)[k] by {
        let c = s[k];
        if 'A' <= c <= 'Z' {
            assert(ascii_lower(c) as u32 == c as u32 + 32);
        }
    }
    assert(lowered(lowered(s)) =~= lowered(s));
}

/// A line ends before a line feed, with or without a carriage return in front
/// of it, and what follows is read as the lines that it is.
pub proof fn lines_end_at_line_feeds(a: Seq<char>, rest: Seq<char>)
    requires
        !a.contains('\n'),
        a.len() > 0 ==> a.last() != '\r',
    ensures
        lines_of(a + seq!['\n'] + rest) == seq![a] + lines_of(rest),
        lines_of(a + seq!['\r', '\n'] + rest) == seq![a] + lines_of(rest),
        lines_of(Seq::empty()).len() == 0,
{
    let s = a + seq!['\n'] + rest;
    let t = a + seq!['\r', '\n'] + rest;
    let k = a.len() as int;
    assert forall|j: int| 0 <= j < k implies s[j] != '\n' && t[j] != '\n' by {
        assert(s[j] == a[j] && t[j] == a[j]);
        assert(a.contains(a[j]));
    }
    lemma_until(s, '\n', k);
    lemma_until(t, '\n', k + 1);
    assert(s.take(k) =~= a);
    assert(s.skip(k + 1) =~= rest);
    assert(t.take(k + 1) =~= a.push('\r'));
    assert(a.push('\r').drop_last() =~= a);
    assert(t.skip(k + 2) =~= rest);
    assert(without_cr(a.push('\r')) == a);
    assert(without_cr(a) == a);
}

} // verus!
