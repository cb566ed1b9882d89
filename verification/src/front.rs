//! The YAML front matter of a `SKILL.md`: the two fields a skill is known by,
//! in the plain, quoted and block forms they are written in.

use vstd::prelude::*;
use crate::bytes::{byte_len, byte_prefix, fit, within};
use crate::order::lesser;
use crate::text::{
    chars_of, find_from, is_white, join, joined, lemma_until, lemma_until_is, lines, lines_of,
    ltrimmed, opt_text, pieces, rtrimmed, runs, same_chars, split_runs, split_text, starts_with,
    string_of, texts, trim, trim_end, trim_start, trimmed, until, white,
};

verus! {

/// How much of a description is shown, in bytes.
pub const DESC_CAP: usize = 200;

/// Which characters are not white space.
pub open spec fn word_marks(s: Seq<char>) -> Seq<bool> {
    Seq::new(s.len(), |i: int| !is_white(s[i]))
}

/// The words of a text on one line.
pub open spec fn one_line(s: Seq<char>) -> Seq<char> {
    joined(runs(s, word_marks(s)), " "@)
}

/// The words of a text on one line.
pub fn collapse_one_line(text: &str) -> (r: String)
    ensures
        r@ == one_line(text@),
{
    let cs = chars_of(text);
    let mut marks: Vec<bool> = Vec::new();
    let mut i: usize = 0;
    while i < cs.len()
        invariant
            i <= cs@.len(),
            cs@ == text@,
            marks@ == word_marks(text@).take(i as int),
        decreases cs@.len() - i,
    {
        marks.push(!white(cs[i]));
        proof {
            assert(marks@ =~= word_marks(text@).take(i + 1));
        }
        i += 1;
    }
    proof {
        assert(marks@ =~= word_marks(text@));
    }
    join(&split_runs(&cs, &marks), " ")
}

/// A description on one line, cut with a sign where it is too long.
pub open spec fn capped(s: Seq<char>) -> Seq<char> {
    let one = one_line(s);
    if byte_len(one) <= DESC_CAP {
        one
    } else {
        byte_prefix(one, DESC_CAP as int) + "…"@
    }
}

/// A description on one line, cut with a sign where it is too long.
pub fn cap_description(text: &str) -> (r: String)
    ensures
        r@ == capped(text@),
{
    let one = collapse_one_line(text);
    let cs = chars_of(one.as_str());
    if within(&cs, DESC_CAP) {
        return one;
    }
    let k = fit(&cs, DESC_CAP);
    proof {
        assert(cs@.subrange(0, k as int) =~= cs@.take(k as int));
    }
    let mut out = string_of(vstd::slice::slice_subrange(&cs, 0, k));
    out.append("…");
    out
}

/// `s` without a byte order mark at its start.
pub open spec fn without_bom(s: Seq<char>) -> Seq<char> {
    if s.len() > 0 && s[0] == '\u{feff}' {
        s.skip(1)
    } else {
        s
    }
}

/// `s` without the line breaks at its start.
pub open spec fn after_breaks(s: Seq<char>) -> Seq<char>
    decreases s.len(),
{
    if s.len() > 0 && (s[0] == '\r' || s[0] == '\n') {
        after_breaks(s.skip(1))
    } else {
        s
    }
}

/// Whether a line closes the front matter.
pub open spec fn closing_fence(line: Seq<char>) -> bool {
    rtrimmed(line) == "---"@
}

/// The first line that closes the front matter; the number of lines when none does.
pub open spec fn fence_at(ls: Seq<Seq<char>>) -> int
    decreases ls.len(),
{
    if ls.len() == 0 || closing_fence(ls[0]) {
        0
    } else {
        1 + fence_at(ls.skip(1))
    }
}

/// The first `n` lines as one text; blank ones at its start are left out.
pub open spec fn front_text(ls: Seq<Seq<char>>, n: int) -> Seq<char>
    decreases n,
{
    if n <= 0 {
        Seq::empty()
    } else {
        let before = front_text(ls, n - 1);
        if before.len() > 0 {
            before + "\n"@ + ls[n - 1]
        } else {
            ls[n - 1]
        }
    }
}

/// The text between the fences: an error where there is no opening fence,
/// `None` where there is no closing one.
pub open spec fn front_of(text: Seq<char>) -> Result<Option<Seq<char>>, Seq<char>> {
    let t = ltrimmed(without_bom(text));
    let ls = lines_of(after_breaks(t.skip(3)));
    if !"---"@.is_prefix_of(t) {
        Err("missing YAML front matter"@)
    } else if fence_at(ls) >= ls.len() {
        Ok(None)
    } else {
        Ok(Some(front_text(ls, fence_at(ls))))
    }
}

proof fn lemma_fence_at(ls: Seq<Seq<char>>, k: int)
    requires
        0 <= k <= ls.len(),
        forall|j: int| 0 <= j < k ==> !closing_fence(#[trigger] ls[j]),
        k < ls.len() ==> closing_fence(ls[k]),
    ensures
        fence_at(ls) == k,
    decreases k,
{
    if k > 0 {
        let t = ls.skip(1);
        assert forall|j: int| 0 <= j < k - 1 implies !closing_fence(#[trigger] t[j]) by {
            assert(t[j] == ls[j + 1]);
        }
        lemma_fence_at(t, k - 1);
    }
}

fn is_closing_fence(line: &str) -> (r: bool)
    ensures
        r == closing_fence(line@),
{
    let cs = chars_of(line);
    same_chars(trim_end(&cs), &chars_of("---"))
}

/// The text between the fences.
pub fn extract_front_matter(text: &str) -> (r: Result<Option<String>, String>)
    ensures
        match r {
            Ok(o) => front_of(text@) == Ok::<_, Seq<char>>(opt_text(o)),
            Err(e) => front_of(text@) == Err::<Option<Seq<char>>, _>(e@),
        },
{
    let cs = chars_of(text);
    let from: usize = if cs.len() > 0 && cs[0] == '\u{feff}' {
        1
    } else {
        0
    };
    let body = vstd::slice::slice_subrange(&cs, from, cs.len());
    proof {
        assert(body@ =~= without_bom(text@));
        reveal_strlit("---");
    }
    let t = trim_start(body);
    if !starts_with(t, "---") {
        return Err("missing YAML front matter".to_owned());
    }
    let mut i: usize = 3;
    let ghost rest = t@.skip(3);
    while i < t.len() && (t[i] == '\r' || t[i] == '\n')
        invariant
            3 <= i <= t@.len(),
            after_breaks(t@.skip(i as int)) == after_breaks(rest),
        decreases t@.len() - i,
    {
        proof {
            assert(t@.skip(i as int).skip(1) =~= t@.skip(i + 1));
        }
        i += 1;
    }
    let tail = vstd::slice::slice_subrange(t, i, t.len());
    proof {
        assert(tail@ =~= t@.skip(i as int));
    }
    let ls = lines(string_of(tail).as_str());
    let ghost lv = texts(ls@);
    let mut front = String::new();
    let mut k: usize = 0;
    proof {
        assert(front@ =~= front_text(lv, 0));
        assert(lv == lines_of(after_breaks(rest)));
    }
    while k < ls.len()
        invariant
            k <= ls@.len(),
            lv == texts(ls@),
            "---"@.is_prefix_of(t@),
            t@ == ltrimmed(without_bom(text@)),
            lv == lines_of(after_breaks(t@.skip(3))),
            forall|j: int| 0 <= j < k ==> !closing_fence(#[trigger] lv[j]),
            front@ == front_text(lv, k as int),
        decreases ls@.len() - k,
    {
        proof {
            assert(lv[k as int] == ls@[k as int]@);
        }
        if is_closing_fence(ls[k].as_str()) {
            proof {
                lemma_fence_at(lv, k as int);
            }
            return Ok(Some(front));
        }
        if chars_of(front.as_str()).len() > 0 {
            front.append("\n");
            front.append(ls[k].as_str());
        } else {
            front = ls[k].clone();
        }
        k += 1;
    }
    proof {
        lemma_fence_at(lv, k as int);
    }
    Ok(None)
}

/// How the line breaks at the end of a block are treated.
#[derive(Clone, Copy, Debug, PartialEq, Eq, Structural)]
pub enum Chomp {
    Clip,
    Strip,
    Keep,
}

/// The form of a block.
#[derive(Clone, Copy, Debug, PartialEq, Eq, Structural)]
pub struct BlockStyle {
    pub folded: bool,
    pub chomp: Chomp,
}

/// How many digits `s` starts with.
pub open spec fn digits(s: Seq<char>) -> int
    decreases s.len(),
{
    if s.len() == 0 || !('0' <= s[0] <= '9') {
        0
    } else {
        1 + digits(s.skip(1))
    }
}

/// The form that a block indicator such as `>-` or `|2+` asks for.
pub open spec fn style_of(v: Seq<char>) -> BlockStyle {
    let rest = v.skip(1);
    let k = digits(rest);
    BlockStyle {
        folded: v[0] == '>',
        chomp: if k < rest.len() && rest[k] == '-' {
            Chomp::Strip
        } else if k < rest.len() && rest[k] == '+' {
            Chomp::Keep
        } else {
            Chomp::Clip
        },
    }
}

proof fn lemma_digits(s: Seq<char>, k: int)
    requires
        0 <= k <= s.len(),
        forall|j: int| 0 <= j < k ==> '0' <= #[trigger] s[j] <= '9',
        k < s.len() ==> !('0' <= s[k] <= '9'),
    ensures
        digits(s) == k,
    decreases k,
{
    if k > 0 {
        let t = s.skip(1);
        assert forall|j: int| 0 <= j < k - 1 implies '0' <= #[trigger] t[j] <= '9' by {
            assert(t[j] == s[j + 1]);
        }
        lemma_digits(t, k - 1);
    }
}

fn parse_block_indicator(v: &[char]) -> (r: BlockStyle)
    requires
        v@.len() > 0,
    ensures
        r == style_of(v@),
{
    let mut k: usize = 1;
    while k < v.len() && '0' <= v[k] && v[k] <= '9'
        invariant
            1 <= k <= v@.len(),
            forall|j: int| 1 <= j < k ==> '0' <= #[trigger] v@[j] <= '9',
        decreases v@.len() - k,
    {
        k += 1;
    }
    proof {
        let rest = v@.skip(1);
        assert forall|j: int| 0 <= j < k - 1 implies '0' <= #[trigger] rest[j] <= '9' by {
            assert(rest[j] == v@[j + 1]);
        }
        lemma_digits(rest, k - 1);
    }
    let chomp = if k < v.len() && v[k] == '-' {
        Chomp::Strip
    } else if k < v.len() && v[k] == '+' {
        Chomp::Keep
    } else {
        Chomp::Clip
    };
    BlockStyle { folded: v[0] == '>', chomp }
}

/// How many spaces a line starts with.
pub open spec fn indent_of(line: Seq<char>) -> int
    decreases line.len(),
{
    if line.len() == 0 || line[0] != ' ' {
        0
    } else {
        1 + indent_of(line.skip(1))
    }
}

/// Whether a line holds nothing but white space.
pub open spec fn blank(line: Seq<char>) -> bool {
    trimmed(line).len() == 0
}

/// The smallest indent of the first `n` lines that are not blank; `None`
/// where all are.
pub open spec fn least_indent(ls: Seq<Seq<char>>, n: int) -> Option<int>
    decreases n,
{
    if n <= 0 {
        None
    } else if blank(ls[n - 1]) {
        least_indent(ls, n - 1)
    } else {
        match least_indent(ls, n - 1) {
            None => Some(indent_of(ls[n - 1])),
            Some(m) => Some(lesser(m, indent_of(ls[n - 1]))),
        }
    }
}

/// The lines of a block without the indent that they share; blank ones empty.
pub open spec fn dedented(ls: Seq<Seq<char>>) -> Seq<Seq<char>> {
    let m = match least_indent(ls, ls.len() as int) {
        Some(m) => m,
        None => 0,
    };
    Seq::new(
        ls.len(),
        |i: int|
            if blank(ls[i]) {
                Seq::empty()
            } else {
                ls[i].skip(m)
            },
    )
}

proof fn lemma_indent(line: Seq<char>, k: int)
    requires
        0 <= k <= line.len(),
        forall|j: int| 0 <= j < k ==> #[trigger] line[j] == ' ',
        k < line.len() ==> line[k] != ' ',
    ensures
        indent_of(line) == k,
    decreases k,
{
    if k > 0 {
        let t = line.skip(1);
        assert forall|j: int| 0 <= j < k - 1 implies #[trigger] t[j] == ' ' by {
            assert(t[j] == line[j + 1]);
        }
        lemma_indent(t, k - 1);
    }
}

/// The shared indent is no larger than that of any line that is not blank.
proof fn lemma_least_indent(ls: Seq<Seq<char>>, n: int, i: int)
    requires
        0 <= i < n <= ls.len(),
        !blank(ls[i]),
    ensures
        least_indent(ls, n) matches Some(m) && m <= indent_of(ls[i]),
    decreases n,
{
    if i < n - 1 {
        lemma_least_indent(ls, n - 1, i);
    }
}

fn ascii_space_indent(line: &[char]) -> (r: usize)
    ensures
        r == indent_of(line@),
        r <= line@.len(),
{
    let mut k: usize = 0;
    while k < line.len() && line[k] == ' '
        invariant
            k <= line@.len(),
            forall|j: int| 0 <= j < k ==> #[trigger] line@[j] == ' ',
        decreases line@.len() - k,
    {
        k += 1;
    }
    proof {
        lemma_indent(line@, k as int);
    }
    k
}

fn dedent_block_lines(ls: &[String]) -> (r: Vec<String>)
    ensures
        texts(r@) == dedented(texts(ls@)),
{
    let ghost t = texts(ls@);
    let mut least: Option<usize> = None;
    let mut i: usize = 0;
    while i < ls.len()
        invariant
            i <= ls@.len(),
            t == texts(ls@),
            match least {
                Some(m) => least_indent(t, i as int) == Some(m as int),
                None => least_indent(t, i as int) is None,
            },
        decreases ls@.len() - i,
    {
        let cs = chars_of(ls[i].as_str());
        proof {
            assert(t[i as int] == cs@);
        }
        if trim(&cs).len() > 0 {
            let k = ascii_space_indent(&cs);
            least = match least {
                None => Some(k),
                Some(m) => if m <= k {
                    Some(m)
                } else {
                    Some(k)
                },
            };
        }
        i += 1;
    }
    let m: usize = match least {
        Some(m) => m,
        None => 0,
    };
    let ghost all = dedented(t);
    let mut out: Vec<String> = Vec::new();
    let mut k: usize = 0;
    while k < ls.len()
        invariant
            k <= ls@.len(),
            t == texts(ls@),
            all == dedented(t),
            match least_indent(t, t.len() as int) {
                Some(x) => m == x,
                None => m == 0,
            },
            texts(out@) == all.take(k as int),
        decreases ls@.len() - k,
    {
        let ghost before = out@;
        let cs = chars_of(ls[k].as_str());
        proof {
            assert(t[k as int] == cs@);
        }
        let line = if trim(&cs).len() == 0 {
            String::new()
        } else {
            proof {
                lemma_least_indent(t, t.len() as int, k as int);
            }
            let own = ascii_space_indent(&cs);
            proof {
                assert(m <= own);
                assert(cs@.subrange(m as int, cs@.len() as int) =~= cs@.skip(m as int));
            }
            string_of(vstd::slice::slice_subrange(&cs, m, cs.len()))
        };
        out.push(line);
        proof {
            assert(line@ =~= all[k as int]);
            assert(texts(out@) =~= texts(before).push(line@));
            assert(texts(out@) =~= all.take(k + 1));
        }
        k += 1;
    }
    proof {
        assert(all.take(k as int) =~= all);
    }
    out
}

/// `ls` without the empty lines at its start.
pub open spec fn drop_empty_heads(ls: Seq<Seq<char>>) -> Seq<Seq<char>>
    decreases ls.len(),
{
    if ls.len() > 0 && ls[0].len() == 0 {
        drop_empty_heads(ls.skip(1))
    } else {
        ls
    }
}

/// `ls` without the empty lines at its end.
pub open spec fn drop_empty_tails(ls: Seq<Seq<char>>) -> Seq<Seq<char>>
    decreases ls.len(),
{
    if ls.len() > 0 && ls.last().len() == 0 {
        drop_empty_tails(ls.drop_last())
    } else {
        ls
    }
}

/// The text of a literal block.
pub open spec fn literal_text(raw: Seq<Seq<char>>, chomp: Chomp) -> Seq<char> {
    let ls = dedented(raw);
    let all = joined(ls, "\n"@);
    match chomp {
        Chomp::Strip => joined(drop_empty_tails(drop_empty_heads(ls)), "\n"@),
        Chomp::Keep => all,
        Chomp::Clip => if all.len() > 0 && all.last() == '\n' {
            all.drop_last()
        } else {
            all
        },
    }
}

/// The first `n` lines folded: words of neighbouring lines with a space
/// between them, one line break for any number of empty lines.
pub open spec fn folded_lines(ls: Seq<Seq<char>>, n: int) -> Seq<char>
    decreases n,
{
    if n <= 0 {
        Seq::empty()
    } else {
        let before = folded_lines(ls, n - 1);
        let part = trimmed(ls[n - 1]);
        let fresh = before.len() == 0 || before.last() == '\n';
        if part.len() == 0 {
            if fresh {
                before
            } else {
                before.push('\n')
            }
        } else if fresh {
            before + part
        } else {
            before.push(' ') + part
        }
    }
}

/// `s` without the line feeds at its end.
pub open spec fn without_breaks(s: Seq<char>) -> Seq<char>
    decreases s.len(),
{
    if s.len() > 0 && s.last() == '\n' {
        without_breaks(s.drop_last())
    } else {
        s
    }
}

/// The text of a folded block.
pub open spec fn folded_text(raw: Seq<Seq<char>>, chomp: Chomp) -> Seq<char> {
    let all = folded_lines(dedented(raw), raw.len() as int);
    match chomp {
        Chomp::Strip => rtrimmed(all),
        Chomp::Keep => all,
        Chomp::Clip => without_breaks(all),
    }
}

fn apply_chomp_literal(raw: &[String], chomp: Chomp) -> (r: String)
    ensures
        r@ == literal_text(texts(raw@), chomp),
{
    let ls = dedent_block_lines(raw);
    let ghost t = texts(ls@);
    match chomp {
        Chomp::Keep => join(&ls, "\n"),
        Chomp::Clip => {
            let all = chars_of(join(&ls, "\n").as_str());
            let n = all.len();
            if n > 0 && all[n - 1] == '\n' {
                proof {
                    assert(all@.subrange(0, n - 1) =~= all@.drop_last());
                }
                string_of(vstd::slice::slice_subrange(&all, 0, n - 1))
            } else {
                string_of(&all)
            }
        },
        Chomp::Strip => {
            let mut a: usize = 0;
            proof {
                assert(t.skip(0) =~= t);
            }
            while a < ls.len() && chars_of(ls[a].as_str()).len() == 0
                invariant
                    a <= ls@.len(),
                    t == texts(ls@),
                    drop_empty_heads(t.skip(a as int)) == drop_empty_heads(t),
                decreases ls@.len() - a,
            {
                proof {
                    assert(t.skip(a as int)[0] == ls@[a as int]@);
                    assert(t.skip(a as int).skip(1) =~= t.skip(a + 1));
                }
                a += 1;
            }
            let mut b: usize = ls.len();
            proof {
                if a < ls@.len() {
                    assert(t.skip(a as int)[0] == ls@[a as int]@);
                }
                assert(t.subrange(a as int, b as int) =~= t.skip(a as int));
            }
            while b > a && chars_of(ls[b - 1].as_str()).len() == 0
                invariant
                    a <= b <= ls@.len(),
                    t == texts(ls@),
                    drop_empty_tails(t.subrange(a as int, b as int)) == drop_empty_tails(
                        drop_empty_heads(t),
                    ),
                decreases b,
            {
                proof {
                    assert(t.subrange(a as int, b as int).last() == ls@[b - 1]@);
                    assert(t.subrange(a as int, b as int).drop_last() =~= t.subrange(
                        a as int,
                        b - 1,
                    ));
                }
                b -= 1;
            }
            proof {
                if b > a {
                    assert(t.subrange(a as int, b as int).last() == ls@[b - 1]@);
                }
            }
            crate::text::join_range(&ls, a, b, "\n")
        },
    }
}

fn apply_chomp_folded(raw: &[String], chomp: Chomp) -> (r: String)
    ensures
        r@ == folded_text(texts(raw@), chomp),
{
    let ls = dedent_block_lines(raw);
    let ghost t = texts(ls@);
    let mut all: Vec<char> = Vec::new();
    let mut i: usize = 0;
    proof {
        assert(all@ =~= folded_lines(t, 0));
    }
    while i < ls.len()
        invariant
            i <= ls@.len(),
            t == texts(ls@),
            all@ == folded_lines(t, i as int),
        decreases ls@.len() - i,
    {
        let cs = chars_of(ls[i].as_str());
        let part = trim(&cs);
        let fresh = all.len() == 0 || all[all.len() - 1] == '\n';
        proof {
            assert(t[i as int] == cs@);
        }
        if part.len() == 0 {
            if !fresh {
                all.push('\n');
            }
        } else {
            if !fresh {
                all.push(' ');
            }
            let ghost start = all@;
            let mut k: usize = 0;
            while k < part.len()
                invariant
                    k <= part@.len(),
                    all@ == start + part@.take(k as int),
                decreases part@.len() - k,
            {
                all.push(part[k]);
                proof {
                    assert(all@ =~= start + part@.take(k + 1));
                }
                k += 1;
            }
            proof {
                assert(part@.take(k as int) =~= part@);
            }
        }
        i += 1;
    }
    proof {
        assert(t.len() == raw@.len());
    }
    match chomp {
        Chomp::Strip => string_of(trim_end(&all)),
        Chomp::Keep => string_of(&all),
        Chomp::Clip => {
            let mut n: usize = all.len();
            proof {
                assert(all@.take(n as int) =~= all@);
            }
            while n > 0 && all[n - 1] == '\n'
                invariant
                    n <= all@.len(),
                    without_breaks(all@.take(n as int)) == without_breaks(all@),
                decreases n,
            {
                proof {
                    assert(all@.take(n as int).drop_last() =~= all@.take(n - 1));
                }
                n -= 1;
            }
            proof {
                assert(all@.take(n as int) =~= all@.subrange(0, n as int));
            }
            string_of(vstd::slice::slice_subrange(&all, 0, n))
        },
    }
}

/// What stands between two `q`; the whole text where it is not between them.
pub open spec fn between(s: Seq<char>, q: char) -> Seq<char> {
    if s.len() >= 2 && s[0] == q && s.last() == q {
        s.subrange(1, s.len() - 1)
    } else {
        s
    }
}

fn strip_pair(s: &[char], q: char) -> (r: &[char])
    ensures
        r@ == between(s@, q),
{
    if s.len() >= 2 && s[0] == q && s[s.len() - 1] == q {
        vstd::slice::slice_subrange(s, 1, s.len() - 1)
    } else {
        s
    }
}

/// What a backslash and `c` stand for.
pub open spec fn escape_of(c: char) -> Seq<char> {
    if c == '"' || c == '\\' {
        seq![c]
    } else if c == 'n' {
        seq!['\n']
    } else if c == 't' {
        seq!['\t']
    } else if c == 'r' {
        seq!['\r']
    } else {
        seq!['\\', c]
    }
}

/// `s` with its escapes replaced by what they stand for.
pub open spec fn unescaped(s: Seq<char>) -> Seq<char>
    decreases s.len(),
{
    if s.len() == 0 {
        s
    } else if s[0] != '\\' || s.len() == 1 {
        seq![s[0]] + unescaped(s.skip(1))
    } else {
        escape_of(s[1]) + unescaped(s.skip(2))
    }
}

fn parse_double_quoted(value: &[char]) -> (r: String)
    ensures
        r@ == unescaped(between(value@, '"')),
{
    let s = strip_pair(value, '"');
    let mut out = String::new();
    let mut i: usize = 0;
    proof {
        assert(s@.skip(0) =~= s@);
        assert(out@ + unescaped(s@) =~= unescaped(s@));
    }
    while i < s.len()
        invariant
            i <= s@.len(),
            out@ + unescaped(s@.skip(i as int)) == unescaped(s@),
        decreases s@.len() - i,
    {
        let ghost before = out@;
        let ghost rest = s@.skip(i as int);
        let c = s[i];
        if c != '\\' || i + 1 == s.len() {
            out.push(c);
            proof {
                assert(rest.skip(1) =~= s@.skip(i + 1));
                assert(out@ + unescaped(s@.skip(i + 1)) =~= before + unescaped(rest));
            }
            i += 1;
        } else {
            let d = s[i + 1];
            if d == '"' || d == '\\' {
                out.push(d);
            } else if d == 'n' {
                out.push('\n');
            } else if d == 't' {
                out.push('\t');
            } else if d == 'r' {
                out.push('\r');
            } else {
                out.push('\\');
                out.push(d);
            }
            proof {
                assert(rest.skip(2) =~= s@.skip(i + 2));
                assert(out@ =~= before + escape_of(d));
                assert(out@ + unescaped(s@.skip(i + 2)) =~= before + unescaped(rest));
            }
            i += 2;
        }
    }
    proof {
        assert(out@ + unescaped(s@.skip(i as int)) =~= out@);
    }
    out
}

fn parse_single_quoted(value: &[char]) -> (r: String)
    ensures
        r@ == joined(pieces(between(value@, '\''), "''"@), "'"@),
{
    proof {
        reveal_strlit("''");
    }
    let inner = string_of(strip_pair(value, '\''));
    join(&split_text(inner.as_str(), "''"), "'")
}

/// Whether a line belongs to a block: it is empty or indented.
pub open spec fn block_line(line: Seq<char>) -> bool {
    line.len() == 0 || line[0] == ' ' || line[0] == '\t'
}

/// Where the block that starts at line `j` ends.
pub open spec fn block_end(ls: Seq<Seq<char>>, j: int) -> int
    decreases ls.len() - j,
{
    if 0 <= j < ls.len() && block_line(ls[j]) {
        block_end(ls, j + 1)
    } else {
        j
    }
}

/// A block does not end before it starts.
proof fn lemma_block_end(ls: Seq<Seq<char>>, j: int)
    ensures
        block_end(ls, j) >= j,
        0 <= j <= ls.len() ==> block_end(ls, j) <= ls.len(),
    decreases ls.len() - j,
{
    if 0 <= j < ls.len() && block_line(ls[j]) {
        lemma_block_end(ls, j + 1);
    }
}

/// The value of a field and the last line it takes: `value` is what stands
/// behind the colon on line `i`.
pub open spec fn scalar_of(value: Seq<char>, ls: Seq<Seq<char>>, i: int) -> (Seq<char>, int) {
    if value.len() > 0 && (value[0] == '>' || value[0] == '|') {
        let e = block_end(ls, i + 1);
        let raw = ls.subrange(i + 1, e);
        let style = style_of(value);
        (
            if style.folded {
                folded_text(raw, style.chomp)
            } else {
                literal_text(raw, style.chomp)
            },
            e - 1,
        )
    } else if value.len() > 0 && value[0] == '"' {
        (unescaped(between(value, '"')), i)
    } else if value.len() > 0 && value[0] == '\'' {
        (joined(pieces(between(value, '\''), "''"@), "'"@), i)
    } else {
        (value, i)
    }
}

fn parse_scalar(value: &[char], ls: &[String], i: usize) -> (r: (String, usize))
    requires
        i < ls@.len(),
    ensures
        (r.0@, r.1 as int) == scalar_of(value@, texts(ls@), i as int),
        i <= r.1 < ls@.len(),
{
    let ghost t = texts(ls@);
    let count: usize = ls.len();
    if value.len() > 0 && (value[0] == '>' || value[0] == '|') {
        let style = parse_block_indicator(value);
        let mut raw: Vec<String> = Vec::new();
        let mut j: usize = i + 1;
        let mut inside = true;
        proof {
            assert(texts(raw@) =~= t.subrange(i + 1, j as int));
        }
        while j < count && inside
            invariant
                i < j <= ls@.len(),
                count == ls@.len(),
                t == texts(ls@),
                texts(raw@) == t.subrange(i + 1, j as int),
                block_end(t, i + 1) == block_end(t, j as int),
                !inside ==> j < ls@.len() && !block_line(t[j as int]),
            decreases
                    ls@.len() - j,
                    if inside {
                        1int
                    } else {
                        0int
                    },
        {
            let cs = chars_of(ls[j].as_str());
            proof {
                assert(t[j as int] == cs@);
            }
            if cs.len() == 0 || cs[0] == ' ' || cs[0] == '\t' {
                let ghost before = raw@;
                raw.push(ls[j].clone());
                proof {
                    assert(texts(raw@) =~= texts(before).push(cs@));
                    assert(texts(raw@) =~= t.subrange(i + 1, j + 1));
                }
                j += 1;
            } else {
                inside = false;
            }
        }
        proof {
            assert(block_end(t, j as int) == j);
        }
        let text = if style.folded {
            apply_chomp_folded(&raw, style.chomp)
        } else {
            apply_chomp_literal(&raw, style.chomp)
        };
        (text, j - 1)
    } else if value.len() > 0 && value[0] == '"' {
        (parse_double_quoted(value), i)
    } else if value.len() > 0 && value[0] == '\'' {
        (parse_single_quoted(value), i)
    } else {
        (string_of(value), i)
    }
}

/// The key and the value of a line `key: value`; `None` for blank lines,
/// comments and lines without a colon.
pub open spec fn field_of(line: Seq<char>) -> Option<(Seq<char>, Seq<char>)> {
    let t = trimmed(line);
    let k = until(t, ':');
    if t.len() == 0 || t[0] == '#' || k >= t.len() {
        None
    } else {
        Some((trimmed(t.take(k)), trimmed(t.skip(k + 1))))
    }
}

/// The name and the description that the lines from `i` on give, where
/// `name` and `description` are what was found before; later ones win.
pub open spec fn fields_from(
    ls: Seq<Seq<char>>,
    i: int,
    name: Option<Seq<char>>,
    description: Option<Seq<char>>,
) -> (Option<Seq<char>>, Option<Seq<char>>)
    decreases ls.len() - i,
    via fields_from_shrinks
{
    if i < 0 || i >= ls.len() {
        (name, description)
    } else {
        match field_of(ls[i]) {
            None => fields_from(ls, i + 1, name, description),
            Some((key, value)) => {
                let (text, last) = scalar_of(value, ls, i);
                if key == "name"@ {
                    fields_from(ls, last + 1, Some(trimmed(text)), description)
                } else if key == "description"@ {
                    fields_from(ls, last + 1, name, Some(text))
                } else {
                    fields_from(ls, i + 1, name, description)
                }
            },
        }
    }
}

#[via_fn]
proof fn fields_from_shrinks(
    ls: Seq<Seq<char>>,
    i: int,
    name: Option<Seq<char>>,
    description: Option<Seq<char>>,
) {
    lemma_block_end(ls, i + 1);
}

/// The name and description of a skill.
#[derive(Debug)]
pub struct ParsedFront {
    pub name: String,
    pub description: String,
}

impl View for ParsedFront {
    type V = (Seq<char>, Seq<char>);

    open spec fn view(&self) -> (Seq<char>, Seq<char>) {
        (self.name@, self.description@)
    }
}

/// The name and description that a `SKILL.md` gives. A missing name is that
/// of its folder; there is nothing where the description is missing or
/// blank, and an error where the front matter is.
pub open spec fn parsed(text: Seq<char>, folder: Seq<char>) -> Result<
    Option<(Seq<char>, Seq<char>)>,
    Seq<char>,
> {
    match front_of(text) {
        Err(e) => Err(e),
        Ok(None) => Err("unclosed front matter within read cap"@),
        Ok(Some(front)) => {
            let (name, description) = fields_from(lines_of(front), 0, None, None);
            let known = match name {
                Some(n) => n,
                None => folder,
            };
            match description {
                None => Ok(None),
                Some(d) => if blank(d) {
                    Ok(None)
                } else {
                    Ok(Some((known, one_line(d))))
                },
            }
        },
    }
}

/// What a parse, or the reason for not having one, says.
pub open spec fn parsed_view(r: Result<Option<ParsedFront>, String>) -> Result<
    Option<(Seq<char>, Seq<char>)>,
    Seq<char>,
> {
    match r {
        Ok(Some(p)) => Ok(Some(p@)),
        Ok(None) => Ok(None),
        Err(e) => Err(e@),
    }
}

/// Parse the front matter of a `SKILL.md`; its body is never looked at.
pub fn parse_skill_md(text: &str, folder_name: &str) -> (r: Result<Option<ParsedFront>, String>)
    ensures
        parsed_view(r) == parsed(text@, folder_name@),
{
    let front = match extract_front_matter(text) {
        Err(e) => {
            return Err(e);
        },
        Ok(None) => {
            return Err("unclosed front matter within read cap".to_owned());
        },
        Ok(Some(f)) => f,
    };
    let ls = lines(front.as_str());
    let ghost t = texts(ls@);
    let mut name: Option<String> = None;
    let mut description: Option<String> = None;
    let mut i: usize = 0;
    while i < ls.len()
        invariant
            i <= ls@.len(),
            t == texts(ls@),
            fields_from(t, i as int, opt_text(name), opt_text(description)) == fields_from(
                t,
                0,
                None,
                None,
            ),
        decreases ls@.len() - i,
    {
        let cs = chars_of(ls[i].as_str());
        let line = trim(&cs);
        proof {
            assert(t[i as int] == cs@);
            assert(line@.skip(0) =~= line@);
        }
        let k = find_from(line, ':', 0);
        if line.len() == 0 || line[0] == '#' || k >= line.len() {
            i += 1;
        } else {
            let key = trim(vstd::slice::slice_subrange(line, 0, k));
            let value = trim(vstd::slice::slice_subrange(line, k + 1, line.len()));
            proof {
                assert(line@.subrange(0, k as int) =~= line@.take(k as int));
                assert(line@.subrange(k + 1, line@.len() as int) =~= line@.skip(k + 1));
                assert(field_of(t[i as int]) == Some((key@, value@)));
            }
            if same_chars(key, &chars_of("name")) {
                let (v, last) = parse_scalar(value, &ls, i);
                let vc = chars_of(v.as_str());
                name = Some(string_of(trim(&vc)));
                i = last + 1;
            } else if same_chars(key, &chars_of("description")) {
                let (v, last) = parse_scalar(value, &ls, i);
                description = Some(v);
                i = last + 1;
            } else {
                i += 1;
            }
        }
    }
    proof {
        assert(fields_from(t, i as int, opt_text(name), opt_text(description)) == (
            opt_text(name),
            opt_text(description),
        ));
    }
    let known = match name {
        Some(n) => n,
        None => folder_name.to_owned(),
    };
    match description {
        None => Ok(None),
        Some(d) => {
            let dc = chars_of(d.as_str());
            if trim(&dc).len() == 0 {
                Ok(None)
            } else {
                Ok(Some(ParsedFront { name: known, description: collapse_one_line(d.as_str()) }))
            }
        },
    }
}

proof fn lemma_ltrimmed_concat(a: Seq<char>, b: Seq<char>)
    requires
        ltrimmed(a).len() > 0,
    ensures
        ltrimmed(a + b) == ltrimmed(a) + b,
    decreases a.len(),
{
    if a.len() > 0 {
        assert((a + b)[0] == a[0]);
        if is_white(a[0]) {
            assert((a + b).skip(1) =~= a.skip(1) + b);
            lemma_ltrimmed_concat(a.skip(1), b);
        }
    }
}

proof fn lemma_after_breaks_concat(a: Seq<char>, b: Seq<char>)
    requires
        after_breaks(a).len() > 0,
    ensures
        after_breaks(a + b) == after_breaks(a) + b,
        after_breaks(a).last() == a.last(),
    decreases a.len(),
{
    if a.len() > 0 {
        assert((a + b)[0] == a[0]);
        if a[0] == '\r' || a[0] == '\n' {
            assert((a + b).skip(1) =~= a.skip(1) + b);
            lemma_after_breaks_concat(a.skip(1), b);
        }
    }
}

/// Lines before a line feed are the same whatever follows it.
proof fn lemma_lines_concat(a: Seq<char>, b: Seq<char>)
    requires
        a.len() == 0 || a.last() == '\n',
    ensures
        lines_of(a + b) == lines_of(a) + lines_of(b),
    decreases a.len(),
{
    if a.len() == 0 {
        assert(a + b =~= b);
        assert(lines_of(a) + lines_of(b) =~= lines_of(b));
    } else {
        let k = until(a, '\n');
        lemma_until_is(a, '\n');
        assert(a[a.len() - 1] == '\n');
        assert(k < a.len());
        lemma_until(a + b, '\n', k);
        assert((a + b).take(k) =~= a.take(k));
        assert((a + b).skip(k + 1) =~= a.skip(k + 1) + b);
        lemma_lines_concat(a.skip(k + 1), b);
        assert(lines_of(a + b) =~= lines_of(a) + lines_of(b));
    }
}

proof fn lemma_fence_concat(a: Seq<Seq<char>>, b: Seq<Seq<char>>)
    requires
        fence_at(a) < a.len(),
    ensures
        fence_at(a + b) == fence_at(a),
        fence_at(a) >= 0,
    decreases a.len(),
{
    assert((a + b)[0] == a[0]);
    if !closing_fence(a[0]) {
        assert((a + b).skip(1) =~= a.skip(1) + b);
        lemma_fence_concat(a.skip(1), b);
    }
}

proof fn lemma_front_text_concat(a: Seq<Seq<char>>, b: Seq<Seq<char>>, n: int)
    requires
        0 <= n <= a.len(),
    ensures
        front_text(a + b, n) == front_text(a, n),
    decreases n,
{
    if n > 0 {
        lemma_front_text_concat(a, b, n - 1);
        assert((a + b)[n - 1] == a[n - 1]);
    }
}

/// What follows the closing fence is never looked at: a skill reads the same
/// whatever its body is.
pub proof fn body_is_never_read(head: Seq<char>, body: Seq<char>, folder: Seq<char>)
    requires
        head.len() > 0,
        head.last() == '\n',
        front_of(head) matches Ok(Some(_)),
    ensures
        front_of(head + body) == front_of(head),
        parsed(head + body, folder) == parsed(head, folder),
{
    reveal_strlit("---");
    let h = without_bom(head);
    let t = ltrimmed(h);
    assert(t.len() >= 3);
    assert((head + body)[0] == head[0]);
    assert(without_bom(head + body) =~= h + body);
    lemma_ltrimmed_concat(h, body);
    crate::text::lemma_ltrimmed(h);
    let t2 = t + body;
    assert(t2.subrange(0, 3) =~= t.subrange(0, 3));
    assert(t2.skip(3) =~= t.skip(3) + body);
    let r = after_breaks(t.skip(3));
    let ls = lines_of(r);
    assert(fence_at(ls) < ls.len());
    assert(r.len() > 0) by {
        if r.len() == 0 {
            assert(lines_of(r).len() == 0);
            assert(fence_at(ls) == 0);
        }
    }
    lemma_after_breaks_concat(t.skip(3), body);
    assert(t.skip(3).len() > 0) by {
        if t.skip(3).len() == 0 {
            assert(after_breaks(t.skip(3)) =~= t.skip(3));
        }
    }
    assert(t.last() == h.last());
    assert(h.last() == head.last());
    assert(t.skip(3).last() == t.last());
    lemma_lines_concat(r, body);
    lemma_fence_concat(ls, lines_of(body));
    lemma_front_text_concat(ls, lines_of(body), fence_at(ls));
}

/// A line in front of others is the first of the lines.
proof fn lemma_lines_first(a: Seq<char>, rest: Seq<char>)
    requires
        !a.contains('\n'),
        a.len() == 0 || a.last() != '\r',
    ensures
        lines_of(a + seq!['\n'] + rest) == seq![a] + lines_of(rest),
{
    let s = a + seq!['\n'] + rest;
    let k = a.len() as int;
    assert forall|j: int| 0 <= j < k implies s[j] != '\n' by {
        assert(s[j] == a[j]);
        assert(a.contains(a[j]));
    }
    lemma_until(s, '\n', k);
    assert(s.take(k) =~= a);
    assert(s.skip(k + 1) =~= rest);
}

/// A line alone is the one line.
proof fn lemma_lines_one(a: Seq<char>)
    requires
        !a.contains('\n'),
        a.len() > 0,
    ensures
        lines_of(a) == seq![a],
{
    assert forall|j: int| 0 <= j < a.len() implies a[j] != '\n' by {
        assert(a.contains(a[j]));
    }
    lemma_until(a, '\n', a.len() as int);
}

/// Whether a value is written plainly: on one line, without white space
/// around it, and not as a block or in quotes.
pub open spec fn plain_value(v: Seq<char>) -> bool {
    &&& v.len() > 0
    &&& trimmed(v) == v
    &&& !v.contains('\n')
    &&& v[0] != '>' && v[0] != '|' && v[0] != '"' && v[0] != '\''
}

/// A field `key: value`.
proof fn lemma_field(key: Seq<char>, v: Seq<char>)
    requires
        key.len() > 0,
        trimmed(key) == key,
        !key.contains(':'),
        !key.contains('\n'),
        key[0] != '#',
        plain_value(v),
    ensures
        field_of(key + seq![':', ' '] + v) == Some((key, v)),
        !(key + seq![':', ' '] + v).contains('\n'),
        (key + seq![':', ' '] + v).last() != '\r',
        rtrimmed(key + seq![':', ' '] + v) == key + seq![':', ' '] + v,
{
    let line = key + seq![':', ' '] + v;
    crate::text::lemma_trimmed(key);
    crate::text::lemma_trimmed(v);
    assert(line[0] == key[0] && line.last() == v.last());
    crate::text::lemma_trimmed(line);
    let k = key.len() as int;
    assert forall|j: int| 0 <= j < k implies line[j] != ':' by {
        assert(line[j] == key[j]);
        assert(key.contains(key[j]));
    }
    lemma_until(line, ':', k);
    assert(line.take(k) =~= key);
    let rest = line.skip(k + 1);
    assert(rest =~= seq![' '] + v);
    assert(rest[0] == ' ');
    assert(rest.skip(1) =~= v);
    assert(ltrimmed(v) == v);
    assert(ltrimmed(rest) == ltrimmed(rest.skip(1)));
    assert(trimmed(rest) == v);
    assert(!line.contains('\n')) by {
        if line.contains('\n') {
            let j = choose|j: int| 0 <= j < line.len() && line[j] == '\n';
            if j < k {
                assert(key.contains(key[j]));
            } else if j >= k + 2 {
                assert(v.contains(v[j - k - 2]));
            }
        }
    }
}

/// A skill is known by the name and the description between its fences, when
/// both are written plainly, whatever follows.
pub proof fn skills_read_name_and_description(
    name: Seq<char>,
    description: Seq<char>,
    body: Seq<char>,
    folder: Seq<char>,
)
    requires
        plain_value(name),
        plain_value(description),
    ensures
        parsed(
            "---\n"@ + ("name"@ + seq![':', ' '] + name) + seq!['\n'] + (("description"@ + seq![
                ':',
                ' ',
            ] + description) + seq!['\n'] + ("---"@ + seq!['\n'] + body)),
            folder,
        ) == Ok::<_, Seq<char>>(Some((name, one_line(description)))),
{
    reveal_strlit("---\n");
    reveal_strlit("---");
    reveal_strlit("name");
    reveal_strlit("description");
    let l1 = "name"@ + seq![':', ' '] + name;
    let l2 = "description"@ + seq![':', ' '] + description;
    let tail = "---"@ + seq!['\n'] + body;
    let inner = l1 + seq!['\n'] + (l2 + seq!['\n'] + tail);
    let text = "---\n"@ + l1 + seq!['\n'] + (l2 + seq!['\n'] + tail);
    crate::text::lemma_trimmed("name"@);
    crate::text::lemma_trimmed("description"@);
    lemma_field("name"@, name);
    lemma_field("description"@, description);
    assert(text[0] == '-');
    assert(without_bom(text) == text);
    assert(ltrimmed(text) == text);
    assert("---"@ =~= text.subrange(0, 3));
    let r = text.skip(3);
    assert(r[0] == '\n');
    assert(r.skip(1) =~= inner);
    assert(inner[0] == 'n');
    assert(after_breaks(inner) == inner);
    assert(after_breaks(r) == after_breaks(r.skip(1)));
    lemma_lines_first(l1, l2 + seq!['\n'] + tail);
    lemma_lines_first(l2, tail);
    lemma_lines_first("---"@, body);
    let ls = lines_of(inner);
    assert(ls =~= seq![l1, l2, "---"@] + lines_of(body));
    assert(!closing_fence(l1)) by {
        assert(l1[0] == 'n');
    }
    assert(!closing_fence(l2)) by {
        assert(l2[0] == 'd');
    }
    assert(rtrimmed("---"@) == "---"@);
    assert(ls[0] == l1 && ls[1] == l2 && ls[2] == "---"@);
    assert(ls.skip(1)[0] == l2);
    assert(ls.skip(1).skip(1)[0] == "---"@);
    assert(fence_at(ls.skip(1).skip(1)) == 0);
    assert(fence_at(ls.skip(1)) == 1);
    assert(fence_at(ls) == 2);
    assert(front_text(ls, 0) =~= Seq::<char>::empty());
    assert(front_text(ls, 1) == l1);
    reveal_strlit("\n");
    assert("\n"@ =~= seq!['\n']);
    let front = l1 + seq!['\n'] + l2;
    assert(front_text(ls, 2) == front);
    lemma_lines_first(l1, l2);
    lemma_lines_one(l2);
    let fs = lines_of(front);
    assert(fs =~= seq![l1, l2]);
    assert("name"@ != "description"@) by {
        assert("name"@.len() != "description"@.len());
    }
    assert(fields_from(fs, 2, Some(name), Some(description)) == (Some(name), Some(description)));
    assert(fields_from(fs, 1, Some(name), None) == fields_from(
        fs,
        2,
        Some(name),
        Some(description),
    ));
    assert(fields_from(fs, 0, None, None) == fields_from(fs, 1, Some(name), None));
    assert(!blank(description));
}

/// A value in double quotes is what stands between them, with escapes replaced;
/// one in single quotes is what stands between them, and without such a quote
/// in it as it stands.
pub proof fn quoted_values_are_what_is_between(v: Seq<char>, ls: Seq<Seq<char>>, i: int)
    requires
        !v.contains('\\'),
        !v.contains('\''),
    ensures
        scalar_of(seq!['"'] + v + seq!['"'], ls, i) == (v, i),
        scalar_of(seq!['\''] + v + seq!['\''], ls, i) == (v, i),
        plain_value(v) ==> scalar_of(v, ls, i) == (v, i),
{
    let d = seq!['"'] + v + seq!['"'];
    assert(d[0] == '"' && d.last() == '"');
    assert(d.subrange(1, d.len() - 1) =~= v);
    lemma_unescaped_plain(v);
    let s = seq!['\''] + v + seq!['\''];
    assert(s[0] == '\'' && s.last() == '\'');
    assert(s.subrange(1, s.len() - 1) =~= v);
    reveal_strlit("''");
    crate::text::lemma_first_at_is(v, "''"@);
    let k = crate::text::first_at(v, "''"@);
    assert(k < 0) by {
        if k >= 0 {
            assert("''"@.is_prefix_of(v.skip(k)));
            assert(v.skip(k).subrange(0, 2)[0] == '\'');
            assert(v[k] == '\'');
            assert(v.contains(v[k]));
        }
    }
    assert(pieces(v, "''"@) =~= seq![v]);
    assert(joined(seq![v], "'"@) == v);
}

proof fn lemma_unescaped_plain(s: Seq<char>)
    requires
        !s.contains('\\'),
    ensures
        unescaped(s) == s,
    decreases s.len(),
{
    if s.len() > 0 {
        let t = s.skip(1);
        assert(s.contains(s[0]));
        assert(!t.contains('\\')) by {
            if t.contains('\\') {
                let j = choose|j: int| 0 <= j < t.len() && t[j] == '\\';
                assert(s[j + 1] == '\\');
            }
        }
        lemma_unescaped_plain(t);
        assert(seq![s[0]] + t =~= s);
    }
}

/// Escapes stand for what they stand for in YAML, wherever they are: a quote, a
/// backslash, a line feed, a tab or a carriage return; any other pair stays.
pub proof fn escapes_stand_for_characters(a: Seq<char>, c: char)
    ensures
        unescaped(seq!['\\', c] + a) == (if c == 'n' {
            seq!['\n']
        } else if c == 't' {
            seq!['\t']
        } else if c == 'r' {
            seq!['\r']
        } else if c == '"' || c == '\\' {
            seq![c]
        } else {
            seq!['\\', c]
        }) + unescaped(a),
{
    let s = seq!['\\', c] + a;
    assert(s.skip(2) =~= a);
    assert(s[0] == '\\' && s[1] == c);
}

/// A line of a block: an indent and text that starts behind it.
pub open spec fn indented(m: nat, s: Seq<char>) -> Seq<char> {
    Seq::new(m, |i: int| ' ') + s
}

proof fn lemma_indented(m: nat, s: Seq<char>)
    requires
        s.len() > 0,
        !is_white(s[0]),
    ensures
        indent_of(indented(m, s)) == m,
        indented(m, s).skip(m as int) == s,
        !blank(indented(m, s)),
    decreases m,
{
    let l = indented(m, s);
    assert(l.skip(m as int) =~= s);
    crate::text::lemma_ltrimmed(l);
    crate::text::lemma_rtrimmed(ltrimmed(l));
    assert(!blank(l)) by {
        let lead = l.len() - ltrimmed(l).len();
        if lead > m {
            assert(is_white(l[m as int]));
        }
        assert(ltrimmed(l).len() >= s.len());
        if rtrimmed(ltrimmed(l)).len() == 0 {
            assert(is_white(ltrimmed(l)[m - lead]));
            assert(ltrimmed(l)[m - lead] == l[m as int]);
        }
    }
    if m > 0 {
        assert(l[0] == ' ');
        assert(l.skip(1) =~= indented((m - 1) as nat, s));
        lemma_indented((m - 1) as nat, s);
    } else {
        assert(l =~= s);
    }
}

/// A literal block is its lines without the indent that they share, as they
/// stand; a folded one is its lines with a space between each two.
pub proof fn blocks_are_their_lines(m: nat, ls: Seq<Seq<char>>, chomp: Chomp)
    requires
        ls.len() > 0,
        forall|i: int|
            0 <= i < ls.len() ==> (#[trigger] ls[i]).len() > 0 && trimmed(ls[i]) == ls[i]
                && !ls[i].contains('\n'),
    ensures
        literal_text(Seq::new(ls.len(), |i: int| indented(m, ls[i])), chomp) == joined(ls, "\n"@),
        folded_text(Seq::new(ls.len(), |i: int| indented(m, ls[i])), chomp) == joined(ls, " "@),
{
    reveal_strlit("\n");
    reveal_strlit(" ");
    let raw = Seq::new(ls.len(), |i: int| indented(m, ls[i]));
    assert forall|i: int| 0 <= i < ls.len() implies indent_of(#[trigger] raw[i]) == m && raw[i].skip(
        m as int,
    ) == ls[i] && !blank(raw[i]) by {
        crate::text::lemma_trimmed(ls[i]);
        lemma_indented(m, ls[i]);
    }
    lemma_least(raw, m as int, raw.len() as int);
    assert(dedented(raw) =~= ls);
    let all = joined(ls, "\n"@);
    let last = ls.last();
    crate::text::lemma_trimmed(ls[ls.len() - 1]);
    crate::text::joining_keeps_each_part(ls, "\n"@, ls.len() - 1);
    assert(all.last() == last.last());
    assert(last.contains(last.last()));
    lemma_folded(ls, ls.len() as int);
    assert(ls.take(ls.len() as int) =~= ls);
    let f = joined(ls, " "@);
    crate::text::joining_keeps_each_part(ls, " "@, ls.len() - 1);
    assert(f.last() == last.last());
    assert(drop_empty_heads(ls) == ls);
    assert(drop_empty_tails(ls) == ls);
}

proof fn lemma_least(raw: Seq<Seq<char>>, m: int, n: int)
    requires
        0 < n <= raw.len(),
        forall|i: int| 0 <= i < raw.len() ==> indent_of(#[trigger] raw[i]) == m && !blank(raw[i]),
    ensures
        least_indent(raw, n) == Some(m),
    decreases n,
{
    if n > 1 {
        lemma_least(raw, m, n - 1);
    } else {
        assert(least_indent(raw, 0) is None);
    }
    assert(indent_of(raw[n - 1]) == m);
}

proof fn lemma_folded(ls: Seq<Seq<char>>, n: int)
    requires
        0 < n <= ls.len(),
        forall|i: int|
            0 <= i < ls.len() ==> (#[trigger] ls[i]).len() > 0 && trimmed(ls[i]) == ls[i]
                && !ls[i].contains('\n'),
    ensures
        folded_lines(ls, n) == joined(ls.take(n), " "@),
        folded_lines(ls, n).len() > 0,
        folded_lines(ls, n).last() != '\n',
    decreases n,
{
    reveal_strlit(" ");
    let part = ls[n - 1];
    assert(part.contains(part.last()));
    if n > 1 {
        lemma_folded(ls, n - 1);
        let t = ls.take(n);
        assert(t.drop_last() =~= ls.take(n - 1));
        assert(t.last() == part);
        let before = folded_lines(ls, n - 1);
        assert(before.push(' ') + part =~= before + " "@ + part);
    } else {
        assert(folded_lines(ls, 0) =~= Seq::<char>::empty());
        assert(ls.take(1) =~= seq![part]);
        assert(Seq::<char>::empty() + part =~= part);
    }
}

/// On one line, the words of a text stand in order with one space between
/// each two: a word alone is itself, white space in front makes no difference,
/// and what follows a word and white space comes behind it and a space.
pub proof fn words_stand_on_one_line(w: Seq<char>, g: Seq<char>, rest: Seq<char>)
    requires
        w.len() > 0,
        forall|i: int| 0 <= i < w.len() ==> !is_white(#[trigger] w[i]),
        g.len() > 0,
        forall|i: int| 0 <= i < g.len() ==> is_white(#[trigger] g[i]),
    ensures
        one_line(w) == w,
        one_line(g + rest) == one_line(rest),
        one_line(rest).len() > 0 ==> one_line(w + (g + rest)) == w + seq![' '] + one_line(rest),
{
    reveal_strlit(" ");
    let all = word_marks(w);
    crate::text::lemma_lead(all, w.len() as int);
    assert(runs(w, all) =~= seq![w]);
    assert(joined(seq![w], " "@) == w);
    lemma_runs_gap(g, rest);
    let s = w + (g + rest);
    let marks = word_marks(s);
    let k = w.len() as int;
    assert forall|j: int| 0 <= j < k implies marks[j] by {
        assert(s[j] == w[j]);
    }
    assert(!marks[k]) by {
        assert(s[k] == g[0]);
    }
    crate::text::lemma_lead(marks, k);
    assert(s.take(k) =~= w);
    assert(s.skip(k) =~= g + rest);
    assert(marks.skip(k) =~= word_marks(g + rest));
    let more = runs(rest, word_marks(rest));
    let rs = runs(s, marks);
    assert(rs =~= seq![w] + more);
    if one_line(rest).len() > 0 {
        assert(more.len() > 0) by {
            if more.len() == 0 {
                assert(joined(more, " "@) =~= Seq::<char>::empty());
            }
        }
        crate::text::lemma_joined_first(rs, " "@);
        assert(rs.skip(1) =~= more);
        assert(" "@ =~= seq![' ']);
    }
}

proof fn lemma_runs_gap(g: Seq<char>, rest: Seq<char>)
    requires
        forall|i: int| 0 <= i < g.len() ==> is_white(#[trigger] g[i]),
    ensures
        runs(g + rest, word_marks(g + rest)) == runs(rest, word_marks(rest)),
    decreases g.len(),
{
    let s = g + rest;
    if g.len() == 0 {
        assert(s =~= rest);
    } else {
        let t = g.skip(1);
        assert(s[0] == g[0]);
        assert(!word_marks(s)[0]);
        crate::text::lemma_lead(word_marks(s), 0);
        assert(s.skip(1) =~= t + rest);
        assert(word_marks(s).skip(1) =~= word_marks(t + rest));
        lemma_runs_gap(t, rest);
    }
}

/// A description that is short enough is shown whole, and any other from its
/// start, with a sign that it was cut.
pub proof fn short_descriptions_are_whole(s: Seq<char>)
    ensures
        byte_len(one_line(s)) <= 200 ==> capped(s) == one_line(s),
        byte_len(one_line(s)) > 200 ==> exists|t: Seq<char>|
            capped(s) == t + "…"@ && #[trigger] t.is_prefix_of(one_line(s)) && byte_len(t) <= 200
                && (forall|k: int|
                t.len() < k <= one_line(s).len() ==> byte_len(#[trigger] one_line(s).take(k)) > 200),
{
    let one = one_line(s);
    let t = byte_prefix(one, DESC_CAP as int);
    crate::bytes::lemma_fitting(one, DESC_CAP as int);
    assert(t =~= one.subrange(0, t.len() as int));
    assert(t.is_prefix_of(one));
}

/// The text of front matter with one plain field.
proof fn lemma_one_field(key: Seq<char>, v: Seq<char>, body: Seq<char>)
    requires
        key.len() > 0,
        trimmed(key) == key,
        !key.contains(':'),
        !key.contains('\n'),
        key[0] != '#',
        key[0] != '-',
        plain_value(v),
    ensures
        front_of("---\n"@ + (key + seq![':', ' '] + v) + seq!['\n'] + ("---"@ + seq!['\n'] + body))
            == Ok::<_, Seq<char>>(Some(key + seq![':', ' '] + v)),
        lines_of(key + seq![':', ' '] + v) == seq![key + seq![':', ' '] + v],
{
    reveal_strlit("---\n");
    reveal_strlit("---");
    let l = key + seq![':', ' '] + v;
    let tail = "---"@ + seq!['\n'] + body;
    let inner = l + seq!['\n'] + tail;
    let text = "---\n"@ + l + seq!['\n'] + tail;
    crate::text::lemma_trimmed(key);
    lemma_field(key, v);
    assert(text[0] == '-');
    assert(without_bom(text) == text);
    assert(ltrimmed(text) == text);
    assert("---"@ =~= text.subrange(0, 3));
    let r = text.skip(3);
    assert(r[0] == '\n');
    assert(r.skip(1) =~= inner);
    assert(inner[0] == key[0]);
    assert(inner[0] != '\n') by {
        assert(key.contains(key[0]));
    }
    assert(!is_white(key[0]));
    assert(after_breaks(inner) == inner);
    assert(after_breaks(r) == after_breaks(r.skip(1)));
    lemma_lines_first(l, tail);
    lemma_lines_first("---"@, body);
    let ls = lines_of(inner);
    assert(ls =~= seq![l, "---"@] + lines_of(body));
    assert(!closing_fence(l)) by {
        assert(l[0] == key[0]);
    }
    assert(rtrimmed("---"@) == "---"@);
    assert(ls[0] == l && ls[1] == "---"@);
    assert(ls.skip(1)[0] == "---"@);
    assert(fence_at(ls.skip(1)) == 0);
    assert(fence_at(ls) == 1);
    assert(front_text(ls, 0) =~= Seq::<char>::empty());
    assert(front_text(ls, 1) == l);
    lemma_lines_one(l);
}

/// A skill without a name is called after its folder; one without a
/// description is none, and neither is one that says something else.
pub proof fn unnamed_skills_are_called_after_their_folder(
    v: Seq<char>,
    body: Seq<char>,
    folder: Seq<char>,
)
    requires
        plain_value(v),
    ensures
        parsed(
            "---\n"@ + ("description"@ + seq![':', ' '] + v) + seq!['\n'] + ("---"@ + seq!['\n']
                + body),
            folder,
        ) == Ok::<_, Seq<char>>(Some((folder, one_line(v)))),
        parsed(
            "---\n"@ + ("name"@ + seq![':', ' '] + v) + seq!['\n'] + ("---"@ + seq!['\n'] + body),
            folder,
        ) == Ok::<Option<(Seq<char>, Seq<char>)>, Seq<char>>(None),
{
    reveal_strlit("name");
    reveal_strlit("description");
    let d = "description"@ + seq![':', ' '] + v;
    let n = "name"@ + seq![':', ' '] + v;
    crate::text::lemma_trimmed("name"@);
    crate::text::lemma_trimmed("description"@);
    lemma_field("name"@, v);
    lemma_field("description"@, v);
    lemma_one_field("description"@, v, body);
    lemma_one_field("name"@, v, body);
    assert("name"@.len() != "description"@.len());
    assert(fields_from(seq![d], 1, None, Some(v)) == (None::<Seq<char>>, Some(v)));
    assert(fields_from(seq![d], 0, None, None) == fields_from(seq![d], 1, None, Some(v)));
    assert(fields_from(seq![n], 1, Some(v), None) == (Some(v), None::<Seq<char>>));
    assert(fields_from(seq![n], 0, None, None) == fields_from(seq![n], 1, Some(v), None));
    assert(!blank(v));
}

/// Front matter starts with three dashes and ends with a line of them; without
/// either there is no skill, and the reason is given.
pub proof fn front_matter_stands_between_fences(text: Seq<char>, folder: Seq<char>)
    ensures
        !"---"@.is_prefix_of(ltrimmed(without_bom(text))) ==> parsed(text, folder) is Err,
        parsed(text, folder) is Ok ==> exists|i: int|
            0 <= i < lines_of(after_breaks(ltrimmed(without_bom(text)).skip(3))).len() && rtrimmed(
                #[trigger] lines_of(after_breaks(ltrimmed(without_bom(text)).skip(3)))[i],
            ) == "---"@,
{
    let ls = lines_of(after_breaks(ltrimmed(without_bom(text)).skip(3)));
    if parsed(text, folder) is Ok {
        lemma_fence_is(ls);
        assert(closing_fence(ls[fence_at(ls)]));
    }
}

proof fn lemma_fence_is(ls: Seq<Seq<char>>)
    ensures
        0 <= fence_at(ls) <= ls.len(),
        fence_at(ls) < ls.len() ==> closing_fence(ls[fence_at(ls)]),
    decreases ls.len(),
{
    if ls.len() > 0 && !closing_fence(ls[0]) {
        lemma_fence_is(ls.skip(1));
    }
}

/// A block indicator is read by its sign, an optional number and what follows
/// it: `>` folds, `-` strips and `+` keeps.
pub proof fn indicators_say_how_blocks_are_read(sign: char, d: Seq<char>, rest: Seq<char>)
    requires
        forall|i: int| 0 <= i < d.len() ==> '0' <= #[trigger] d[i] <= '9',
        rest.len() > 0 ==> !('0' <= rest[0] <= '9'),
    ensures
        ({
            let style = style_of(seq![sign] + d + rest);
            &&& style.folded <==> sign == '>'
            &&& style.chomp == Chomp::Strip <==> rest.len() > 0 && rest[0] == '-'
            &&& style.chomp == Chomp::Keep <==> rest.len() > 0 && rest[0] == '+'
        }),
{
    let v = seq![sign] + d + rest;
    let t = v.skip(1);
    assert forall|j: int| 0 <= j < d.len() implies '0' <= #[trigger] t[j] <= '9' by {
        assert(t[j] == d[j]);
    }
    lemma_digits(t, d.len() as int);
    if rest.len() > 0 {
        assert(t[d.len() as int] == rest[0]);
    }
}

/// A block takes the lines behind its indicator that are empty or indented, up
/// to the first that is neither, and is read as its indicator says.
pub proof fn blocks_take_the_indented_lines(value: Seq<char>, ls: Seq<Seq<char>>, i: int, j: int)
    requires
        0 <= i < ls.len(),
        value.len() > 0,
        value[0] == '>' || value[0] == '|',
        i <= j < ls.len(),
        forall|k: int|
            i < k <= j ==> (#[trigger] ls[k]).len() == 0 || ls[k][0] == ' ' || ls[k][0] == '\t',
        j + 1 < ls.len() ==> ls[j + 1].len() > 0 && ls[j + 1][0] != ' ' && ls[j + 1][0] != '\t',
    ensures
        scalar_of(value, ls, i).1 == j,
        scalar_of(value, ls, i).0 == (if value[0] == '>' {
            folded_text(ls.subrange(i + 1, j + 1), style_of(value).chomp)
        } else {
            literal_text(ls.subrange(i + 1, j + 1), style_of(value).chomp)
        }),
{
    lemma_block_end_at(ls, i + 1, j + 1);
}

proof fn lemma_block_end_at(ls: Seq<Seq<char>>, a: int, b: int)
    requires
        0 <= a <= b <= ls.len(),
        forall|k: int| a <= k < b ==> block_line(#[trigger] ls[k]),
        b < ls.len() ==> !block_line(ls[b]),
    ensures
        block_end(ls, a) == b,
    decreases b - a,
{
    if a < b {
        assert(block_line(ls[a]));
        lemma_block_end_at(ls, a + 1, b);
    }
}

/// In a folded block an empty line stands for a line break between what comes
/// before it and what comes behind it.
pub proof fn empty_lines_part_paragraphs(a: Seq<Seq<char>>, b: Seq<Seq<char>>)
    requires
        a.len() > 0,
        b.len() > 0,
        forall|i: int|
            0 <= i < a.len() ==> (#[trigger] a[i]).len() > 0 && trimmed(a[i]) == a[i]
                && !a[i].contains('\n'),
        forall|i: int|
            0 <= i < b.len() ==> (#[trigger] b[i]).len() > 0 && trimmed(b[i]) == b[i]
                && !b[i].contains('\n'),
    ensures
        folded_lines(a.push(Seq::empty()) + b, (a.len() + 1 + b.len()) as int) == joined(a, " "@)
            + seq!['\n'] + joined(b, " "@),
{
    let none = Seq::<char>::empty();
    let ls = a.push(none) + b;
    let n = a.len() as int;
    lemma_folded(a, n);
    lemma_folded_same(a, ls, n);
    assert(a.take(n) =~= a);
    let head = folded_lines(ls, n);
    assert(ls[n] == none);
    assert(trimmed(none).len() == 0);
    assert(folded_lines(ls, n + 1) == head.push('\n'));
    lemma_folded_behind(ls, n + 1, b, b.len() as int);
    assert(b.take(b.len() as int) =~= b);
    assert(head.push('\n') =~= joined(a, " "@) + seq!['\n']);
}

proof fn lemma_folded_same(a: Seq<Seq<char>>, b: Seq<Seq<char>>, n: int)
    requires
        0 <= n <= a.len(),
        n <= b.len(),
        forall|i: int| 0 <= i < n ==> #[trigger] a[i] == b[i],
    ensures
        folded_lines(a, n) == folded_lines(b, n),
    decreases n,
{
    if n > 0 {
        lemma_folded_same(a, b, n - 1);
        assert(a[n - 1] == b[n - 1]);
    }
}

proof fn lemma_folded_behind(ls: Seq<Seq<char>>, at: int, b: Seq<Seq<char>>, n: int)
    requires
        0 <= at,
        0 < n <= b.len(),
        at + n <= ls.len(),
        folded_lines(ls, at).len() > 0,
        folded_lines(ls, at).last() == '\n',
        forall|i: int| 0 <= i < b.len() ==> #[trigger] b[i] == ls[at + i],
        forall|i: int|
            0 <= i < b.len() ==> (#[trigger] b[i]).len() > 0 && trimmed(b[i]) == b[i]
                && !b[i].contains('\n'),
    ensures
        folded_lines(ls, at + n) == folded_lines(ls, at) + joined(b.take(n), " "@),
        folded_lines(ls, at + n).len() > 0,
        folded_lines(ls, at + n).last() != '\n',
    decreases n,
{
    reveal_strlit(" ");
    let part = b[n - 1];
    assert(part == ls[at + n - 1]);
    assert(part.contains(part.last()));
    let start = folded_lines(ls, at);
    if n > 1 {
        lemma_folded_behind(ls, at, b, n - 1);
        let t = b.take(n);
        assert(t.drop_last() =~= b.take(n - 1));
        assert(t.last() == part);
        let before = folded_lines(ls, at + n - 1);
        assert(before.push(' ') + part =~= start + (joined(b.take(n - 1), " "@) + " "@ + part));
    } else {
        assert(b.take(1) =~= seq![part]);
    }
}

/// An empty line at the end of a literal block stays where it is kept, as a
/// line break, and goes otherwise.
pub proof fn empty_ends_are_chomped(m: nat, ls: Seq<Seq<char>>, chomp: Chomp)
    requires
        ls.len() > 0,
        forall|i: int|
            0 <= i < ls.len() ==> (#[trigger] ls[i]).len() > 0 && trimmed(ls[i]) == ls[i]
                && !ls[i].contains('\n'),
    ensures
        literal_text(
            Seq::new(ls.len(), |i: int| indented(m, ls[i])).push(Seq::empty()),
            chomp,
        ) == (if chomp == Chomp::Keep {
            joined(ls, "\n"@) + "\n"@
        } else {
            joined(ls, "\n"@)
        }),
{
    reveal_strlit("\n");
    let none = Seq::<char>::empty();
    let lines = Seq::new(ls.len(), |i: int| indented(m, ls[i]));
    let raw = lines.push(none);
    assert(blank(none));
    assert forall|i: int| 0 <= i < ls.len() implies indent_of(#[trigger] lines[i]) == m
        && lines[i].skip(m as int) == ls[i] && !blank(lines[i]) by {
        crate::text::lemma_trimmed(ls[i]);
        lemma_indented(m, ls[i]);
    }
    lemma_least(lines, m as int, lines.len() as int);
    lemma_least_same(lines, raw, lines.len() as int);
    assert(least_indent(raw, raw.len() as int) == Some(m as int));
    let all = ls.push(none);
    assert forall|i: int| 0 <= i < raw.len() implies #[trigger] dedented(raw)[i] == all[i] by {
        if i < ls.len() {
            assert(raw[i] == lines[i]);
        }
    }
    assert(dedented(raw) =~= all);
    assert(all.drop_last() =~= ls);
    let j = joined(all, "\n"@);
    assert(j =~= joined(ls, "\n"@) + "\n"@);
    assert(j.drop_last() =~= joined(ls, "\n"@));
    assert(drop_empty_heads(all) == all);
    assert(drop_empty_tails(ls) == ls);
    assert(drop_empty_tails(all) == ls);
}

proof fn lemma_least_same(a: Seq<Seq<char>>, b: Seq<Seq<char>>, n: int)
    requires
        0 <= n <= a.len(),
        n <= b.len(),
        forall|i: int| 0 <= i < n ==> #[trigger] a[i] == b[i],
    ensures
        least_indent(a, n) == least_indent(b, n),
    decreases n,
{
    if n > 0 {
        lemma_least_same(a, b, n - 1);
        assert(a[n - 1] == b[n - 1]);
    }
}

proof fn lemma_name_stays(
    ls: Seq<Seq<char>>,
    i: int,
    name: Option<Seq<char>>,
    description: Option<Seq<char>>,
)
    requires
        0 <= i,
        forall|j: int|
            i <= j < ls.len() ==> (field_of(#[trigger] ls[j]) matches Some((key, _)) ==> key
                != "name"@),
    ensures
        fields_from(ls, i, name, description).0 == name,
    decreases ls.len() - i,
{
    if i < ls.len() {
        match field_of(ls[i]) {
            None => {
                lemma_name_stays(ls, i + 1, name, description);
            },
            Some((key, value)) => {
                let (text, last) = scalar_of(value, ls, i);
                lemma_block_end(ls, i + 1);
                if key == "description"@ {
                    lemma_name_stays(ls, last + 1, name, Some(text));
                } else {
                    lemma_name_stays(ls, i + 1, name, description);
                }
            },
        }
    }
}

proof fn lemma_last_name(
    ls: Seq<Seq<char>>,
    i: int,
    name: Option<Seq<char>>,
    description: Option<Seq<char>>,
    k: int,
    v: Seq<char>,
)
    requires
        0 <= i <= k < ls.len(),
        field_of(ls[k]) == Some(("name"@, v)),
        plain_value(v),
        forall|j: int|
            i <= j < k ==> (field_of(#[trigger] ls[j]) matches Some((_, w)) ==> !(w.len() > 0 && (
            w[0] == '>' || w[0] == '|'))),
        forall|j: int|
            k < j < ls.len() ==> (field_of(#[trigger] ls[j]) matches Some((key, _)) ==> key
                != "name"@),
    ensures
        fields_from(ls, i, name, description).0 == Some(v),
    decreases k - i,
{
    reveal_strlit("name");
    reveal_strlit("description");
    assert("name"@.len() != "description"@.len());
    if i == k {
        lemma_name_stays(ls, k + 1, Some(v), description);
    } else {
        match field_of(ls[i]) {
            None => {
                lemma_last_name(ls, i + 1, name, description, k, v);
            },
            Some((key, value)) => {
                let text = scalar_of(value, ls, i).0;
                assert(scalar_of(value, ls, i).1 == i);
                if key == "name"@ {
                    lemma_last_name(ls, i + 1, Some(trimmed(text)), description, k, v);
                } else if key == "description"@ {
                    lemma_last_name(ls, i + 1, name, Some(text), k, v);
                } else {
                    lemma_last_name(ls, i + 1, name, description, k, v);
                }
            },
        }
    }
}

proof fn lemma_description_stays(
    ls: Seq<Seq<char>>,
    i: int,
    name: Option<Seq<char>>,
    description: Option<Seq<char>>,
)
    requires
        0 <= i,
        forall|j: int|
            i <= j < ls.len() ==> (field_of(#[trigger] ls[j]) matches Some((key, _)) ==> key
                != "description"@),
    ensures
        fields_from(ls, i, name, description).1 == description,
    decreases ls.len() - i,
{
    if i < ls.len() {
        match field_of(ls[i]) {
            None => {
                lemma_description_stays(ls, i + 1, name, description);
            },
            Some((key, value)) => {
                let (text, last) = scalar_of(value, ls, i);
                lemma_block_end(ls, i + 1);
                if key == "name"@ {
                    lemma_description_stays(ls, last + 1, Some(trimmed(text)), description);
                } else {
                    lemma_description_stays(ls, i + 1, name, description);
                }
            },
        }
    }
}

proof fn lemma_last_description(
    ls: Seq<Seq<char>>,
    i: int,
    name: Option<Seq<char>>,
    description: Option<Seq<char>>,
    k: int,
    v: Seq<char>,
)
    requires
        0 <= i <= k < ls.len(),
        field_of(ls[k]) == Some(("description"@, v)),
        plain_value(v),
        forall|j: int|
            i <= j < k ==> (field_of(#[trigger] ls[j]) matches Some((_, w)) ==> !(w.len() > 0 && (
            w[0] == '>' || w[0] == '|'))),
        forall|j: int|
            k < j < ls.len() ==> (field_of(#[trigger] ls[j]) matches Some((key, _)) ==> key
                != "description"@),
    ensures
        fields_from(ls, i, name, description).1 == Some(v),
    decreases k - i,
{
    reveal_strlit("name");
    reveal_strlit("description");
    assert("name"@.len() != "description"@.len());
    if i == k {
        lemma_description_stays(ls, k + 1, name, Some(v));
    } else {
        match field_of(ls[i]) {
            None => {
                lemma_last_description(ls, i + 1, name, description, k, v);
            },
            Some((key, value)) => {
                let text = scalar_of(value, ls, i).0;
                assert(scalar_of(value, ls, i).1 == i);
                if key == "name"@ {
                    lemma_last_description(ls, i + 1, Some(trimmed(text)), description, k, v);
                } else if key == "description"@ {
                    lemma_last_description(ls, i + 1, name, Some(text), k, v);
                } else {
                    lemma_last_description(ls, i + 1, name, description, k, v);
                }
            },
        }
    }
}

/// Of several names, or of several descriptions, the last one counts, whatever
/// stands before it, as long as no block reaches down to it.
pub proof fn the_last_field_counts(ls: Seq<Seq<char>>, k: int, v: Seq<char>)
    requires
        0 <= k < ls.len(),
        plain_value(v),
        forall|j: int|
            0 <= j < k ==> (field_of(#[trigger] ls[j]) matches Some((_, w)) ==> !(w.len() > 0 && (
            w[0] == '>' || w[0] == '|'))),
    ensures
        field_of(ls[k]) == Some(("name"@, v)) && (forall|j: int|
            k < j < ls.len() ==> (field_of(#[trigger] ls[j]) matches Some((key, _)) ==> key
                != "name"@)) ==> fields_from(ls, 0, None, None).0 == Some(v),
        field_of(ls[k]) == Some(("description"@, v)) && (forall|j: int|
            k < j < ls.len() ==> (field_of(#[trigger] ls[j]) matches Some((key, _)) ==> key
                != "description"@)) ==> fields_from(ls, 0, None, None).1 == Some(v),
{
    if field_of(ls[k]) == Some(("name"@, v)) && (forall|j: int|
        k < j < ls.len() ==> (field_of(#[trigger] ls[j]) matches Some((key, _)) ==> key
            != "name"@)) {
        lemma_last_name(ls, 0, None, None, k, v);
    }
    if field_of(ls[k]) == Some(("description"@, v)) && (forall|j: int|
        k < j < ls.len() ==> (field_of(#[trigger] ls[j]) matches Some((key, _)) ==> key
            != "description"@)) {
        lemma_last_description(ls, 0, None, None, k, v);
    }
}

} // verus!
