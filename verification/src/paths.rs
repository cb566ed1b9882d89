//! Paths as text: components, extensions, joining and lexical containment,
//! with `/` as the separator.

use vstd::prelude::*;
use crate::text::{
    chars_of, find_from, join, join_range, joined, lemma_until, lemma_until_is, string_of, texts,
    until,
};

verus! {

/// Whether the path starts at the root.
pub open spec fn absolute(p: Seq<char>) -> bool {
    p.len() > 0 && p[0] == '/'
}

/// The component that stands for the root directory.
pub open spec fn root_comp() -> Seq<char> {
    seq!['/']
}

/// The component that stands for the current directory.
pub open spec fn here_comp() -> Seq<char> {
    seq!['.']
}

/// The component that stands for the parent directory.
pub open spec fn up_comp() -> Seq<char> {
    seq!['.', '.']
}

/// Whether a component is the name of a file or directory.
pub open spec fn is_name(c: Seq<char>) -> bool {
    c.len() > 0 && !c.contains('/') && c != here_comp() && c != up_comp()
}

/// Where the components at and after `pos` stand. Empty parts are none, and
/// `.` is one only at the very start of a path.
pub open spec fn spans_from(p: Seq<char>, pos: int) -> Seq<(int, int)>
    decreases p.len() - pos,
{
    if pos < 0 || pos >= p.len() {
        Seq::empty()
    } else {
        let e = pos + until(p.skip(pos), '/');
        let rest = if pos <= e < p.len() {
            spans_from(p, e + 1)
        } else {
            Seq::empty()
        };
        if e == pos || (pos > 0 && p.subrange(pos, e) == here_comp()) {
            rest
        } else {
            seq![(pos, e)] + rest
        }
    }
}

/// Where the components of a path stand, the root as its first slash.
pub open spec fn spans_of(p: Seq<char>) -> Seq<(int, int)> {
    if absolute(p) {
        seq![(0int, 1int)] + spans_from(p, 0)
    } else {
        spans_from(p, 0)
    }
}

/// The components of a path: `/` for the root, `.`, `..`, and names.
pub open spec fn components(p: Seq<char>) -> Seq<Seq<char>> {
    Seq::new(spans_of(p).len(), |i: int| p.subrange(spans_of(p)[i].0, spans_of(p)[i].1))
}

/// Spans of machine integers as integers.
pub open spec fn span_views(v: Seq<(usize, usize)>) -> Seq<(int, int)> {
    Seq::new(v.len(), |i: int| (v[i].0 as int, v[i].1 as int))
}

/// Every span lies within the path.
proof fn lemma_spans_within(p: Seq<char>, pos: int)
    requires
        0 <= pos,
    ensures
        forall|i: int|
            0 <= i < spans_from(p, pos).len() ==> pos <= (#[trigger] spans_from(p, pos)[i]).0
                < spans_from(p, pos)[i].1 <= p.len(),
    decreases p.len() - pos,
{
    if pos < p.len() {
        lemma_until_is(p.skip(pos), '/');
        let e = pos + until(p.skip(pos), '/');
        if e < p.len() {
            lemma_spans_within(p, e + 1);
        }
        let rest = spans_from(p, e + 1);
        assert forall|i: int| 0 <= i < spans_from(p, pos).len() implies pos <= (
        #[trigger] spans_from(p, pos)[i]).0 < spans_from(p, pos)[i].1 <= p.len() by {
            if e == pos || (pos > 0 && p.subrange(pos, e) == here_comp()) {
                assert(spans_from(p, pos)[i] == rest[i]);
            } else if i > 0 {
                assert(spans_from(p, pos)[i] == rest[i - 1]);
            }
        }
    }
}

/// Every component of a path lies within it.
pub proof fn lemma_spans_of_within(p: Seq<char>)
    ensures
        forall|i: int|
            0 <= i < spans_of(p).len() ==> 0 <= (#[trigger] spans_of(p)[i]).0 < spans_of(p)[i].1
                <= p.len(),
{
    lemma_spans_within(p, 0);
    if absolute(p) {
        assert forall|i: int| 0 <= i < spans_of(p).len() implies 0 <= (#[trigger] spans_of(p)[i]).0
            < spans_of(p)[i].1 <= p.len() by {
            if i > 0 {
                assert(spans_of(p)[i] == spans_from(p, 0)[i - 1]);
            }
        }
    }
}

/// Where the components of a path stand.
fn spans(p: &[char]) -> (r: Vec<(usize, usize)>)
    ensures
        span_views(r@) == spans_of(p@),
{
    let mut out: Vec<(usize, usize)> = Vec::new();
    let ghost tail = spans_from(p@, 0);
    if p.len() > 0 && p[0] == '/' {
        out.push((0, 1));
    }
    let mut pos: usize = 0;
    proof {
        assert(span_views(out@) + tail =~= spans_of(p@));
    }
    while pos < p.len()
        invariant
            pos <= p.len(),
            span_views(out@) + spans_from(p@, pos as int) == spans_of(p@),
        decreases p.len() - pos,
    {
        let e = find_from(p, '/', pos);
        let ghost before = out@;
        let ghost rest = spans_from(p@, e + 1);
        let here = pos > 0 && e - pos == 1 && p[pos] == '.';
        proof {
            assert(here == (pos > 0 && p@.subrange(pos as int, e as int) =~= here_comp()));
        }
        if e > pos && !here {
            out.push((pos, e));
            proof {
                assert(span_views(out@) =~= span_views(before).push((pos as int, e as int)));
                assert(span_views(out@) + rest =~= span_views(before) + spans_from(
                    p@,
                    pos as int,
                ));
            }
        }
        if e < p.len() {
            pos = e + 1;
        } else {
            pos = e;
            proof {
                assert(rest =~= spans_from(p@, e as int));
            }
        }
    }
    proof {
        assert(span_views(out@) + spans_from(p@, pos as int) =~= span_views(out@));
    }
    out
}

/// The components of a path, each as a string.
pub fn components_of(p: &str) -> (r: Vec<String>)
    ensures
        texts(r@) == components(p@),
{
    let cs = chars_of(p);
    let at = spans(&cs);
    let mut out: Vec<String> = Vec::new();
    let mut i: usize = 0;
    proof {
        lemma_spans_of_within(p@);
    }
    while i < at.len()
        invariant
            cs@ == p@,
            span_views(at@) == spans_of(p@),
            forall|k: int|
                0 <= k < spans_of(p@).len() ==> 0 <= (#[trigger] spans_of(p@)[k]).0 < spans_of(
                    p@,
                )[k].1 <= p@.len(),
            i <= at.len(),
            texts(out@) == components(p@).take(i as int),
        decreases at.len() - i,
    {
        let ghost before = out@;
        proof {
            assert(span_views(at@)[i as int] == spans_of(p@)[i as int]);
        }
        let c = string_of(vstd::slice::slice_subrange(&cs, at[i].0, at[i].1));
        out.push(c);
        proof {
            assert(texts(out@) =~= texts(before).push(c@));
            assert(texts(out@) =~= components(p@).take(i + 1));
        }
        i += 1;
    }
    proof {
        assert(components(p@).take(i as int) =~= components(p@));
    }
    out
}

/// The name a path ends in, if it ends in one.
pub open spec fn file_name_of(p: Seq<char>) -> Option<Seq<char>> {
    let cs = components(p);
    if cs.len() > 0 && is_name(cs.last()) {
        Some(cs.last())
    } else {
        None
    }
}

/// Where `c` last occurs in `s`; -1 when it does not.
pub open spec fn last_at(s: Seq<char>, c: char) -> int
    decreases s.len(),
{
    if s.len() == 0 {
        -1
    } else if s.last() == c {
        s.len() - 1
    } else {
        last_at(s.drop_last(), c)
    }
}

/// What follows the last dot of the name a path ends in; a dot at the start
/// of the name does not count.
pub open spec fn extension_of(p: Seq<char>) -> Option<Seq<char>> {
    match file_name_of(p) {
        None => None,
        Some(name) => {
            let k = last_at(name, '.');
            if k <= 0 {
                None
            } else {
                Some(name.skip(k + 1))
            }
        },
    }
}

/// The name a path ends in, if it ends in one.
pub fn file_name(p: &str) -> (r: Option<String>)
    ensures
        match r {
            Some(n) => file_name_of(p@) == Some(n@),
            None => file_name_of(p@) is None,
        },
{
    let cs = components_of(p);
    if cs.len() == 0 {
        return None;
    }
    let last = chars_of(cs[cs.len() - 1].as_str());
    proof {
        assert(components(p@).last() == texts(cs@).last());
    }
    if name_like(&last) {
        Some(string_of(&last))
    } else {
        None
    }
}

/// Whether a component is the name of a file or directory.
fn name_like(c: &[char]) -> (r: bool)
    ensures
        r == is_name(c@),
{
    let k = find_from(c, '/', 0);
    proof {
        if c@.contains('/') {
            let j = choose|j: int| 0 <= j < c@.len() && c@[j] == '/';
            assert(c@[j] == '/');
        } else if k < c@.len() {
            assert(c@.contains(c@[k as int]));
        }
    }
    let here = c.len() == 1 && c[0] == '.';
    let up = c.len() == 2 && c[0] == '.' && c[1] == '.';
    proof {
        assert(here == (c@ =~= here_comp()));
        assert(up == (c@ =~= up_comp()));
    }
    c.len() > 0 && k == c.len() && !here && !up
}

/// The extension of the name a path ends in.
pub fn extension(p: &str) -> (r: Option<String>)
    ensures
        match r {
            Some(e) => extension_of(p@) == Some(e@),
            None => extension_of(p@) is None,
        },
{
    match file_name(p) {
        None => None,
        Some(name) => {
            let cs = chars_of(name.as_str());
            let mut k: usize = cs.len();
            proof {
                assert(cs@.take(k as int) =~= cs@);
            }
            while k > 0 && cs[k - 1] != '.'
                invariant
                    k <= cs.len(),
                    last_at(cs@.take(k as int), '.') == last_at(cs@, '.'),
                decreases k,
            {
                proof {
                    assert(cs@.take(k as int).drop_last() =~= cs@.take(k - 1));
                }
                k -= 1;
            }
            if k <= 1 {
                None
            } else {
                proof {
                    assert(cs@.subrange(k as int, cs@.len() as int) =~= cs@.skip(k as int));
                }
                Some(string_of(vstd::slice::slice_subrange(&cs, k, cs.len())))
            }
        },
    }
}

/// `p` seen from the directory `base`: `p` itself where it is absolute.
pub open spec fn join_of(base: Seq<char>, p: Seq<char>) -> Seq<char> {
    if absolute(p) || base.len() == 0 {
        p
    } else if base.last() == '/' {
        base + p
    } else {
        base.push('/') + p
    }
}

/// `p` seen from the directory `base`.
pub fn join_path(base: &str, p: &str) -> (r: String)
    ensures
        r@ == join_of(base@, p@),
{
    let b = chars_of(base);
    let q = chars_of(p);
    if (q.len() > 0 && q[0] == '/') || b.len() == 0 {
        return string_of(&q);
    }
    let mut out = string_of(&b);
    if b[b.len() - 1] != '/' {
        out.push('/');
    }
    out.append(p);
    out
}

/// Whether `path` is `dir` or lies below it, component by component.
pub open spec fn lies_in(path: Seq<char>, dir: Seq<char>) -> bool {
    components(dir).is_prefix_of(components(path))
}

/// What is left of `path` below `dir`: the text from the first component
/// past `dir` to the end of the last one.
pub open spec fn below(path: Seq<char>, dir: Seq<char>) -> Option<Seq<char>> {
    let n = components(dir).len() as int;
    if !lies_in(path, dir) {
        None
    } else if n >= spans_of(path).len() {
        Some(Seq::empty())
    } else {
        Some(path.subrange(spans_of(path)[n].0, spans_of(path).last().1))
    }
}

/// Whether the texts of `a` are the first ones of `b`.
pub fn prefix_of(a: &[String], b: &[String]) -> (r: bool)
    ensures
        r == texts(a@).is_prefix_of(texts(b@)),
{
    if a.len() > b.len() {
        return false;
    }
    let mut i: usize = 0;
    while i < a.len()
        invariant
            i <= a.len() <= b.len(),
            forall|j: int| 0 <= j < i ==> a@[j]@ == b@[j]@,
        decreases a.len() - i,
    {
        if a[i] != b[i] {
            proof {
                assert(texts(a@)[i as int] != texts(b@)[i as int]);
                assert(texts(b@).subrange(0, a@.len() as int)[i as int] == texts(b@)[i as int]);
            }
            return false;
        }
        i += 1;
    }
    proof {
        assert(texts(a@) =~= texts(b@).subrange(0, a@.len() as int));
    }
    true
}

/// The components of spans come in order.
proof fn lemma_spans_ordered(p: Seq<char>, pos: int)
    requires
        0 <= pos,
    ensures
        forall|i: int, j: int|
            0 <= i < j < spans_from(p, pos).len() ==> (#[trigger] spans_from(p, pos)[i]).1 <= (
            #[trigger] spans_from(p, pos)[j]).0,
    decreases p.len() - pos,
{
    if pos < p.len() {
        lemma_until_is(p.skip(pos), '/');
        let e = pos + until(p.skip(pos), '/');
        if e < p.len() {
            lemma_spans_ordered(p, e + 1);
        }
        lemma_spans_within(p, e + 1);
        let rest = spans_from(p, e + 1);
        assert forall|i: int, j: int| 0 <= i < j < spans_from(p, pos).len() implies (
        #[trigger] spans_from(p, pos)[i]).1 <= (#[trigger] spans_from(p, pos)[j]).0 by {
            if e == pos || (pos > 0 && p.subrange(pos, e) == here_comp()) {
                assert(spans_from(p, pos)[i] == rest[i]);
                assert(spans_from(p, pos)[j] == rest[j]);
            } else {
                assert(spans_from(p, pos)[j] == rest[j - 1]);
                if i > 0 {
                    assert(spans_from(p, pos)[i] == rest[i - 1]);
                }
            }
        }
    }
}

/// What is left of `path` below `dir`.
pub fn strip_dir(path: &str, dir: &str) -> (r: Option<String>)
    ensures
        match r {
            Some(t) => below(path@, dir@) == Some(t@),
            None => below(path@, dir@) is None,
        },
{
    let cs = chars_of(path);
    let at = spans(&cs);
    let d = components_of(dir);
    if !prefix_of(&d, &components_of(path)) {
        return None;
    }
    let n = d.len();
    proof {
        assert(texts(d@).len() == n);
    }
    if n >= at.len() {
        let e = String::new();
        proof {
            assert(span_views(at@).len() == at@.len());
            assert(e@ =~= Seq::<char>::empty());
        }
        return Some(e);
    }
    proof {
        lemma_spans_of_within(path@);
        lemma_spans_ordered(path@, 0);
        let last = at@.len() - 1;
        assert(span_views(at@)[n as int] == spans_of(path@)[n as int]);
        assert(span_views(at@)[last] == spans_of(path@)[last]);
        if n < last {
            if absolute(path@) {
                if n > 0 {
                    assert(spans_of(path@)[n as int] == spans_from(path@, 0)[n - 1]);
                }
                assert(spans_of(path@)[last] == spans_from(path@, 0)[last - 1]);
            }
        }
    }
    Some(string_of(vstd::slice::slice_subrange(&cs, at[n].0, at[at.len() - 1].1)))
}

/// Components with `.` left out and each `..` taking back the name before it;
/// there is nothing above the root.
pub open spec fn lexical(cs: Seq<Seq<char>>) -> Seq<Seq<char>>
    decreases cs.len(),
{
    if cs.len() == 0 {
        cs
    } else {
        let n = lexical(cs.drop_last());
        let c = cs.last();
        if c == here_comp() {
            n
        } else if c == up_comp() {
            if n.len() > 0 && n.last() != root_comp() {
                n.drop_last()
            } else {
                n
            }
        } else {
            n.push(c)
        }
    }
}

/// Components as a path.
pub open spec fn text_of(cs: Seq<Seq<char>>) -> Seq<char> {
    if cs.len() > 0 && cs[0] == root_comp() {
        root_comp() + joined(cs.skip(1), "/"@)
    } else {
        joined(cs, "/"@)
    }
}

/// `raw` seen from `root`, without `.` and `..`; nothing where that leads out
/// of `root`.
pub open spec fn resolved(root: Seq<char>, raw: Seq<char>) -> Option<Seq<char>> {
    let n = lexical(components(join_of(root, raw)));
    if components(root).is_prefix_of(n) {
        Some(text_of(n))
    } else {
        None
    }
}

/// The texts of the components at and after `pos`.
pub open spec fn parts_from(p: Seq<char>, pos: int) -> Seq<Seq<char>> {
    Seq::new(
        spans_from(p, pos).len(),
        |i: int| p.subrange(spans_from(p, pos)[i].0, spans_from(p, pos)[i].1),
    )
}

/// Whether components are names throughout, but for a root in front.
pub open spec fn plain(cs: Seq<Seq<char>>) -> bool {
    forall|i: int|
        0 <= i < cs.len() ==> is_name(#[trigger] cs[i]) || (i == 0 && cs[i] == root_comp())
}

proof fn lemma_joined_front(cs: Seq<Seq<char>>, sep: Seq<char>)
    requires
        cs.len() > 1,
    ensures
        joined(cs, sep) == cs[0] + sep + joined(cs.skip(1), sep),
    decreases cs.len(),
{
    let t = cs.skip(1);
    if cs.len() == 2 {
        assert(cs.drop_last() =~= seq![cs[0]]);
        assert(joined(cs.drop_last(), sep) == cs[0]);
        assert(joined(t, sep) == cs[1]);
        assert(cs.last() == cs[1]);
    } else {
        lemma_joined_front(cs.drop_last(), sep);
        assert(cs.drop_last().skip(1) =~= t.drop_last());
        assert(cs.last() == t.last());
        assert(cs[0] + sep + joined(t.drop_last(), sep) + sep + cs.last() =~= cs[0] + sep + (joined(
            t.drop_last(),
            sep,
        ) + sep + t.last()));
    }
}

/// The components of names with slashes between them are the names.
proof fn lemma_parts_of_names(p: Seq<char>, pos: int, names: Seq<Seq<char>>)
    requires
        0 <= pos <= p.len(),
        p.skip(pos) == joined(names, "/"@),
        forall|i: int| 0 <= i < names.len() ==> is_name(#[trigger] names[i]),
    ensures
        parts_from(p, pos) == names,
    decreases names.len(),
{
    reveal_strlit("/");
    if names.len() == 0 {
        assert(p.skip(pos).len() == 0);
        assert(parts_from(p, pos) =~= names);
    } else {
        let rest = p.skip(pos);
        let n0 = names[0];
        let e = pos + n0.len();
        assert(is_name(n0));
        if names.len() > 1 {
            lemma_joined_front(names, "/"@);
        }
        assert(rest.take(n0.len() as int) =~= n0);
        assert forall|j: int| 0 <= j < n0.len() implies rest[j] != '/' by {
            assert(rest[j] == n0[j]);
            assert(n0.contains(n0[j]));
        }
        if names.len() > 1 {
            assert(rest[n0.len() as int] == '/');
        }
        lemma_until(rest, '/', n0.len() as int);
        assert(p.subrange(pos, e) =~= n0);
        let tail = names.skip(1);
        assert forall|i: int| 0 <= i < tail.len() implies is_name(#[trigger] tail[i]) by {
            assert(tail[i] == names[i + 1]);
        }
        if names.len() > 1 {
            let j = joined(tail, "/"@);
            assert(rest == n0 + "/"@ + j);
            assert(rest.skip(n0.len() as int + 1) =~= j);
            assert(p.skip(e + 1) =~= rest.skip(n0.len() as int + 1));
            lemma_parts_of_names(p, e + 1, tail);
            let sp = spans_from(p, e + 1);
            assert(spans_from(p, pos) == seq![(pos, e)] + sp);
            assert forall|i: int| 0 <= i < names.len() implies #[trigger] parts_from(p, pos)[i]
                == names[i] by {
                if i > 0 {
                    assert(spans_from(p, pos)[i] == sp[i - 1]);
                    assert(parts_from(p, e + 1)[i - 1] == tail[i - 1]);
                }
            }
            assert(parts_from(p, pos) =~= names);
        } else {
            assert(e == p.len());
            assert(spans_from(p, pos) =~= seq![(pos, e)]);
            assert(parts_from(p, pos) =~= names);
        }
    }
}

/// A path made of plain components has those components.
pub proof fn lemma_components_of_text(cs: Seq<Seq<char>>)
    requires
        plain(cs),
    ensures
        components(text_of(cs)) == cs,
{
    let p = text_of(cs);
    if cs.len() > 0 && cs[0] == root_comp() {
        let names = cs.skip(1);
        assert forall|i: int| 0 <= i < names.len() implies is_name(#[trigger] names[i]) by {
            assert(names[i] == cs[i + 1]);
        }
        assert(absolute(p));
        assert(p.skip(1) =~= joined(names, "/"@));
        lemma_parts_of_names(p, 1, names);
        lemma_until(p.skip(0), '/', 0);
        assert(spans_from(p, 0) == spans_from(p, 1));
        assert(p.subrange(0, 1) =~= root_comp());
        assert forall|i: int| 0 <= i < cs.len() implies #[trigger] components(p)[i] == cs[i] by {
            if i > 0 {
                assert(spans_of(p)[i] == spans_from(p, 1)[i - 1]);
                assert(parts_from(p, 1)[i - 1] == names[i - 1]);
            }
        }
        assert(components(p).len() == 1 + parts_from(p, 1).len());
        assert(components(p) =~= cs);
    } else {
        assert forall|i: int| 0 <= i < cs.len() implies is_name(#[trigger] cs[i]) by {}
        assert(p.skip(0) =~= p);
        lemma_parts_of_names(p, 0, cs);
        if cs.len() > 0 {
            assert(is_name(cs[0]));
            if cs.len() > 1 {
                lemma_joined_front(cs, "/"@);
            }
            assert(p[0] == cs[0][0]);
            assert(cs[0].contains(cs[0][0]));
        }
        assert(!absolute(p));
        assert(components(p) =~= parts_from(p, 0));
    }
}

/// Every component of a path is the root in front, `.`, `..` or a name.
proof fn lemma_components_forms(p: Seq<char>, i: int)
    requires
        0 <= i < components(p).len(),
    ensures
        (i == 0 && components(p)[i] == root_comp()) || components(p)[i] == here_comp()
            || components(p)[i] == up_comp() || is_name(components(p)[i]),
{
    if absolute(p) {
        if i == 0 {
            assert(p.subrange(0, 1) =~= root_comp());
        } else {
            assert(spans_of(p)[i] == spans_from(p, 0)[i - 1]);
            lemma_parts_forms(p, 0, i - 1);
        }
    } else {
        lemma_parts_forms(p, 0, i);
    }
}

proof fn lemma_parts_forms(p: Seq<char>, pos: int, i: int)
    requires
        0 <= pos,
        0 <= i < spans_from(p, pos).len(),
    ensures
        ({
            let c = p.subrange(spans_from(p, pos)[i].0, spans_from(p, pos)[i].1);
            c.len() > 0 && !c.contains('/')
        }),
    decreases p.len() - pos,
{
    if pos < p.len() {
        lemma_until_is(p.skip(pos), '/');
        let e = pos + until(p.skip(pos), '/');
        let c = p.subrange(pos, e);
        assert(!c.contains('/')) by {
            if c.contains('/') {
                let j = choose|j: int| 0 <= j < c.len() && c[j] == '/';
                assert(p.skip(pos)[j] == '/');
            }
        }
        if e == pos || (pos > 0 && c == here_comp()) {
            lemma_parts_forms(p, e + 1, i);
        } else if i > 0 {
            assert(spans_from(p, pos)[i] == spans_from(p, e + 1)[i - 1]);
            lemma_parts_forms(p, e + 1, i - 1);
        }
    }
}

/// What is left after `.` and `..` are gone is plain.
proof fn lemma_lexical_plain(p: Seq<char>, n: int)
    requires
        0 <= n <= components(p).len(),
    ensures
        plain(lexical(components(p).take(n))),
        lexical(components(p).take(n)).len() <= n,
    decreases n,
{
    let cs = components(p);
    if n > 0 {
        lemma_lexical_plain(p, n - 1);
        lemma_components_forms(p, n - 1);
        assert(cs.take(n).drop_last() =~= cs.take(n - 1));
        assert(cs.take(n).last() == cs[n - 1]);
        let before = lexical(cs.take(n - 1));
        let now = lexical(cs.take(n));
        assert forall|i: int| 0 <= i < now.len() implies is_name(#[trigger] now[i]) || (i == 0
            && now[i] == root_comp()) by {
            if i < before.len() {
                assert(now[i] == before[i]);
            }
        }
    }
}

/// A path that is resolved in a root lies in it, and nothing in it leads up.
pub proof fn resolved_paths_stay_inside(root: Seq<char>, raw: Seq<char>)
    ensures
        resolved(root, raw) matches Some(p) ==> lies_in(p, root) && !components(p).contains(
            up_comp(),
        ),
{
    let j = join_of(root, raw);
    let cs = components(j);
    assert(cs.take(cs.len() as int) =~= cs);
    lemma_lexical_plain(j, cs.len() as int);
    let n = lexical(cs);
    lemma_components_of_text(n);
    if n.contains(up_comp()) {
        let i = choose|i: int| 0 <= i < n.len() && n[i] == up_comp();
        assert(is_name(n[i]) || n[i] == root_comp());
        assert(up_comp().len() == 2 && root_comp().len() == 1);
    }
}

fn is_up(c: &[char]) -> (r: bool)
    ensures
        r == (c@ == up_comp()),
{
    let r = c.len() == 2 && c[0] == '.' && c[1] == '.';
    proof {
        assert(r == (c@ =~= up_comp()));
    }
    r
}

fn is_one(c: &[char], x: char) -> (r: bool)
    ensures
        r == (c@ == seq![x]),
{
    let r = c.len() == 1 && c[0] == x;
    proof {
        assert(r == (c@ =~= seq![x]));
    }
    r
}

/// Resolve a relative-or-absolute file against the workspace root, rejecting
/// lexical escapes. Existence is checked by the caller.
pub fn resolve_in_root(root: &str, raw: &str) -> (r: Option<String>)
    ensures
        match r {
            Some(p) => resolved(root@, raw@) == Some(p@),
            None => resolved(root@, raw@) is None,
        },
        r matches Some(p) ==> lies_in(p@, root@) && !components(p@).contains(up_comp()),
{
    let path = join_path(root, raw);
    let cs = components_of(path.as_str());
    let ghost cv = components(path@);
    let mut n: Vec<String> = Vec::new();
    let mut i: usize = 0;
    proof {
        assert(texts(n@) =~= lexical(cv.take(0)));
    }
    while i < cs.len()
        invariant
            i <= cs@.len(),
            cv == texts(cs@),
            texts(n@) == lexical(cv.take(i as int)),
        decreases cs@.len() - i,
    {
        let c = chars_of(cs[i].as_str());
        let ghost before = n@;
        proof {
            assert(cv.take(i + 1).drop_last() =~= cv.take(i as int));
            assert(cv.take(i + 1).last() == c@);
            assert(texts(n@).len() == n@.len());
        }
        if is_up(&c) {
            if n.len() > 0 {
                let last = chars_of(n[n.len() - 1].as_str());
                proof {
                    assert(texts(n@).last() == last@);
                }
                if !is_one(&last, '/') {
                    let _ = n.pop();
                    proof {
                        assert(texts(n@) =~= texts(before).drop_last());
                    }
                }
            }
        } else if !is_one(&c, '.') {
            n.push(cs[i].clone());
            proof {
                assert(texts(n@) =~= texts(before).push(c@));
            }
        }
        i += 1;
    }
    proof {
        assert(cv.take(i as int) =~= cv);
        resolved_paths_stay_inside(root@, raw@);
    }
    if !prefix_of(&components_of(root), &n) {
        return None;
    }
    let ghost nv = texts(n@);
    let rooted = n.len() > 0 && is_one(&chars_of(n[0].as_str()), '/');
    proof {
        if n@.len() > 0 {
            assert(nv[0] == n@[0]@);
        }
        assert(nv.len() == n@.len());
    }
    if rooted {
        let mut out = String::new();
        out.push('/');
        out.append(join_range(&n, 1, n.len(), "/").as_str());
        proof {
            assert(nv.subrange(1, nv.len() as int) =~= nv.skip(1));
            assert(out@ =~= text_of(nv));
        }
        Some(out)
    } else {
        Some(join(&n, "/"))
    }
}

/// Where names with slashes between them stand.
proof fn lemma_spans_of_names(p: Seq<char>, pos: int, names: Seq<Seq<char>>, k: int)
    requires
        0 <= pos <= p.len(),
        p.skip(pos) == joined(names, "/"@),
        forall|i: int| 0 <= i < names.len() ==> is_name(#[trigger] names[i]),
        0 <= k < names.len(),
    ensures
        spans_from(p, pos).len() == names.len(),
        pos <= spans_from(p, pos)[k].0 <= p.len(),
        p.skip(spans_from(p, pos)[k].0) == joined(names.skip(k), "/"@),
        spans_from(p, pos).last().1 == p.len(),
    decreases names.len(),
{
    reveal_strlit("/");
    let rest = p.skip(pos);
    let n0 = names[0];
    let e = pos + n0.len();
    assert(is_name(n0));
    if names.len() > 1 {
        lemma_joined_front(names, "/"@);
    }
    assert(rest.take(n0.len() as int) =~= n0);
    assert forall|j: int| 0 <= j < n0.len() implies rest[j] != '/' by {
        assert(rest[j] == n0[j]);
        assert(n0.contains(n0[j]));
    }
    if names.len() > 1 {
        assert(rest[n0.len() as int] == '/');
    }
    lemma_until(rest, '/', n0.len() as int);
    assert(p.subrange(pos, e) =~= n0);
    assert(names.skip(0) =~= names);
    if names.len() > 1 {
        let tail = names.skip(1);
        assert forall|i: int| 0 <= i < tail.len() implies is_name(#[trigger] tail[i]) by {
            assert(tail[i] == names[i + 1]);
        }
        let j = joined(tail, "/"@);
        assert(rest == n0 + "/"@ + j);
        assert(rest.skip(n0.len() as int + 1) =~= j);
        assert(p.skip(e + 1) =~= rest.skip(n0.len() as int + 1));
        let sp = spans_from(p, e + 1);
        assert(spans_from(p, pos) == seq![(pos, e)] + sp);
        if k > 0 {
            lemma_spans_of_names(p, e + 1, tail, k - 1);
            assert(tail.skip(k - 1) =~= names.skip(k));
            assert(spans_from(p, pos)[k] == sp[k - 1]);
        } else {
            lemma_spans_of_names(p, e + 1, tail, 0);
        }
        assert(spans_from(p, pos).last() == sp.last());
    } else {
        assert(e == p.len());
        assert(spans_from(p, pos) =~= seq![(pos, e)]);
    }
}

proof fn lemma_names(cs: Seq<Seq<char>>, lo: int)
    requires
        plain(cs),
        0 <= lo <= cs.len(),
        lo == 0 ==> cs.len() == 0 || cs[0] != root_comp(),
    ensures
        forall|i: int| 0 <= i < cs.skip(lo).len() ==> is_name(#[trigger] cs.skip(lo)[i]),
{
    assert forall|i: int| 0 <= i < cs.skip(lo).len() implies is_name(#[trigger] cs.skip(lo)[i]) by {
        assert(cs.skip(lo)[i] == cs[i + lo]);
    }
}

/// A path is shown from the directory it lies in on: what is left of it there
/// are the names below that directory, with slashes between them.
pub proof fn paths_below_a_directory_are_what_is_left(dir: Seq<Seq<char>>, names: Seq<Seq<char>>)
    requires
        dir.len() > 0,
        dir[0] == root_comp(),
        plain(dir),
        names.len() > 0,
        forall|i: int| 0 <= i < names.len() ==> is_name(#[trigger] names[i]),
    ensures
        below(text_of(dir + names), text_of(dir)) == Some(joined(names, "/"@)),
        lies_in(text_of(dir + names), text_of(dir)),
{
    let all = dir + names;
    let p = text_of(all);
    assert forall|i: int| 0 <= i < all.len() implies is_name(#[trigger] all[i]) || (i == 0 && all[i]
        == root_comp()) by {
        if i < dir.len() {
            assert(all[i] == dir[i]);
        } else {
            assert(all[i] == names[i - dir.len()]);
        }
    }
    lemma_components_of_text(all);
    lemma_components_of_text(dir);
    assert(dir =~= all.subrange(0, dir.len() as int));
    let rest = all.skip(1);
    lemma_names(all, 1);
    assert(p.skip(1) =~= joined(rest, "/"@));
    assert(absolute(p));
    lemma_until(p.skip(0), '/', 0);
    assert(p.skip(0) =~= p);
    assert(spans_from(p, 0) == spans_from(p, 1));
    let n = dir.len() as int;
    lemma_spans_of_names(p, 1, rest, n - 1);
    assert(rest.skip(n - 1) =~= names);
    assert(spans_of(p)[n] == spans_from(p, 1)[n - 1]);
    assert(spans_of(p).last() == spans_from(p, 1).last());
    assert(p.subrange(spans_of(p)[n].0, p.len() as int) =~= p.skip(spans_of(p)[n].0));
}

/// A relative path of names resolves to the place that it names below the root.
pub proof fn plain_paths_resolve_below_the_root(root: Seq<Seq<char>>, names: Seq<Seq<char>>)
    requires
        root.len() > 0,
        root[0] == root_comp(),
        plain(root),
        names.len() > 0,
        forall|i: int| 0 <= i < names.len() ==> is_name(#[trigger] names[i]),
    ensures
        resolved(text_of(root), joined(names, "/"@)) == Some(text_of(root + names)),
{
    let all = root + names;
    assert forall|i: int| 0 <= i < all.len() implies is_name(#[trigger] all[i]) || (i == 0 && all[i]
        == root_comp()) by {
        if i < root.len() {
            assert(all[i] == root[i]);
        } else {
            assert(all[i] == names[i - root.len()]);
        }
    }
    lemma_join_of_names(root, names);
    lemma_components_of_text(all);
    lemma_components_of_text(root);
    lemma_lexical_of_plain(all, all.len() as int);
    assert(all.take(all.len() as int) =~= all);
    assert(root =~= all.subrange(0, root.len() as int));
}

/// Joining names to a directory is the path of both.
proof fn lemma_join_of_names(root: Seq<Seq<char>>, names: Seq<Seq<char>>)
    requires
        root.len() > 0,
        root[0] == root_comp(),
        plain(root),
        names.len() > 0,
        forall|i: int| 0 <= i < names.len() ==> is_name(#[trigger] names[i]),
    ensures
        join_of(text_of(root), joined(names, "/"@)) == text_of(root + names),
{
    reveal_strlit("/");
    let all = root + names;
    let raw = joined(names, "/"@);
    let base = text_of(root);
    assert(is_name(names[0]));
    crate::text::joining_keeps_each_part(names, "/"@, 0);
    assert(raw[0] == names[0][0]);
    assert(names[0].contains(names[0][0]));
    let under = root.skip(1);
    assert(all.skip(1) =~= under + names);
    assert(all[0] == root_comp());
    if root.len() == 1 {
        assert(under =~= Seq::<Seq<char>>::empty());
        assert(base =~= root_comp());
        assert(under + names =~= names);
    } else {
        let last = under.last();
        assert(last == root[root.len() - 1]);
        assert(is_name(last));
        let j = joined(under, "/"@);
        if under.len() > 1 {
            assert(j == joined(under.drop_last(), "/"@) + "/"@ + last);
        }
        assert(j.last() == last.last());
        assert(base.last() == last.last());
        assert(last.contains(last.last()));
        lemma_joined_split(under, names);
        assert(base.push('/') + raw =~= root_comp() + (j + "/"@ + raw));
    }
}

proof fn lemma_joined_split(a: Seq<Seq<char>>, b: Seq<Seq<char>>)
    requires
        a.len() > 0,
        b.len() > 0,
    ensures
        joined(a + b, "/"@) == joined(a, "/"@) + "/"@ + joined(b, "/"@),
{
    let all = a + b;
    crate::text::joining_keeps_each_part(all, "/"@, a.len() as int);
    assert(all.take(a.len() as int) =~= a);
    crate::text::joining_keeps_each_part(b, "/"@, 0);
    assert(all.skip(a.len() as int + 1) =~= b.skip(1));
    let tail = if b.len() == 1 {
        Seq::empty()
    } else {
        "/"@ + joined(b.skip(1), "/"@)
    };
    assert(joined(a, "/"@) + "/"@ + b[0] + tail =~= joined(a, "/"@) + "/"@ + (Seq::<char>::empty()
        + b[0] + tail));
}

proof fn lemma_lexical_of_plain(cs: Seq<Seq<char>>, n: int)
    requires
        plain(cs),
        0 <= n <= cs.len(),
    ensures
        lexical(cs.take(n)) == cs.take(n),
    decreases n,
{
    if n > 0 {
        lemma_lexical_of_plain(cs, n - 1);
        let t = cs.take(n);
        assert(t.drop_last() =~= cs.take(n - 1));
        assert(t.last() == cs[n - 1]);
        assert(is_name(cs[n - 1]) || cs[n - 1] == root_comp());
        assert(root_comp()[0] == '/' && here_comp()[0] == '.' && up_comp().len() == 2);
        assert(cs.take(n - 1).push(cs[n - 1]) =~= t);
    } else {
        assert(cs.take(0) =~= Seq::<Seq<char>>::empty());
    }
}

/// The extension of a file is what follows the last dot of its name.
pub proof fn extensions_follow_the_last_dot(cs: Seq<Seq<char>>, stem: Seq<char>, ext: Seq<char>)
    requires
        plain(cs),
        cs.len() > 0,
        is_name(cs.last()),
        cs.last() == stem + seq!['.'] + ext,
        stem.len() > 0,
        !ext.contains('.'),
    ensures
        extension_of(text_of(cs)) == Some(ext),
        file_name_of(text_of(cs)) == Some(cs.last()),
{
    lemma_components_of_text(cs);
    let name = cs.last();
    lemma_last_at(name, '.', stem.len() as int);
    assert(name.skip(stem.len() as int + 1) =~= ext);
}

proof fn lemma_last_at(s: Seq<char>, c: char, k: int)
    requires
        0 <= k < s.len(),
        s[k] == c,
        forall|j: int| k < j < s.len() ==> s[j] != c,
    ensures
        last_at(s, c) == k,
    decreases s.len(),
{
    if k < s.len() - 1 {
        lemma_last_at(s.drop_last(), c, k);
    }
}

/// The name of a file is the last of the names that its path is made of.
pub proof fn file_names_are_the_last_names(cs: Seq<Seq<char>>, name: Seq<char>)
    requires
        plain(cs),
        is_name(name),
    ensures
        file_name_of(text_of(cs.push(name))) == Some(name),
{
    let all = cs.push(name);
    assert forall|i: int| 0 <= i < all.len() implies is_name(#[trigger] all[i]) || (i == 0 && all[i]
        == root_comp()) by {
        if i < cs.len() {
            assert(all[i] == cs[i]);
        }
    }
    lemma_components_of_text(all);
    assert(components(text_of(all)).last() == name);
}

/// `.` changes nothing, `..` takes back the name before it and nothing more,
/// names stay as they are, and there is nothing above the root.
pub proof fn up_takes_back_the_name_before(cs: Seq<Seq<char>>, name: Seq<char>)
    requires
        is_name(name),
    ensures
        lexical(cs.push(name).push(up_comp())) == lexical(cs),
        lexical(cs.push(here_comp())) == lexical(cs),
        lexical(cs.push(name)) == lexical(cs).push(name),
        lexical(seq![root_comp(), up_comp()]) == seq![root_comp()],
        plain(cs) ==> lexical(cs) == cs,
{
    assert(root_comp()[0] == '/' && here_comp()[0] == '.' && up_comp().len() == 2);
    assert(here_comp().len() == 1);
    let a = cs.push(name);
    let b = a.push(up_comp());
    assert(a.drop_last() =~= cs);
    assert(b.drop_last() =~= a);
    assert(cs.push(here_comp()).drop_last() =~= cs);
    assert(name != root_comp()) by {
        if name == root_comp() {
            assert(name.contains(name[0]));
        }
    }
    assert(lexical(a) == lexical(cs).push(name));
    assert(lexical(cs).push(name).drop_last() =~= lexical(cs));
    let top = seq![root_comp(), up_comp()];
    let one = seq![root_comp()];
    assert(top.drop_last() =~= one);
    assert(one.drop_last() =~= Seq::<Seq<char>>::empty());
    let none = Seq::<Seq<char>>::empty();
    assert(lexical(none) == none);
    assert(one.last() == root_comp());
    assert(root_comp().len() == 1);
    assert(root_comp() != here_comp() && root_comp() != up_comp());
    assert(none.push(root_comp()) =~= one);
    assert(lexical(one) == one);
    if plain(cs) {
        lemma_lexical_of_plain(cs, cs.len() as int);
        assert(cs.take(cs.len() as int) =~= cs);
    }
}

/// An absolute path resolves to itself where it lies in the root, and to
/// nothing where it does not.
pub proof fn absolute_paths_resolve_to_themselves(root: Seq<Seq<char>>, path: Seq<Seq<char>>)
    requires
        root.len() > 0,
        path.len() > 0,
        root[0] == root_comp(),
        path[0] == root_comp(),
        plain(root),
        plain(path),
    ensures
        root.is_prefix_of(path) ==> resolved(text_of(root), text_of(path)) == Some(text_of(path)),
        !root.is_prefix_of(path) ==> resolved(text_of(root), text_of(path)) is None,
{
    lemma_components_of_text(root);
    lemma_components_of_text(path);
    lemma_lexical_of_plain(path, path.len() as int);
    assert(path.take(path.len() as int) =~= path);
    assert(text_of(path)[0] == '/') by {
        assert(root_comp()[0] == '/');
    }
    assert(absolute(text_of(path)));
}

} // verus!
