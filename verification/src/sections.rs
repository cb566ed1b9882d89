//! Markdown as chunks: one per heading, with the headings above it as its
//! breadcrumb.

use vstd::prelude::*;
use crate::extract::{
    chunk_views, lemma_windows_placed, placed, windows, windows_of, Chunk, ChunkKind, ChunkView,
    DEFAULT_WINDOW,
};
use crate::text::{
    chars_of, join, join_range, joined, ltrimmed, string_of, texts, trim, trim_start, trimmed,
};

verus! {

/// How many `#` the text starts with.
pub open spec fn hashes(s: Seq<char>) -> int
    decreases s.len(),
{
    if s.len() == 0 || s[0] != '#' {
        0
    } else {
        1 + hashes(s.skip(1))
    }
}

/// The level and title of an ATX heading; `None` for any other line.
pub open spec fn heading_of(line: Seq<char>) -> Option<(int, Seq<char>)> {
    let t = ltrimmed(line);
    let h = hashes(t);
    if 1 <= h <= 6 && h < t.len() && t[h] == ' ' {
        Some((h, trimmed(t.skip(h + 1))))
    } else {
        None
    }
}

/// A heading: its row, its level and its title.
pub struct HeadingView {
    pub row: int,
    pub level: int,
    pub title: Seq<char>,
}

struct Heading {
    row: usize,
    level: usize,
    title: String,
}

impl View for Heading {
    type V = HeadingView;

    closed spec fn view(&self) -> HeadingView {
        HeadingView { row: self.row as int, level: self.level as int, title: self.title@ }
    }
}

spec fn heading_views(v: Seq<Heading>) -> Seq<HeadingView> {
    Seq::new(v.len(), |i: int| v[i]@)
}

/// The headings among the first `n` lines.
pub open spec fn headings_in(ls: Seq<Seq<char>>, n: int) -> Seq<HeadingView>
    decreases n,
{
    if n <= 0 {
        Seq::empty()
    } else {
        match heading_of(ls[n - 1]) {
            Some((level, title)) => headings_in(ls, n - 1).push(
                HeadingView { row: n - 1, level, title },
            ),
            None => headings_in(ls, n - 1),
        }
    }
}

/// The row of the first heading at or after number `k` that is not below
/// `level`; `end` when there is none.
pub open spec fn next_row(hs: Seq<HeadingView>, k: int, level: int, end: int) -> int
    decreases hs.len() - k,
{
    if k < 0 || k >= hs.len() {
        end
    } else if hs[k].level <= level {
        hs[k].row
    } else {
        next_row(hs, k + 1, level, end)
    }
}

/// The titles that stand above what follows the first `n` headings, outermost
/// first: a heading of level `l` takes the place of all but the first `l - 1`.
pub open spec fn stack_after(hs: Seq<HeadingView>, n: int) -> Seq<Seq<char>>
    decreases n,
{
    if n <= 0 {
        Seq::empty()
    } else {
        let s = stack_after(hs, n - 1);
        let h = hs[n - 1];
        let keep = if s.len() < h.level {
            s
        } else {
            s.take(h.level - 1)
        };
        keep.push(h.title)
    }
}

/// The section under heading number `k`: from its row to the row before the
/// next heading that is not below it.
pub open spec fn section_at(path: Seq<char>, ls: Seq<Seq<char>>, hs: Seq<HeadingView>, k: int) -> ChunkView {
    let end = next_row(hs, k + 1, hs[k].level, ls.len() as int);
    ChunkView {
        path,
        start: hs[k].row + 1,
        end,
        kind: ChunkKind::Section,
        breadcrumb: joined(stack_after(hs, k + 1), " > "@),
        text: joined(ls.subrange(hs[k].row, end), "\n"@),
    }
}

/// What stands before the first heading, when it is not blank.
pub open spec fn preamble_of(path: Seq<char>, ls: Seq<Seq<char>>, row: int) -> Seq<ChunkView> {
    let body = joined(ls.take(row), "\n"@);
    if row > 0 && trimmed(body).len() > 0 {
        seq![
            ChunkView {
                path,
                start: 1,
                end: row,
                kind: ChunkKind::Section,
                breadcrumb: "(preamble)"@,
                text: body,
            },
        ]
    } else {
        Seq::empty()
    }
}

/// The chunks of a Markdown file: its preamble and its sections, or windows
/// where it has no heading.
pub open spec fn sections_of(path: Seq<char>, ls: Seq<Seq<char>>) -> Seq<ChunkView> {
    let hs = headings_in(ls, ls.len() as int);
    if hs.len() == 0 {
        windows_of(path, ls, DEFAULT_WINDOW)
    } else {
        preamble_of(path, ls, hs[0].row) + Seq::new(
            hs.len(),
            |k: int| section_at(path, ls, hs, k),
        )
    }
}

proof fn lemma_hashes(s: Seq<char>, k: int)
    requires
        0 <= k <= s.len(),
        forall|j: int| 0 <= j < k ==> s[j] == '#',
        k < s.len() ==> s[k] != '#',
    ensures
        hashes(s) == k,
    decreases s.len(),
{
    if k > 0 {
        lemma_hashes(s.skip(1), k - 1);
    }
}

/// Headings come in the order of their rows, have a level from 1 to 6, and
/// their rows are lines.
pub proof fn lemma_headings(ls: Seq<Seq<char>>, n: int)
    requires
        0 <= n <= ls.len(),
    ensures
        forall|i: int|
            0 <= i < headings_in(ls, n).len() ==> 0 <= (#[trigger] headings_in(ls, n)[i]).row < n
                && 1 <= headings_in(ls, n)[i].level <= 6,
        forall|i: int, j: int|
            0 <= i < j < headings_in(ls, n).len() ==> (#[trigger] headings_in(ls, n)[i]).row < (
            #[trigger] headings_in(ls, n)[j]).row,
    decreases n,
{
    if n > 0 {
        lemma_headings(ls, n - 1);
        let before = headings_in(ls, n - 1);
        let now = headings_in(ls, n);
        assert(forall|i: int| 0 <= i < before.len() ==> now[i] == before[i]);
        assert forall|i: int| 0 <= i < now.len() implies 0 <= (#[trigger] now[i]).row < n && 1
            <= now[i].level <= 6 by {
            if i < before.len() {
                assert(now[i] == before[i]);
            }
        }
    }
}

/// The end of a section lies after its heading and within the file.
pub proof fn lemma_next_row(hs: Seq<HeadingView>, k: int, level: int, end: int, row: int)
    requires
        0 <= k,
        row < end,
        forall|i: int| k <= i < hs.len() ==> row < (#[trigger] hs[i]).row < end,
    ensures
        row < next_row(hs, k, level, end) <= end,
    decreases hs.len() - k,
{
    if k < hs.len() && hs[k].level > level {
        lemma_next_row(hs, k + 1, level, end, row);
    }
}

fn heading(line: &str) -> (r: Option<(usize, String)>)
    ensures
        match r {
            Some((l, t)) => heading_of(line@) == Some((l as int, t@)) && 1 <= l <= 6,
            None => heading_of(line@) is None,
        },
{
    let cs = chars_of(line);
    let t = trim_start(&cs);
    let mut h: usize = 0;
    while h < t.len() && t[h] == '#'
        invariant
            h <= t@.len(),
            forall|j: int| 0 <= j < h ==> t@[j] == '#',
        decreases t@.len() - h,
    {
        h += 1;
    }
    proof {
        lemma_hashes(t@, h as int);
    }
    if 1 <= h && h <= 6 && h < t.len() && t[h] == ' ' {
        let rest = vstd::slice::slice_subrange(t, h + 1, t.len());
        proof {
            assert(rest@ =~= t@.skip(h + 1));
        }
        Some((h, string_of(trim(rest))))
    } else {
        None
    }
}

fn headings(ls: &[String]) -> (r: Vec<Heading>)
    ensures
        heading_views(r@) == headings_in(texts(ls@), ls@.len() as int),
{
    let mut out: Vec<Heading> = Vec::new();
    let mut i: usize = 0;
    let ghost t = texts(ls@);
    proof {
        assert(heading_views(out@) =~= headings_in(t, 0));
    }
    while i < ls.len()
        invariant
            i <= ls@.len(),
            t == texts(ls@),
            heading_views(out@) == headings_in(t, i as int),
        decreases ls@.len() - i,
    {
        let ghost before = out@;
        proof {
            assert(t[i as int] == ls@[i as int]@);
        }
        if let Some((level, title)) = heading(ls[i].as_str()) {
            let h = Heading { row: i, level, title };
            out.push(h);
            proof {
                assert(heading_views(out@) =~= heading_views(before).push(h@));
            }
        }
        i += 1;
    }
    out
}

/// The titles above what follows heading number `n`.
fn crumbs(hs: &[Heading], n: usize) -> (r: Vec<String>)
    requires
        n < hs@.len(),
        forall|i: int| 0 <= i < hs@.len() ==> 1 <= (#[trigger] hs@[i]).level,
    ensures
        texts(r@) == stack_after(heading_views(hs@), n + 1),
{
    let mut stack: Vec<String> = Vec::new();
    let mut i: usize = 0;
    proof {
        assert(texts(stack@) =~= stack_after(heading_views(hs@), 0));
    }
    while i <= n
        invariant
            i <= n + 1,
            n < hs@.len(),
            forall|i: int| 0 <= i < hs@.len() ==> 1 <= (#[trigger] hs@[i]).level,
            texts(stack@) == stack_after(heading_views(hs@), i as int),
        decreases n + 1 - i,
    {
        let ghost s0 = stack@;
        let level: usize = hs[i].level;
        if stack.len() >= level {
            stack.truncate(level - 1);
        }
        let ghost kept = stack@;
        stack.push(hs[i].title.clone());
        proof {
            let s = stack_after(heading_views(hs@), i as int);
            let h = heading_views(hs@)[i as int];
            assert(h.level == level && h.title == hs@[i as int].title@);
            assert(texts(kept) =~= (if s.len() < h.level {
                s
            } else {
                s.take(h.level - 1)
            }));
            assert(texts(stack@) =~= texts(kept).push(h.title));
        }
        i += 1;
    }
    stack
}

fn section_end(hs: &[Heading], n: usize, end: usize) -> (r: usize)
    requires
        n < hs@.len(),
    ensures
        r == next_row(heading_views(hs@), n + 1, heading_views(hs@)[n as int].level, end as int),
{
    let count: usize = hs.len();
    let mut k: usize = n + 1;
    let ghost hv = heading_views(hs@);
    while k < count
        invariant
            n < k <= hs@.len(),
            count == hs@.len(),
            hv == heading_views(hs@),
            next_row(hv, k as int, hv[n as int].level, end as int) == next_row(
                hv,
                n + 1,
                hv[n as int].level,
                end as int,
            ),
        decreases hs@.len() - k,
    {
        proof {
            assert(hv[k as int] == hs@[k as int]@);
            assert(hv[n as int] == hs@[n as int]@);
        }
        if hs[k].level <= hs[n].level {
            return hs[k].row;
        }
        k += 1;
    }
    end
}

/// Split Markdown on ATX headings; text before the first heading becomes a
/// `(preamble)` chunk when non-blank.
pub fn sections(path: &str, ls: &[String]) -> (r: Vec<Chunk>)
    ensures
        chunk_views(r@) == sections_of(path@, texts(ls@)),
{
    let hs = headings(ls);
    let ghost t = texts(ls@);
    let ghost hv = heading_views(hs@);
    if hs.len() == 0 {
        return windows(path, ls, DEFAULT_WINDOW);
    }
    proof {
        lemma_headings(t, t.len() as int);
        assert forall|i: int| 0 <= i < hs@.len() implies 1 <= (#[trigger] hs@[i]).level && hs@[i].row
            < ls@.len() by {
            assert(hv[i] == hs@[i]@);
        }
    }
    let mut out: Vec<Chunk> = Vec::new();
    let row: usize = hs[0].row;
    proof {
        assert(hv[0] == hs@[0]@);
        assert(t.take(row as int) =~= t.subrange(0, row as int));
    }
    if row > 0 {
        let body = join_range(ls, 0, row, "\n");
        let cs = chars_of(body.as_str());
        if trim(&cs).len() > 0 {
            out.push(
                Chunk {
                    path: path.to_owned(),
                    start: 1,
                    end: row as u64,
                    kind: ChunkKind::Section,
                    breadcrumb: "(preamble)".to_owned(),
                    text: body,
                },
            );
        }
    }
    let ghost pre = preamble_of(path@, t, row as int);
    let ghost secs = Seq::new(hv.len(), |k: int| section_at(path@, t, hv, k));
    proof {
        assert(chunk_views(out@) =~= pre);
        assert(pre + secs.take(0) =~= pre);
    }
    let mut n: usize = 0;
    while n < hs.len()
        invariant
            n <= hs@.len(),
            t == texts(ls@),
            hv == heading_views(hs@),
            hv == headings_in(t, t.len() as int),
            secs == Seq::new(hv.len(), |k: int| section_at(path@, t, hv, k)),
            forall|i: int|
                0 <= i < hs@.len() ==> 1 <= (#[trigger] hs@[i]).level && hs@[i].row < ls@.len(),
            chunk_views(out@) == pre + secs.take(n as int),
        decreases hs@.len() - n,
    {
        let ghost before = out@;
        let end = section_end(&hs, n, ls.len());
        proof {
            lemma_headings(t, t.len() as int);
            assert(hv[n as int] == hs@[n as int]@);
            lemma_next_row(hv, n + 1, hv[n as int].level, ls@.len() as int, hv[n as int].row);
        }
        let c = Chunk {
            path: path.to_owned(),
            start: hs[n].row as u64 + 1,
            end: end as u64,
            kind: ChunkKind::Section,
            breadcrumb: join(&crumbs(&hs, n), " > "),
            text: join_range(ls, hs[n].row, end, "\n"),
        };
        out.push(c);
        proof {
            assert(c@ == section_at(path@, t, hv, n as int));
            assert(chunk_views(out@) =~= chunk_views(before).push(c@));
            assert(secs.take(n + 1) =~= secs.take(n as int).push(c@));
            assert(chunk_views(out@) =~= pre + secs.take(n + 1));
        }
        n += 1;
    }
    proof {
        assert(secs.take(n as int) =~= secs);
    }
    out
}

/// Every line from the first heading on lies in a section.
pub proof fn sections_leave_no_gap(path: Seq<char>, ls: Seq<Seq<char>>, line: int)
    requires
        headings_in(ls, ls.len() as int).len() > 0,
        headings_in(ls, ls.len() as int)[0].row < line <= ls.len(),
    ensures
        exists|i: int|
            0 <= i < sections_of(path, ls).len() && (#[trigger] sections_of(path, ls)[i]).start
                <= line <= sections_of(path, ls)[i].end,
{
    let hs = headings_in(ls, ls.len() as int);
    lemma_headings(ls, ls.len() as int);
    let k = lemma_heading_above(hs, line - 1, hs.len() as int);
    let pre = preamble_of(path, ls, hs[0].row);
    let secs = Seq::new(hs.len(), |k: int| section_at(path, ls, hs, k));
    lemma_next_row(hs, k + 1, hs[k].level, ls.len() as int, line - 1);
    assert(sections_of(path, ls)[pre.len() + k] == secs[k]);
}

/// The last heading at or above a row.
proof fn lemma_heading_above(hs: Seq<HeadingView>, row: int, n: int) -> (k: int)
    requires
        0 < n <= hs.len(),
        hs[0].row <= row,
    ensures
        0 <= k < n,
        hs[k].row <= row,
        forall|i: int| k < i < n ==> row < (#[trigger] hs[i]).row,
    decreases n,
{
    if hs[n - 1].row <= row {
        n - 1
    } else {
        lemma_heading_above(hs, row, n - 1)
    }
}

/// Sections are placed.
pub proof fn lemma_sections_placed(path: Seq<char>, ls: Seq<Seq<char>>)
    ensures
        placed(sections_of(path, ls)),
{
    let hs = headings_in(ls, ls.len() as int);
    lemma_headings(ls, ls.len() as int);
    if hs.len() == 0 {
        lemma_windows_placed(path, ls, DEFAULT_WINDOW.0 as int, DEFAULT_WINDOW.1 as int, 0);
    } else {
        let pre = preamble_of(path, ls, hs[0].row);
        let secs = Seq::new(hs.len(), |k: int| section_at(path, ls, hs, k));
        assert forall|i: int| 0 <= i < (pre + secs).len() implies (#[trigger] (pre + secs)[i]).start
            >= 1 by {
            if i >= pre.len() {
                assert((pre + secs)[i] == secs[i - pre.len()]);
            }
        }
    }
}

/// Headings are the lines that are headings, each in its row.
proof fn lemma_headings_are(ls: Seq<Seq<char>>, n: int)
    requires
        0 <= n <= ls.len(),
    ensures
        forall|i: int|
            0 <= i < headings_in(ls, n).len() ==> heading_of(
                ls[(#[trigger] headings_in(ls, n)[i]).row],
            ) == Some((headings_in(ls, n)[i].level, headings_in(ls, n)[i].title)),
        forall|r: int|
            0 <= r < n && heading_of(#[trigger] ls[r]) is Some ==> exists|i: int|
                0 <= i < headings_in(ls, n).len() && (#[trigger] headings_in(ls, n)[i]).row == r,
    decreases n,
{
    if n > 0 {
        lemma_headings_are(ls, n - 1);
        lemma_headings(ls, n - 1);
        let before = headings_in(ls, n - 1);
        let now = headings_in(ls, n);
        assert forall|i: int| 0 <= i < now.len() implies heading_of(ls[(#[trigger] now[i]).row])
            == Some((now[i].level, now[i].title)) by {
            if i < before.len() {
                assert(now[i] == before[i]);
            }
        }
        assert forall|r: int| 0 <= r < n && heading_of(#[trigger] ls[r]) is Some implies exists|
            i: int,
        | 0 <= i < now.len() && (#[trigger] now[i]).row == r by {
            if r < n - 1 {
                let i = choose|i: int| 0 <= i < before.len() && (#[trigger] before[i]).row == r;
                assert(now[i] == before[i]);
            } else {
                assert(now[before.len() as int].row == r);
            }
        }
    }
}

/// What the end of a section comes to.
proof fn lemma_next_row_is(hs: Seq<HeadingView>, k: int, level: int, end: int) -> (j: int)
    requires
        0 <= k <= hs.len(),
    ensures
        k <= j <= hs.len(),
        next_row(hs, k, level, end) == (if j < hs.len() {
            hs[j].row
        } else {
            end
        }),
        j < hs.len() ==> hs[j].level <= level,
        forall|i: int| k <= i < j ==> (#[trigger] hs[i]).level > level,
    decreases hs.len() - k,
{
    if k < hs.len() && hs[k].level > level {
        lemma_next_row_is(hs, k + 1, level, end)
    } else {
        k
    }
}

/// Every chunk of a Markdown file lies within it and shows the very lines that
/// it cites, from its heading to its end.
pub proof fn sections_cite_their_lines(path: Seq<char>, ls: Seq<Seq<char>>, i: int)
    requires
        0 <= i < sections_of(path, ls).len(),
    ensures
        ({
            let c = sections_of(path, ls)[i];
            &&& c.path == path && c.kind != ChunkKind::Symbol
            &&& 1 <= c.start <= c.end <= ls.len()
            &&& c.text == joined(ls.subrange(c.start - 1, c.end), "\n"@)
        }),
{
    let hs = headings_in(ls, ls.len() as int);
    if hs.len() == 0 {
        crate::extract::windows_cite_their_lines(path, ls, DEFAULT_WINDOW, i);
    } else {
        let pre = preamble_of(path, ls, hs[0].row);
        lemma_headings(ls, ls.len() as int);
        if i < pre.len() {
            assert(sections_of(path, ls)[i] == pre[i]);
            assert(ls.take(hs[0].row) =~= ls.subrange(0, hs[0].row));
        } else {
            let k = i - pre.len();
            assert(sections_of(path, ls)[i] == section_at(path, ls, hs, k));
            lemma_next_row(hs, k + 1, hs[k].level, ls.len() as int, hs[k].row);
        }
    }
}

/// A section starts at a heading and goes on until the next heading that is
/// not below it, or to the end of the file; its breadcrumb ends with the title
/// of its heading.
pub proof fn sections_follow_headings(path: Seq<char>, ls: Seq<Seq<char>>, k: int)
    requires
        0 <= k < ls.len(),
        heading_of(ls[k]) is Some,
    ensures
        exists|i: int|
            0 <= i < sections_of(path, ls).len() && ({
                let c = #[trigger] sections_of(path, ls)[i];
                let (level, title) = heading_of(ls[k])->0;
                &&& c.start == k + 1 && c.kind == ChunkKind::Section
                &&& forall|r: int|
                    k < r < c.end ==> (heading_of(#[trigger] ls[r]) matches Some((l, _)) ==> l
                        > level)
                &&& c.end < ls.len() ==> (heading_of(ls[c.end]) matches Some((l, _)) && l <= level)
                &&& title.is_suffix_of(c.breadcrumb)
            }),
{
    let hs = headings_in(ls, ls.len() as int);
    lemma_headings(ls, ls.len() as int);
    lemma_headings_are(ls, ls.len() as int);
    let n = choose|n: int| 0 <= n < hs.len() && (#[trigger] hs[n]).row == k;
    let pre = preamble_of(path, ls, hs[0].row);
    let i = pre.len() + n;
    let c = sections_of(path, ls)[i as int];
    assert(c == section_at(path, ls, hs, n));
    let (level, title) = heading_of(ls[k])->0;
    let j = lemma_next_row_is(hs, n + 1, level, ls.len() as int);
    lemma_next_row(hs, n + 1, level, ls.len() as int, k);
    assert forall|r: int| k < r < c.end implies (heading_of(#[trigger] ls[r]) matches Some((l, _))
        ==> l > level) by {
        if heading_of(ls[r]) is Some {
            let m = choose|m: int| 0 <= m < hs.len() && (#[trigger] hs[m]).row == r;
            assert(m > n) by {
                if m < n {
                    assert(hs[m].row < hs[n].row);
                }
            }
            assert(m < j) by {
                if j < hs.len() && m >= j {
                    if m > j {
                        assert(hs[j].row < hs[m].row);
                    }
                }
            }
        }
    }
    let stack = stack_after(hs, n + 1);
    lemma_joined_last(stack, " > "@);
    assert(title.is_suffix_of(c.breadcrumb));
}

proof fn lemma_joined_last(parts: Seq<Seq<char>>, sep: Seq<char>)
    requires
        parts.len() > 0,
    ensures
        parts.last().is_suffix_of(joined(parts, sep)),
{
    let n = parts.len() - 1;
    let j = joined(parts, sep);
    let last = parts.last();
    if n == 0 {
        assert(j =~= last);
    }
    assert(last =~= j.subrange(j.len() - last.len(), j.len() as int));
}

/// The breadcrumb of a section starts with that of each section it lies in.
pub proof fn nested_sections_extend_breadcrumbs(path: Seq<char>, ls: Seq<Seq<char>>, a: int, b: int)
    requires
        headings_in(ls, ls.len() as int).len() > 0,
        0 <= a < b < headings_in(ls, ls.len() as int).len(),
        section_at(path, ls, headings_in(ls, ls.len() as int), b).start <= section_at(
            path,
            ls,
            headings_in(ls, ls.len() as int),
            a,
        ).end,
    ensures
        ({
            let hs = headings_in(ls, ls.len() as int);
            let outer = section_at(path, ls, hs, a).breadcrumb;
            (outer + " > "@).is_prefix_of(section_at(path, ls, hs, b).breadcrumb)
        }),
{
    let hs = headings_in(ls, ls.len() as int);
    lemma_headings(ls, ls.len() as int);
    let j = lemma_next_row_is(hs, a + 1, hs[a].level, ls.len() as int);
    assert(b < j) by {
        if j < hs.len() && b > j {
            assert(hs[j].row < hs[b].row);
        }
    }
    lemma_stack_keeps(hs, a, b);
    let s = stack_after(hs, a + 1);
    let t = stack_after(hs, b + 1);
    crate::text::joining_keeps_each_part(t, " > "@, s.len() as int);
    assert(t.take(s.len() as int) =~= s);
    let outer = joined(s, " > "@) + " > "@;
    let inner = joined(t, " > "@);
    assert(outer =~= inner.subrange(0, outer.len() as int));
}

proof fn lemma_stack_len(hs: Seq<HeadingView>, n: int)
    requires
        0 < n <= hs.len(),
        forall|i: int| 0 <= i < hs.len() ==> 1 <= (#[trigger] hs[i]).level,
    ensures
        0 < stack_after(hs, n).len() <= hs[n - 1].level,
        stack_after(hs, n).last() == hs[n - 1].title,
    decreases n,
{
    if n > 1 {
        lemma_stack_len(hs, n - 1);
    } else {
        assert(stack_after(hs, 0) =~= Seq::<Seq<char>>::empty());
    }
}

proof fn lemma_stack_keeps(hs: Seq<HeadingView>, a: int, b: int)
    requires
        0 <= a < b < hs.len(),
        forall|i: int| 0 <= i < hs.len() ==> 1 <= (#[trigger] hs[i]).level,
        forall|i: int| a < i <= b ==> (#[trigger] hs[i]).level > hs[a].level,
    ensures
        stack_after(hs, a + 1).len() > 0,
        stack_after(hs, b + 1).len() > stack_after(hs, a + 1).len(),
        stack_after(hs, b + 1).take(stack_after(hs, a + 1).len() as int) == stack_after(hs, a + 1),
    decreases b,
{
    let s = stack_after(hs, a + 1);
    lemma_stack_len(hs, a + 1);
    if b > a + 1 {
        lemma_stack_keeps(hs, a, b - 1);
    }
    let before = stack_after(hs, b);
    let now = stack_after(hs, b + 1);
    assert(before.take(s.len() as int) =~= s);
    assert(now.take(s.len() as int) =~= s);
}

/// A line of one to six `#`, a space and a title is a heading of that level,
/// however far it is indented; with more of them, or without the space, it is
/// none.
pub proof fn hash_lines_are_headings(indent: Seq<char>, n: int, rest: Seq<char>)
    requires
        1 <= n,
        forall|i: int| 0 <= i < indent.len() ==> crate::text::is_white(#[trigger] indent[i]),
        rest.len() > 0 ==> rest[0] != '#',
    ensures
        heading_of(indent + Seq::new(n as nat, |i: int| '#') + rest) == (if n <= 6 && rest.len() > 0
            && rest[0] == ' ' {
            Some((n, trimmed(rest.skip(1))))
        } else {
            None
        }),
{
    let marks = Seq::new(n as nat, |i: int| '#');
    let body = marks + rest;
    lemma_indented(indent, body);
    assert(indent + marks + rest =~= indent + body);
    assert(body[0] == '#');
    lemma_hashes(body, n);
    if rest.len() > 0 {
        assert(body[n] == rest[0]);
        assert(body.skip(n + 1) =~= rest.skip(1));
    }
}

proof fn lemma_indented(indent: Seq<char>, body: Seq<char>)
    requires
        forall|i: int| 0 <= i < indent.len() ==> crate::text::is_white(#[trigger] indent[i]),
        body.len() > 0,
        !crate::text::is_white(body[0]),
    ensures
        ltrimmed(indent + body) == body,
    decreases indent.len(),
{
    if indent.len() == 0 {
        assert(indent + body =~= body);
    } else {
        assert((indent + body)[0] == indent[0]);
        assert((indent + body).skip(1) =~= indent.skip(1) + body);
        lemma_indented(indent.skip(1), body);
    }
}

/// What stands before the first heading is not lost: unless it is blank, it is
/// the first chunk, from the first line to the one before that heading.
pub proof fn preambles_are_kept(path: Seq<char>, ls: Seq<Seq<char>>, k: int)
    requires
        0 < k < ls.len(),
        heading_of(ls[k]) is Some,
        forall|i: int| 0 <= i < k ==> heading_of(#[trigger] ls[i]) is None,
        trimmed(joined(ls.take(k), "\n"@)).len() > 0,
    ensures
        sections_of(path, ls).len() > 0,
        sections_of(path, ls)[0].start == 1,
        sections_of(path, ls)[0].end == k,
        sections_of(path, ls)[0].breadcrumb == "(preamble)"@,
{
    let hs = headings_in(ls, ls.len() as int);
    lemma_headings(ls, ls.len() as int);
    lemma_headings_are(ls, ls.len() as int);
    let n = choose|n: int| 0 <= n < hs.len() && (#[trigger] hs[n]).row == k;
    assert(hs[0].row == k) by {
        assert(heading_of(ls[hs[0].row]) is Some);
        if n > 0 {
            assert(hs[0].row < hs[n].row);
        }
    }
}

} // verus!
