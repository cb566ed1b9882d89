//! Extraction + chunking: symbols for code, sections for prose.
//!
//! Each [`Chunk`] carries its source location so indexed hits can cite
//! `path:start-end`. Supports tree-sitter symbols for known languages,
//! heading sections for Markdown, and fixed windows as fallback.

use vstd::prelude::*;
use vstd::utf8::{decode_utf8, valid_utf8};
use crate::bytes::{byte_len, lossy, utf8_lossy, within};
use crate::order::{greater, lesser};
use crate::outline::{
    bindings_of, lemma_bindings_placed, lemma_symbols_placed, nix_symbols, symbols, symbols_of,
};
use crate::paths::{extension, extension_of};
use crate::sections::{lemma_sections_placed, sections, sections_of};
use crate::syntax::{node_views, parse_nodes, parsed_nodes, rows_fit, Grammar, Node, NodeView};
use crate::text::{
    chars_of, decimal, decimal_of, join_range, joined, lines, lines_of, ltrimmed, same,
    starts_with, str_texts, texts, trim_start,
};

verus! {

/// Extractor version. Bump when chunking rules change; the index sync
/// treats a mismatch as a full reindex (chunk IDs of unchanged content
/// stay stable, so vectors re-embed incrementally).
pub const EXTRACT_VERSION: &'static str = "2";

/// Lines longer than this many bytes mark a file as generated/data: skipped.
pub const MAX_LINE_CHARS: usize = 8192;

/// Window `(size, step)` for fallback chunking.
pub type Window = (usize, usize);

/// Default fallback window: 150 lines, 15 overlap.
pub const DEFAULT_WINDOW: Window = (150, 135);

/// Tight fallback window for embedding: 50 lines, 10 overlap.
pub const EMBED_WINDOW: Window = (50, 40);

/// File-header comment blocks longer than this are cut: license boilerplate
/// is searchable enough in its first lines.
pub const HEADER_CAP_LINES: usize = 30;

/// Symbols longer than this are split. Parts keep the parent breadcrumb with
/// a `[i/n]` suffix. Sections stay whole: splitting prose breaks section
/// coherence.
pub const SYMBOL_CAP_LINES: usize = 80;

/// Step for symbol splits (15-line overlap, like the fallback windows).
pub const SYMBOL_STEP_LINES: usize = 65;

/// How a chunk was derived.
#[derive(Debug, Clone, Copy, PartialEq, Eq, Structural)]
pub enum ChunkKind {
    /// A language symbol (function, struct, class, ...).
    Symbol,
    /// A Markdown section.
    Section,
    /// Fixed-size line window (fallback).
    Window,
}

/// One retrievable unit of a file.
#[derive(Debug, Clone, PartialEq, Eq)]
pub struct Chunk {
    /// File the chunk came from, as passed in.
    pub path: String,
    /// 1-based first line.
    pub start: u64,
    /// 1-based last line (inclusive).
    pub end: u64,
    /// How the chunk was derived.
    pub kind: ChunkKind,
    /// Symbol path (`mod > Type > method`) or heading stack.
    pub breadcrumb: String,
    /// Chunk text including the signature/heading lines.
    pub text: String,
}

/// What a [`Chunk`] says, as mathematical values.
pub struct ChunkView {
    pub path: Seq<char>,
    pub start: int,
    pub end: int,
    pub kind: ChunkKind,
    pub breadcrumb: Seq<char>,
    pub text: Seq<char>,
}

impl View for Chunk {
    type V = ChunkView;

    open spec fn view(&self) -> ChunkView {
        ChunkView {
            path: self.path@,
            start: self.start as int,
            end: self.end as int,
            kind: self.kind,
            breadcrumb: self.breadcrumb@,
            text: self.text@,
        }
    }
}

/// What the chunks of `v` say.
pub open spec fn chunk_views(v: Seq<Chunk>) -> Seq<ChunkView> {
    Seq::new(v.len(), |i: int| v[i]@)
}

/// The rows `a` to `b` (0-based, inclusive) of `ls` as one text. Rows past the
/// end are missing, and at least the row `a` is asked for.
pub open spec fn rows_text(ls: Seq<Seq<char>>, a: int, b: int) -> Seq<char> {
    let lo = lesser(a, ls.len() as int);
    let hi = lesser(greater(a, b) + 1, ls.len() as int);
    joined(ls.subrange(lo, greater(lo, hi)), "\n"@)
}

/// The rows `a` to `b` of `ls` as one text.
pub fn slice_lines(ls: &[String], a: u64, b: u64) -> (r: String)
    ensures
        r@ == rows_text(texts(ls@), a as int, b as int),
{
    let n: usize = ls.len();
    let far: u64 = if a >= b {
        a
    } else {
        b
    };
    let lo: usize = if a <= n as u64 {
        a as usize
    } else {
        n
    };
    let hi: usize = if far < n as u64 {
        far as usize + 1
    } else {
        n
    };
    join_range(ls, lo, hi, "\n")
}

/// Whether the windows of `window` come to an end on `n` lines.
pub open spec fn window_ok(window: Window, n: int) -> bool {
    n == 0 || (window.0 >= 1 && (window.1 >= 1 || window.0 >= n))
}

/// The window that starts at row `start`.
pub open spec fn window_at(path: Seq<char>, ls: Seq<Seq<char>>, size: int, start: int) -> ChunkView {
    let end = lesser(start + size, ls.len() as int);
    ChunkView {
        path,
        start: start + 1,
        end,
        kind: ChunkKind::Window,
        breadcrumb: "lines "@ + decimal((start + 1) as nat) + "-"@ + decimal(end as nat),
        text: joined(ls.subrange(start, end), "\n"@),
    }
}

/// The windows from row `start` on, up to the first that reaches the end.
pub open spec fn windows_from(
    path: Seq<char>,
    ls: Seq<Seq<char>>,
    size: int,
    step: int,
    start: int,
) -> Seq<ChunkView>
    decreases ls.len() - start,
{
    if start < 0 || start >= ls.len() {
        Seq::empty()
    } else if start + size >= ls.len() || step <= 0 || start + step >= ls.len() {
        seq![window_at(path, ls, size, start)]
    } else {
        seq![window_at(path, ls, size, start)] + windows_from(path, ls, size, step, start + step)
    }
}

/// Fixed windows of `window.0` lines stepping `window.1`, with overlap.
pub open spec fn windows_of(path: Seq<char>, ls: Seq<Seq<char>>, window: Window) -> Seq<ChunkView> {
    windows_from(path, ls, window.0 as int, window.1 as int, 0)
}

/// Fixed windows of `window.0` lines stepping `window.1`, with overlap.
pub fn windows(path: &str, ls: &[String], window: Window) -> (r: Vec<Chunk>)
    requires
        window_ok(window, ls@.len() as int),
    ensures
        chunk_views(r@) == windows_of(path@, texts(ls@), window),
{
    let size: usize = window.0;
    let step: usize = window.1;
    let n: usize = ls.len();
    let mut out: Vec<Chunk> = Vec::new();
    let mut start: usize = 0;
    let ghost t = texts(ls@);
    let ghost all = windows_of(path@, t, window);
    proof {
        assert(chunk_views(out@) + all =~= all);
    }
    while start < n
        invariant
            n == ls@.len(),
            t == texts(ls@),
            size == window.0,
            step == window.1,
            window_ok(window, n as int),
            start > 0 ==> step >= 1,
            all == windows_of(path@, t, window),
            chunk_views(out@) + windows_from(path@, t, size as int, step as int, start as int)
                == all,
        decreases n - start,
    {
        let ghost before = out@;
        let last = size >= n - start;
        let end: usize = if last {
            n
        } else {
            start + size
        };
        let mut crumb = "lines ".to_owned();
        crumb.append(decimal_of(start as u64 + 1).as_str());
        crumb.append("-");
        crumb.append(decimal_of(end as u64).as_str());
        let c = Chunk {
            path: path.to_owned(),
            start: start as u64 + 1,
            end: end as u64,
            kind: ChunkKind::Window,
            breadcrumb: crumb,
            text: join_range(ls, start, end, "\n"),
        };
        out.push(c);
        let ghost rest = windows_from(path@, t, size as int, step as int, start + step);
        proof {
            assert(c@ == window_at(path@, t, size as int, start as int));
            assert(chunk_views(out@) =~= chunk_views(before).push(c@));
        }
        if last || step >= n - start {
            proof {
                assert(chunk_views(out@) =~= all);
            }
            return out;
        }
        proof {
            assert(chunk_views(out@) + rest =~= all);
        }
        start += step;
    }
    proof {
        assert(chunk_views(out@) =~= all);
    }
    out
}

/// The comment marker of the languages whose files may open with a header.
pub open spec fn marker_of(ext: Seq<char>) -> Option<Seq<char>> {
    if ext == "rs"@ || ext == "ts"@ || ext == "tsx"@ || ext == "mts"@ || ext == "cts"@ || ext
        == "js"@ || ext == "jsx"@ || ext == "mjs"@ || ext == "cjs"@ || ext == "go"@ || ext
        == "java"@ {
        Some("//"@)
    } else if ext == "py"@ || ext == "nix"@ || ext == "sh"@ || ext == "bash"@ || ext == "zsh"@ {
        Some("#"@)
    } else {
        None
    }
}

fn marker(ext: &str) -> (r: Option<&'static str>)
    ensures
        match r {
            Some(m) => marker_of(ext@) == Some(m@),
            None => marker_of(ext@) is None,
        },
{
    if same(ext, "rs") || same(ext, "ts") || same(ext, "tsx") || same(ext, "mts") || same(
        ext,
        "cts",
    ) || same(ext, "js") || same(ext, "jsx") || same(ext, "mjs") || same(ext, "cjs") || same(
        ext,
        "go",
    ) || same(ext, "java") {
        Some("//")
    } else if same(ext, "py") || same(ext, "nix") || same(ext, "sh") || same(ext, "bash") || same(
        ext,
        "zsh",
    ) {
        Some("#")
    } else {
        None
    }
}

/// Whether a line may stand before the comments of a header without being
/// one: it is blank, or a shebang.
pub open spec fn passed_over(line: Seq<char>) -> bool {
    ltrimmed(line).len() == 0 || "#!"@.is_prefix_of(ltrimmed(line))
}

/// Whether a line is a comment of a header.
pub open spec fn comment_line(line: Seq<char>, mark: Seq<char>) -> bool {
    !passed_over(line) && mark.is_prefix_of(ltrimmed(line))
}

/// How many lines come before the first that is neither passed over nor a comment.
pub open spec fn preamble_len(ls: Seq<Seq<char>>, mark: Seq<char>) -> int
    decreases ls.len(),
{
    if ls.len() == 0 || !(passed_over(ls[0]) || comment_line(ls[0], mark)) {
        0
    } else {
        1 + preamble_len(ls.skip(1), mark)
    }
}

/// The first of the first `n` lines that is a comment; -1 when none is.
pub open spec fn first_comment(ls: Seq<Seq<char>>, mark: Seq<char>, n: int) -> int
    decreases n,
{
    if n <= 0 {
        -1
    } else if first_comment(ls, mark, n - 1) >= 0 {
        first_comment(ls, mark, n - 1)
    } else if comment_line(ls[n - 1], mark) {
        n - 1
    } else {
        -1
    }
}

/// The last of the first `n` lines that is a comment; -1 when none is.
pub open spec fn last_comment(ls: Seq<Seq<char>>, mark: Seq<char>, n: int) -> int
    decreases n,
{
    if n <= 0 {
        -1
    } else if comment_line(ls[n - 1], mark) {
        n - 1
    } else {
        last_comment(ls, mark, n - 1)
    }
}

/// The header chunk from row `first` to row `last`, at most
/// [`HEADER_CAP_LINES`] lines of it.
pub open spec fn header_view(path: Seq<char>, ls: Seq<Seq<char>>, first: int, last: int) -> ChunkView {
    let end = lesser(last, first + HEADER_CAP_LINES - 1);
    ChunkView {
        path,
        start: first + 1,
        end: end + 1,
        kind: ChunkKind::Section,
        breadcrumb: "(header)"@,
        text: joined(ls.subrange(first, end + 1), "\n"@),
    }
}

/// The header chunk of a file: from the first comment of its preamble to the last.
pub open spec fn header_of(path: Seq<char>, ls: Seq<Seq<char>>, ext: Seq<char>) -> Option<ChunkView> {
    match marker_of(ext) {
        None => None,
        Some(mark) => {
            let n = preamble_len(ls, mark);
            if first_comment(ls, mark, n) < 0 {
                None
            } else {
                Some(header_view(path, ls, first_comment(ls, mark, n), last_comment(ls, mark, n)))
            }
        },
    }
}

/// What a chunk says, if there is one.
pub open spec fn chunk_view_opt(c: Option<Chunk>) -> Option<ChunkView> {
    match c {
        Some(c) => Some(c@),
        None => None,
    }
}

/// The preamble of `ls` is its longest prefix of lines that may stand there.
proof fn lemma_preamble_len(ls: Seq<Seq<char>>, mark: Seq<char>, k: int)
    requires
        0 <= k <= ls.len(),
        forall|i: int| 0 <= i < k ==> passed_over(#[trigger] ls[i]) || comment_line(ls[i], mark),
        k < ls.len() ==> !passed_over(ls[k]) && !comment_line(ls[k], mark),
    ensures
        preamble_len(ls, mark) == k,
    decreases ls.len(),
{
    if k > 0 {
        let t = ls.skip(1);
        assert forall|i: int| 0 <= i < k - 1 implies passed_over(#[trigger] t[i]) || comment_line(
            t[i],
            mark,
        ) by {
            assert(t[i] == ls[i + 1]);
        }
        lemma_preamble_len(t, mark, k - 1);
    }
}

/// Leading `#` / `//` comment block as its own chunk: file-header prose
/// otherwise vanishes, since symbol extractors only attach comments to
/// bindings. Skips shebangs and blank preamble; Markdown is excluded
/// (headings are content there).
pub fn header_chunk(path: &str, ls: &[String], ext: &str) -> (r: Option<Chunk>)
    ensures
        chunk_view_opt(r) == header_of(path@, texts(ls@), ext@),
{
    let mark: &'static str = match marker(ext) {
        None => {
            return None;
        },
        Some(m) => m,
    };
    let ghost t = texts(ls@);
    let mut first: Option<usize> = None;
    let mut last: usize = 0;
    let mut i: usize = 0;
    let mut open = true;
    while i < ls.len() && open
        invariant
            i <= ls@.len(),
            t == texts(ls@),
            marker_of(ext@) == Some(mark@),
            forall|j: int| 0 <= j < i ==> passed_over(#[trigger] t[j]) || comment_line(t[j], mark@),
            !open ==> i < ls@.len() && !passed_over(t[i as int]) && !comment_line(
                t[i as int],
                mark@,
            ),
            match first {
                None => first_comment(t, mark@, i as int) == -1,
                Some(f) => f <= last < i && first_comment(t, mark@, i as int) == f && last_comment(
                    t,
                    mark@,
                    i as int,
                ) == last,
            },
        decreases
                ls@.len() - i,
                if open {
                    1int
                } else {
                    0int
                },
    {
        let line = chars_of(ls[i].as_str());
        let body = trim_start(&line);
        proof {
            assert(t[i as int] == line@);
        }
        if body.len() == 0 || starts_with(body, "#!") {
            i += 1;
        } else if starts_with(body, mark) {
            if first.is_none() {
                first = Some(i);
            }
            last = i;
            i += 1;
        } else {
            open = false;
        }
    }
    proof {
        lemma_preamble_len(t, mark@, i as int);
    }
    match first {
        None => None,
        Some(f) => {
            let end: usize = if last - f >= HEADER_CAP_LINES {
                f + HEADER_CAP_LINES - 1
            } else {
                last
            };
            let c = Chunk {
                path: path.to_owned(),
                start: f as u64 + 1,
                end: end as u64 + 1,
                kind: ChunkKind::Section,
                breadcrumb: "(header)".to_owned(),
                text: join_range(ls, f, end + 1, "\n"),
            };
            proof {
                assert(c@ == header_view(path@, t, f as int, last as int));
            }
            Some(c)
        },
    }
}

/// Whether a chunk is a symbol of more than [`SYMBOL_CAP_LINES`] lines.
pub open spec fn oversized(c: ChunkView) -> bool {
    c.kind == ChunkKind::Symbol && c.end - c.start + 1 > SYMBOL_CAP_LINES
}

/// How many parts of [`SYMBOL_CAP_LINES`] lines, each [`SYMBOL_STEP_LINES`]
/// after the one before, it takes to reach the end of an oversized symbol.
pub open spec fn part_count(c: ChunkView) -> int {
    (c.end - c.start + 1 - SYMBOL_CAP_LINES + SYMBOL_STEP_LINES - 1) / (SYMBOL_STEP_LINES as int)
        + 1
}

/// Part `i` (0-based) of an oversized symbol.
pub open spec fn part_of(path: Seq<char>, ls: Seq<Seq<char>>, c: ChunkView, i: int) -> ChunkView {
    let start = c.start + i * SYMBOL_STEP_LINES;
    let end = lesser(
        lesser(start + SYMBOL_CAP_LINES - 1, c.end),
        greater(ls.len() as int, 1),
    );
    ChunkView {
        path,
        start,
        end,
        kind: ChunkKind::Symbol,
        breadcrumb: c.breadcrumb + " ["@ + decimal((i + 1) as nat) + "/"@ + decimal(
            part_count(c) as nat,
        ) + "]"@,
        text: rows_text(ls, start - 1, end - 1),
    }
}

/// The parts of a chunk: the chunk itself unless it is oversized.
pub open spec fn parts_of(path: Seq<char>, ls: Seq<Seq<char>>, c: ChunkView) -> Seq<ChunkView> {
    if oversized(c) {
        Seq::new(part_count(c) as nat, |i: int| part_of(path, ls, c, i))
    } else {
        seq![c]
    }
}

/// The parts of all chunks, in order.
pub open spec fn split_of(path: Seq<char>, ls: Seq<Seq<char>>, cs: Seq<ChunkView>) -> Seq<ChunkView>
    decreases cs.len(),
{
    if cs.len() == 0 {
        Seq::empty()
    } else {
        split_of(path, ls, cs.drop_last()) + parts_of(path, ls, cs.last())
    }
}

fn split_one(path: &str, ls: &[String], chunk: &Chunk, out: &mut Vec<Chunk>)
    requires
        oversized(chunk@),
        chunk.start >= 1,
    ensures
        chunk_views(final(out)@) == chunk_views(old(out)@) + parts_of(path@, texts(ls@), chunk@),
{
    let cap: u64 = SYMBOL_CAP_LINES as u64;
    let step: u64 = SYMBOL_STEP_LINES as u64;
    let span: u64 = chunk.end - chunk.start + 1;
    let n: u64 = (span - cap + step - 1) / step + 1;
    let total: u64 = if ls.len() == 0 {
        1
    } else {
        ls.len() as u64
    };
    let ghost all = parts_of(path@, texts(ls@), chunk@);
    let mut i: u64 = 0;
    proof {
        assert(n == part_count(chunk@));
        assert(chunk_views(out@) + all.take(0) =~= chunk_views(out@));
    }
    while i < n
        invariant
            i <= n,
            n == part_count(chunk@),
            cap == SYMBOL_CAP_LINES,
            step == SYMBOL_STEP_LINES,
            span == chunk.end - chunk.start + 1,
            n == (span - cap + step - 1) / (step as int) + 1,
            total == greater(ls@.len() as int, 1),
            oversized(chunk@),
            chunk.start >= 1,
            all == parts_of(path@, texts(ls@), chunk@),
            chunk_views(out@) == chunk_views(old(out)@) + all.take(i as int),
        decreases n - i,
    {
        let ghost before = out@;
        proof {
            assert(i * step <= (n - 1) * step) by (nonlinear_arith)
                requires
                    i <= n - 1,
            ;
            assert((n - 1) * step <= span - cap + step - 1) by (nonlinear_arith)
                requires
                    n - 1 == (span - cap + step - 1) / (step as int),
                    step == 65,
            ;
        }
        let start: u64 = chunk.start + i * step;
        let near: u64 = if chunk.end - start < cap {
            chunk.end
        } else {
            start + cap - 1
        };
        let end: u64 = if near <= total {
            near
        } else {
            total
        };
        let mut crumb = chunk.breadcrumb.clone();
        crumb.append(" [");
        crumb.append(decimal_of(i + 1).as_str());
        crumb.append("/");
        crumb.append(decimal_of(n).as_str());
        crumb.append("]");
        let c = Chunk {
            path: path.to_owned(),
            start,
            end,
            kind: ChunkKind::Symbol,
            breadcrumb: crumb,
            text: slice_lines(ls, start - 1, end - 1),
        };
        out.push(c);
        proof {
            assert(c@ == part_of(path@, texts(ls@), chunk@, i as int));
            assert(all[i as int] == c@);
            assert(chunk_views(out@) =~= chunk_views(before).push(c@));
            assert(all.take(i + 1) =~= all.take(i as int).push(c@));
            assert(chunk_views(out@) =~= chunk_views(old(out)@) + all.take(i + 1));
        }
        i += 1;
    }
    proof {
        assert(all.take(n as int) =~= all);
    }
}

/// Split over-long symbol chunks into overlapping parts. Parts inherit the
/// parent breadcrumb with a `[i/n]` suffix so symbol context survives the
/// split and chunk IDs stay deterministic.
pub fn split_oversized(path: &str, ls: &[String], chunks: Vec<Chunk>) -> (r: Vec<Chunk>)
    requires
        forall|i: int|
            0 <= i < chunks@.len() && oversized((#[trigger] chunks@[i])@) ==> chunks@[i].start >= 1,
    ensures
        chunk_views(r@) == split_of(path@, texts(ls@), chunk_views(chunks@)),
{
    let mut out: Vec<Chunk> = Vec::new();
    let ghost t = texts(ls@);
    let ghost cs = chunk_views(chunks@);
    proof {
        assert(chunk_views(out@) =~= split_of(path@, t, cs.take(0)));
    }
    for chunk in it: chunks
        invariant
            it.seq() == chunks@,
            t == texts(ls@),
            cs == chunk_views(chunks@),
            forall|i: int|
                0 <= i < chunks@.len() && oversized((#[trigger] chunks@[i])@) ==> chunks@[i].start
                    >= 1,
            chunk_views(out@) == split_of(path@, t, cs.take(it.index())),
    {
        let ghost before = out@;
        let ghost k = it.index();
        let ghost c = chunk@;
        proof {
            assert(cs.take(k + 1).drop_last() =~= cs.take(k));
            assert(cs.take(k + 1).last() == c);
        }
        if chunk.kind == ChunkKind::Symbol && chunk.end > chunk.start && chunk.end - chunk.start
            >= SYMBOL_CAP_LINES as u64 {
            split_one(path, ls, &chunk, &mut out);
        } else {
            out.push(chunk);
            proof {
                assert(chunk_views(out@) =~= chunk_views(before) + seq![c]);
            }
        }
    }
    proof {
        assert(cs.take(cs.len() as int) =~= cs);
    }
    out
}

/// The lines of a chunk are counted from 1.
pub open spec fn placed(cs: Seq<ChunkView>) -> bool {
    forall|i: int| 0 <= i < cs.len() ==> (#[trigger] cs[i]).start >= 1
}

/// Windows are placed.
pub proof fn lemma_windows_placed(path: Seq<char>, ls: Seq<Seq<char>>, size: int, step: int, start: int)
    ensures
        placed(windows_from(path, ls, size, step, start)),
    decreases ls.len() - start,
{
    if 0 <= start < ls.len() && start + size < ls.len() && step > 0 && start + step < ls.len() {
        lemma_windows_placed(path, ls, size, step, start + step);
        let rest = windows_from(path, ls, size, step, start + step);
        let all = windows_from(path, ls, size, step, start);
        assert forall|i: int| 0 <= i < all.len() implies (#[trigger] all[i]).start >= 1 by {
            if i > 0 {
                assert(all[i] == rest[i - 1]);
            }
        }
    }
}

/// The first comment comes before the last, and both are among the lines asked of.
pub proof fn lemma_comments(ls: Seq<Seq<char>>, mark: Seq<char>, n: int)
    ensures
        -1 <= first_comment(ls, mark, n) <= last_comment(ls, mark, n),
        last_comment(ls, mark, n) < greater(n, 0),
        first_comment(ls, mark, n) == -1 <==> last_comment(ls, mark, n) == -1,
    decreases n,
{
    if n > 0 {
        lemma_comments(ls, mark, n - 1);
    }
}

/// Which parser reads files with an extension.
pub open spec fn grammar_of(ext: Seq<char>) -> Option<Grammar> {
    if ext == "rs"@ {
        Some(Grammar::Rust)
    } else if ext == "py"@ {
        Some(Grammar::Python)
    } else if ext == "ts"@ || ext == "mts"@ || ext == "cts"@ {
        Some(Grammar::TypeScript)
    } else if ext == "tsx"@ || ext == "jsx"@ || ext == "js"@ || ext == "mjs"@ || ext == "cjs"@ {
        Some(Grammar::Tsx)
    } else if ext == "go"@ {
        Some(Grammar::Go)
    } else if ext == "java"@ {
        Some(Grammar::Java)
    } else if ext == "nix"@ {
        Some(Grammar::Nix)
    } else {
        None
    }
}

/// Whether files with an extension are Markdown.
pub open spec fn markdown(ext: Seq<char>) -> bool {
    ext == "md"@ || ext == "markdown"@
}

/// The kinds of nodes that are symbols in a grammar. Nix has bindings instead.
pub open spec fn kinds_of(g: Grammar) -> Seq<Seq<char>> {
    match g {
        Grammar::Rust => seq![
            "function_item"@,
            "struct_item"@,
            "enum_item"@,
            "union_item"@,
            "trait_item"@,
            "impl_item"@,
            "mod_item"@,
            "const_item"@,
            "static_item"@,
            "type_item"@,
            "macro_definition"@,
        ],
        Grammar::Python => seq!["function_definition"@, "class_definition"@],
        Grammar::TypeScript | Grammar::Tsx => seq![
            "function_declaration"@,
            "generator_function_declaration"@,
            "class_declaration"@,
            "abstract_class_declaration"@,
            "interface_declaration"@,
            "type_alias_declaration"@,
            "enum_declaration"@,
        ],
        Grammar::Go => seq!["function_declaration"@, "method_declaration"@, "type_spec"@],
        Grammar::Java => seq![
            "method_declaration"@,
            "class_declaration"@,
            "interface_declaration"@,
            "enum_declaration"@,
            "annotation_type_declaration"@,
        ],
        Grammar::Nix => seq![],
    }
}

/// Which parser reads files with an extension.
pub fn grammar_for(ext: &str) -> (r: Option<Grammar>)
    ensures
        r == grammar_of(ext@),
{
    if same(ext, "rs") {
        Some(Grammar::Rust)
    } else if same(ext, "py") {
        Some(Grammar::Python)
    } else if same(ext, "ts") || same(ext, "mts") || same(ext, "cts") {
        Some(Grammar::TypeScript)
    } else if same(ext, "tsx") || same(ext, "jsx") || same(ext, "js") || same(ext, "mjs") || same(
        ext,
        "cjs",
    ) {
        Some(Grammar::Tsx)
    } else if same(ext, "go") {
        Some(Grammar::Go)
    } else if same(ext, "java") {
        Some(Grammar::Java)
    } else if same(ext, "nix") {
        Some(Grammar::Nix)
    } else {
        None
    }
}

fn kinds_for(g: Grammar) -> (r: Vec<&'static str>)
    ensures
        str_texts(r@) == kinds_of(g),
{
    let r: Vec<&'static str> = match g {
        Grammar::Rust => vec![
            "function_item",
            "struct_item",
            "enum_item",
            "union_item",
            "trait_item",
            "impl_item",
            "mod_item",
            "const_item",
            "static_item",
            "type_item",
            "macro_definition",
        ],
        Grammar::Python => vec!["function_definition", "class_definition"],
        Grammar::TypeScript | Grammar::Tsx => vec![
            "function_declaration",
            "generator_function_declaration",
            "class_declaration",
            "abstract_class_declaration",
            "interface_declaration",
            "type_alias_declaration",
            "enum_declaration",
        ],
        // `type_spec` carries the name; `type_declaration` is the unnamed
        // wrapper around it.
        Grammar::Go => vec!["function_declaration", "method_declaration", "type_spec"],
        Grammar::Java => vec![
            "method_declaration",
            "class_declaration",
            "interface_declaration",
            "enum_declaration",
            "annotation_type_declaration",
        ],
        Grammar::Nix => vec![],
    };
    proof {
        assert(str_texts(r@) =~= kinds_of(g));
    }
    r
}

/// The extension of a path, empty where it has none.
pub open spec fn ext_of(path: Seq<char>) -> Seq<char> {
    match extension_of(path) {
        Some(e) => e,
        None => Seq::empty(),
    }
}

/// The chunks of a file before its header is put first and its long symbols
/// are split. `tree` is what the parser for its extension made of it.
pub open spec fn body_of(
    path: Seq<char>,
    text: Seq<char>,
    window: Window,
    tree: Option<Seq<NodeView>>,
) -> Seq<ChunkView> {
    let ext = ext_of(path);
    if markdown(ext) {
        sections_of(path, lines_of(text))
    } else {
        match grammar_of(ext) {
            None => windows_of(path, lines_of(text), window),
            Some(Grammar::Nix) => bindings_of(path, text, tree, window),
            Some(g) => symbols_of(path, text, kinds_of(g), tree, window),
        }
    }
}

/// The chunks of a file, given what the parser for its extension made of it.
pub open spec fn extracted(
    path: Seq<char>,
    text: Seq<char>,
    window: Window,
    tree: Option<Seq<NodeView>>,
) -> Seq<ChunkView> {
    let body = body_of(path, text, window, tree);
    let all = match header_of(path, lines_of(text), ext_of(path)) {
        Some(h) => seq![h] + body,
        None => body,
    };
    split_of(path, lines_of(text), all)
}

/// The nodes of a file under the parser for its extension; none where no
/// parser reads such files.
pub open spec fn tree_of(path: Seq<char>, text: Seq<char>) -> Option<Seq<NodeView>> {
    match grammar_of(ext_of(path)) {
        Some(g) => parsed_nodes(g, text),
        None => None,
    }
}

/// Extract from a file that has been parsed: `tree` lists the nodes of the
/// parse, parents before children. Symbols and sections do not depend on the
/// window.
pub fn extract_parsed(path: &str, text: &str, window: Window, tree: &Option<Vec<Node>>) -> (r: Vec<Chunk>)
    requires
        markdown(ext_of(path@)) || window_ok(window, lines_of(text@).len() as int),
        tree matches Some(ns) ==> rows_fit(node_views(ns@)),
    ensures
        chunk_views(r@) == extracted(
            path@,
            text@,
            window,
            (match tree {
                Some(ns) => Some(node_views(ns@)),
                None => None,
            }),
        ),
{
    let ext = match extension(path) {
        Some(e) => e,
        None => String::new(),
    };
    let ls = lines(text);
    let ghost t = lines_of(text@);
    let ghost tv: Option<Seq<NodeView>> = match tree {
        Some(ns) => Some(node_views(ns@)),
        None => None,
    };
    proof {
        assert(ext@ =~= ext_of(path@));
        assert(texts(ls@).len() == ls@.len());
    }
    let body: Vec<Chunk> = if same(ext.as_str(), "md") || same(ext.as_str(), "markdown") {
        proof {
            lemma_sections_placed(path@, t);
        }
        sections(path, &ls)
    } else {
        match grammar_for(ext.as_str()) {
            None => {
                proof {
                    lemma_windows_placed(path@, t, window.0 as int, window.1 as int, 0);
                }
                windows(path, &ls, window)
            },
            Some(Grammar::Nix) => {
                proof {
                    lemma_bindings_placed(path@, text@, tv, window);
                }
                nix_symbols(path, text, tree, window)
            },
            Some(g) => {
                proof {
                    lemma_symbols_placed(path@, text@, kinds_of(g), tv, window);
                }
                symbols(path, text, &kinds_for(g), tree, window)
            },
        }
    };
    let ghost bv = chunk_views(body@);
    let mut all: Vec<Chunk> = Vec::new();
    if let Some(h) = header_chunk(path, &ls, ext.as_str()) {
        all.push(h);
        proof {
            assert(chunk_views(all@) =~= seq![h@]);
            let mark = marker_of(ext@).unwrap();
            lemma_comments(t, mark, preamble_len(t, mark));
        }
    }
    let ghost head = chunk_views(all@);
    let mut rest = body;
    all.append(&mut rest);
    proof {
        assert(chunk_views(all@) =~= head + bv);
        assert(chunk_views(all@) =~= (match header_of(path@, t, ext@) {
            Some(h) => seq![h] + bv,
            None => bv,
        }));
        assert forall|i: int| 0 <= i < all@.len() implies (#[trigger] all@[i]).start >= 1 by {
            assert(chunk_views(all@)[i] == all@[i]@);
            if i >= head.len() {
                assert((head + bv)[i] == bv[i - head.len()]);
            }
        }
    }
    split_oversized(path, &ls, all)
}

/// Extract with an explicit fallback window (symbols/sections unaffected).
pub fn extract_with(path: &str, text: &str, window: Window) -> (r: Vec<Chunk>)
    requires
        markdown(ext_of(path@)) || window_ok(window, lines_of(text@).len() as int),
    ensures
        chunk_views(r@) == extracted(path@, text@, window, tree_of(path@, text@)),
{
    let ext = match extension(path) {
        Some(e) => e,
        None => String::new(),
    };
    proof {
        assert(ext@ =~= ext_of(path@));
    }
    let tree = match grammar_for(ext.as_str()) {
        Some(g) => parse_nodes(g, text),
        None => None,
    };
    extract_parsed(path, text, window, &tree)
}

/// Extract chunks from in-memory `text` for `path`, dispatching on extension.
pub fn extract(path: &str, text: &str) -> (r: Vec<Chunk>)
    ensures
        chunk_views(r@) == extracted(path@, text@, DEFAULT_WINDOW, tree_of(path@, text@)),
{
    extract_with(path, text, DEFAULT_WINDOW)
}

/// Whether a text has a line that is too long for code or prose.
pub open spec fn generated(text: Seq<char>) -> bool {
    exists|i: int|
        0 <= i < lines_of(text).len() && byte_len(#[trigger] lines_of(text)[i]) > MAX_LINE_CHARS
}

/// The chunks of a file's text: none for generated files (huge lines).
pub open spec fn text_chunks(path: Seq<char>, text: Seq<char>, window: Window) -> Seq<ChunkView> {
    if generated(text) {
        Seq::empty()
    } else {
        extracted(path, text, window, tree_of(path, text))
    }
}

fn has_long_line(ls: &[String]) -> (r: bool)
    ensures
        r == exists|i: int| 0 <= i < ls@.len() && byte_len(#[trigger] texts(ls@)[i]) > MAX_LINE_CHARS,
{
    let mut i: usize = 0;
    while i < ls.len()
        invariant
            i <= ls@.len(),
            forall|j: int| 0 <= j < i ==> byte_len(#[trigger] texts(ls@)[j]) <= MAX_LINE_CHARS,
        decreases ls@.len() - i,
    {
        proof {
            assert(texts(ls@)[i as int] == ls@[i as int]@);
        }
        if !within(&chars_of(ls[i].as_str()), MAX_LINE_CHARS) {
            return true;
        }
        i += 1;
    }
    false
}

/// Extract from the text of a file. Generated files (huge lines) yield no chunks.
pub fn extract_text(path: &str, text: &str, window: Window) -> (r: Vec<Chunk>)
    requires
        generated(text@) || markdown(ext_of(path@)) || window_ok(
            window,
            lines_of(text@).len() as int,
        ),
    ensures
        chunk_views(r@) == text_chunks(path@, text@, window),
{
    let ls = lines(text);
    proof {
        assert(texts(ls@).len() == ls@.len());
    }
    if has_long_line(&ls) {
        let none: Vec<Chunk> = Vec::new();
        proof {
            assert(chunk_views(none@) =~= Seq::<ChunkView>::empty());
        }
        return none;
    }
    extract_with(path, text, window)
}

fn has_nul(bytes: &[u8]) -> (r: bool)
    ensures
        r == bytes@.contains(0u8),
{
    let mut i: usize = 0;
    while i < bytes.len()
        invariant
            i <= bytes@.len(),
            forall|j: int| 0 <= j < i ==> bytes@[j] != 0,
        decreases bytes@.len() - i,
    {
        if bytes[i] == 0 {
            return true;
        }
        i += 1;
    }
    false
}

/// Extract from the bytes of a file with an explicit fallback window.
///
/// Binary files (containing NUL) and generated files (huge lines) yield no
/// chunks.
pub fn extract_file_with(path: &str, bytes: &[u8], window: Window) -> (r: Vec<Chunk>)
    requires
        bytes@.contains(0u8) || markdown(ext_of(path@)) || (window.0 >= 1 && window.1 >= 1),
    ensures
        chunk_views(r@) == (if bytes@.contains(0u8) {
            Seq::empty()
        } else {
            text_chunks(path@, utf8_lossy(bytes@), window)
        }),
        valid_utf8(bytes@) && !bytes@.contains(0u8) ==> chunk_views(r@) == text_chunks(
            path@,
            decode_utf8(bytes@),
            window,
        ),
{
    if has_nul(bytes) {
        let none: Vec<Chunk> = Vec::new();
        proof {
            assert(chunk_views(none@) =~= Seq::<ChunkView>::empty());
        }
        return none;
    }
    let text = lossy(bytes);
    extract_text(path, text.as_str(), window)
}

/// Extract chunks from the bytes of a file, dispatching on file extension.
///
/// Binary files (containing NUL) and generated files (huge lines) yield no
/// chunks.
pub fn extract_file(path: &str, bytes: &[u8]) -> (r: Vec<Chunk>)
    ensures
        chunk_views(r@) == (if bytes@.contains(0u8) {
            Seq::empty()
        } else {
            text_chunks(path@, utf8_lossy(bytes@), DEFAULT_WINDOW)
        }),
        valid_utf8(bytes@) && !bytes@.contains(0u8) ==> chunk_views(r@) == text_chunks(
            path@,
            decode_utf8(bytes@),
            DEFAULT_WINDOW,
        ),
{
    extract_file_with(path, bytes, DEFAULT_WINDOW)
}

/// Whether a chunk holds a line.
pub open spec fn holds_line(c: ChunkView, line: int) -> bool {
    c.start <= line <= c.end
}

/// The number of the first of the smallest chunks, among the first `n`, that
/// hold a line.
pub open spec fn smallest_at(cs: Seq<ChunkView>, line: int, n: int) -> Option<int>
    decreases n,
{
    if n <= 0 {
        None
    } else {
        let b = smallest_at(cs, line, n - 1);
        let c = cs[n - 1];
        if !holds_line(c, line) {
            b
        } else {
            match b {
                None => Some(n - 1),
                Some(k) => if c.end - c.start < cs[k].end - cs[k].start {
                    Some(n - 1)
                } else {
                    b
                },
            }
        }
    }
}

/// What the choice of `smallest_at` comes to: a chunk that holds the line, and
/// none that is smaller or comes before it.
pub proof fn smallest_chunk_is_chosen(cs: Seq<ChunkView>, line: int, n: int)
    requires
        0 <= n <= cs.len(),
    ensures
        match smallest_at(cs, line, n) {
            None => forall|i: int| 0 <= i < n ==> !holds_line(#[trigger] cs[i], line),
            Some(k) => {
                &&& 0 <= k < n
                &&& holds_line(cs[k], line)
                &&& forall|i: int|
                    0 <= i < n && holds_line(#[trigger] cs[i], line) ==> cs[k].end - cs[k].start
                        < cs[i].end - cs[i].start || (cs[k].end - cs[k].start == cs[i].end
                        - cs[i].start && k <= i)
            },
        },
    decreases n,
{
    if n > 0 {
        smallest_chunk_is_chosen(cs, line, n - 1);
    }
}

/// The smallest chunk that holds a 1-based line.
pub fn enclosing(chunks: Vec<Chunk>, line: u64) -> (r: Option<Chunk>)
    ensures
        chunk_view_opt(r) == (match smallest_at(
            chunk_views(chunks@),
            line as int,
            chunks@.len() as int,
        ) {
            Some(k) => Some(chunk_views(chunks@)[k]),
            None => None,
        }),
{
    let ghost cv = chunk_views(chunks@);
    let mut best: Option<usize> = None;
    let mut i: usize = 0;
    while i < chunks.len()
        invariant
            i <= chunks@.len(),
            cv == chunk_views(chunks@),
            match best {
                Some(k) => smallest_at(cv, line as int, i as int) == Some(k as int) && k < i
                    && holds_line(cv[k as int], line as int),
                None => smallest_at(cv, line as int, i as int) is None,
            },
        decreases chunks@.len() - i,
    {
        proof {
            assert(cv[i as int] == chunks@[i as int]@);
        }
        if chunks[i].start <= line && line <= chunks[i].end {
            match best {
                None => {
                    best = Some(i);
                },
                Some(k) => {
                    proof {
                        assert(cv[k as int] == chunks@[k as int]@);
                    }
                    if chunks[i].end - chunks[i].start < chunks[k].end - chunks[k].start {
                        best = Some(i);
                    }
                },
            }
        }
        i += 1;
    }
    match best {
        None => None,
        Some(k) => {
            let mut all = chunks;
            let c = all.swap_remove(k);
            proof {
                assert(cv[k as int] == c@);
            }
            Some(c)
        },
    }
}

/// The windows of a file leave out no line, provided each starts no later
/// than where the one before it ends.
pub proof fn windows_leave_no_gap(path: Seq<char>, ls: Seq<Seq<char>>, window: Window, line: int)
    requires
        1 <= window.1 <= window.0,
        1 <= line <= ls.len(),
    ensures
        exists|i: int|
            0 <= i < windows_of(path, ls, window).len() && (#[trigger] windows_of(
                path,
                ls,
                window,
            )[i]).start <= line <= windows_of(path, ls, window)[i].end,
{
    lemma_windows_cover(path, ls, window.0 as int, window.1 as int, 0, line);
    let all = windows_of(path, ls, window);
    let i = choose|i: int| 0 <= i < all.len() && (#[trigger] all[i]).start <= line <= all[i].end;
    assert(windows_of(path, ls, window)[i].start <= line);
}

proof fn lemma_windows_cover(path: Seq<char>, ls: Seq<Seq<char>>, size: int, step: int, start: int, line: int)
    requires
        1 <= step <= size,
        0 <= start,
        start + 1 <= line <= ls.len(),
    ensures
        exists|i: int|
            0 <= i < windows_from(path, ls, size, step, start).len() && (#[trigger] windows_from(
                path,
                ls,
                size,
                step,
                start,
            )[i]).start <= line <= windows_from(path, ls, size, step, start)[i].end,
    decreases ls.len() - start,
{
    let all = windows_from(path, ls, size, step, start);
    assert(all[0] == window_at(path, ls, size, start));
    if line > all[0].end {
        lemma_windows_cover(path, ls, size, step, start + step, line);
        let rest = windows_from(path, ls, size, step, start + step);
        let i = choose|i: int|
            0 <= i < rest.len() && (#[trigger] rest[i]).start <= line <= rest[i].end;
        assert(all[i + 1] == rest[i]);
    }
}

/// Each window starts where its number says, holds at most `window.0` lines,
/// and names its lines in its breadcrumb.
pub proof fn windows_step_evenly(path: Seq<char>, ls: Seq<Seq<char>>, window: Window, i: int)
    requires
        window.0 >= 1,
        window.1 >= 1,
        0 <= i < windows_of(path, ls, window).len(),
    ensures
        windows_of(path, ls, window)[i].start == 1 + i * window.1,
        windows_of(path, ls, window)[i] == window_at(path, ls, window.0 as int, i * window.1),
        windows_of(path, ls, window)[i].end - windows_of(path, ls, window)[i].start < window.0,
        windows_of(path, ls, window)[i].end <= ls.len(),
{
    lemma_windows_at(path, ls, window.0 as int, window.1 as int, 0, i);
}

proof fn lemma_windows_at(path: Seq<char>, ls: Seq<Seq<char>>, size: int, step: int, start: int, i: int)
    requires
        1 <= step,
        1 <= size,
        0 <= start,
        0 <= i < windows_from(path, ls, size, step, start).len(),
    ensures
        windows_from(path, ls, size, step, start)[i] == window_at(path, ls, size, start + i * step),
        start + i * step < ls.len(),
    decreases i,
{
    if i > 0 {
        let rest = windows_from(path, ls, size, step, start + step);
        assert(windows_from(path, ls, size, step, start)[i] == rest[i - 1]);
        lemma_windows_at(path, ls, size, step, start + step, i - 1);
        assert(start + step + (i - 1) * step == start + i * step) by (nonlinear_arith);
    } else {
        assert(i * step == 0) by (nonlinear_arith)
            requires
                i == 0,
        ;
    }
}

/// The parts of an oversized symbol cover its lines without a gap, hold at
/// most [`SYMBOL_CAP_LINES`] lines each, start and end with the symbol, and
/// keep its breadcrumb.
pub proof fn parts_cover_symbol(path: Seq<char>, ls: Seq<Seq<char>>, c: ChunkView)
    requires
        oversized(c),
        1 <= c.start,
        c.end <= ls.len(),
    ensures
        parts_of(path, ls, c).len() >= 2,
        parts_of(path, ls, c)[0].start == c.start,
        parts_of(path, ls, c).last().end == c.end,
        forall|i: int|
            0 <= i < parts_of(path, ls, c).len() ==> {
                let p = #[trigger] parts_of(path, ls, c)[i];
                &&& p.kind == ChunkKind::Symbol
                &&& p.start <= p.end < p.start + SYMBOL_CAP_LINES
                &&& c.start <= p.start
                &&& p.end <= c.end
                &&& c.breadcrumb.is_prefix_of(p.breadcrumb)
            },
        forall|i: int|
            0 <= i < parts_of(path, ls, c).len() - 1 ==> (#[trigger] parts_of(path, ls, c)[i]).end
                + 1 - parts_of(path, ls, c)[i + 1].start == SYMBOL_CAP_LINES - SYMBOL_STEP_LINES,
{
    let n = part_count(c);
    let span = c.end - c.start + 1;
    let parts = parts_of(path, ls, c);
    assert(n - 1 == (span - 16) / 65);
    assert(span - 80 <= (n - 1) * 65 <= span - 16) by (nonlinear_arith)
        requires
            n - 1 == (span - 16) / 65,
    ;
    assert(parts.last() == part_of(path, ls, c, n - 1));
    assert forall|i: int| 0 <= i < n implies {
        let p = #[trigger] parts[i];
        &&& p.kind == ChunkKind::Symbol
        &&& p.start <= p.end < p.start + SYMBOL_CAP_LINES
        &&& c.start <= p.start
        &&& p.end <= c.end
        &&& c.breadcrumb.is_prefix_of(p.breadcrumb)
    } by {
        assert(0 <= i * 65 <= (n - 1) * 65) by (nonlinear_arith)
            requires
                0 <= i <= n - 1,
        ;
        assert(c.breadcrumb =~= parts[i].breadcrumb.subrange(0, c.breadcrumb.len() as int));
    }
    assert forall|i: int| 0 <= i < n - 1 implies (#[trigger] parts[i]).end + 1 - parts[i + 1].start
        == SYMBOL_CAP_LINES - SYMBOL_STEP_LINES by {
        assert(i * 65 + 65 <= (n - 1) * 65) by (nonlinear_arith)
            requires
                i + 1 <= n - 1,
        ;
    }
}

/// A chunk that is not oversized comes through the split as it is.
pub proof fn small_chunks_stay_whole(path: Seq<char>, ls: Seq<Seq<char>>, cs: Seq<ChunkView>)
    requires
        forall|i: int| 0 <= i < cs.len() ==> !oversized(#[trigger] cs[i]),
    ensures
        split_of(path, ls, cs) == cs,
    decreases cs.len(),
{
    if cs.len() > 0 {
        let t = cs.drop_last();
        assert forall|i: int| 0 <= i < t.len() implies !oversized(#[trigger] t[i]) by {
            assert(t[i] == cs[i]);
        }
        small_chunks_stay_whole(path, ls, t);
        assert(t + seq![cs.last()] =~= cs);
    }
}

/// A window shows the very lines that it cites, lies within the file, and is
/// named after those lines.
pub proof fn windows_cite_their_lines(path: Seq<char>, ls: Seq<Seq<char>>, window: Window, i: int)
    requires
        window_ok(window, ls.len() as int),
        0 <= i < windows_of(path, ls, window).len(),
    ensures
        ({
            let c = windows_of(path, ls, window)[i];
            &&& c.path == path && c.kind == ChunkKind::Window
            &&& 1 <= c.start <= c.end <= ls.len()
            &&& c.text == joined(ls.subrange(c.start - 1, c.end), "\n"@)
            &&& c.breadcrumb == "lines "@ + decimal(c.start as nat) + "-"@ + decimal(c.end as nat)
            &&& c.end - c.start < window.0
        }),
{
    lemma_window_lines(path, ls, window.0 as int, window.1 as int, 0, i);
}

proof fn lemma_window_lines(
    path: Seq<char>,
    ls: Seq<Seq<char>>,
    size: int,
    step: int,
    start: int,
    i: int,
)
    requires
        0 <= start,
        1 <= size || ls.len() == 0,
        0 <= i < windows_from(path, ls, size, step, start).len(),
    ensures
        ({
            let c = windows_from(path, ls, size, step, start)[i];
            &&& c.path == path && c.kind == ChunkKind::Window
            &&& 1 <= c.start <= c.end <= ls.len()
            &&& c.text == joined(ls.subrange(c.start - 1, c.end), "\n"@)
            &&& c.breadcrumb == "lines "@ + decimal(c.start as nat) + "-"@ + decimal(c.end as nat)
            &&& c.end - c.start < size
        }),
    decreases ls.len() - start,
{
    if i > 0 {
        let rest = windows_from(path, ls, size, step, start + step);
        assert(windows_from(path, ls, size, step, start)[i] == rest[i - 1]);
        lemma_window_lines(path, ls, size, step, start + step, i - 1);
    }
}

/// A header is the block of comments that a file opens with: it starts and
/// ends with a comment unless it is cut after thirty lines, nothing but blank
/// lines and a shebang stand before it, each of its lines is a comment, blank
/// or a shebang, and it shows the lines that it cites.
pub proof fn headers_are_opening_comments(path: Seq<char>, ls: Seq<Seq<char>>, ext: Seq<char>)
    requires
        header_of(path, ls, ext) is Some,
    ensures
        ({
            let c = header_of(path, ls, ext)->0;
            let mark = marker_of(ext)->0;
            &&& c.path == path && c.kind == ChunkKind::Section && c.breadcrumb == "(header)"@
            &&& 1 <= c.start <= c.end <= ls.len() && c.end - c.start < 30
            &&& c.text == joined(ls.subrange(c.start - 1, c.end), "\n"@)
            &&& mark.is_prefix_of(ltrimmed(ls[c.start - 1]))
            &&& c.end - c.start < 29 ==> mark.is_prefix_of(ltrimmed(ls[c.end - 1]))
            &&& forall|i: int|
                0 <= i < c.start - 1 ==> ltrimmed(#[trigger] ls[i]).len() == 0
                    || "#!"@.is_prefix_of(ltrimmed(ls[i]))
            &&& forall|i: int|
                0 <= i < c.end ==> ltrimmed(#[trigger] ls[i]).len() == 0 || "#!"@.is_prefix_of(
                    ltrimmed(ls[i]),
                ) || mark.is_prefix_of(ltrimmed(ls[i]))
        }),
{
    let mark = marker_of(ext)->0;
    let n = preamble_len(ls, mark);
    lemma_preamble_lines(ls, mark);
    lemma_comments(ls, mark, n);
    lemma_comment_ends(ls, mark, n);
}

/// A file whose first line that is neither blank nor a shebang is a comment
/// has a header, and it starts there.
pub proof fn opening_comments_have_a_header(path: Seq<char>, ls: Seq<Seq<char>>, ext: Seq<char>, k: int)
    requires
        marker_of(ext) is Some,
        0 <= k < ls.len(),
        forall|i: int| 0 <= i < k ==> ltrimmed(#[trigger] ls[i]).len() == 0,
        ltrimmed(ls[k]).len() > 0,
        !("#!"@.is_prefix_of(ltrimmed(ls[k]))),
        (marker_of(ext)->0).is_prefix_of(ltrimmed(ls[k])),
    ensures
        header_of(path, ls, ext) matches Some(c) && c.start == k + 1,
{
    let mark = marker_of(ext)->0;
    let n = preamble_len(ls, mark);
    lemma_preamble_lines(ls, mark);
    lemma_comments(ls, mark, n);
    lemma_comment_ends(ls, mark, n);
    lemma_preamble_reaches(ls, mark, k + 1);
    assert(comment_line(ls[k], mark));
    lemma_first_comment_at(ls, mark, n, k);
}

proof fn lemma_preamble_reaches(ls: Seq<Seq<char>>, mark: Seq<char>, k: int)
    requires
        0 <= k <= ls.len(),
        forall|i: int| 0 <= i < k ==> passed_over(#[trigger] ls[i]) || comment_line(ls[i], mark),
    ensures
        preamble_len(ls, mark) >= k,
    decreases ls.len(),
{
    if k > 0 {
        let t = ls.skip(1);
        assert forall|i: int| 0 <= i < k - 1 implies passed_over(#[trigger] t[i]) || comment_line(
            t[i],
            mark,
        ) by {
            assert(t[i] == ls[i + 1]);
        }
        lemma_preamble_reaches(t, mark, k - 1);
    } else {
        lemma_preamble_lines(ls, mark);
    }
}

proof fn lemma_first_comment_at(ls: Seq<Seq<char>>, mark: Seq<char>, n: int, k: int)
    requires
        0 <= k < n <= ls.len(),
        comment_line(ls[k], mark),
        forall|i: int| 0 <= i < k ==> passed_over(#[trigger] ls[i]),
    ensures
        first_comment(ls, mark, n) == k,
    decreases n,
{
    if k < n - 1 {
        lemma_first_comment_at(ls, mark, n - 1, k);
    } else {
        lemma_comments(ls, mark, n - 1);
        lemma_comment_ends(ls, mark, n - 1);
        if first_comment(ls, mark, n - 1) >= 0 {
            assert(passed_over(ls[first_comment(ls, mark, n - 1)]));
        }
    }
}

proof fn lemma_preamble_lines(ls: Seq<Seq<char>>, mark: Seq<char>)
    ensures
        0 <= preamble_len(ls, mark) <= ls.len(),
        forall|i: int|
            0 <= i < preamble_len(ls, mark) ==> passed_over(#[trigger] ls[i]) || comment_line(
                ls[i],
                mark,
            ),
    decreases ls.len(),
{
    if ls.len() > 0 {
        let t = ls.skip(1);
        lemma_preamble_lines(t, mark);
        assert forall|i: int| 0 <= i < preamble_len(ls, mark) implies passed_over(#[trigger] ls[i])
            || comment_line(ls[i], mark) by {
            if i > 0 {
                assert(ls[i] == t[i - 1]);
            }
        }
    }
}

proof fn lemma_comment_ends(ls: Seq<Seq<char>>, mark: Seq<char>, n: int)
    requires
        n <= ls.len(),
    ensures
        first_comment(ls, mark, n) >= 0 ==> comment_line(ls[first_comment(ls, mark, n)], mark)
            && comment_line(ls[last_comment(ls, mark, n)], mark),
        forall|i: int|
            0 <= i < n && (first_comment(ls, mark, n) < 0 || i < first_comment(ls, mark, n))
                ==> !comment_line(#[trigger] ls[i], mark),
    decreases n,
{
    lemma_comments(ls, mark, n);
    if n > 0 {
        lemma_comment_ends(ls, mark, n - 1);
        lemma_comments(ls, mark, n - 1);
    }
}

/// The parts of a symbol are numbered in the breadcrumb behind the name of the
/// symbol, from 1 to as many as there are.
pub proof fn parts_are_numbered(path: Seq<char>, ls: Seq<Seq<char>>, c: ChunkView, i: int)
    requires
        parts_of(path, ls, c).len() > 1,
        0 <= i < parts_of(path, ls, c).len(),
    ensures
        parts_of(path, ls, c)[i].breadcrumb == c.breadcrumb + " ["@ + decimal((i + 1) as nat)
            + "/"@ + decimal(parts_of(path, ls, c).len()) + "]"@,
        parts_of(path, ls, c)[i].kind == c.kind,
        parts_of(path, ls, c)[i].path == path,
        parts_of(path, ls, c)[i].start >= c.start,
        parts_of(path, ls, c)[i].end <= c.end,
{
}

/// Whether a chunk is of a file and shows the lines that it cites, as far as
/// the file has them.
spec fn shows_lines(c: ChunkView, path: Seq<char>, ls: Seq<Seq<char>>) -> bool {
    &&& c.path == path
    &&& 1 <= c.start
    &&& c.start <= ls.len() ==> c.text == joined(
        ls.subrange(c.start - 1, lesser(greater(c.start, c.end), ls.len() as int)),
        "\n"@,
    )
    &&& c.kind != ChunkKind::Symbol ==> c.start <= c.end <= ls.len()
}

spec fn all_show_lines(cs: Seq<ChunkView>, path: Seq<char>, ls: Seq<Seq<char>>) -> bool {
    forall|i: int| 0 <= i < cs.len() ==> shows_lines(#[trigger] cs[i], path, ls)
}

proof fn lemma_split_shows(path: Seq<char>, ls: Seq<Seq<char>>, cs: Seq<ChunkView>)
    requires
        all_show_lines(cs, path, ls),
    ensures
        all_show_lines(split_of(path, ls, cs), path, ls),
    decreases cs.len(),
{
    if cs.len() > 0 {
        let init = cs.drop_last();
        let c = cs.last();
        assert(shows_lines(cs[cs.len() - 1], path, ls));
        assert(all_show_lines(init, path, ls)) by {
            assert forall|i: int| 0 <= i < init.len() implies shows_lines(
                #[trigger] init[i],
                path,
                ls,
            ) by {
                assert(init[i] == cs[i]);
            }
        }
        lemma_split_shows(path, ls, init);
        let before = split_of(path, ls, init);
        let parts = parts_of(path, ls, c);
        assert forall|i: int| 0 <= i < (before + parts).len() implies shows_lines(
            #[trigger] (before + parts)[i],
            path,
            ls,
        ) by {
            if i >= before.len() {
                let p = parts[i - before.len()];
                assert((before + parts)[i] == p);
                if oversized(c) {
                    let k = i - before.len();
                    assert(k * SYMBOL_STEP_LINES >= 0) by (nonlinear_arith)
                        requires
                            k >= 0,
                    ;
                }
            } else {
                assert((before + parts)[i] == before[i]);
            }
        }
    }
}

/// Every chunk of a file is of that file and shows the very lines that it
/// cites: its text is those lines, joined by line breaks. Sections and windows
/// lie within the file; a symbol shows its lines as far as the file has them.
pub proof fn chunks_show_the_lines_they_cite(
    path: Seq<char>,
    text: Seq<char>,
    window: Window,
    tree: Option<Seq<NodeView>>,
    i: int,
)
    requires
        markdown(ext_of(path)) || window_ok(window, lines_of(text).len() as int),
        tree matches Some(ns) ==> rows_fit(ns),
        0 <= i < extracted(path, text, window, tree).len(),
    ensures
        ({
            let c = extracted(path, text, window, tree)[i];
            let ls = lines_of(text);
            &&& c.path == path && 1 <= c.start
            &&& c.kind != ChunkKind::Symbol ==> c.start <= c.end <= ls.len()
            &&& c.start <= c.end <= ls.len() ==> c.text == joined(
                ls.subrange(c.start - 1, c.end),
                "\n"@,
            )
            &&& c.start <= ls.len() ==> c.text == joined(
                ls.subrange(c.start - 1, lesser(greater(c.start, c.end), ls.len() as int)),
                "\n"@,
            )
        }),
{
    let ls = lines_of(text);
    let ext = ext_of(path);
    let body = body_of(path, text, window, tree);
    assert(all_show_lines(body, path, ls)) by {
        assert forall|k: int| 0 <= k < body.len() implies shows_lines(
            #[trigger] body[k],
            path,
            ls,
        ) by {
            if markdown(ext) {
                crate::sections::sections_cite_their_lines(path, ls, k);
            } else {
                match grammar_of(ext) {
                    None => {
                        windows_cite_their_lines(path, ls, window, k);
                    },
                    Some(Grammar::Nix) => {
                        crate::outline::bindings_cite_their_lines(path, text, tree, window, k);
                    },
                    Some(g) => {
                        crate::outline::symbols_cite_their_lines(
                            path,
                            text,
                            kinds_of(g),
                            tree,
                            window,
                            k,
                        );
                    },
                }
            }
        }
    }
    let all = match header_of(path, ls, ext) {
        Some(h) => seq![h] + body,
        None => body,
    };
    assert(all_show_lines(all, path, ls)) by {
        assert forall|k: int| 0 <= k < all.len() implies shows_lines(
            #[trigger] all[k],
            path,
            ls,
        ) by {
            if header_of(path, ls, ext) is Some {
                if k == 0 {
                    headers_are_opening_comments(path, ls, ext);
                } else {
                    assert(all[k] == body[k - 1]);
                }
            }
        }
    }
    lemma_split_shows(path, ls, all);
    assert(shows_lines(extracted(path, text, window, tree)[i], path, ls));
}

/// Code that a parser reads opens with comments of its own kind: `#` in Python
/// and Nix, `//` in every other language, and Markdown has no header.
pub proof fn parsed_code_has_a_comment_mark(ext: Seq<char>)
    ensures
        grammar_of(ext) matches Some(g) ==> marker_of(ext) == Some(
            if g == Grammar::Python || g == Grammar::Nix {
                "#"@
            } else {
                "//"@
            },
        ),
        marker_of(ext) == Some("//"@) ==> grammar_of(ext) is Some,
{
    reveal_strlit("//");
    reveal_strlit("#");
    assert("//"@.len() != "#"@.len());
    reveal_strlit("py");
    reveal_strlit("rs");
    reveal_strlit("ts");
    reveal_strlit("js");
    reveal_strlit("go");
    reveal_strlit("nix");
    reveal_strlit("tsx");
    reveal_strlit("mts");
    reveal_strlit("cts");
    reveal_strlit("jsx");
    reveal_strlit("mjs");
    reveal_strlit("cjs");
    reveal_strlit("java");
    assert("py"@[0] == 'p');
    assert("rs"@[0] == 'r');
    assert("ts"@[0] == 't');
    assert("js"@[0] == 'j');
    assert("go"@[0] == 'g');
    assert("nix"@[0] == 'n');
    assert("tsx"@[0] == 't');
    assert("mts"@[0] == 'm');
    assert("cts"@[0] == 'c');
    assert("jsx"@[0] == 'j');
    assert("mjs"@[0] == 'm');
    assert("cjs"@[0] == 'c');
    assert("java"@[0] == 'j');
}

proof fn lemma_split_holds(path: Seq<char>, ls: Seq<Seq<char>>, cs: Seq<ChunkView>)
    ensures
        forall|k: int, i: int|
            0 <= k < cs.len() && 0 <= i < parts_of(path, ls, cs[k]).len() ==> split_of(
                path,
                ls,
                cs,
            ).contains(#[trigger] parts_of(path, ls, cs[k])[i]),
        forall|i: int|
            0 <= i < split_of(path, ls, cs).len() ==> is_part(
                #[trigger] split_of(path, ls, cs)[i],
                path,
                ls,
                cs,
            ),
        cs.len() > 0 && !oversized(cs[0]) ==> split_of(path, ls, cs).len() > 0 && split_of(
            path,
            ls,
            cs,
        )[0] == cs[0],
    decreases cs.len(),
{
    if cs.len() > 0 {
        let init = cs.drop_last();
        let c = cs.last();
        lemma_split_holds(path, ls, init);
        let before = split_of(path, ls, init);
        let parts = parts_of(path, ls, c);
        let all = split_of(path, ls, cs);
        assert(all == before + parts);
        assert forall|k: int, i: int|
            0 <= k < cs.len() && 0 <= i < parts_of(path, ls, cs[k]).len() implies all.contains(
            #[trigger] parts_of(path, ls, cs[k])[i],
        ) by {
            if k < init.len() {
                assert(init[k] == cs[k]);
                let x = parts_of(path, ls, init[k])[i];
                assert(before.contains(x));
                let at = before.index_of(x);
                assert(all[at] == x);
            } else {
                assert(all[before.len() + i] == parts[i]);
            }
        }
        assert forall|i: int| 0 <= i < all.len() implies is_part(#[trigger] all[i], path, ls, cs) by {
            if i < before.len() {
                assert(all[i] == before[i]);
                assert(is_part(before[i], path, ls, init));
                let k = choose|k: int|
                    0 <= k < init.len() && #[trigger] parts_of(path, ls, init[k]).contains(before[i]);
                assert(init[k] == cs[k]);
                assert(parts_of(path, ls, cs[k]).contains(all[i]));
            } else {
                assert(all[i] == parts[i - before.len()]);
                assert(parts_of(path, ls, cs[cs.len() - 1]).contains(all[i]));
            }
        }
        if init.len() > 0 {
            assert(init[0] == cs[0]);
        }
    }
}

/// Whether a chunk is one of several or a part of one of them.
pub open spec fn is_part(
    x: ChunkView,
    path: Seq<char>,
    ls: Seq<Seq<char>>,
    cs: Seq<ChunkView>,
) -> bool {
    exists|k: int| 0 <= k < cs.len() && #[trigger] parts_of(path, ls, cs[k]).contains(x)
}

/// The header of a file comes first. No chunk of the file is lost: one that is
/// not oversized comes out as it is, an oversized one in all its parts; and
/// nothing else comes out.
pub proof fn no_chunk_is_lost(
    path: Seq<char>,
    text: Seq<char>,
    window: Window,
    tree: Option<Seq<NodeView>>,
)
    ensures
        ({
            let out = extracted(path, text, window, tree);
            let body = body_of(path, text, window, tree);
            let ls = lines_of(text);
            let header = header_of(path, ls, ext_of(path));
            &&& header matches Some(h) ==> out.len() > 0 && out[0] == h
            &&& forall|k: int|
                0 <= k < body.len() && !oversized(#[trigger] body[k]) ==> out.contains(body[k])
            &&& forall|k: int, i: int|
                0 <= k < body.len() && 0 <= i < parts_of(path, ls, body[k]).len() ==> out.contains(
                    #[trigger] parts_of(path, ls, body[k])[i],
                )
            &&& forall|i: int|
                0 <= i < out.len() ==> Some(#[trigger] out[i]) == header || is_part(
                    out[i],
                    path,
                    ls,
                    body,
                )
        }),
{
    let out = extracted(path, text, window, tree);
    let body = body_of(path, text, window, tree);
    let ls = lines_of(text);
    let header = header_of(path, ls, ext_of(path));
    let all = match header {
        Some(h) => seq![h] + body,
        None => body,
    };
    let n: int = if header is Some {
        1
    } else {
        0
    };
    lemma_split_holds(path, ls, all);
    if header is Some {
        assert(all[0] == header->0);
        assert(!oversized(all[0]));
    }
    assert forall|k: int, i: int|
        0 <= k < body.len() && 0 <= i < parts_of(path, ls, body[k]).len() implies out.contains(
        #[trigger] parts_of(path, ls, body[k])[i],
    ) by {
        assert(all[k + n] == body[k]);
        assert(out.contains(parts_of(path, ls, all[k + n])[i]));
    }
    assert forall|k: int| 0 <= k < body.len() && !oversized(#[trigger] body[k]) implies out.contains(
        body[k],
    ) by {
        assert(parts_of(path, ls, body[k])[0] == body[k]);
    }
    assert forall|i: int| 0 <= i < out.len() implies Some(#[trigger] out[i]) == header || is_part(
        out[i],
        path,
        ls,
        body,
    ) by {
        assert(is_part(out[i], path, ls, all));
        let k = choose|k: int|
            0 <= k < all.len() && #[trigger] parts_of(path, ls, all[k]).contains(out[i]);
        if k < n {
            assert(all[k] == header->0);
            assert(parts_of(path, ls, all[k]) =~= seq![header->0]);
        } else {
            assert(all[k] == body[k - n]);
            assert(parts_of(path, ls, body[k - n]).contains(out[i]));
        }
    }
}

/// A file that no parser reads leaves no line out: every line stands in a
/// window.
pub proof fn unparsed_files_leave_no_line_out(
    path: Seq<char>,
    text: Seq<char>,
    window: Window,
    tree: Option<Seq<NodeView>>,
    line: int,
)
    requires
        1 <= window.1 <= window.0,
        !markdown(ext_of(path)),
        grammar_of(ext_of(path)) is None || tree is None,
        1 <= line <= lines_of(text).len(),
    ensures
        exists|i: int|
            0 <= i < extracted(path, text, window, tree).len() && (#[trigger] extracted(
                path,
                text,
                window,
                tree,
            )[i]).kind == ChunkKind::Window && extracted(path, text, window, tree)[i].start <= line
                <= extracted(path, text, window, tree)[i].end,
{
    let ls = lines_of(text);
    let out = extracted(path, text, window, tree);
    let ws = windows_of(path, ls, window);
    let body = body_of(path, text, window, tree);
    assert(body == ws);
    windows_leave_no_gap(path, ls, window, line);
    let k = choose|k: int| 0 <= k < ws.len() && (#[trigger] ws[k]).start <= line <= ws[k].end;
    windows_cite_their_lines(path, ls, window, k);
    no_chunk_is_lost(path, text, window, tree);
    assert(!oversized(body[k]));
    let i = out.index_of(body[k]);
    assert(out[i].start <= line <= out[i].end);
}

/// A file with a line that is too long is left out whole; any other is not.
pub proof fn generated_files_are_left_out(path: Seq<char>, text: Seq<char>, window: Window, i: int)
    requires
        0 <= i < lines_of(text).len(),
    ensures
        byte_len(lines_of(text)[i]) > MAX_LINE_CHARS ==> text_chunks(path, text, window).len() == 0,
        (forall|k: int|
            0 <= k < lines_of(text).len() ==> byte_len(#[trigger] lines_of(text)[k])
                <= MAX_LINE_CHARS) ==> text_chunks(path, text, window) == extracted(
            path,
            text,
            window,
            tree_of(path, text),
        ),
{
}

/// A window holds as many lines as a window may, or all that are left of the
/// file; only the last one reaches the end of the file.
pub proof fn windows_are_full(path: Seq<char>, ls: Seq<Seq<char>>, window: Window, i: int)
    requires
        window.0 >= 1,
        window.1 >= 1,
        0 <= i < windows_of(path, ls, window).len(),
    ensures
        ({
            let ws = windows_of(path, ls, window);
            &&& ws[i].end - ws[i].start + 1 == window.0 || ws[i].end == ls.len()
            &&& i < ws.len() - 1 ==> ws[i].end < ls.len()
        }),
{
    windows_step_evenly(path, ls, window, i);
    if i < windows_of(path, ls, window).len() - 1 {
        lemma_inner_windows(path, ls, window.0 as int, window.1 as int, 0, i);
    }
}

proof fn lemma_inner_windows(
    path: Seq<char>,
    ls: Seq<Seq<char>>,
    size: int,
    step: int,
    start: int,
    i: int,
)
    requires
        1 <= step,
        1 <= size,
        0 <= start,
        0 <= i < windows_from(path, ls, size, step, start).len() - 1,
    ensures
        windows_from(path, ls, size, step, start)[i].end < ls.len(),
    decreases i,
{
    if i > 0 {
        let rest = windows_from(path, ls, size, step, start + step);
        assert(windows_from(path, ls, size, step, start)[i] == rest[i - 1]);
        lemma_inner_windows(path, ls, size, step, start + step, i - 1);
    }
}

/// The header of a file takes in the whole block of comments that the file
/// opens with, up to thirty lines.
pub proof fn headers_hold_the_whole_block(
    path: Seq<char>,
    ls: Seq<Seq<char>>,
    ext: Seq<char>,
    m: int,
)
    requires
        marker_of(ext) is Some,
        0 <= m < ls.len(),
        forall|i: int|
            0 <= i <= m ==> ltrimmed(#[trigger] ls[i]).len() == 0 || "#!"@.is_prefix_of(
                ltrimmed(ls[i]),
            ) || (marker_of(ext)->0).is_prefix_of(ltrimmed(ls[i])),
        ltrimmed(ls[m]).len() > 0,
        (marker_of(ext)->0).is_prefix_of(ltrimmed(ls[m])),
        !("#!"@.is_prefix_of(ltrimmed(ls[m]))),
    ensures
        header_of(path, ls, ext) matches Some(c) && (c.end >= m + 1 || c.end - c.start == 29),
{
    let mark = marker_of(ext)->0;
    let n = preamble_len(ls, mark);
    lemma_preamble_lines(ls, mark);
    assert forall|i: int| 0 <= i < m + 1 implies passed_over(#[trigger] ls[i]) || comment_line(
        ls[i],
        mark,
    ) by {}
    lemma_preamble_reaches(ls, mark, m + 1);
    assert(comment_line(ls[m], mark));
    lemma_last_comment(ls, mark, n, m);
    lemma_comments(ls, mark, n);
}

proof fn lemma_last_comment(ls: Seq<Seq<char>>, mark: Seq<char>, n: int, m: int)
    requires
        0 <= m < n,
        comment_line(ls[m], mark),
    ensures
        last_comment(ls, mark, n) >= m,
    decreases n,
{
    if m < n - 1 {
        lemma_last_comment(ls, mark, n - 1, m);
    }
}

/// Whether the nodes of a tree without a rule of their own have nothing below
/// them, from number `lo` on.
pub open spec fn tokens_are_leaves(ns: Seq<NodeView>, lo: int) -> bool {
    forall|j: int|
        lo <= j < ns.len() - 1 && !(#[trigger] ns[j]).named ==> ns[j + 1].depth <= ns[j].depth
}

/// Whether a chunk among some is the symbol on the rows of a node.
pub open spec fn has_symbol(cs: Seq<ChunkView>, n: NodeView) -> bool {
    exists|i: int|
        0 <= i < cs.len() && (#[trigger] cs[i]).kind == ChunkKind::Symbol && cs[i].start
            <= n.start_row + 1 && cs[i].end == n.end_row + 1
}

/// A file that was parsed is cut into its symbols: every node that is one has a
/// chunk of its own on its rows, in the languages that have such nodes. A file
/// that was not is cut into windows.
pub proof fn parsed_files_are_cut_into_symbols(
    path: Seq<char>,
    text: Seq<char>,
    window: Window,
    ns: Seq<NodeView>,
    k: int,
)
    requires
        !markdown(ext_of(path)),
        grammar_of(ext_of(path)) is Some,
        grammar_of(ext_of(path)) != Some(Grammar::Nix),
        1 <= k < ns.len(),
        ns[k].named,
        kinds_of(grammar_of(ext_of(path))->0).contains(ns[k].kind),
        tokens_are_leaves(ns, 1),
    ensures
        has_symbol(body_of(path, text, window, Some(ns)), ns[k]),
        body_of(path, text, window, None) == windows_of(path, lines_of(text), window),
{
    let kinds = kinds_of(grammar_of(ext_of(path))->0);
    let body = body_of(path, text, window, Some(ns));
    let n = ns.len() as int;
    let none = Seq::<Seq<char>>::empty();
    let i = crate::outline::breadcrumbs_name_the_symbols_around(
        path,
        text,
        kinds,
        ns,
        1,
        n,
        none,
        k,
    );
    let found = crate::outline::symbols_in(path, text, kinds, ns, 1, n, none);
    assert(body == found);
    crate::outline::symbols_are_symbols(path, text, kinds, ns, 1, n, none, i);
    assert(body[i].kind == ChunkKind::Symbol);
}

/// A Nix file that was parsed without an error is cut into its bindings: every
/// binding that stands out or lies below no other has a chunk that ends with
/// its rows.
pub proof fn parsed_nix_files_are_cut_into_bindings(
    path: Seq<char>,
    text: Seq<char>,
    window: Window,
    ns: Seq<NodeView>,
    k: int,
)
    requires
        !markdown(ext_of(path)),
        grammar_of(ext_of(path)) == Some(Grammar::Nix),
        1 <= k < ns.len(),
        !ns[0].error,
        rows_fit(ns),
        ns[k].named,
        ns[k].kind == "binding"@,
        crate::outline::stands_out(text, ns[k]) || crate::outline::outermost(ns, 1, k),
        tokens_are_leaves(ns, 1),
    ensures
        has_symbol(body_of(path, text, window, Some(ns)), ns[k]),
{
    let body = body_of(path, text, window, Some(ns));
    let n = ns.len() as int;
    let none = Seq::<Seq<char>>::empty();
    let i = crate::outline::breadcrumbs_name_the_bindings_around(path, text, ns, 1, n, none, k);
    let found = crate::outline::bindings_in(path, text, ns, 1, n, none);
    assert(body == found);
    crate::outline::bindings_are_symbols(path, text, ns, 1, n, none, i);
    crate::outline::lemma_comments_above(lines_of(text), ns[k].start_row, 10);
    assert(body[i].kind == ChunkKind::Symbol);
}

/// A Markdown file is cut at its headings: each starts a chunk of its own.
pub proof fn markdown_files_are_cut_at_headings(
    path: Seq<char>,
    text: Seq<char>,
    window: Window,
    tree: Option<Seq<NodeView>>,
    k: int,
)
    requires
        markdown(ext_of(path)),
        0 <= k < lines_of(text).len(),
        crate::sections::heading_of(lines_of(text)[k]) is Some,
    ensures
        exists|i: int|
            0 <= i < body_of(path, text, window, tree).len() && (#[trigger] body_of(
                path,
                text,
                window,
                tree,
            )[i]).start == k + 1 && body_of(path, text, window, tree)[i].kind
                == ChunkKind::Section,
{
    let ls = lines_of(text);
    crate::sections::sections_follow_headings(path, ls, k);
    let ss = crate::sections::sections_of(path, ls);
    let i = choose|i: int|
        0 <= i < ss.len() && (#[trigger] ss[i]).start == k + 1 && ss[i].kind == ChunkKind::Section;
    assert(body_of(path, text, window, tree)[i].start == k + 1);
}

/// A Nix file with a syntax error is cut into windows, and so is a parsed file
/// without a symbol.
pub proof fn files_without_symbols_are_cut_into_windows(
    path: Seq<char>,
    text: Seq<char>,
    window: Window,
    ns: Seq<NodeView>,
)
    requires
        !markdown(ext_of(path)),
        grammar_of(ext_of(path)) is Some,
    ensures
        grammar_of(ext_of(path)) == Some(Grammar::Nix) && ns.len() > 0 && ns[0].error ==> body_of(
            path,
            text,
            window,
            Some(ns),
        ) == windows_of(path, lines_of(text), window),
        (forall|k: int|
            1 <= k < ns.len() ==> !((#[trigger] ns[k]).named && (kinds_of(
                grammar_of(ext_of(path))->0,
            ).contains(ns[k].kind) || ns[k].kind == "binding"@))) && rows_fit(ns) ==> body_of(
            path,
            text,
            window,
            Some(ns),
        ) == windows_of(path, lines_of(text), window),
{
    let kinds = kinds_of(grammar_of(ext_of(path))->0);
    let n = ns.len() as int;
    let none = Seq::<Seq<char>>::empty();
    if (forall|k: int|
        1 <= k < ns.len() ==> !((#[trigger] ns[k]).named && (kinds.contains(ns[k].kind)
            || ns[k].kind == "binding"@))) && rows_fit(ns) {
        let ss = crate::outline::symbols_in(path, text, kinds, ns, 1, n, none);
        let bs = crate::outline::bindings_in(path, text, ns, 1, n, none);
        if ss.len() > 0 {
            crate::outline::symbols_stand_for_nodes(path, text, kinds, ns, 1, n, none, 0);
        }
        if bs.len() > 0 {
            crate::outline::bindings_stand_for_nodes(path, text, ns, 1, n, none, 0);
        }
    }
}

} // verus!
