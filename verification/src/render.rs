//! How hits read: one header line with a citation and a source, and text up
//! to a budget.

use vstd::prelude::*;
use crate::astg::{AstHit, AstView};
use crate::bytes::{byte_len, byte_prefix, fit, lemma_byte_len_chars, lemma_fitting};
use crate::extract::{chunk_view_opt, Chunk, ChunkKind, ChunkView};
use crate::fuse::{source, source_of, FusedHit, FusedView, RankedHit, RankedView};
use crate::lsp::{Target, TargetView};
use crate::order::views;
use crate::paths::{below, strip_dir};
use crate::rg::{Hit, HitView};
use crate::text::{
    chars_of, decimal, decimal_of, join, joined, lemma_decimal_digits, lines, lines_of, string_of,
    texts,
};

verus! {

/// Max bytes of chunk text per tool hit.
pub const TEXT_CAP: usize = 1200;

/// A path as it is shown: from the root on where it lies in the root, and
/// whole where it does not.
pub open spec fn shown_path(root: Seq<char>, path: Seq<char>) -> Seq<char> {
    match below(path, root) {
        Some(p) => p,
        None => path,
    }
}

/// Root-relative display for text output: saves tokens on every hit line,
/// zero information lost (the caller passed `root`). Falls back to absolute
/// when the path escapes the root (external definitions).
pub fn rel(root: &str, path: &str) -> (r: String)
    ensures
        r@ == shown_path(root@, path@),
{
    match strip_dir(path, root) {
        Some(p) => p,
        None => path.to_owned(),
    }
}

/// A breadcrumb on one line.
pub open spec fn flat(s: Seq<char>) -> Seq<char> {
    Seq::new(
        s.len(),
        |i: int|
            if s[i] == '\n' || s[i] == '\r' {
                ' '
            } else {
                s[i]
            },
    )
}

fn flatten(s: &str) -> (r: String)
    ensures
        r@ == flat(s@),
{
    let cs = chars_of(s);
    let mut out = String::new();
    let mut i: usize = 0;
    while i < cs.len()
        invariant
            i <= cs@.len(),
            cs@ == s@,
            out@ == flat(cs@).take(i as int),
        decreases cs@.len() - i,
    {
        if cs[i] == '\n' || cs[i] == '\r' {
            out.push(' ');
        } else {
            out.push(cs[i]);
        }
        proof {
            assert(out@ =~= flat(cs@).take(i + 1));
        }
        i += 1;
    }
    proof {
        assert(flat(cs@).take(i as int) =~= flat(cs@));
    }
    out
}

/// The header line of a hit.
pub open spec fn header(
    path: Seq<char>,
    start: int,
    end: int,
    breadcrumb: Seq<char>,
    score: Seq<char>,
    source: Seq<char>,
) -> Seq<char> {
    path + ":"@ + decimal(start as nat) + "-"@ + decimal(end as nat) + " ["@ + flat(breadcrumb)
        + "] ("@ + score + ") source="@ + source
}

/// A hit: its header line and the start of its text.
pub open spec fn rendered(
    path: Seq<char>,
    start: int,
    end: int,
    breadcrumb: Seq<char>,
    score: Seq<char>,
    source: Seq<char>,
    text: Seq<char>,
) -> Seq<char> {
    header(path, start, end, breadcrumb, score, source) + "\n"@ + byte_prefix(
        text,
        TEXT_CAP as int,
    )
}

/// A hit: one header line (newlines in crumbs would break the line budget)
/// and the start of its text.
pub fn render(path: &str, start: u64, end: u64, breadcrumb: &str, score: &str, source: &str, text: &str) -> (r:
    String)
    ensures
        r@ == rendered(path@, start as int, end as int, breadcrumb@, score@, source@, text@),
{
    let mut out = path.to_owned();
    out.append(":");
    out.append(decimal_of(start).as_str());
    out.append("-");
    out.append(decimal_of(end).as_str());
    out.append(" [");
    out.append(flatten(breadcrumb).as_str());
    out.append("] (");
    out.append(score);
    out.append(") source=");
    out.append(source);
    out.append("\n");
    let cs = chars_of(text);
    let k = fit(&cs, TEXT_CAP);
    proof {
        assert(cs@.subrange(0, k as int) =~= cs@.take(k as int));
    }
    out.append(string_of(vstd::slice::slice_subrange(&cs, 0, k)).as_str());
    out
}

/// A hit of the lexical index.
pub open spec fn ranked_text(root: Seq<char>, h: RankedView, score: Seq<char>) -> Seq<char> {
    rendered(shown_path(root, h.path), h.start, h.end, h.breadcrumb, score, "bm25"@, h.text)
}

/// A hit of the lexical index; `score` is its score as it is shown.
pub fn render_ranked(root: &str, h: &RankedHit, score: &str) -> (r: String)
    ensures
        r@ == ranked_text(root@, h@, score@),
{
    render(
        rel(root, h.path.as_str()).as_str(),
        h.start,
        h.end,
        h.breadcrumb.as_str(),
        score,
        "bm25",
        h.text.as_str(),
    )
}

/// A fused hit.
pub open spec fn fused_text(root: Seq<char>, h: FusedView, score: Seq<char>) -> Seq<char> {
    rendered(shown_path(root, h.path), h.start, h.end, h.breadcrumb, score, source_of(h), h.text)
}

/// A fused hit; `score` is its score as it is shown.
pub fn render_fused(root: &str, h: &FusedHit, score: &str) -> (r: String)
    ensures
        r@ == fused_text(root@, h@, score@),
{
    render(
        rel(root, h.path.as_str()).as_str(),
        h.start,
        h.end,
        h.breadcrumb.as_str(),
        score,
        source(h),
        h.text.as_str(),
    )
}

/// A live hit.
pub open spec fn live_text(root: Seq<char>, h: HitView) -> Seq<char> {
    rendered(shown_path(root, h.path), h.line, h.line, "rg-fallback"@, "live"@, "rg"@, h.text)
}

/// A live hit.
pub fn render_live(root: &str, h: &Hit) -> (r: String)
    ensures
        r@ == live_text(root@, h@),
{
    render(
        rel(root, h.path.as_str()).as_str(),
        h.line,
        h.line,
        "rg-fallback",
        "live",
        "rg",
        h.text.as_str(),
    )
}

/// A matching line: `path:line:text`.
pub open spec fn line_text(root: Seq<char>, path: Seq<char>, line: int, text: Seq<char>) -> Seq<char> {
    shown_path(root, path) + ":"@ + decimal(line as nat) + ":"@ + text
}

/// A matching line: `path:line:text`.
pub fn render_line(root: &str, path: &str, line: u64, text: &str) -> (r: String)
    ensures
        r@ == line_text(root@, path@, line as int, text@),
{
    let mut out = rel(root, path);
    out.append(":");
    out.append(decimal_of(line).as_str());
    out.append(":");
    out.append(text);
    out
}

/// The first line of a text.
pub open spec fn first_line_of(s: Seq<char>) -> Seq<char> {
    if lines_of(s).len() > 0 {
        lines_of(s)[0]
    } else {
        Seq::empty()
    }
}

/// The first line of a text.
pub fn first_line(s: &str) -> (r: String)
    ensures
        r@ == first_line_of(s@),
{
    let ls = lines(s);
    proof {
        assert(texts(ls@).len() == ls@.len());
        if ls@.len() > 0 {
            assert(texts(ls@)[0] == ls@[0]@);
        }
    }
    if ls.len() > 0 {
        ls[0].clone()
    } else {
        let e = String::new();
        proof {
            assert(e@ =~= Seq::<char>::empty());
        }
        e
    }
}

/// A structural match: `path:line:` and the first line of its text.
pub open spec fn ast_text(root: Seq<char>, h: AstView) -> Seq<char> {
    line_text(root, h.path, h.line, first_line_of(h.text))
}

/// A structural match: `path:line:` and the first line of its text.
pub fn render_ast(root: &str, h: &AstHit) -> (r: String)
    ensures
        r@ == ast_text(root@, h@),
{
    render_line(root, h.path.as_str(), h.line, first_line(h.text.as_str()).as_str())
}

/// A definition: `path:start-end` and whether it lies in the workspace.
pub open spec fn target_text(root: Seq<char>, t: TargetView) -> Seq<char> {
    shown_path(root, t.path) + ":"@ + decimal(t.start_line as nat) + "-"@ + decimal(
        t.end_line as nat,
    ) + " ("@ + (if t.outside_root {
        "external"@
    } else {
        "workspace"@
    }) + ")"@
}

/// A definition: `path:start-end` and whether it lies in the workspace.
pub fn render_target(root: &str, t: &Target) -> (r: String)
    ensures
        r@ == target_text(root@, t@),
{
    let mut out = rel(root, t.path.as_str());
    out.append(":");
    out.append(decimal_of(t.start_line as u64).as_str());
    out.append("-");
    out.append(decimal_of(t.end_line as u64).as_str());
    out.append(" (");
    if t.outside_root {
        out.append("external");
    } else {
        out.append("workspace");
    }
    out.append(")");
    out
}

/// What a chunk's kind is called.
pub open spec fn kind_word(kind: ChunkKind) -> Seq<char> {
    match kind {
        ChunkKind::Symbol => "symbol"@,
        ChunkKind::Section => "section"@,
        ChunkKind::Window => "window"@,
    }
}

/// A chunk in full: `path:start-end [breadcrumb] (kind)` and its text.
pub open spec fn chunk_text(root: Seq<char>, c: ChunkView) -> Seq<char> {
    shown_path(root, c.path) + ":"@ + decimal(c.start as nat) + "-"@ + decimal(c.end as nat) + " ["@
        + c.breadcrumb + "] ("@ + kind_word(c.kind) + ")\n"@ + c.text
}

/// A chunk in full: `path:start-end [breadcrumb] (kind)` and its text.
pub fn render_chunk(root: &str, c: &Chunk) -> (r: String)
    ensures
        r@ == chunk_text(root@, c@),
{
    let mut out = rel(root, c.path.as_str());
    out.append(":");
    out.append(decimal_of(c.start).as_str());
    out.append("-");
    out.append(decimal_of(c.end).as_str());
    out.append(" [");
    out.append(c.breadcrumb.as_str());
    out.append("] (");
    match c.kind {
        ChunkKind::Symbol => out.append("symbol"),
        ChunkKind::Section => out.append("section"),
        ChunkKind::Window => out.append("window"),
    }
    out.append(")\n");
    out.append(c.text.as_str());
    out
}

/// Hit-list tools must not return an empty text body (harnesses render that as omitted).
pub fn text_hit_body(hit_count: usize, body: &str) -> (r: String)
    ensures
        r@ == hit_body(hit_count as int, body@),
{
    if hit_count == 0 {
        "0 hits".to_owned()
    } else {
        body.to_owned()
    }
}

/// The text of hits, or a word that there are none.
pub open spec fn hit_body(hit_count: int, body: Seq<char>) -> Seq<char> {
    if hit_count == 0 {
        "0 hits"@
    } else {
        body
    }
}

/// A body behind notes, where there are any.
pub open spec fn noted(notes: Seq<Seq<char>>, body: Seq<char>) -> Seq<char> {
    if notes.len() == 0 {
        body
    } else {
        joined(notes, "\n"@) + "\n\n"@ + body
    }
}

/// A body behind notes, where there are any.
pub fn with_notes(notes: &[String], body: &str) -> (r: String)
    ensures
        r@ == noted(texts(notes@), body@),
{
    proof {
        assert(texts(notes@).len() == notes@.len());
    }
    if notes.len() == 0 {
        return body.to_owned();
    }
    let mut out = join(notes, "\n");
    out.append("\n\n");
    out.append(body);
    out
}

/// What separates hits.
pub open spec fn hits_body(hits: Seq<Seq<char>>) -> Seq<char> {
    hit_body(hits.len() as int, joined(hits, "\n---\n"@))
}

/// The answer with fused hits.
pub open spec fn fused_answer(
    root: Seq<char>,
    hits: Seq<FusedView>,
    shown: Seq<Seq<char>>,
    notes: Seq<Seq<char>>,
) -> Seq<char> {
    noted(notes, hits_body(Seq::new(hits.len(), |i: int| fused_text(root, hits[i], shown[i]))))
}

/// The answer with fused hits; `shown` holds their scores as they are shown.
pub fn answer_fused(root: &str, hits: &[FusedHit], shown: &[String], notes: &[String]) -> (r: String)
    requires
        shown@.len() == hits@.len(),
    ensures
        r@ == fused_answer(root@, views(hits@), texts(shown@), texts(notes@)),
{
    let ghost hv = views(hits@);
    let ghost sv = texts(shown@);
    let ghost all = Seq::new(hv.len(), |i: int| fused_text(root@, hv[i], sv[i]));
    let mut parts: Vec<String> = Vec::new();
    let mut i: usize = 0;
    while i < hits.len()
        invariant
            i <= hits@.len(),
            shown@.len() == hits@.len(),
            hv == views(hits@),
            sv == texts(shown@),
            all == Seq::new(hv.len(), |i: int| fused_text(root@, hv[i], sv[i])),
            texts(parts@) == all.take(i as int),
        decreases hits@.len() - i,
    {
        let ghost before = parts@;
        let p = render_fused(root, &hits[i], shown[i].as_str());
        parts.push(p);
        proof {
            assert(hv[i as int] == hits@[i as int]@);
            assert(sv[i as int] == shown@[i as int]@);
            assert(all[i as int] == p@);
            assert(texts(parts@) =~= texts(before).push(p@));
            assert(texts(parts@) =~= all.take(i + 1));
        }
        i += 1;
    }
    proof {
        assert(all.take(i as int) =~= all);
    }
    with_notes(notes, text_hit_body(hits.len(), join(&parts, "\n---\n").as_str()).as_str())
}

/// The answer with hits of the lexical index.
pub open spec fn ranked_answer(
    root: Seq<char>,
    hits: Seq<RankedView>,
    shown: Seq<Seq<char>>,
    notes: Seq<Seq<char>>,
) -> Seq<char> {
    noted(notes, hits_body(Seq::new(hits.len(), |i: int| ranked_text(root, hits[i], shown[i]))))
}

/// The answer with hits of the lexical index; `shown` holds their scores as
/// they are shown.
pub fn answer_ranked(root: &str, hits: &[RankedHit], shown: &[String], notes: &[String]) -> (r:
    String)
    requires
        shown@.len() == hits@.len(),
    ensures
        r@ == ranked_answer(root@, views(hits@), texts(shown@), texts(notes@)),
{
    let ghost hv = views(hits@);
    let ghost sv = texts(shown@);
    let ghost all = Seq::new(hv.len(), |i: int| ranked_text(root@, hv[i], sv[i]));
    let mut parts: Vec<String> = Vec::new();
    let mut i: usize = 0;
    while i < hits.len()
        invariant
            i <= hits@.len(),
            shown@.len() == hits@.len(),
            hv == views(hits@),
            sv == texts(shown@),
            all == Seq::new(hv.len(), |i: int| ranked_text(root@, hv[i], sv[i])),
            texts(parts@) == all.take(i as int),
        decreases hits@.len() - i,
    {
        let ghost before = parts@;
        let p = render_ranked(root, &hits[i], shown[i].as_str());
        parts.push(p);
        proof {
            assert(hv[i as int] == hits@[i as int]@);
            assert(sv[i as int] == shown@[i as int]@);
            assert(all[i as int] == p@);
            assert(texts(parts@) =~= texts(before).push(p@));
            assert(texts(parts@) =~= all.take(i + 1));
        }
        i += 1;
    }
    proof {
        assert(all.take(i as int) =~= all);
    }
    with_notes(notes, text_hit_body(hits.len(), join(&parts, "\n---\n").as_str()).as_str())
}

/// The answer with live hits.
pub open spec fn live_answer(root: Seq<char>, hits: Seq<HitView>, notes: Seq<Seq<char>>) -> Seq<char> {
    noted(notes, hits_body(Seq::new(hits.len(), |i: int| live_text(root, hits[i]))))
}

/// The answer with live hits.
pub fn answer_live(root: &str, hits: &[Hit], notes: &[String]) -> (r: String)
    ensures
        r@ == live_answer(root@, views(hits@), texts(notes@)),
{
    let ghost hv = views(hits@);
    let ghost all = Seq::new(hv.len(), |i: int| live_text(root@, hv[i]));
    let mut parts: Vec<String> = Vec::new();
    let mut i: usize = 0;
    while i < hits.len()
        invariant
            i <= hits@.len(),
            hv == views(hits@),
            all == Seq::new(hv.len(), |i: int| live_text(root@, hv[i])),
            texts(parts@) == all.take(i as int),
        decreases hits@.len() - i,
    {
        let ghost before = parts@;
        let p = render_live(root, &hits[i]);
        parts.push(p);
        proof {
            assert(hv[i as int] == hits@[i as int]@);
            assert(all[i as int] == p@);
            assert(texts(parts@) =~= texts(before).push(p@));
            assert(texts(parts@) =~= all.take(i + 1));
        }
        i += 1;
    }
    proof {
        assert(all.take(i as int) =~= all);
    }
    with_notes(notes, text_hit_body(hits.len(), join(&parts, "\n---\n").as_str()).as_str())
}

/// The answer with matching lines.
pub open spec fn lines_answer(root: Seq<char>, hits: Seq<HitView>) -> Seq<char> {
    hit_body(
        hits.len() as int,
        joined(
            Seq::new(
                hits.len(),
                |i: int| line_text(root, hits[i].path, hits[i].line, hits[i].text),
            ),
            "\n"@,
        ),
    )
}

/// The answer with matching lines.
pub fn answer_lines(root: &str, hits: &[Hit]) -> (r: String)
    ensures
        r@ == lines_answer(root@, views(hits@)),
{
    let ghost hv = views(hits@);
    let ghost all = Seq::new(
        hv.len(),
        |i: int| line_text(root@, hv[i].path, hv[i].line, hv[i].text),
    );
    let mut parts: Vec<String> = Vec::new();
    let mut i: usize = 0;
    while i < hits.len()
        invariant
            i <= hits@.len(),
            hv == views(hits@),
            all == Seq::new(
                hv.len(),
                |i: int| line_text(root@, hv[i].path, hv[i].line, hv[i].text),
            ),
            texts(parts@) == all.take(i as int),
        decreases hits@.len() - i,
    {
        let ghost before = parts@;
        let p = render_line(root, hits[i].path.as_str(), hits[i].line, hits[i].text.as_str());
        parts.push(p);
        proof {
            assert(hv[i as int] == hits@[i as int]@);
            assert(all[i as int] == p@);
            assert(texts(parts@) =~= texts(before).push(p@));
            assert(texts(parts@) =~= all.take(i + 1));
        }
        i += 1;
    }
    proof {
        assert(all.take(i as int) =~= all);
    }
    text_hit_body(hits.len(), join(&parts, "\n").as_str())
}

/// The answer with structural matches.
pub open spec fn ast_answer(root: Seq<char>, hits: Seq<AstView>) -> Seq<char> {
    hit_body(
        hits.len() as int,
        joined(Seq::new(hits.len(), |i: int| ast_text(root, hits[i])), "\n"@),
    )
}

/// The answer with structural matches.
pub fn answer_ast(root: &str, hits: &[AstHit]) -> (r: String)
    ensures
        r@ == ast_answer(root@, views(hits@)),
{
    let ghost hv = views(hits@);
    let ghost all = Seq::new(hv.len(), |i: int| ast_text(root@, hv[i]));
    let mut parts: Vec<String> = Vec::new();
    let mut i: usize = 0;
    while i < hits.len()
        invariant
            i <= hits@.len(),
            hv == views(hits@),
            all == Seq::new(hv.len(), |i: int| ast_text(root@, hv[i])),
            texts(parts@) == all.take(i as int),
        decreases hits@.len() - i,
    {
        let ghost before = parts@;
        let p = render_ast(root, &hits[i]);
        parts.push(p);
        proof {
            assert(hv[i as int] == hits@[i as int]@);
            assert(all[i as int] == p@);
            assert(texts(parts@) =~= texts(before).push(p@));
            assert(texts(parts@) =~= all.take(i + 1));
        }
        i += 1;
    }
    proof {
        assert(all.take(i as int) =~= all);
    }
    text_hit_body(hits.len(), join(&parts, "\n").as_str())
}

/// What is said when there is no definition at a place.
pub open spec fn no_definition(root: Seq<char>, file: Seq<char>, line: int, character: int) -> Seq<char> {
    "no definition found at "@ + shown_path(root, file) + ":"@ + decimal(line as nat) + ":"@
        + decimal(character as nat) + " (rust-analyzer)"@
}

/// What is said when there is no definition at a place.
pub fn no_definition_note(root: &str, file: &str, line: u32, character: u32) -> (r: String)
    ensures
        r@ == no_definition(root@, file@, line as int, character as int),
{
    let mut out = "no definition found at ".to_owned();
    out.append(rel(root, file).as_str());
    out.append(":");
    out.append(decimal_of(line as u64).as_str());
    out.append(":");
    out.append(decimal_of(character as u64).as_str());
    out.append(" (rust-analyzer)");
    out
}

/// The answer with definitions.
pub open spec fn targets_answer(
    root: Seq<char>,
    file: Seq<char>,
    line: int,
    character: int,
    targets: Seq<TargetView>,
) -> Seq<char> {
    if targets.len() == 0 {
        no_definition(root, file, line, character)
    } else {
        joined(Seq::new(targets.len(), |i: int| target_text(root, targets[i])), "\n"@)
    }
}

/// The answer with definitions, or a note that there are none.
pub fn answer_targets(root: &str, file: &str, line: u32, character: u32, targets: &[Target]) -> (r:
    String)
    ensures
        r@ == targets_answer(root@, file@, line as int, character as int, views(targets@)),
{
    if targets.len() == 0 {
        return no_definition_note(root, file, line, character);
    }
    let ghost tv = views(targets@);
    let ghost all = Seq::new(tv.len(), |i: int| target_text(root@, tv[i]));
    let mut parts: Vec<String> = Vec::new();
    let mut i: usize = 0;
    while i < targets.len()
        invariant
            i <= targets@.len(),
            tv == views(targets@),
            all == Seq::new(tv.len(), |i: int| target_text(root@, tv[i])),
            texts(parts@) == all.take(i as int),
        decreases targets@.len() - i,
    {
        let ghost before = parts@;
        let p = render_target(root, &targets[i]);
        parts.push(p);
        proof {
            assert(tv[i as int] == targets@[i as int]@);
            assert(all[i as int] == p@);
            assert(texts(parts@) =~= texts(before).push(p@));
            assert(texts(parts@) =~= all.take(i + 1));
        }
        i += 1;
    }
    proof {
        assert(all.take(i as int) =~= all);
    }
    join(&parts, "\n")
}

/// What is said when no chunk holds a line.
pub open spec fn no_chunk(root: Seq<char>, file: Seq<char>, line: int) -> Seq<char> {
    "no enclosing symbol at "@ + shown_path(root, file) + ":"@ + decimal(line as nat)
        + "; read the cited range"@
}

/// The answer with the chunk that holds a line, or a note that none does.
pub open spec fn chunk_answer(
    root: Seq<char>,
    file: Seq<char>,
    line: int,
    chunk: Option<ChunkView>,
) -> Seq<char> {
    match chunk {
        Some(c) => chunk_text(root, c),
        None => no_chunk(root, file, line),
    }
}

/// The answer with the chunk that holds a line, or a note that none does.
pub fn answer_chunk(root: &str, file: &str, line: u64, chunk: &Option<Chunk>) -> (r: String)
    ensures
        r@ == (match chunk {
            Some(c) => chunk_text(root@, c@),
            None => no_chunk(root@, file@, line as int),
        }),
        r@ == chunk_answer(root@, file@, line as int, chunk_view_opt(*chunk)),
{
    match chunk {
        Some(c) => render_chunk(root, c),
        None => {
            let mut out = "no enclosing symbol at ".to_owned();
            out.append(rel(root, file).as_str());
            out.append(":");
            out.append(decimal_of(line).as_str());
            out.append("; read the cited range");
            out
        },
    }
}

/// The text of a hit is what follows its header line, and holds no more than
/// the budget, in bytes and so in characters.
pub proof fn hits_keep_to_budget(
    path: Seq<char>,
    start: int,
    end: int,
    breadcrumb: Seq<char>,
    score: Seq<char>,
    source: Seq<char>,
    text: Seq<char>,
)
    ensures
        ({
            let h = header(path, start, end, breadcrumb, score, source);
            let r = rendered(path, start, end, breadcrumb, score, source, text);
            &&& r == h + "\n"@ + byte_prefix(text, TEXT_CAP as int)
            &&& byte_len(byte_prefix(text, TEXT_CAP as int)) <= TEXT_CAP
            &&& byte_prefix(text, TEXT_CAP as int).len() <= TEXT_CAP
            &&& byte_prefix(text, TEXT_CAP as int).is_prefix_of(text)
        }),
{
    let p = byte_prefix(text, TEXT_CAP as int);
    lemma_fitting(text, TEXT_CAP as int);
    lemma_byte_len_chars(p);
    assert(p =~= text.subrange(0, p.len() as int));
}

/// A hit has one header line: no breadcrumb breaks it, as long as its path,
/// its score and its source do not.
pub proof fn headers_are_one_line(
    path: Seq<char>,
    start: int,
    end: int,
    breadcrumb: Seq<char>,
    score: Seq<char>,
    source: Seq<char>,
)
    requires
        !path.contains('\n'),
        !score.contains('\n'),
        !source.contains('\n'),
    ensures
        !header(path, start, end, breadcrumb, score, source).contains('\n'),
{
    reveal_strlit(":");
    reveal_strlit("-");
    reveal_strlit(" [");
    reveal_strlit("] (");
    reveal_strlit(") source=");
    lemma_decimal_digits(start as nat);
    lemma_decimal_digits(end as nat);
    let d1 = decimal(start as nat);
    let d2 = decimal(end as nat);
    let f = flat(breadcrumb);
    lemma_no_break_digits(d1);
    lemma_no_break_digits(d2);
    assert(!f.contains('\n'));
    assert(!":"@.contains('\n'));
    assert(!"-"@.contains('\n'));
    assert(!" ["@.contains('\n'));
    assert(!"] ("@.contains('\n'));
    assert(!") source="@.contains('\n'));
    let a = path + ":"@;
    lemma_no_break(path, ":"@);
    lemma_no_break(a, d1);
    lemma_no_break(a + d1, "-"@);
    lemma_no_break(a + d1 + "-"@, d2);
    lemma_no_break(a + d1 + "-"@ + d2, " ["@);
    let b = a + d1 + "-"@ + d2 + " ["@;
    lemma_no_break(b, f);
    lemma_no_break(b + f, "] ("@);
    lemma_no_break(b + f + "] ("@, score);
    lemma_no_break(b + f + "] ("@ + score, ") source="@);
    lemma_no_break(b + f + "] ("@ + score + ") source="@, source);
}

proof fn lemma_no_break_digits(d: Seq<char>)
    requires
        forall|i: int| 0 <= i < d.len() ==> '0' <= #[trigger] d[i] <= '9',
    ensures
        !d.contains('\n'),
{
}

proof fn lemma_no_break(a: Seq<char>, b: Seq<char>)
    requires
        !a.contains('\n'),
        !b.contains('\n'),
    ensures
        !(a + b).contains('\n'),
{
    if (a + b).contains('\n') {
        let i = choose|i: int| 0 <= i < (a + b).len() && (a + b)[i] == '\n';
        if i < a.len() {
            assert(a[i] == '\n');
        } else {
            assert(b[i - a.len()] == '\n');
        }
    }
}

/// A breadcrumb without line breaks is shown as it is, and any other with a
/// space for each break and nothing else changed.
pub proof fn breadcrumbs_are_shown_whole(s: Seq<char>)
    ensures
        flat(s).len() == s.len(),
        forall|i: int|
            0 <= i < s.len() ==> #[trigger] flat(s)[i] == s[i] || (flat(s)[i] == ' ' && (s[i] == '\n'
                || s[i] == '\r')),
        !s.contains('\n') && !s.contains('\r') ==> flat(s) == s,
        !flat(s).contains('\n') && !flat(s).contains('\r'),
{
    if !s.contains('\n') && !s.contains('\r') {
        assert forall|i: int| 0 <= i < s.len() implies flat(s)[i] == s[i] by {
            assert(s.contains(s[i]));
        }
        assert(flat(s) =~= s);
    }
}

/// A hit reads `path:start-end [breadcrumb] (score) source=…`, a line break and
/// its text from the start, whole where it is within the budget.
pub proof fn hits_read_in_order(
    path: Seq<char>,
    start: int,
    end: int,
    breadcrumb: Seq<char>,
    score: Seq<char>,
    source: Seq<char>,
    text: Seq<char>,
)
    ensures
        exists|t: Seq<char>|
            #[trigger] t.is_prefix_of(text) && (byte_len(text) <= 1200 ==> t == text) && byte_len(t)
                <= 1200 && (forall|k: int|
                t.len() < k <= text.len() ==> byte_len(#[trigger] text.take(k)) > 1200)
                && rendered(path, start, end, breadcrumb, score, source, text) == path
                + ":"@ + decimal(start as nat) + "-"@ + decimal(end as nat) + " ["@ + flat(
                breadcrumb,
            ) + "] ("@ + score + ") source="@ + source + "\n"@ + t,
{
    let t = byte_prefix(text, TEXT_CAP as int);
    lemma_fitting(text, TEXT_CAP as int);
    if byte_len(text) <= 1200 {
        crate::bytes::lemma_fits_whole(text, TEXT_CAP as int);
    }
    assert(t =~= text.subrange(0, t.len() as int));
    assert(t.is_prefix_of(text));
}

/// Whether `part` stands in `whole` between breaks: at its start or behind a
/// line break, and at its end or before one.
pub open spec fn stands_in(part: Seq<char>, whole: Seq<char>) -> bool {
    exists|a: Seq<char>, b: Seq<char>|
        whole == #[trigger] (a + part + b) && (a.len() == 0 || a.last() == '\n') && (b.len() == 0
            || b[0] == '\n')
}

proof fn lemma_stands_in_join(parts: Seq<Seq<char>>, sep: Seq<char>, i: int)
    requires
        0 <= i < parts.len(),
        sep.len() > 0,
        sep[0] == '\n',
        sep.last() == '\n',
    ensures
        stands_in(parts[i], joined(parts, sep)),
{
    crate::text::joining_keeps_each_part(parts, sep, i);
    let a = if i == 0 {
        Seq::empty()
    } else {
        joined(parts.take(i), sep) + sep
    };
    let b = if i == parts.len() - 1 {
        Seq::empty()
    } else {
        sep + joined(parts.skip(i + 1), sep)
    };
    if i > 0 {
        assert(a.last() == sep.last());
    }
    if i < parts.len() - 1 {
        assert(b[0] == sep[0]);
    }
    assert(joined(parts, sep) == a + parts[i] + b);
}

proof fn lemma_stands_in_noted(notes: Seq<Seq<char>>, part: Seq<char>, body: Seq<char>)
    requires
        stands_in(part, body),
    ensures
        stands_in(part, noted(notes, body)),
{
    reveal_strlit("\n\n");
    if notes.len() > 0 {
        let (a, b) = choose|a: Seq<char>, b: Seq<char>|
            body == #[trigger] (a + part + b) && (a.len() == 0 || a.last() == '\n') && (b.len() == 0
                || b[0] == '\n');
        let front = joined(notes, "\n"@) + "\n\n"@;
        let c = front + a;
        assert(noted(notes, body) =~= c + part + b);
        if a.len() == 0 {
            assert(c.last() == front.last());
        } else {
            assert(c.last() == a.last());
        }
    }
}

/// An answer shows every fused hit: where it is, what it is called, how it is
/// scored, which lists found it, and its text.
pub proof fn fused_answers_show_every_hit(
    root: Seq<char>,
    hits: Seq<FusedView>,
    shown: Seq<Seq<char>>,
    notes: Seq<Seq<char>>,
    i: int,
)
    requires
        0 <= i < hits.len(),
        shown.len() == hits.len(),
    ensures
        stands_in(
            rendered(
                shown_path(root, hits[i].path),
                hits[i].start,
                hits[i].end,
                hits[i].breadcrumb,
                shown[i],
                source_of(hits[i]),
                hits[i].text,
            ),
            fused_answer(root, hits, shown, notes),
        ),
{
    reveal_strlit("\n---\n");
    let parts = Seq::new(hits.len(), |k: int| fused_text(root, hits[k], shown[k]));
    lemma_stands_in_join(parts, "\n---\n"@, i);
    lemma_stands_in_noted(notes, parts[i], joined(parts, "\n---\n"@));
}

/// An answer shows every hit of the lexical index.
pub proof fn ranked_answers_show_every_hit(
    root: Seq<char>,
    hits: Seq<RankedView>,
    shown: Seq<Seq<char>>,
    notes: Seq<Seq<char>>,
    i: int,
)
    requires
        0 <= i < hits.len(),
        shown.len() == hits.len(),
    ensures
        stands_in(
            rendered(
                shown_path(root, hits[i].path),
                hits[i].start,
                hits[i].end,
                hits[i].breadcrumb,
                shown[i],
                "bm25"@,
                hits[i].text,
            ),
            ranked_answer(root, hits, shown, notes),
        ),
{
    reveal_strlit("\n---\n");
    let parts = Seq::new(hits.len(), |k: int| ranked_text(root, hits[k], shown[k]));
    lemma_stands_in_join(parts, "\n---\n"@, i);
    lemma_stands_in_noted(notes, parts[i], joined(parts, "\n---\n"@));
}

/// An answer shows every live hit, as a chunk of its one line.
pub proof fn live_answers_show_every_hit(
    root: Seq<char>,
    hits: Seq<HitView>,
    notes: Seq<Seq<char>>,
    i: int,
)
    requires
        0 <= i < hits.len(),
    ensures
        stands_in(
            rendered(
                shown_path(root, hits[i].path),
                hits[i].line,
                hits[i].line,
                "rg-fallback"@,
                "live"@,
                "rg"@,
                hits[i].text,
            ),
            live_answer(root, hits, notes),
        ),
{
    reveal_strlit("\n---\n");
    let parts = Seq::new(hits.len(), |k: int| live_text(root, hits[k]));
    lemma_stands_in_join(parts, "\n---\n"@, i);
    lemma_stands_in_noted(notes, parts[i], joined(parts, "\n---\n"@));
}

/// An answer with matching lines holds each as a line `path:line:text`.
pub proof fn line_answers_show_every_line(root: Seq<char>, hits: Seq<HitView>, i: int)
    requires
        0 <= i < hits.len(),
    ensures
        stands_in(
            shown_path(root, hits[i].path) + ":"@ + decimal(hits[i].line as nat) + ":"@
                + hits[i].text,
            lines_answer(root, hits),
        ),
{
    reveal_strlit("\n");
    let parts = Seq::new(
        hits.len(),
        |k: int| line_text(root, hits[k].path, hits[k].line, hits[k].text),
    );
    lemma_stands_in_join(parts, "\n"@, i);
}

/// An answer with structural matches holds each as a line `path:line:` with
/// the first line of its text.
pub proof fn structural_answers_show_every_match(root: Seq<char>, hits: Seq<AstView>, i: int)
    requires
        0 <= i < hits.len(),
        lines_of(hits[i].text).len() > 0,
    ensures
        stands_in(
            shown_path(root, hits[i].path) + ":"@ + decimal(hits[i].line as nat) + ":"@ + lines_of(
                hits[i].text,
            )[0],
            ast_answer(root, hits),
        ),
{
    reveal_strlit("\n");
    let parts = Seq::new(hits.len(), |k: int| ast_text(root, hits[k]));
    lemma_stands_in_join(parts, "\n"@, i);
}

/// An answer with definitions holds each as a line with its place and whether
/// it lies in the workspace.
pub proof fn definition_answers_show_every_target(
    root: Seq<char>,
    file: Seq<char>,
    line: int,
    character: int,
    targets: Seq<TargetView>,
    i: int,
)
    requires
        0 <= i < targets.len(),
    ensures
        stands_in(
            shown_path(root, targets[i].path) + ":"@ + decimal(targets[i].start_line as nat) + "-"@
                + decimal(targets[i].end_line as nat) + (if targets[i].outside_root {
                " (external)"@
            } else {
                " (workspace)"@
            }),
            targets_answer(root, file, line, character, targets),
        ),
{
    reveal_strlit("\n");
    reveal_strlit(" (external)");
    reveal_strlit(" (workspace)");
    reveal_strlit(" (");
    reveal_strlit("external");
    reveal_strlit("workspace");
    reveal_strlit(")");
    let parts = Seq::new(targets.len(), |k: int| target_text(root, targets[k]));
    lemma_stands_in_join(parts, "\n"@, i);
    let t = targets[i];
    let place = shown_path(root, t.path) + ":"@ + decimal(t.start_line as nat) + "-"@ + decimal(
        t.end_line as nat,
    );
    assert(" ("@ + "external"@ + ")"@ =~= " (external)"@);
    assert(" ("@ + "workspace"@ + ")"@ =~= " (workspace)"@);
    if t.outside_root {
        assert(target_text(root, t) =~= place + " (external)"@);
    } else {
        assert(target_text(root, t) =~= place + " (workspace)"@);
    }
}

/// What is said before the hits comes first, each note on a line of its own;
/// without hits the answer says so.
pub proof fn notes_come_before_hits(notes: Seq<Seq<char>>, body: Seq<char>, i: int)
    requires
        0 <= i < notes.len(),
    ensures
        stands_in(notes[i], noted(notes, body)),
        body.is_suffix_of(noted(notes, body)),
        ("\n\n"@ + body).is_suffix_of(noted(notes, body)),
        noted(notes, body).len() == joined(notes, "\n"@).len() + 2 + body.len(),
        noted(Seq::empty(), body) == body,
        hits_body(Seq::empty()) == "0 hits"@,
{
    reveal_strlit("\n");
    reveal_strlit("\n\n");
    lemma_stands_in_join(notes, "\n"@, i);
    let all = joined(notes, "\n"@);
    let (a, b) = choose|a: Seq<char>, b: Seq<char>|
        all == #[trigger] (a + notes[i] + b) && (a.len() == 0 || a.last() == '\n') && (b.len() == 0
            || b[0] == '\n');
    let gap = "\n\n"@ + body;
    assert(gap =~= noted(notes, body).subrange(
        noted(notes, body).len() - gap.len(),
        noted(notes, body).len() as int,
    ));
    let n = noted(notes, body);
    let c = b + "\n\n"@ + body;
    assert(n =~= a + notes[i] + c);
    if b.len() == 0 {
        assert(c[0] == '\n');
    } else {
        assert(c[0] == b[0]);
    }
    assert(body =~= n.subrange(n.len() - body.len(), n.len() as int));
}

/// A chunk is shown whole: one header line with its place, its breadcrumb and
/// its kind, a line break, and all of its text.
pub proof fn chunks_are_shown_whole(root: Seq<char>, c: ChunkView)
    ensures
        exists|head: Seq<char>|
            chunk_text(root, c) == #[trigger] (head + "\n"@ + c.text) && head == shown_path(
                root,
                c.path,
            ) + ":"@ + decimal(c.start as nat) + "-"@ + decimal(c.end as nat) + " ["@ + c.breadcrumb
                + "] ("@ + kind_word(c.kind) + ")"@,
        c.text.is_suffix_of(chunk_text(root, c)),
{
    reveal_strlit(")\n");
    reveal_strlit(")");
    reveal_strlit("\n");
    let front = shown_path(root, c.path) + ":"@ + decimal(c.start as nat) + "-"@ + decimal(
        c.end as nat,
    ) + " ["@ + c.breadcrumb + "] ("@ + kind_word(c.kind);
    let head = front + ")"@;
    assert(")\n"@ =~= ")"@ + "\n"@);
    assert(chunk_text(root, c) =~= head + "\n"@ + c.text);
    let whole = chunk_text(root, c);
    assert(c.text =~= whole.subrange(whole.len() - c.text.len(), whole.len() as int));
}

/// The answer about a line of a file shows that line: a chunk that holds the
/// line and shows the lines that it cites has it among the lines of its text.
pub proof fn context_shows_the_line_asked_about(
    root: Seq<char>,
    ls: Seq<Seq<char>>,
    c: ChunkView,
    line: int,
)
    requires
        1 <= c.start <= line <= c.end <= ls.len(),
        c.text == joined(ls.subrange(c.start - 1, c.end), "\n"@),
    ensures
        stands_in(ls[line - 1], chunk_text(root, c)),
{
    reveal_strlit("\n");
    let parts = ls.subrange(c.start - 1, c.end);
    let i = line - c.start;
    assert(parts[i] == ls[line - 1]);
    lemma_stands_in_join(parts, "\n"@, i);
    let (a, b) = choose|a: Seq<char>, b: Seq<char>|
        c.text == #[trigger] (a + ls[line - 1] + b) && (a.len() == 0 || a.last() == '\n') && (
        b.len() == 0 || b[0] == '\n');
    chunks_are_shown_whole(root, c);
    let head = choose|head: Seq<char>|
        chunk_text(root, c) == #[trigger] (head + "\n"@ + c.text) && head == shown_path(
            root,
            c.path,
        ) + ":"@ + decimal(c.start as nat) + "-"@ + decimal(c.end as nat) + " ["@ + c.breadcrumb
            + "] ("@ + kind_word(c.kind) + ")"@;
    let f = head + "\n"@ + a;
    assert(chunk_text(root, c) =~= f + ls[line - 1] + b);
    if a.len() == 0 {
        assert(f.last() == '\n');
    } else {
        assert(f.last() == a.last());
    }
}

/// A path in the root is shown by the names below the root, and one outside
/// it whole.
pub proof fn paths_are_shown_from_the_root(dir: Seq<Seq<char>>, names: Seq<Seq<char>>, path: Seq<char>)
    requires
        dir.len() > 0,
        dir[0] == crate::paths::root_comp(),
        crate::paths::plain(dir),
        names.len() > 0,
        forall|i: int| 0 <= i < names.len() ==> crate::paths::is_name(#[trigger] names[i]),
    ensures
        shown_path(crate::paths::text_of(dir), crate::paths::text_of(dir + names)) == joined(
            names,
            "/"@,
        ),
        !crate::paths::lies_in(path, crate::paths::text_of(dir)) ==> shown_path(
            crate::paths::text_of(dir),
            path,
        ) == path,
{
    crate::paths::paths_below_a_directory_are_what_is_left(dir, names);
}

/// Hits are answered in their order: one hit more stands behind the others,
/// and changes nothing before it.
pub proof fn hits_are_answered_in_order(
    root: Seq<char>,
    fused: Seq<FusedView>,
    ranked: Seq<RankedView>,
    live: Seq<HitView>,
    shown: Seq<Seq<char>>,
    f: FusedView,
    r: RankedView,
    h: HitView,
    score: Seq<char>,
)
    requires
        shown.len() > 0,
        fused.len() == shown.len(),
        ranked.len() == shown.len(),
        live.len() == shown.len(),
    ensures
        fused_answer(root, fused.push(f), shown.push(score), Seq::empty()) == fused_answer(
            root,
            fused,
            shown,
            Seq::empty(),
        ) + "\n---\n"@ + fused_text(root, f, score),
        ranked_answer(root, ranked.push(r), shown.push(score), Seq::empty()) == ranked_answer(
            root,
            ranked,
            shown,
            Seq::empty(),
        ) + "\n---\n"@ + ranked_text(root, r, score),
        live_answer(root, live.push(h), Seq::empty()) == live_answer(root, live, Seq::empty())
            + "\n---\n"@ + live_text(root, h),
        lines_answer(root, live.push(h)) == lines_answer(root, live) + "\n"@ + line_text(
            root,
            h.path,
            h.line,
            h.text,
        ),
{
    let fs = Seq::new(fused.len(), |i: int| fused_text(root, fused[i], shown[i]));
    let rs = Seq::new(ranked.len(), |i: int| ranked_text(root, ranked[i], shown[i]));
    let hs = Seq::new(live.len(), |i: int| live_text(root, live[i]));
    let ls = Seq::new(
        live.len(),
        |i: int| line_text(root, live[i].path, live[i].line, live[i].text),
    );
    let fs2 = Seq::new(
        fused.push(f).len(),
        |i: int| fused_text(root, fused.push(f)[i], shown.push(score)[i]),
    );
    let rs2 = Seq::new(
        ranked.push(r).len(),
        |i: int| ranked_text(root, ranked.push(r)[i], shown.push(score)[i]),
    );
    let hs2 = Seq::new(live.push(h).len(), |i: int| live_text(root, live.push(h)[i]));
    let ls2 = Seq::new(
        live.push(h).len(),
        |i: int|
            line_text(root, live.push(h)[i].path, live.push(h)[i].line, live.push(h)[i].text),
    );
    assert(fs2.drop_last() =~= fs);
    assert(rs2.drop_last() =~= rs);
    assert(hs2.drop_last() =~= hs);
    assert(ls2.drop_last() =~= ls);
}

/// Where nothing is found the answer names the place that was asked about; a
/// chunk that is found is the answer.
pub proof fn misses_name_the_place(
    root: Seq<char>,
    file: Seq<char>,
    line: int,
    character: int,
    c: ChunkView,
)
    ensures
        chunk_answer(root, file, line, Some(c)) == chunk_text(root, c),
        chunk_answer(root, file, line, None) == "no enclosing symbol at "@ + (shown_path(root, file)
            + ":"@ + decimal(line as nat)) + "; read the cited range"@,
        targets_answer(root, file, line, character, Seq::empty()) == "no definition found at "@ + (
        shown_path(root, file) + ":"@ + decimal(line as nat) + ":"@ + decimal(character as nat))
            + " (rust-analyzer)"@,
{
    assert(no_chunk(root, file, line) =~= "no enclosing symbol at "@ + (shown_path(root, file)
        + ":"@ + decimal(line as nat)) + "; read the cited range"@);
    assert(no_definition(root, file, line, character) =~= "no definition found at "@ + (shown_path(
        root,
        file,
    ) + ":"@ + decimal(line as nat) + ":"@ + decimal(character as nat)) + " (rust-analyzer)"@);
}

/// No two kinds of chunks are called the same.
pub proof fn kinds_are_told_apart(a: ChunkKind, b: ChunkKind)
    ensures
        kind_word(a) == kind_word(b) ==> a == b,
{
    reveal_strlit("symbol");
    reveal_strlit("section");
    reveal_strlit("window");
    assert("symbol"@[0] == 's' && "window"@[0] == 'w');
    assert("symbol"@.len() == 6 && "section"@.len() == 7 && "window"@.len() == 6);
}

} // verus!
