//! Symbols of source files: chunks picked out of a syntax tree.

use vstd::prelude::*;
use crate::bytes::{byte_slice, slice_bytes};
use crate::extract::{
    chunk_views, lemma_windows_placed, placed, rows_text, slice_lines, window_ok, windows,
    windows_of, Chunk, ChunkKind, ChunkView, Window,
};
use crate::syntax::{node_views, rows_fit, Node, NodeView};
use crate::text::{
    chars_of, holds, is_white, join, joined, lines_of, ltrimmed, same, str_texts, string_of, texts,
    trim, trim_start, trimmed,
};

verus! {

/// The first node in `j..hi` that is no deeper than `depth`; `hi` when all are.
pub open spec fn shallow_from(ns: Seq<NodeView>, depth: int, j: int, hi: int) -> int
    decreases hi - j,
{
    if j >= hi {
        hi
    } else if ns[j].depth <= depth {
        j
    } else {
        shallow_from(ns, depth, j + 1, hi)
    }
}

/// Where the descendants of node `i` end, among the nodes before `hi`.
pub open spec fn subtree_end(ns: Seq<NodeView>, i: int, hi: int) -> int {
    shallow_from(ns, ns[i].depth, i + 1, hi)
}

/// The descendants of a node end after it and no later than the list.
pub proof fn lemma_shallow_from(ns: Seq<NodeView>, depth: int, j: int, hi: int)
    requires
        j <= hi,
    ensures
        j <= shallow_from(ns, depth, j, hi) <= hi,
    decreases hi - j,
{
    if j < hi && ns[j].depth > depth {
        lemma_shallow_from(ns, depth, j + 1, hi);
    }
}

fn find_end(ns: &[Node], i: usize, hi: usize) -> (r: usize)
    requires
        i < hi <= ns@.len(),
    ensures
        r == subtree_end(node_views(ns@), i as int, hi as int),
        i < r <= hi,
{
    let depth: u32 = ns[i].depth;
    let mut j: usize = i + 1;
    let ghost v = node_views(ns@);
    while j < hi && ns[j].depth > depth
        invariant
            i < j <= hi <= ns@.len(),
            v == node_views(ns@),
            depth == v[i as int].depth,
            shallow_from(v, depth as int, j as int, hi as int) == subtree_end(
                v,
                i as int,
                hi as int,
            ),
        decreases hi - j,
    {
        j += 1;
    }
    j
}

/// The name of a symbol: its `name` child, or for an `impl` block its type;
/// `None` for a node that has neither.
pub open spec fn symbol_name_of(text: Seq<char>, n: NodeView) -> Option<Seq<char>> {
    match n.name {
        Some((a, b)) => Some(byte_slice(text, a, b)),
        None => match n.typ {
            Some((a, b)) => if n.kind == "impl_item"@ {
                Some("impl "@ + byte_slice(text, a, b))
            } else {
                None
            },
            None => None,
        },
    }
}

/// What a symbol is called in a breadcrumb.
pub open spec fn symbol_label(text: Seq<char>, n: NodeView) -> Seq<char> {
    match symbol_name_of(text, n) {
        Some(name) => name,
        None => n.kind,
    }
}

/// The chunk of a symbol under the names of `scope`.
pub open spec fn symbol_chunk(path: Seq<char>, text: Seq<char>, n: NodeView, scope: Seq<Seq<char>>) -> ChunkView {
    ChunkView {
        path,
        start: n.start_row + 1,
        end: n.end_row + 1,
        kind: ChunkKind::Symbol,
        breadcrumb: joined(scope, " > "@),
        text: rows_text(lines_of(text), n.start_row, n.end_row),
    }
}

/// The symbols among the sibling nodes (and what is below them) in `lo..hi`,
/// parents first. Only named nodes are entered, and a node is a symbol when
/// its kind is one of `kinds`.
pub open spec fn symbols_in(
    path: Seq<char>,
    text: Seq<char>,
    kinds: Seq<Seq<char>>,
    ns: Seq<NodeView>,
    lo: int,
    hi: int,
    scope: Seq<Seq<char>>,
) -> Seq<ChunkView>
    decreases hi - lo,
    via symbols_in_shrinks
{
    if lo >= hi {
        Seq::empty()
    } else {
        let e = subtree_end(ns, lo, hi);
        let rest = symbols_in(path, text, kinds, ns, e, hi, scope);
        if !ns[lo].named {
            rest
        } else if kinds.contains(ns[lo].kind) {
            let inner = scope.push(symbol_label(text, ns[lo]));
            seq![symbol_chunk(path, text, ns[lo], inner)] + symbols_in(
                path,
                text,
                kinds,
                ns,
                lo + 1,
                e,
                inner,
            ) + rest
        } else {
            symbols_in(path, text, kinds, ns, lo + 1, e, scope) + rest
        }
    }
}

#[via_fn]
proof fn symbols_in_shrinks(
    path: Seq<char>,
    text: Seq<char>,
    kinds: Seq<Seq<char>>,
    ns: Seq<NodeView>,
    lo: int,
    hi: int,
    scope: Seq<Seq<char>>,
) {
    if lo < hi {
        lemma_shallow_from(ns, ns[lo].depth, lo + 1, hi);
    }
}

/// The symbols of a parsed file, or windows where it has none or was not parsed.
pub open spec fn symbols_of(
    path: Seq<char>,
    text: Seq<char>,
    kinds: Seq<Seq<char>>,
    tree: Option<Seq<NodeView>>,
    window: Window,
) -> Seq<ChunkView> {
    match tree {
        None => windows_of(path, lines_of(text), window),
        Some(ns) => {
            let found = symbols_in(path, text, kinds, ns, 1, ns.len() as int, Seq::empty());
            if found.len() == 0 {
                windows_of(path, lines_of(text), window)
            } else {
                found
            }
        },
    }
}

fn symbol_name(cs: &[char], n: &Node) -> (r: Option<String>)
    ensures
        match r {
            Some(s) => symbol_name_of(cs@, n@) == Some(s@),
            None => symbol_name_of(cs@, n@) is None,
        },
{
    match n.name {
        Some((a, b)) => Some(string_of(slice_bytes(cs, a, b))),
        None => match n.typ {
            Some((a, b)) => if same(n.kind.as_str(), "impl_item") {
                let mut s = "impl ".to_owned();
                s.append(string_of(slice_bytes(cs, a, b)).as_str());
                Some(s)
            } else {
                None
            },
            None => None,
        },
    }
}

fn walk(
    path: &str,
    cs: &[char],
    ls: &[String],
    kinds: &[&str],
    ns: &[Node],
    lo: usize,
    hi: usize,
    scope: &mut Vec<String>,
    out: &mut Vec<Chunk>,
)
    requires
        hi <= ns@.len(),
        texts(ls@) == lines_of(cs@),
        rows_fit(node_views(ns@)),
    ensures
        final(scope)@ == old(scope)@,
        chunk_views(final(out)@) == chunk_views(old(out)@) + symbols_in(
            path@,
            cs@,
            str_texts(kinds@),
            node_views(ns@),
            lo as int,
            hi as int,
            texts(old(scope)@),
        ),
    decreases hi - lo,
{
    let mut i: usize = lo;
    let ghost v = node_views(ns@);
    let ghost ks = str_texts(kinds@);
    let ghost sc = texts(scope@);
    let ghost all = symbols_in(path@, cs@, ks, v, lo as int, hi as int, sc);
    if lo >= hi {
        proof {
            assert(chunk_views(out@) + all =~= chunk_views(out@));
        }
        return;
    }
    while i < hi
        invariant
            lo <= i <= hi <= ns@.len(),
            texts(ls@) == lines_of(cs@),
            rows_fit(v),
            v == node_views(ns@),
            ks == str_texts(kinds@),
            sc == texts(old(scope)@),
            scope@ == old(scope)@,
            all == symbols_in(path@, cs@, ks, v, lo as int, hi as int, sc),
            chunk_views(out@) + symbols_in(path@, cs@, ks, v, i as int, hi as int, sc)
                == chunk_views(old(out)@) + all,
        decreases hi - i,
    {
        let e = find_end(ns, i, hi);
        let ghost before = out@;
        let ghost rest = symbols_in(path@, cs@, ks, v, e as int, hi as int, sc);
        proof {
            assert(v[i as int] == ns@[i as int]@);
        }
        if ns[i].named {
            if holds(kinds, ns[i].kind.as_str()) {
                let name = match symbol_name(cs, &ns[i]) {
                    Some(s) => s,
                    None => ns[i].kind.clone(),
                };
                let ghost inner = sc.push(name@);
                let ghost s0 = scope@;
                scope.push(name);
                proof {
                    assert(texts(scope@) =~= inner);
                }
                let c = Chunk {
                    path: path.to_owned(),
                    start: ns[i].start_row as u64 + 1,
                    end: ns[i].end_row as u64 + 1,
                    kind: ChunkKind::Symbol,
                    breadcrumb: join(scope, " > "),
                    text: slice_lines(ls, ns[i].start_row as u64, ns[i].end_row as u64),
                };
                out.push(c);
                let ghost mid = out@;
                walk(path, cs, ls, kinds, ns, i + 1, e, scope, out);
                let _ = scope.pop();
                proof {
                    let below = symbols_in(path@, cs@, ks, v, i + 1, e as int, inner);
                    assert(scope@ =~= s0);
                    assert(c@ == symbol_chunk(path@, cs@, v[i as int], inner));
                    assert(chunk_views(mid) =~= chunk_views(before).push(c@));
                    assert(chunk_views(out@) + rest =~= chunk_views(before) + (seq![c@] + below
                        + rest));
                }
            } else {
                walk(path, cs, ls, kinds, ns, i + 1, e, scope, out);
                proof {
                    let below = symbols_in(path@, cs@, ks, v, i + 1, e as int, sc);
                    assert(chunk_views(out@) + rest =~= chunk_views(before) + (below + rest));
                }
            }
        }
        i = e;
    }
    proof {
        assert(chunk_views(out@) + symbols_in(path@, cs@, ks, v, hi as int, hi as int, sc)
            =~= chunk_views(out@));
    }
}

/// The symbols of a parsed file, or windows where it has none or was not
/// parsed. `tree` lists the nodes of the parse, parents before children.
pub fn symbols(path: &str, text: &str, kinds: &[&str], tree: &Option<Vec<Node>>, window: Window) -> (r: Vec<Chunk>)
    requires
        window_ok(window, lines_of(text@).len() as int),
        tree matches Some(ns) ==> rows_fit(node_views(ns@)),
    ensures
        chunk_views(r@) == symbols_of(
            path@,
            text@,
            str_texts(kinds@),
            (match tree {
                Some(ns) => Some(node_views(ns@)),
                None => None,
            }),
            window,
        ),
{
    let ls = crate::text::lines(text);
    proof {
        assert(texts(ls@).len() == ls@.len());
    }
    match tree {
        None => windows(path, &ls, window),
        Some(ns) => {
            let cs = chars_of(text);
            let mut out: Vec<Chunk> = Vec::new();
            let mut scope: Vec<String> = Vec::new();
            proof {
                assert(texts(scope@) =~= Seq::<Seq<char>>::empty());
            }
            walk(path, &cs, &ls, kinds, ns, 1, ns.len(), &mut scope, &mut out);
            proof {
                let found = symbols_in(
                    path@,
                    text@,
                    str_texts(kinds@),
                    node_views(ns@),
                    1,
                    ns@.len() as int,
                    Seq::empty(),
                );
                assert(chunk_views(out@) =~= found);
            }
            if out.len() == 0 {
                return windows(path, &ls, window);
            }
            out
        },
    }
}

/// The first of the sibling nodes in `lo..hi` that is named and of `kind`.
pub open spec fn child_of_kind(ns: Seq<NodeView>, kind: Seq<char>, lo: int, hi: int) -> Option<int>
    decreases hi - lo,
    via child_of_kind_shrinks
{
    if lo >= hi {
        None
    } else if ns[lo].named && ns[lo].kind == kind {
        Some(lo)
    } else {
        child_of_kind(ns, kind, subtree_end(ns, lo, hi), hi)
    }
}

#[via_fn]
proof fn child_of_kind_shrinks(ns: Seq<NodeView>, kind: Seq<char>, lo: int, hi: int) {
    if lo < hi {
        lemma_shallow_from(ns, ns[lo].depth, lo + 1, hi);
    }
}

/// The attribute path of the binding whose children are the nodes in `lo..hi`;
/// `binding` where it has none or a blank one.
pub open spec fn binding_name(text: Seq<char>, ns: Seq<NodeView>, lo: int, hi: int) -> Seq<char> {
    match child_of_kind(ns, "attrpath"@, lo, hi) {
        None => "binding"@,
        Some(k) => {
            let name = trimmed(byte_slice(text, ns[k].span.0, ns[k].span.1));
            if name.len() == 0 {
                "binding"@
            } else {
                name
            }
        },
    }
}

/// The row at which the `#` comments right above `row` start, going up at
/// most `left` rows.
pub open spec fn comments_above(ls: Seq<Seq<char>>, row: int, left: int) -> int
    decreases left,
{
    if left > 0 && 0 < row <= ls.len() && "#"@.is_prefix_of(ltrimmed(ls[row - 1])) {
        comments_above(ls, row - 1, left - 1)
    } else {
        row
    }
}

/// The chunks of the bindings among the sibling nodes (and what is below
/// them) in `lo..hi`, parents first. Each takes the comments above it along.
/// A nested binding of one line without comments has no chunk of its own.
pub open spec fn bindings_in(
    path: Seq<char>,
    text: Seq<char>,
    ns: Seq<NodeView>,
    lo: int,
    hi: int,
    scope: Seq<Seq<char>>,
) -> Seq<ChunkView>
    decreases hi - lo,
    via bindings_in_shrinks
{
    if lo >= hi {
        Seq::empty()
    } else {
        let n = ns[lo];
        let e = subtree_end(ns, lo, hi);
        let rest = bindings_in(path, text, ns, e, hi, scope);
        if !n.named {
            rest
        } else if n.kind == "binding"@ {
            let inner = scope.push(binding_name(text, ns, lo + 1, e));
            let first = comments_above(lines_of(text), n.start_row, 10);
            let bare = first == n.start_row && first == n.end_row;
            let own = if bare && inner.len() > 1 {
                Seq::empty()
            } else {
                seq![
                    ChunkView {
                        path,
                        start: first + 1,
                        end: n.end_row + 1,
                        kind: ChunkKind::Symbol,
                        breadcrumb: joined(inner, " > "@),
                        text: rows_text(lines_of(text), first, n.end_row),
                    },
                ]
            };
            own + bindings_in(path, text, ns, lo + 1, e, inner) + rest
        } else {
            bindings_in(path, text, ns, lo + 1, e, scope) + rest
        }
    }
}

#[via_fn]
proof fn bindings_in_shrinks(
    path: Seq<char>,
    text: Seq<char>,
    ns: Seq<NodeView>,
    lo: int,
    hi: int,
    scope: Seq<Seq<char>>,
) {
    if lo < hi {
        lemma_shallow_from(ns, ns[lo].depth, lo + 1, hi);
    }
}

/// The bindings of a parsed Nix file, or windows where it has none, was not
/// parsed, or holds a syntax error.
pub open spec fn bindings_of(
    path: Seq<char>,
    text: Seq<char>,
    tree: Option<Seq<NodeView>>,
    window: Window,
) -> Seq<ChunkView> {
    match tree {
        None => windows_of(path, lines_of(text), window),
        Some(ns) => {
            let found = bindings_in(path, text, ns, 1, ns.len() as int, Seq::empty());
            if (ns.len() > 0 && ns[0].error) || found.len() == 0 {
                windows_of(path, lines_of(text), window)
            } else {
                found
            }
        },
    }
}

fn first_child(ns: &[Node], kind: &str, lo: usize, hi: usize) -> (r: Option<usize>)
    requires
        hi <= ns@.len(),
    ensures
        match r {
            Some(k) => child_of_kind(node_views(ns@), kind@, lo as int, hi as int) == Some(
                k as int,
            ) && k < ns@.len(),
            None => child_of_kind(node_views(ns@), kind@, lo as int, hi as int) is None,
        },
{
    let mut i: usize = lo;
    while i < hi
        invariant
            hi <= ns@.len(),
            child_of_kind(node_views(ns@), kind@, i as int, hi as int) == child_of_kind(
                node_views(ns@),
                kind@,
                lo as int,
                hi as int,
            ),
        decreases hi - i,
    {
        proof {
            assert(node_views(ns@)[i as int] == ns@[i as int]@);
        }
        if ns[i].named && same(ns[i].kind.as_str(), kind) {
            return Some(i);
        }
        i = find_end(ns, i, hi);
    }
    None
}

/// Where the contiguous leading `#` comment lines (up to 10) of a row start.
fn with_leading_comments(ls: &[String], row: usize) -> (r: usize)
    ensures
        r == comments_above(texts(ls@), row as int, 10),
        r <= row,
{
    let mut first: usize = row;
    let mut left: usize = 10;
    while left > 0 && 0 < first && first <= ls.len()
        invariant
            first <= row,
            comments_above(texts(ls@), first as int, left as int) == comments_above(
                texts(ls@),
                row as int,
                10,
            ),
        decreases left,
    {
        let line = chars_of(ls[first - 1].as_str());
        proof {
            assert(texts(ls@)[first - 1] == line@);
        }
        if !crate::text::starts_with(trim_start(&line), "#") {
            return first;
        }
        first -= 1;
        left -= 1;
    }
    first
}

fn nix_walk(
    path: &str,
    cs: &[char],
    ls: &[String],
    ns: &[Node],
    lo: usize,
    hi: usize,
    scope: &mut Vec<String>,
    out: &mut Vec<Chunk>,
)
    requires
        hi <= ns@.len(),
        texts(ls@) == lines_of(cs@),
        rows_fit(node_views(ns@)),
    ensures
        final(scope)@ == old(scope)@,
        chunk_views(final(out)@) == chunk_views(old(out)@) + bindings_in(
            path@,
            cs@,
            node_views(ns@),
            lo as int,
            hi as int,
            texts(old(scope)@),
        ),
    decreases hi - lo,
{
    let mut i: usize = lo;
    let ghost v = node_views(ns@);
    let ghost sc = texts(scope@);
    let ghost all = bindings_in(path@, cs@, v, lo as int, hi as int, sc);
    if lo >= hi {
        proof {
            assert(chunk_views(out@) + all =~= chunk_views(out@));
        }
        return;
    }
    while i < hi
        invariant
            lo <= i <= hi <= ns@.len(),
            texts(ls@) == lines_of(cs@),
            rows_fit(v),
            v == node_views(ns@),
            sc == texts(old(scope)@),
            scope@ == old(scope)@,
            all == bindings_in(path@, cs@, v, lo as int, hi as int, sc),
            chunk_views(out@) + bindings_in(path@, cs@, v, i as int, hi as int, sc) == chunk_views(
                old(out)@,
            ) + all,
        decreases hi - i,
    {
        let e = find_end(ns, i, hi);
        let ghost before = out@;
        let ghost rest = bindings_in(path@, cs@, v, e as int, hi as int, sc);
        proof {
            assert(v[i as int] == ns@[i as int]@);
        }
        if ns[i].named {
            if same(ns[i].kind.as_str(), "binding") {
                let mut name: String = "binding".to_owned();
                if let Some(k) = first_child(ns, "attrpath", i + 1, e) {
                    proof {
                        assert(v[k as int] == ns@[k as int]@);
                    }
                    let raw = trim(slice_bytes(cs, ns[k].span.0, ns[k].span.1));
                    if raw.len() > 0 {
                        name = string_of(raw);
                    }
                }
                let ghost inner = sc.push(name@);
                let ghost s0 = scope@;
                proof {
                    assert(name@ == binding_name(cs@, v, i + 1, e as int));
                }
                scope.push(name);
                proof {
                    assert(texts(scope@) =~= inner);
                }
                // Leading `#` comments document the binding; without them
                // symbol chunks lose all prose context.
                let first = with_leading_comments(ls, ns[i].start_row);
                // Single-line uncommented bindings nested inside a container
                // add noise; the container chunk already covers them. Root
                // singletons are still emitted.
                let bare = first == ns[i].start_row && first == ns[i].end_row;
                let ghost own: Seq<ChunkView> = Seq::empty();
                if !(bare && scope.len() > 1) {
                    let c = Chunk {
                        path: path.to_owned(),
                        start: first as u64 + 1,
                        end: ns[i].end_row as u64 + 1,
                        kind: ChunkKind::Symbol,
                        breadcrumb: join(scope, " > "),
                        text: slice_lines(ls, first as u64, ns[i].end_row as u64),
                    };
                    out.push(c);
                    proof {
                        own = seq![c@];
                    }
                }
                proof {
                    assert(chunk_views(out@) =~= chunk_views(before) + own);
                }
                nix_walk(path, cs, ls, ns, i + 1, e, scope, out);
                let _ = scope.pop();
                proof {
                    let below = bindings_in(path@, cs@, v, i + 1, e as int, inner);
                    assert(scope@ =~= s0);
                    assert(chunk_views(out@) + rest =~= chunk_views(before) + (own + below + rest));
                }
            } else {
                nix_walk(path, cs, ls, ns, i + 1, e, scope, out);
                proof {
                    let below = bindings_in(path@, cs@, v, i + 1, e as int, sc);
                    assert(chunk_views(out@) + rest =~= chunk_views(before) + (below + rest));
                }
            }
        }
        i = e;
    }
    proof {
        assert(chunk_views(out@) + bindings_in(path@, cs@, v, hi as int, hi as int, sc)
            =~= chunk_views(out@));
    }
}

/// Nix: every `binding` (`attrpath = value`) is a chunk; nested attrsets
/// extend the breadcrumb (`zsh > plugins`). Dotted attrpaths stay dotted.
pub fn nix_symbols(path: &str, text: &str, tree: &Option<Vec<Node>>, window: Window) -> (r: Vec<Chunk>)
    requires
        window_ok(window, lines_of(text@).len() as int),
        tree matches Some(ns) ==> rows_fit(node_views(ns@)),
    ensures
        chunk_views(r@) == bindings_of(
            path@,
            text@,
            (match tree {
                Some(ns) => Some(node_views(ns@)),
                None => None,
            }),
            window,
        ),
{
    let ls = crate::text::lines(text);
    proof {
        assert(texts(ls@).len() == ls@.len());
    }
    match tree {
        None => windows(path, &ls, window),
        Some(ns) => {
            proof {
                if ns@.len() > 0 {
                    assert(node_views(ns@)[0] == ns@[0]@);
                }
            }
            if ns.len() > 0 && ns[0].error {
                return windows(path, &ls, window);
            }
            let cs = chars_of(text);
            let mut out: Vec<Chunk> = Vec::new();
            let mut scope: Vec<String> = Vec::new();
            proof {
                assert(texts(scope@) =~= Seq::<Seq<char>>::empty());
            }
            nix_walk(path, &cs, &ls, ns, 1, ns.len(), &mut scope, &mut out);
            proof {
                let found = bindings_in(
                    path@,
                    text@,
                    node_views(ns@),
                    1,
                    ns@.len() as int,
                    Seq::empty(),
                );
                assert(chunk_views(out@) =~= found);
            }
            if out.len() == 0 {
                return windows(path, &ls, window);
            }
            out
        },
    }
}

proof fn lemma_placed_concat(a: Seq<ChunkView>, b: Seq<ChunkView>)
    requires
        placed(a),
        placed(b),
    ensures
        placed(a + b),
{
    assert forall|i: int| 0 <= i < (a + b).len() implies (#[trigger] (a + b)[i]).start >= 1 by {
        if i < a.len() {
            assert((a + b)[i] == a[i]);
        } else {
            assert((a + b)[i] == b[i - a.len()]);
        }
    }
}

proof fn lemma_symbols_in_placed(
    path: Seq<char>,
    text: Seq<char>,
    kinds: Seq<Seq<char>>,
    ns: Seq<NodeView>,
    lo: int,
    hi: int,
    scope: Seq<Seq<char>>,
)
    requires
        rows_fit(ns),
        0 <= lo,
        hi <= ns.len(),
    ensures
        placed(symbols_in(path, text, kinds, ns, lo, hi, scope)),
    decreases hi - lo,
{
    if lo < hi {
        let e = subtree_end(ns, lo, hi);
        lemma_shallow_from(ns, ns[lo].depth, lo + 1, hi);
        lemma_symbols_in_placed(path, text, kinds, ns, e, hi, scope);
        let rest = symbols_in(path, text, kinds, ns, e, hi, scope);
        if ns[lo].named {
            if kinds.contains(ns[lo].kind) {
                let inner = scope.push(symbol_label(text, ns[lo]));
                lemma_symbols_in_placed(path, text, kinds, ns, lo + 1, e, inner);
                let own = seq![symbol_chunk(path, text, ns[lo], inner)];
                let below = symbols_in(path, text, kinds, ns, lo + 1, e, inner);
                lemma_placed_concat(own, below);
                lemma_placed_concat(own + below, rest);
            } else {
                lemma_symbols_in_placed(path, text, kinds, ns, lo + 1, e, scope);
                lemma_placed_concat(
                    symbols_in(path, text, kinds, ns, lo + 1, e, scope),
                    rest,
                );
            }
        }
    }
}

/// Symbols are placed.
pub proof fn lemma_symbols_placed(
    path: Seq<char>,
    text: Seq<char>,
    kinds: Seq<Seq<char>>,
    tree: Option<Seq<NodeView>>,
    window: Window,
)
    requires
        tree matches Some(ns) ==> rows_fit(ns),
    ensures
        placed(symbols_of(path, text, kinds, tree, window)),
{
    lemma_windows_placed(path, lines_of(text), window.0 as int, window.1 as int, 0);
    if let Some(ns) = tree {
        lemma_symbols_in_placed(path, text, kinds, ns, 1, ns.len() as int, Seq::empty());
    }
}

/// Comments are looked for upwards only, and not past the first row.
pub proof fn lemma_comments_above(ls: Seq<Seq<char>>, row: int, left: int)
    requires
        0 <= row,
    ensures
        0 <= comments_above(ls, row, left) <= row,
    decreases left,
{
    if left > 0 && 0 < row {
        lemma_comments_above(ls, row - 1, left - 1);
    }
}

proof fn lemma_bindings_in_placed(
    path: Seq<char>,
    text: Seq<char>,
    ns: Seq<NodeView>,
    lo: int,
    hi: int,
    scope: Seq<Seq<char>>,
)
    requires
        rows_fit(ns),
        0 <= lo,
        hi <= ns.len(),
    ensures
        placed(bindings_in(path, text, ns, lo, hi, scope)),
    decreases hi - lo,
{
    if lo < hi {
        let n = ns[lo];
        let e = subtree_end(ns, lo, hi);
        lemma_shallow_from(ns, n.depth, lo + 1, hi);
        lemma_bindings_in_placed(path, text, ns, e, hi, scope);
        let rest = bindings_in(path, text, ns, e, hi, scope);
        if n.named {
            if n.kind == "binding"@ {
                let inner = scope.push(binding_name(text, ns, lo + 1, e));
                lemma_comments_above(lines_of(text), n.start_row, 10);
                lemma_bindings_in_placed(path, text, ns, lo + 1, e, inner);
                let below = bindings_in(path, text, ns, lo + 1, e, inner);
                let first = comments_above(lines_of(text), n.start_row, 10);
                let own = if first == n.start_row && first == n.end_row && inner.len() > 1 {
                    Seq::empty()
                } else {
                    seq![
                        ChunkView {
                            path,
                            start: first + 1,
                            end: n.end_row + 1,
                            kind: ChunkKind::Symbol,
                            breadcrumb: joined(inner, " > "@),
                            text: rows_text(lines_of(text), first, n.end_row),
                        },
                    ]
                };
                lemma_placed_concat(own, below);
                lemma_placed_concat(own + below, rest);
            } else {
                lemma_bindings_in_placed(path, text, ns, lo + 1, e, scope);
                lemma_placed_concat(bindings_in(path, text, ns, lo + 1, e, scope), rest);
            }
        }
    }
}

/// Bindings are placed.
pub proof fn lemma_bindings_placed(path: Seq<char>, text: Seq<char>, tree: Option<Seq<NodeView>>, window: Window)
    requires
        tree matches Some(ns) ==> rows_fit(ns),
    ensures
        placed(bindings_of(path, text, tree, window)),
{
    lemma_windows_placed(path, lines_of(text), window.0 as int, window.1 as int, 0);
    if let Some(ns) = tree {
        lemma_bindings_in_placed(path, text, ns, 1, ns.len() as int, Seq::empty());
    }
}

/// Whether a chunk is the symbol of a node: it cites the rows of the node, and
/// its breadcrumb is that of the scope and ends with what the node is called.
spec fn is_symbol_of(
    c: ChunkView,
    path: Seq<char>,
    text: Seq<char>,
    n: NodeView,
    scope: Seq<Seq<char>>,
) -> bool {
    &&& c.path == path && c.kind == ChunkKind::Symbol
    &&& c.start == n.start_row + 1 && c.end == n.end_row + 1
    &&& c.text == rows_text(lines_of(text), n.start_row, n.end_row)
    &&& exists|names: Seq<Seq<char>>|
        names.len() > 0 && names.last() == symbol_label(text, n) && c.breadcrumb
            == #[trigger] joined(scope + names, " > "@)
}

proof fn lemma_symbol_in_scope(
    c: ChunkView,
    path: Seq<char>,
    text: Seq<char>,
    n: NodeView,
    scope: Seq<Seq<char>>,
    name: Seq<char>,
)
    requires
        is_symbol_of(c, path, text, n, scope.push(name)),
    ensures
        is_symbol_of(c, path, text, n, scope),
{
    let inner = scope.push(name);
    let names = choose|names: Seq<Seq<char>>|
        names.len() > 0 && names.last() == symbol_label(text, n) && c.breadcrumb
            == #[trigger] joined(inner + names, " > "@);
    let more = seq![name] + names;
    assert(inner + names =~= scope + more);
    assert(more.last() == names.last());
    assert(c.breadcrumb == joined(scope + more, " > "@));
}

proof fn lemma_symbols_are_nodes(
    path: Seq<char>,
    text: Seq<char>,
    kinds: Seq<Seq<char>>,
    ns: Seq<NodeView>,
    lo: int,
    hi: int,
    scope: Seq<Seq<char>>,
)
    requires
        0 <= lo,
        hi <= ns.len(),
    ensures
        forall|i: int|
            0 <= i < symbols_in(path, text, kinds, ns, lo, hi, scope).len() ==> exists|k: int|
                lo <= k < hi && (#[trigger] ns[k]).named && kinds.contains(ns[k].kind)
                    && is_symbol_of(
                    #[trigger] symbols_in(path, text, kinds, ns, lo, hi, scope)[i],
                    path,
                    text,
                    ns[k],
                    scope,
                ),
    decreases hi - lo,
{
    if lo < hi {
        let e = subtree_end(ns, lo, hi);
        lemma_shallow_from(ns, ns[lo].depth, lo + 1, hi);
        lemma_symbols_are_nodes(path, text, kinds, ns, e, hi, scope);
        let all = symbols_in(path, text, kinds, ns, lo, hi, scope);
        let rest = symbols_in(path, text, kinds, ns, e, hi, scope);
        let inner = scope.push(symbol_label(text, ns[lo]));
        let own = ns[lo].named && kinds.contains(ns[lo].kind);
        lemma_symbols_are_nodes(path, text, kinds, ns, lo + 1, e, inner);
        lemma_symbols_are_nodes(path, text, kinds, ns, lo + 1, e, scope);
        let below_own = symbols_in(path, text, kinds, ns, lo + 1, e, inner);
        let below = symbols_in(path, text, kinds, ns, lo + 1, e, scope);
        assert forall|i: int| 0 <= i < all.len() implies exists|k: int|
            lo <= k < hi && (#[trigger] ns[k]).named && kinds.contains(ns[k].kind) && is_symbol_of(
                #[trigger] all[i],
                path,
                text,
                ns[k],
                scope,
            ) by {
            if !ns[lo].named {
                assert(all[i] == rest[i]);
                let k = choose|k: int|
                    e <= k < hi && (#[trigger] ns[k]).named && kinds.contains(ns[k].kind)
                        && is_symbol_of(rest[i], path, text, ns[k], scope);
                assert(ns[k].named);
            } else if own {
                if i == 0 {
                    let names = seq![symbol_label(text, ns[lo])];
                    assert(scope + names =~= inner);
                    assert(all[0].breadcrumb == joined(scope + names, " > "@));
                    assert(is_symbol_of(all[0], path, text, ns[lo], scope));
                } else if i - 1 < below_own.len() {
                    assert(all[i] == below_own[i - 1]);
                    let k = choose|k: int|
                        lo + 1 <= k < e && (#[trigger] ns[k]).named && kinds.contains(ns[k].kind)
                            && is_symbol_of(below_own[i - 1], path, text, ns[k], inner);
                    lemma_symbol_in_scope(
                        all[i],
                        path,
                        text,
                        ns[k],
                        scope,
                        symbol_label(text, ns[lo]),
                    );
                } else {
                    let r = i - 1 - below_own.len();
                    assert(all[i] == rest[r]);
                    let k = choose|k: int|
                        e <= k < hi && (#[trigger] ns[k]).named && kinds.contains(ns[k].kind)
                            && is_symbol_of(rest[r], path, text, ns[k], scope);
                    assert(ns[k].named);
                }
            } else if i < below.len() {
                assert(all[i] == below[i]);
                let k = choose|k: int|
                    lo + 1 <= k < e && (#[trigger] ns[k]).named && kinds.contains(ns[k].kind)
                        && is_symbol_of(below[i], path, text, ns[k], scope);
                assert(ns[k].named);
            } else {
                assert(all[i] == rest[i - below.len()]);
                let k = choose|k: int|
                    e <= k < hi && (#[trigger] ns[k]).named && kinds.contains(ns[k].kind)
                        && is_symbol_of(rest[i - below.len()], path, text, ns[k], scope);
                assert(ns[k].named);
            }
        }
    }
}

/// Every symbol of a file stands for a node of its tree, of one of the kinds
/// that are symbols: it cites the rows of the node, and its breadcrumb ends
/// with what the node is called, behind the names of the scope it is in.
pub proof fn symbols_stand_for_nodes(
    path: Seq<char>,
    text: Seq<char>,
    kinds: Seq<Seq<char>>,
    ns: Seq<NodeView>,
    lo: int,
    hi: int,
    scope: Seq<Seq<char>>,
    i: int,
)
    requires
        0 <= lo,
        hi <= ns.len(),
        0 <= i < symbols_in(path, text, kinds, ns, lo, hi, scope).len(),
    ensures
        ({
            let c = symbols_in(path, text, kinds, ns, lo, hi, scope)[i];
            exists|k: int|
                lo <= k < hi && (#[trigger] ns[k]).named && kinds.contains(ns[k].kind) && c.start
                    == ns[k].start_row + 1 && c.end == ns[k].end_row + 1 && symbol_label(
                    text,
                    ns[k],
                ).is_suffix_of(c.breadcrumb) && (scope.len() > 0 ==> (joined(scope, " > "@)
                    + " > "@).is_prefix_of(c.breadcrumb))
        }),
{
    lemma_symbols_are_nodes(path, text, kinds, ns, lo, hi, scope);
    let c = symbols_in(path, text, kinds, ns, lo, hi, scope)[i];
    let k = choose|k: int|
        lo <= k < hi && (#[trigger] ns[k]).named && kinds.contains(ns[k].kind) && is_symbol_of(
            c,
            path,
            text,
            ns[k],
            scope,
        );
    let names = choose|names: Seq<Seq<char>>|
        names.len() > 0 && names.last() == symbol_label(text, ns[k]) && c.breadcrumb
            == #[trigger] joined(scope + names, " > "@);
    lemma_crumb_ends(scope, names);
    assert(ns[k].named);
}

proof fn lemma_crumb_ends(scope: Seq<Seq<char>>, names: Seq<Seq<char>>)
    requires
        names.len() > 0,
    ensures
        names.last().is_suffix_of(joined(scope + names, " > "@)),
        scope.len() > 0 ==> (joined(scope, " > "@) + " > "@).is_prefix_of(
            joined(scope + names, " > "@),
        ),
{
    let all = scope + names;
    let j = joined(all, " > "@);
    let last = names.last();
    assert(all.last() == last);
    crate::text::joining_keeps_each_part(all, " > "@, all.len() - 1);
    assert(last =~= j.subrange(j.len() - last.len(), j.len() as int));
    if scope.len() > 0 {
        crate::text::joining_keeps_each_part(all, " > "@, scope.len() as int);
        assert(all.take(scope.len() as int) =~= scope);
        let head = joined(scope, " > "@) + " > "@;
        assert(head =~= j.subrange(0, head.len() as int));
    }
}

/// No symbol is lost: every node of a kind that is a symbol has a chunk with
/// its rows, as long as tokens without a rule of their own have nothing below
/// them.
pub proof fn every_symbol_has_a_chunk(
    path: Seq<char>,
    text: Seq<char>,
    kinds: Seq<Seq<char>>,
    ns: Seq<NodeView>,
    lo: int,
    hi: int,
    scope: Seq<Seq<char>>,
    k: int,
)
    requires
        0 <= lo <= k < hi <= ns.len(),
        ns[k].named,
        kinds.contains(ns[k].kind),
        forall|j: int|
            lo <= j < hi - 1 && !(#[trigger] ns[j]).named ==> ns[j + 1].depth <= ns[j].depth,
    ensures
        exists|i: int|
            0 <= i < symbols_in(path, text, kinds, ns, lo, hi, scope).len() && (
            #[trigger] symbols_in(path, text, kinds, ns, lo, hi, scope)[i]).start
                == ns[k].start_row + 1 && symbols_in(path, text, kinds, ns, lo, hi, scope)[i].end
                == ns[k].end_row + 1,
    decreases hi - lo,
{
    let e = subtree_end(ns, lo, hi);
    lemma_shallow_from(ns, ns[lo].depth, lo + 1, hi);
    let all = symbols_in(path, text, kinds, ns, lo, hi, scope);
    let rest = symbols_in(path, text, kinds, ns, e, hi, scope);
    let own = ns[lo].named && kinds.contains(ns[lo].kind);
    let inner = if own {
        scope.push(symbol_label(text, ns[lo]))
    } else {
        scope
    };
    let below = symbols_in(path, text, kinds, ns, lo + 1, e, inner);
    if !ns[lo].named {
        if lo < hi - 1 {
            assert(ns[lo + 1].depth <= ns[lo].depth);
            assert(e == lo + 1);
        }
        assert(e <= k);
    }
    if k >= e {
        every_symbol_has_a_chunk(path, text, kinds, ns, e, hi, scope, k);
        let r = choose|r: int|
            0 <= r < rest.len() && (#[trigger] rest[r]).start == ns[k].start_row + 1 && rest[r].end
                == ns[k].end_row + 1;
        if !ns[lo].named {
            assert(all[r] == rest[r]);
        } else if own {
            assert(all[1 + below.len() + r] == rest[r]);
        } else {
            assert(all[below.len() + r] == rest[r]);
        }
    } else if k > lo {
        every_symbol_has_a_chunk(path, text, kinds, ns, lo + 1, e, inner, k);
        let r = choose|r: int|
            0 <= r < below.len() && (#[trigger] below[r]).start == ns[k].start_row + 1
                && below[r].end == ns[k].end_row + 1;
        if own {
            assert(all[1 + r] == below[r]);
        } else {
            assert(all[r] == below[r]);
        }
    } else {
        assert(all[0] == symbol_chunk(path, text, ns[lo], inner));
    }
}

/// Rows as text are the lines they name, as far as there are such lines.
proof fn lemma_rows(ls: Seq<Seq<char>>, a: int, b: int)
    requires
        0 <= a < ls.len(),
    ensures
        rows_text(ls, a, b) == joined(
            ls.subrange(
                a,
                crate::order::lesser(crate::order::greater(a + 1, b + 1), ls.len() as int),
            ),
            "\n"@,
        ),
{
}

/// What the chunks of a parsed file show: those of its symbols their rows, and
/// windows their lines.
pub proof fn symbols_cite_their_lines(
    path: Seq<char>,
    text: Seq<char>,
    kinds: Seq<Seq<char>>,
    tree: Option<Seq<NodeView>>,
    window: Window,
    i: int,
)
    requires
        window_ok(window, lines_of(text).len() as int),
        tree matches Some(ns) ==> rows_fit(ns),
        0 <= i < symbols_of(path, text, kinds, tree, window).len(),
    ensures
        ({
            let c = symbols_of(path, text, kinds, tree, window)[i];
            let ls = lines_of(text);
            &&& c.path == path && 1 <= c.start
            &&& c.kind != ChunkKind::Symbol ==> c.start <= c.end <= ls.len()
            &&& c.start <= ls.len() ==> c.text == joined(
                ls.subrange(
                    c.start - 1,
                    crate::order::lesser(crate::order::greater(c.start, c.end), ls.len() as int),
                ),
                "\n"@,
            )
        }),
{
    let ls = lines_of(text);
    let c = symbols_of(path, text, kinds, tree, window)[i];
    let by_window = match tree {
        None => true,
        Some(ns) => symbols_in(path, text, kinds, ns, 1, ns.len() as int, Seq::empty()).len() == 0,
    };
    if by_window {
        crate::extract::windows_cite_their_lines(path, ls, window, i);
    } else {
        let ns = tree->0;
        lemma_symbols_are_nodes(path, text, kinds, ns, 1, ns.len() as int, Seq::empty());
        let k = choose|k: int|
            1 <= k < ns.len() && (#[trigger] ns[k]).named && kinds.contains(ns[k].kind)
                && is_symbol_of(c, path, text, ns[k], Seq::empty());
        assert(0 <= ns[k].start_row);
        if c.start <= ls.len() {
            lemma_rows(ls, ns[k].start_row, ns[k].end_row);
        }
    }
}

/// Whether a chunk is the binding of a node: it ends where the node does, and
/// starts there or with the comments right above it.
spec fn is_binding_of(c: ChunkView, path: Seq<char>, text: Seq<char>, n: NodeView) -> bool {
    &&& c.path == path && c.kind == ChunkKind::Symbol
    &&& 1 <= c.start <= n.start_row + 1 && c.end == n.end_row + 1
    &&& n.start_row + 1 - c.start <= 10
    &&& c.text == rows_text(lines_of(text), c.start - 1, n.end_row)
    &&& forall|r: int|
        c.start - 1 <= r < n.start_row ==> "#"@.is_prefix_of(
            ltrimmed(#[trigger] lines_of(text)[r]),
        )
}

proof fn lemma_comments_are(ls: Seq<Seq<char>>, row: int, left: int)
    requires
        0 <= row,
        0 <= left,
    ensures
        0 <= comments_above(ls, row, left) <= row,
        row - comments_above(ls, row, left) <= left,
        forall|r: int|
            comments_above(ls, row, left) <= r < row ==> "#"@.is_prefix_of(
                ltrimmed(#[trigger] ls[r]),
            ),
    decreases left,
{
    if left > 0 && 0 < row <= ls.len() && "#"@.is_prefix_of(ltrimmed(ls[row - 1])) {
        lemma_comments_are(ls, row - 1, left - 1);
    }
}

/// Whether a chunk is the binding of one of the nodes in `lo..hi`.
spec fn binds(
    c: ChunkView,
    path: Seq<char>,
    text: Seq<char>,
    ns: Seq<NodeView>,
    lo: int,
    hi: int,
) -> bool {
    exists|k: int|
        lo <= k < hi && (#[trigger] ns[k]).named && ns[k].kind == "binding"@ && is_binding_of(
            c,
            path,
            text,
            ns[k],
        )
}

proof fn lemma_bindings_are_nodes(
    path: Seq<char>,
    text: Seq<char>,
    ns: Seq<NodeView>,
    lo: int,
    hi: int,
    scope: Seq<Seq<char>>,
)
    requires
        rows_fit(ns),
        0 <= lo,
        hi <= ns.len(),
    ensures
        forall|i: int|
            0 <= i < bindings_in(path, text, ns, lo, hi, scope).len() ==> binds(
                #[trigger] bindings_in(path, text, ns, lo, hi, scope)[i],
                path,
                text,
                ns,
                lo,
                hi,
            ),
    decreases hi - lo,
{
    if lo < hi {
        let n = ns[lo];
        let e = subtree_end(ns, lo, hi);
        lemma_shallow_from(ns, n.depth, lo + 1, hi);
        lemma_bindings_are_nodes(path, text, ns, e, hi, scope);
        let all = bindings_in(path, text, ns, lo, hi, scope);
        let rest = bindings_in(path, text, ns, e, hi, scope);
        let own = n.named && n.kind == "binding"@;
        let inner = if own {
            scope.push(binding_name(text, ns, lo + 1, e))
        } else {
            scope
        };
        lemma_bindings_are_nodes(path, text, ns, lo + 1, e, inner);
        let below = bindings_in(path, text, ns, lo + 1, e, inner);
        lemma_comments_are(lines_of(text), n.start_row, 10);
        assert forall|i: int| 0 <= i < all.len() implies binds(
            #[trigger] all[i],
            path,
            text,
            ns,
            lo,
            hi,
        ) by {
            let m = all.len() - rest.len();
            if i >= m {
                assert(all[i] == rest[i - m]);
                assert(binds(rest[i - m], path, text, ns, e, hi));
            } else if i >= m - below.len() {
                let r = i - (m - below.len());
                assert(all[i] == below[r]);
                assert(binds(below[r], path, text, ns, lo + 1, e));
            } else {
                assert(own);
                assert(is_binding_of(all[i], path, text, ns[lo]));
            }
        }
    }
}

/// Every chunk of a Nix file is a binding of its tree with the comments right
/// above it, or a window, and shows the lines that it cites.
pub proof fn bindings_cite_their_lines(
    path: Seq<char>,
    text: Seq<char>,
    tree: Option<Seq<NodeView>>,
    window: Window,
    i: int,
)
    requires
        window_ok(window, lines_of(text).len() as int),
        tree matches Some(ns) ==> rows_fit(ns),
        0 <= i < bindings_of(path, text, tree, window).len(),
    ensures
        ({
            let c = bindings_of(path, text, tree, window)[i];
            let ls = lines_of(text);
            &&& c.path == path && 1 <= c.start
            &&& c.kind != ChunkKind::Symbol ==> c.start <= c.end <= ls.len()
            &&& c.start <= ls.len() ==> c.text == joined(
                ls.subrange(
                    c.start - 1,
                    crate::order::lesser(crate::order::greater(c.start, c.end), ls.len() as int),
                ),
                "\n"@,
            )
            &&& c.kind == ChunkKind::Symbol ==> exists|k: int|
                0 <= k < (tree->0).len() && (#[trigger] (tree->0)[k]).kind == "binding"@ && c.end
                    == (tree->0)[k].end_row + 1 && c.start <= (tree->0)[k].start_row + 1
                    && (forall|r: int|
                    c.start - 1 <= r < (tree->0)[k].start_row ==> "#"@.is_prefix_of(
                        ltrimmed(#[trigger] ls[r]),
                    ))
        }),
{
    let ls = lines_of(text);
    let c = bindings_of(path, text, tree, window)[i];
    let by_window = match tree {
        None => true,
        Some(ns) => (ns.len() > 0 && ns[0].error) || bindings_in(
            path,
            text,
            ns,
            1,
            ns.len() as int,
            Seq::empty(),
        ).len() == 0,
    };
    if by_window {
        crate::extract::windows_cite_their_lines(path, ls, window, i);
    } else {
        let ns = tree->0;
        lemma_bindings_are_nodes(path, text, ns, 1, ns.len() as int, Seq::empty());
        assert(binds(c, path, text, ns, 1, ns.len() as int));
        let k = choose|k: int|
            1 <= k < ns.len() && (#[trigger] ns[k]).named && ns[k].kind == "binding"@
                && is_binding_of(c, path, text, ns[k]);
        if c.start <= ls.len() {
            lemma_rows(ls, c.start - 1, ns[k].end_row);
        }
        assert((tree->0)[k].kind == "binding"@);
    }
}

/// A symbol is called by the characters of its name in the text; an `impl`
/// block without a name by those of its type, behind the word; a node with
/// neither by its kind.
pub proof fn symbols_are_called_by_name(
    a: Seq<char>,
    name: Seq<char>,
    b: Seq<char>,
    n: NodeView,
    span: (int, int),
)
    requires
        span == (crate::bytes::byte_len(a) as int, crate::bytes::byte_len(a + name) as int),
    ensures
        n.name == Some(span) ==> symbol_label(a + name + b, n) == name,
        n.name is None && n.typ == Some(span) && n.kind == "impl_item"@ ==> symbol_label(
            a + name + b,
            n,
        ) == "impl "@ + name,
        n.name is None && n.typ is None ==> symbol_label(a + name + b, n) == n.kind,
{
    crate::bytes::slices_read_back(a, name, b);
}

/// Whether node `k` lies below node `j`: every node behind `j`, up to `k`, is
/// deeper than `j`.
pub open spec fn encloses(ns: Seq<NodeView>, j: int, k: int) -> bool {
    j < k && forall|m: int| j < m <= k ==> (#[trigger] ns[m]).depth > ns[j].depth
}

/// What the nodes from `lo` on that node `k` lies below are called, outermost
/// first, of those that give a name to what is below them.
pub open spec fn names_around(
    ns: Seq<NodeView>,
    gives: spec_fn(int) -> bool,
    called: spec_fn(int) -> Seq<char>,
    lo: int,
    k: int,
) -> Seq<Seq<char>>
    decreases k - lo,
{
    if lo >= k {
        Seq::empty()
    } else if gives(lo) && encloses(ns, lo, k) {
        seq![called(lo)] + names_around(ns, gives, called, lo + 1, k)
    } else {
        names_around(ns, gives, called, lo + 1, k)
    }
}

proof fn lemma_shallow_is(ns: Seq<NodeView>, depth: int, j: int, hi: int)
    requires
        j <= hi,
    ensures
        j <= shallow_from(ns, depth, j, hi) <= hi,
        forall|m: int|
            j <= m < shallow_from(ns, depth, j, hi) ==> (#[trigger] ns[m]).depth > depth,
        shallow_from(ns, depth, j, hi) < hi ==> ns[shallow_from(ns, depth, j, hi)].depth <= depth,
    decreases hi - j,
{
    if j < hi && ns[j].depth > depth {
        lemma_shallow_is(ns, depth, j + 1, hi);
    }
}

proof fn lemma_shallow_at(ns: Seq<NodeView>, depth: int, j: int, hi: int, e: int)
    requires
        j <= e <= hi,
        forall|m: int| j <= m < e ==> (#[trigger] ns[m]).depth > depth,
        e < hi ==> ns[e].depth <= depth,
    ensures
        shallow_from(ns, depth, j, hi) == e,
    decreases e - j,
{
    if j < e {
        assert(ns[j].depth > depth);
        lemma_shallow_at(ns, depth, j + 1, hi, e);
    }
}

/// No node before the end of a subtree encloses a node behind it.
proof fn lemma_names_behind(
    ns: Seq<NodeView>,
    gives: spec_fn(int) -> bool,
    called: spec_fn(int) -> Seq<char>,
    lo: int,
    j: int,
    e: int,
    k: int,
)
    requires
        lo <= j <= e <= k,
        forall|m: int| lo < m < e ==> (#[trigger] ns[m]).depth > ns[lo].depth,
        ns[e].depth <= ns[lo].depth,
    ensures
        names_around(ns, gives, called, j, k) == names_around(ns, gives, called, e, k),
    decreases e - j,
{
    if j < e {
        assert(!encloses(ns, j, k)) by {
            assert(ns[j].depth >= ns[lo].depth);
            assert(!(ns[e].depth > ns[j].depth));
        }
        lemma_names_behind(ns, gives, called, lo, j + 1, e, k);
    }
}

/// Where the subtree of a node below another ends, as seen from either.
proof fn lemma_subtree_below(ns: Seq<NodeView>, lo: int, k: int, hi: int)
    requires
        lo < k < subtree_end(ns, lo, hi),
        lo < hi,
    ensures
        subtree_end(ns, k, subtree_end(ns, lo, hi)) == subtree_end(ns, k, hi),
{
    let e = subtree_end(ns, lo, hi);
    lemma_shallow_is(ns, ns[lo].depth, lo + 1, hi);
    lemma_shallow_is(ns, ns[k].depth, k + 1, e);
    let f = subtree_end(ns, k, e);
    assert(ns[k].depth > ns[lo].depth);
    lemma_shallow_at(ns, ns[k].depth, k + 1, hi, f);
}

/// Every node of a kind that is a symbol has a chunk with its rows whose
/// breadcrumb names the symbols around it, outermost first, and then the node
/// itself, as long as tokens without a rule of their own have nothing below
/// them.
pub proof fn breadcrumbs_name_the_symbols_around(
    path: Seq<char>,
    text: Seq<char>,
    kinds: Seq<Seq<char>>,
    ns: Seq<NodeView>,
    lo: int,
    hi: int,
    scope: Seq<Seq<char>>,
    k: int,
) -> (i: int)
    requires
        0 <= lo <= k < hi <= ns.len(),
        ns[k].named,
        kinds.contains(ns[k].kind),
        forall|j: int|
            lo <= j < hi - 1 && !(#[trigger] ns[j]).named ==> ns[j + 1].depth <= ns[j].depth,
    ensures
        ({
            let cs = symbols_in(path, text, kinds, ns, lo, hi, scope);
            let around = names_around(
                ns,
                |j: int| ns[j].named && kinds.contains(ns[j].kind),
                |j: int| symbol_label(text, ns[j]),
                lo,
                k,
            );
            &&& 0 <= i < cs.len()
            &&& cs[i].start == ns[k].start_row + 1 && cs[i].end == ns[k].end_row + 1
            &&& cs[i].breadcrumb == joined(
                scope + around.push(symbol_label(text, ns[k])),
                " > "@,
            )
        }),
    decreases hi - lo,
{
    let gives = |j: int| ns[j].named && kinds.contains(ns[j].kind);
    let called = |j: int| symbol_label(text, ns[j]);
    let e = subtree_end(ns, lo, hi);
    lemma_shallow_is(ns, ns[lo].depth, lo + 1, hi);
    let all = symbols_in(path, text, kinds, ns, lo, hi, scope);
    let rest = symbols_in(path, text, kinds, ns, e, hi, scope);
    let own = ns[lo].named && kinds.contains(ns[lo].kind);
    let inner = if own {
        scope.push(symbol_label(text, ns[lo]))
    } else {
        scope
    };
    let below = symbols_in(path, text, kinds, ns, lo + 1, e, inner);
    let around = names_around(ns, gives, called, lo, k);
    let label = symbol_label(text, ns[k]);
    if !ns[lo].named {
        if lo < hi - 1 {
            assert(ns[lo + 1].depth <= ns[lo].depth);
            assert(e == lo + 1);
        }
        assert(e <= k);
    }
    if k >= e {
        let r = breadcrumbs_name_the_symbols_around(path, text, kinds, ns, e, hi, scope, k);
        lemma_names_behind(ns, gives, called, lo, lo, e, k);
        let i: int = if !ns[lo].named {
            r
        } else if own {
            1 + below.len() + r
        } else {
            below.len() + r
        };
        assert(all[i] == rest[r]);
        i
    } else if k > lo {
        let r = breadcrumbs_name_the_symbols_around(path, text, kinds, ns, lo + 1, e, inner, k);
        assert(encloses(ns, lo, k));
        let less = names_around(ns, gives, called, lo + 1, k);
        if own {
            assert(around =~= seq![symbol_label(text, ns[lo])] + less);
            assert(inner + less.push(label) =~= scope + around.push(label));
            assert(all[1 + r] == below[r]);
            1 + r
        } else {
            assert(all[r] == below[r]);
            r
        }
    } else {
        assert(around.len() == 0);
        assert(inner =~= scope + around.push(label));
        assert(all[0] == symbol_chunk(path, text, ns[lo], inner));
        0
    }
}

/// Whether a binding is more than a bare line: it has more than one line, or a
/// comment right above it.
pub open spec fn stands_out(text: Seq<char>, n: NodeView) -> bool {
    n.start_row < n.end_row || (0 < n.start_row <= lines_of(text).len() && "#"@.is_prefix_of(
        ltrimmed(lines_of(text)[n.start_row - 1]),
    ))
}

/// Whether node `k` lies below no binding from `lo` on.
pub open spec fn outermost(ns: Seq<NodeView>, lo: int, k: int) -> bool {
    forall|j: int|
        lo <= j < k && #[trigger] ns[j].named && ns[j].kind == "binding"@ ==> !encloses(ns, j, k)
}

proof fn lemma_own_binding(text: Seq<char>, n: NodeView)
    ensures
        comments_above(lines_of(text), n.start_row, 10) <= n.start_row,
        stands_out(text, n) ==> comments_above(lines_of(text), n.start_row, 10) < n.start_row
            || comments_above(lines_of(text), n.start_row, 10) < n.end_row,
{
    let ls = lines_of(text);
    if n.start_row > 0 {
        lemma_comments_are(ls, n.start_row, 10);
        if n.start_row <= ls.len() && "#"@.is_prefix_of(ltrimmed(ls[n.start_row - 1])) {
            lemma_comments_are(ls, n.start_row - 1, 9);
        }
    }
}

/// Every binding of a Nix file that is not a bare line of its own within
/// another has a chunk that ends with its rows and whose breadcrumb names the
/// bindings around it, outermost first, and then the binding itself, as long
/// as tokens without a rule of their own have nothing below them.
#[verifier::rlimit(40)]
pub proof fn breadcrumbs_name_the_bindings_around(
    path: Seq<char>,
    text: Seq<char>,
    ns: Seq<NodeView>,
    lo: int,
    hi: int,
    scope: Seq<Seq<char>>,
    k: int,
) -> (i: int)
    requires
        0 <= lo <= k < hi <= ns.len(),
        forall|j: int|
            lo <= j < hi ==> #[trigger] subtree_end(ns, j, hi) == subtree_end(
                ns,
                j,
                ns.len() as int,
            ),
        ns[k].named,
        ns[k].kind == "binding"@,
        stands_out(text, ns[k]) || (scope.len() == 0 && outermost(ns, lo, k)),
        forall|j: int|
            lo <= j < hi - 1 && !(#[trigger] ns[j]).named ==> ns[j + 1].depth <= ns[j].depth,
    ensures
        ({
            let cs = bindings_in(path, text, ns, lo, hi, scope);
            let called = |j: int| binding_name(text, ns, j + 1, subtree_end(ns, j, ns.len() as int));
            let around = names_around(
                ns,
                |j: int| ns[j].named && ns[j].kind == "binding"@,
                called,
                lo,
                k,
            );
            &&& 0 <= i < cs.len()
            &&& cs[i].start == comments_above(lines_of(text), ns[k].start_row, 10) + 1
            &&& cs[i].end == ns[k].end_row + 1
            &&& cs[i].breadcrumb == joined(scope + around.push(called(k)), " > "@)
        }),
    decreases hi - lo,
{
    let gives = |j: int| ns[j].named && ns[j].kind == "binding"@;
    let called = |j: int| binding_name(text, ns, j + 1, subtree_end(ns, j, ns.len() as int));
    let e = subtree_end(ns, lo, hi);
    let n = ns[lo];
    lemma_shallow_is(ns, n.depth, lo + 1, hi);
    let all = bindings_in(path, text, ns, lo, hi, scope);
    let rest = bindings_in(path, text, ns, e, hi, scope);
    let own = n.named && n.kind == "binding"@;
    let inner = if own {
        scope.push(called(lo))
    } else {
        scope
    };
    assert(e == subtree_end(ns, lo, ns.len() as int));
    let below = bindings_in(path, text, ns, lo + 1, e, inner);
    let around = names_around(ns, gives, called, lo, k);
    let first = comments_above(lines_of(text), n.start_row, 10);
    let bare = first == n.start_row && first == n.end_row;
    let width: int = if own && !(bare && inner.len() > 1) {
        1
    } else {
        0
    };
    if !n.named {
        if lo < hi - 1 {
            assert(ns[lo + 1].depth <= n.depth);
            assert(e == lo + 1);
        }
        assert(e <= k);
    }
    if k >= e {
        let r = breadcrumbs_name_the_bindings_around(path, text, ns, e, hi, scope, k);
        lemma_names_behind(ns, gives, called, lo, lo, e, k);
        let i: int = if !n.named {
            r
        } else {
            width + below.len() + r
        };
        assert(all[i] == rest[r]);
        i
    } else if k > lo {
        assert(encloses(ns, lo, k));
        assert forall|j: int| lo + 1 <= j < e implies #[trigger] subtree_end(ns, j, e)
            == subtree_end(ns, j, ns.len() as int) by {
            lemma_subtree_below(ns, lo, j, hi);
            assert(subtree_end(ns, j, hi) == subtree_end(ns, j, ns.len() as int));
        }
        if own {
            assert(!outermost(ns, lo, k));
        }
        let r = breadcrumbs_name_the_bindings_around(path, text, ns, lo + 1, e, inner, k);
        let less = names_around(ns, gives, called, lo + 1, k);
        if own {
            assert(around =~= seq![called(lo)] + less);
            assert(inner + less.push(called(k)) =~= scope + around.push(called(k)));
        }
        assert(all[width + r] == below[r]);
        width + r
    } else {
        assert(around.len() == 0);
        assert(inner =~= scope + around.push(called(k)));
        lemma_own_binding(text, n);
        assert(width == 1);
        0
    }
}

/// A binding is called by the characters of its attribute path in the text,
/// where that path is the first thing in it.
pub proof fn bindings_are_called_by_path(
    a: Seq<char>,
    name: Seq<char>,
    b: Seq<char>,
    ns: Seq<NodeView>,
    lo: int,
    hi: int,
)
    requires
        lo < hi,
        ns[lo].named,
        ns[lo].kind == "attrpath"@,
        ns[lo].span == (crate::bytes::byte_len(a) as int, crate::bytes::byte_len(a + name) as int),
        name.len() > 0,
        !is_white(name[0]),
        !is_white(name.last()),
    ensures
        binding_name(a + name + b, ns, lo, hi) == name,
{
    crate::bytes::slices_read_back(a, name, b);
    crate::text::lemma_trimmed(name);
}

/// The comments right above a binding are taken along, up to ten lines of
/// them: a row that is reached from the binding by comments alone belongs to
/// its chunk.
pub proof fn comments_above_are_taken_along(ls: Seq<Seq<char>>, row: int, left: int, r: int)
    requires
        0 <= r <= row <= ls.len(),
        row - r <= left,
        forall|k: int| r <= k < row ==> "#"@.is_prefix_of(ltrimmed(#[trigger] ls[k])),
    ensures
        comments_above(ls, row, left) <= r,
    decreases left,
{
    if r < row {
        assert("#"@.is_prefix_of(ltrimmed(ls[row - 1])));
        comments_above_are_taken_along(ls, row - 1, left - 1, r);
    } else {
        lemma_comments_are(ls, row, left);
    }
}

/// The chunks of a tree's symbols are symbols.
pub proof fn symbols_are_symbols(
    path: Seq<char>,
    text: Seq<char>,
    kinds: Seq<Seq<char>>,
    ns: Seq<NodeView>,
    lo: int,
    hi: int,
    scope: Seq<Seq<char>>,
    i: int,
)
    requires
        0 <= lo,
        hi <= ns.len(),
        0 <= i < symbols_in(path, text, kinds, ns, lo, hi, scope).len(),
    ensures
        symbols_in(path, text, kinds, ns, lo, hi, scope)[i].kind == ChunkKind::Symbol,
        symbols_in(path, text, kinds, ns, lo, hi, scope)[i].path == path,
{
    lemma_symbols_are_nodes(path, text, kinds, ns, lo, hi, scope);
}

/// The chunks of a tree's bindings are symbols.
pub proof fn bindings_are_symbols(
    path: Seq<char>,
    text: Seq<char>,
    ns: Seq<NodeView>,
    lo: int,
    hi: int,
    scope: Seq<Seq<char>>,
    i: int,
)
    requires
        rows_fit(ns),
        0 <= lo,
        hi <= ns.len(),
        0 <= i < bindings_in(path, text, ns, lo, hi, scope).len(),
    ensures
        bindings_in(path, text, ns, lo, hi, scope)[i].kind == ChunkKind::Symbol,
        bindings_in(path, text, ns, lo, hi, scope)[i].path == path,
{
    lemma_bindings_are_nodes(path, text, ns, lo, hi, scope);
    assert(binds(bindings_in(path, text, ns, lo, hi, scope)[i], path, text, ns, lo, hi));
}

/// Every chunk among a tree's bindings stands for a node that is one, and ends
/// where it ends.
pub proof fn bindings_stand_for_nodes(
    path: Seq<char>,
    text: Seq<char>,
    ns: Seq<NodeView>,
    lo: int,
    hi: int,
    scope: Seq<Seq<char>>,
    i: int,
)
    requires
        rows_fit(ns),
        0 <= lo,
        hi <= ns.len(),
        0 <= i < bindings_in(path, text, ns, lo, hi, scope).len(),
    ensures
        exists|k: int|
            lo <= k < hi && (#[trigger] ns[k]).named && ns[k].kind == "binding"@ && bindings_in(
                path,
                text,
                ns,
                lo,
                hi,
                scope,
            )[i].end == ns[k].end_row + 1,
{
    lemma_bindings_are_nodes(path, text, ns, lo, hi, scope);
    let c = bindings_in(path, text, ns, lo, hi, scope)[i];
    assert(binds(c, path, text, ns, lo, hi));
    let k = choose|k: int|
        lo <= k < hi && (#[trigger] ns[k]).named && ns[k].kind == "binding"@ && is_binding_of(
            c,
            path,
            text,
            ns[k],
        );
    assert(ns[k].named);
}

} // verus!
