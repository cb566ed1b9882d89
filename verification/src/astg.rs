//! Optional ast-grep bridge: structural patterns as a third ranked list.
//!
//! Never a hard dependency: when the `ast-grep` binary is absent, callers
//! keep their current results untouched. Whether a search can be made, what
//! it is called with and what its output means is decided here.

use vstd::prelude::*;
use crate::bytes::{byte_len, byte_suffix, lemma_byte_suffix, suffix_fit, suffix_start};
use crate::error::{Error, ErrorView};
use crate::extract::{grammar_of, markdown};
use crate::order::{lesser, views};
use crate::rg::supported_list;
use crate::syntax::Grammar;
use crate::text::{
    chars_of, joined, lemma_trimmed, lower, lowered, same, string_of, trim, trimmed,
};

verus! {

/// Binary name probed on `PATH`.
pub const BINARY: &'static str = "ast-grep";

/// Env override for the binary path.
pub const ENV_BIN: &'static str = "ONE_GREP_AST_GREP";

/// How much of what ast-grep says about a failure is repeated, in bytes.
pub const DETAIL_CAP: usize = 300;

/// One structural hit: file, 1-based line, matched text.
#[derive(Debug, Clone, PartialEq, Eq)]
pub struct AstHit {
    pub path: String,
    pub line: u64,
    pub text: String,
}

/// What an [`AstHit`] says, as mathematical values.
pub struct AstView {
    pub path: Seq<char>,
    pub line: int,
    pub text: Seq<char>,
}

impl View for AstHit {
    type V = AstView;

    open spec fn view(&self) -> AstView {
        AstView { path: self.path@, line: self.line as int, text: self.text@ }
    }
}

/// The ast-grep language for a `--lang` value, given by name or extension.
pub open spec fn language_of(lang: Seq<char>) -> Option<Seq<char>> {
    let l = lowered(trimmed(lang));
    if l == "rust"@ || l == "rs"@ {
        Some("rust"@)
    } else if l == "python"@ || l == "py"@ {
        Some("python"@)
    } else if l == "typescript"@ || l == "ts"@ || l == "mts"@ || l == "cts"@ {
        Some("typescript"@)
    } else if l == "tsx"@ || l == "jsx"@ || l == "js"@ || l == "mjs"@ || l == "cjs"@ {
        Some("tsx"@)
    } else if l == "go"@ {
        Some("go"@)
    } else if l == "java"@ {
        Some("java"@)
    } else if l == "nix"@ {
        Some("nix"@)
    } else if l == "markdown"@ || l == "md"@ {
        Some("markdown"@)
    } else {
        None
    }
}

/// Map our `--lang` vocabulary to ast-grep language names; extensions fold to
/// their canonical name.
pub fn ast_lang(lang: &str) -> (r: Option<&'static str>)
    ensures
        match r {
            Some(l) => language_of(lang@) == Some(l@),
            None => language_of(lang@) is None,
        },
{
    let cs = chars_of(lang);
    let low = lower(string_of(trim(&cs)).as_str());
    let l = low.as_str();
    if same(l, "rust") || same(l, "rs") {
        Some("rust")
    } else if same(l, "python") || same(l, "py") {
        Some("python")
    } else if same(l, "typescript") || same(l, "ts") || same(l, "mts") || same(l, "cts") {
        Some("typescript")
    } else if same(l, "tsx") || same(l, "jsx") || same(l, "js") || same(l, "mjs") || same(l, "cjs") {
        Some("tsx")
    } else if same(l, "go") {
        Some("go")
    } else if same(l, "java") {
        Some("java")
    } else if same(l, "nix") {
        Some("nix")
    } else if same(l, "markdown") || same(l, "md") {
        Some("markdown")
    } else {
        None
    }
}

/// The binary to run: the one that the environment names, unless it is blank.
pub fn binary(env: Option<&str>) -> (r: String)
    ensures
        r@ == (if env is Some && trimmed(env->0@).len() > 0 {
            env->0@
        } else {
            BINARY@
        }),
        env is None ==> r@ == BINARY@,
        env matches Some(v) ==> (r@ == v@ || (r@ == BINARY@ && trimmed(v@).len() == 0)),
{
    if let Some(v) = env {
        let cs = chars_of(v);
        if trim(&cs).len() > 0 {
            return v.to_owned();
        }
    }
    BINARY.to_owned()
}

/// What the search is called with, or why it is not made: the workspace is
/// no directory, or the language is unknown.
pub fn plan_search(workspace: &str, is_dir: bool, lang: &str) -> (r: Result<&'static str, Error>)
    ensures
        match r {
            Ok(l) => is_dir && language_of(lang@) == Some(l@),
            Err(e) => if !is_dir {
                e@ == ErrorView::InvalidInput("workspace is not a directory: "@ + workspace@)
            } else {
                language_of(lang@) is None && e@ == ErrorView::InvalidInput(
                    "unknown --lang `"@ + lang@ + "` for structural search (supported: "@ + joined(
                        crate::rg::supported(),
                        ", "@,
                    ) + ")"@,
                )
            },
        },
        r is Ok <==> is_dir && language_of(lang@) is Some,
{
    if !is_dir {
        let mut m = "workspace is not a directory: ".to_owned();
        m.append(workspace);
        return Err(Error::InvalidInput(m));
    }
    match ast_lang(lang) {
        Some(l) => Ok(l),
        None => {
            let mut m = "unknown --lang `".to_owned();
            m.append(lang);
            m.append("` for structural search (supported: ");
            m.append(supported_list().as_str());
            m.append(")");
            Err(Error::InvalidInput(m))
        },
    }
}

/// The first `limit` matches of ast-grep, their lines counted from 1.
pub open spec fn numbered(found: Seq<AstView>, limit: int) -> Seq<AstView> {
    Seq::new(
        lesser(found.len() as int, limit) as nat,
        |i: int| AstView { line: found[i].line + 1, ..found[i] },
    )
}

/// The matches of ast-grep, in its order, at most `limit` of them: its lines
/// count from 0, ours from 1.
pub fn hits_of(found: Vec<AstHit>, limit: usize) -> (r: Vec<AstHit>)
    requires
        forall|i: int| 0 <= i < found@.len() ==> (#[trigger] found@[i]).line < u64::MAX,
    ensures
        views(r@) == Seq::new(
            lesser(found@.len() as int, limit as int) as nat,
            |i: int| AstView { line: found@[i].line + 1, ..found@[i]@ },
        ),
        views(r@) == numbered(views(found@), limit as int),
{
    let n: usize = if found.len() <= limit {
        found.len()
    } else {
        limit
    };
    let ghost all = Seq::new(
        n as nat,
        |i: int| AstView { line: found@[i].line + 1, ..found@[i]@ },
    );
    let mut out: Vec<AstHit> = Vec::new();
    let mut i: usize = 0;
    while i < n
        invariant
            i <= n <= found@.len(),
            forall|i: int| 0 <= i < found@.len() ==> (#[trigger] found@[i]).line < u64::MAX,
            all == Seq::new(
                n as nat,
                |i: int| AstView { line: found@[i].line + 1, ..found@[i]@ },
            ),
            views(out@) == all.take(i as int),
        decreases n - i,
    {
        let ghost before = out@;
        let h = AstHit {
            path: found[i].path.clone(),
            line: found[i].line + 1,
            text: found[i].text.clone(),
        };
        out.push(h);
        proof {
            assert(all[i as int] == h@);
            assert(views(out@) =~= views(before).push(h@));
            assert(views(out@) =~= all.take(i + 1));
        }
        i += 1;
    }
    proof {
        assert(all.take(i as int) =~= all);
        assert(all =~= numbered(views(found@), limit as int));
    }
    out
}

/// What is said when ast-grep's output cannot be read.
pub open spec fn failure_of(status: Seq<char>, stderr: Seq<char>) -> Seq<char> {
    "ast-grep failed (status "@ + status + "): "@ + (if trimmed(stderr).len() == 0 {
        "unparseable output"@
    } else {
        byte_suffix(trimmed(stderr), DETAIL_CAP as int)
    })
}

/// What is said when ast-grep's output cannot be read: its status and the
/// tail of what it wrote about it, which is cut between two characters, within
/// [`DETAIL_CAP`] bytes.
pub fn failure(status: &str, stderr: &str) -> (r: Error)
    ensures
        r@ == ErrorView::InvalidInput(
            "ast-grep failed (status "@ + status@ + "): "@ + (if trimmed(stderr@).len() == 0 {
                "unparseable output"@
            } else {
                byte_suffix(trimmed(stderr@), DETAIL_CAP as int)
            }),
        ),
        r@ == ErrorView::InvalidInput(failure_of(status@, stderr@)),
{
    let cs = chars_of(stderr);
    let t = trim(&cs);
    let mut m = "ast-grep failed (status ".to_owned();
    m.append(status);
    m.append("): ");
    if t.len() == 0 {
        m.append("unparseable output");
    } else {
        let k = suffix_fit(t, DETAIL_CAP);
        proof {
            assert(t@.subrange(k as int, t@.len() as int) =~= t@.skip(k as int));
        }
        m.append(string_of(vstd::slice::slice_subrange(t, k, t.len())).as_str());
    }
    Error::InvalidInput(m)
}

/// A language that structural search knows is one that text search knows.
pub proof fn structural_langs_are_langs(lang: Seq<char>)
    ensures
        language_of(lang) is Some <==> crate::rg::extensions_of(lang) is Some,
{
}

/// Structural hits are ast-grep's matches in its order: each keeps its file and
/// its text, the line that it counts from 0 counts from 1, and none is left
/// out but for the limit.
pub proof fn matches_keep_place_and_text(found: Seq<AstView>, limit: int)
    requires
        limit >= 0,
    ensures
        numbered(found, limit).len() <= limit,
        numbered(found, limit).len() == found.len() || numbered(found, limit).len() == limit,
        numbered(found, limit).len() <= found.len(),
        forall|i: int|
            0 <= i < numbered(found, limit).len() ==> ({
                let h = #[trigger] numbered(found, limit)[i];
                h.path == found[i].path && h.text == found[i].text && h.line == found[i].line + 1
            }),
{
}

/// What is said of a failure names the status, and ends with what ast-grep
/// wrote: all of it where it is short enough, else as much of its end as keeps
/// within the cap.
pub proof fn failures_show_status_and_tail(status: Seq<char>, stderr: Seq<char>)
    requires
        trimmed(stderr).len() > 0,
    ensures
        ({
            let head = "ast-grep failed (status "@ + status + "): "@;
            let t = trimmed(stderr);
            let r = failure_of(status, stderr);
            let shown = r.skip(head.len() as int);
            &&& head.is_prefix_of(r)
            &&& byte_len(shown) <= DETAIL_CAP
            &&& byte_len(t) <= DETAIL_CAP ==> shown == t
            &&& shown.len() <= t.len() && shown == t.skip(t.len() - shown.len())
            &&& forall|k: int|
                0 <= k < t.len() - shown.len() ==> byte_len(#[trigger] t.skip(k)) > DETAIL_CAP
        }),
{
    let head = "ast-grep failed (status "@ + status + "): "@;
    let t = trimmed(stderr);
    let tail = byte_suffix(t, DETAIL_CAP as int);
    let r = failure_of(status, stderr);
    assert(r.subrange(0, head.len() as int) =~= head);
    assert(r.skip(head.len() as int) =~= tail);
    lemma_byte_suffix(t, DETAIL_CAP as int);
    assert(t.skip(0) =~= t);
    if byte_len(t) <= DETAIL_CAP {
        if suffix_start(t, DETAIL_CAP as int) > 0 {
            assert(byte_len(t.skip(0)) > DETAIL_CAP);
        }
    }
}

proof fn lemma_known(l: Seq<char>)
    requires
        l.len() > 0,
        forall|i: int| 0 <= i < l.len() ==> 'a' <= #[trigger] l[i] <= 'z',
    ensures
        lowered(trimmed(l)) == l,
{
    lemma_trimmed(l);
    assert(lowered(l) =~= l);
}

/// The language that ast-grep is told is the one that was asked for: text
/// search gives it the same files, and asking for it by that name makes no
/// difference.
pub proof fn structural_languages_are_those_asked_for(lang: Seq<char>)
    requires
        language_of(lang) is Some,
    ensures
        crate::rg::extensions_of(language_of(lang)->0) == crate::rg::extensions_of(lang),
        language_of(language_of(lang)->0) == language_of(lang),
{
    reveal_strlit("rust");
    reveal_strlit("rs");
    reveal_strlit("python");
    reveal_strlit("py");
    reveal_strlit("typescript");
    reveal_strlit("ts");
    reveal_strlit("mts");
    reveal_strlit("cts");
    reveal_strlit("tsx");
    reveal_strlit("jsx");
    reveal_strlit("js");
    reveal_strlit("mjs");
    reveal_strlit("cjs");
    reveal_strlit("go");
    reveal_strlit("java");
    reveal_strlit("nix");
    reveal_strlit("markdown");
    reveal_strlit("md");
    let l = language_of(lang)->0;
    lemma_known(l);
    assert("tsx"@[0] == 't' && "tsx"@[1] == 's' && "tsx"@[2] == 'x' && "tsx"@.len() == 3);
    assert("mts"@[0] == 'm' && "cts"@[0] == 'c' && "nix"@[0] == 'n' && "jsx"@[0] == 'j');
    assert("mjs"@[0] == 'm' && "cjs"@[0] == 'c' && "go"@[0] == 'g' && "rs"@[0] == 'r');
    assert("py"@[0] == 'p' && "ts"@[0] == 't' && "js"@[0] == 'j' && "md"@[0] == 'm');
    assert("rust"@.len() == 4 && "java"@.len() == 4 && "rust"@[0] == 'r' && "java"@[0] == 'j');
    assert("python"@.len() == 6 && "typescript"@.len() == 10 && "markdown"@.len() == 8);
    assert("nix"@.len() == 3 && "mts"@.len() == 3 && "go"@.len() == 2 && "md"@.len() == 2);
}

/// Files are parsed by the parser of the language that their extension stands
/// for in a structural search, and Markdown by none.
pub proof fn extensions_parse_as_their_language(ext: Seq<char>)
    requires
        lowered(trimmed(ext)) == ext,
        grammar_of(ext) is Some || markdown(ext),
    ensures
        language_of(ext) == Some(
            match grammar_of(ext) {
                Some(Grammar::Rust) => "rust"@,
                Some(Grammar::Python) => "python"@,
                Some(Grammar::TypeScript) => "typescript"@,
                Some(Grammar::Tsx) => "tsx"@,
                Some(Grammar::Go) => "go"@,
                Some(Grammar::Java) => "java"@,
                Some(Grammar::Nix) => "nix"@,
                None => "markdown"@,
            },
        ),
{
    reveal_strlit("rust");
    reveal_strlit("rs");
    reveal_strlit("python");
    reveal_strlit("py");
    reveal_strlit("typescript");
    reveal_strlit("ts");
    reveal_strlit("mts");
    reveal_strlit("cts");
    reveal_strlit("tsx");
    reveal_strlit("jsx");
    reveal_strlit("js");
    reveal_strlit("mjs");
    reveal_strlit("cjs");
    reveal_strlit("go");
    reveal_strlit("java");
    reveal_strlit("nix");
    reveal_strlit("markdown");
    reveal_strlit("md");
    assert("tsx"@[0] == 't' && "tsx"@[1] == 's' && "tsx"@[2] == 'x' && "tsx"@.len() == 3);
    assert("mts"@[0] == 'm' && "mts"@[1] == 't' && "mjs"@[0] == 'm' && "mjs"@[1] == 'j');
    assert("cts"@[0] == 'c' && "cts"@[1] == 't' && "cjs"@[0] == 'c' && "cjs"@[1] == 'j');
    assert("nix"@[0] == 'n' && "jsx"@[0] == 'j' && "go"@[0] == 'g' && "rs"@[0] == 'r');
    assert("py"@[0] == 'p' && "ts"@[0] == 't' && "js"@[0] == 'j' && "md"@[0] == 'm');
    assert("rust"@.len() == 4 && "java"@.len() == 4 && "rust"@[0] == 'r' && "java"@[0] == 'j');
    assert("python"@.len() == 6 && "typescript"@.len() == 10 && "markdown"@.len() == 8);
    assert("nix"@.len() == 3 && "mts"@.len() == 3 && "cts"@.len() == 3 && "jsx"@.len() == 3);
    assert("mjs"@.len() == 3 && "cjs"@.len() == 3 && "go"@.len() == 2 && "md"@.len() == 2);
    assert("rs"@.len() == 2 && "py"@.len() == 2 && "ts"@.len() == 2 && "js"@.len() == 2);
}

} // verus!
