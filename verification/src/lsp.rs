//! Definition navigation over LSP stdio.
//!
//! One server is reused per workspace + command; requests carry explicit
//! timeouts; 1-based caller positions are translated to the UTF-16 offsets
//! LSP uses. What is asked, how frames and replies are read, and when a
//! server loses its place is decided here.

use vstd::prelude::*;
use crate::bytes::{byte_len, lemma_byte_len};
use crate::error::{Error, ErrorView};
use crate::order::views;
use crate::paths::{
    absolute, components, components_of, is_name, lexical, lies_in,
    paths_below_a_directory_are_what_is_left, plain, prefix_of, root_comp, text_of,
};
use crate::text::{
    chars_of, decimal, decimal_of, digit_char, lemma_decimal_digits, lines, lines_of, ltrimmed,
    rtrimmed, starts_with, texts, trim, trimmed,
};

verus! {

/// Default server command (resolved via `PATH`).
pub const DEFAULT_COMMAND: &'static str = "rust-analyzer";

/// Cap on a single LSP frame body.
pub const MAX_FRAME: usize = 67108864;

/// Dial and request options.
#[derive(Debug, Clone)]
pub struct Options {
    /// Server executable (argv[0]); override for tests.
    pub command: String,
    /// Extra argv entries (e.g. server flags).
    pub args: Vec<String>,
    /// Budget for spawn + `initialize` handshake, in milliseconds.
    pub init_timeout: u64,
    /// Budget for one navigation request, in milliseconds.
    pub request_timeout: u64,
}

impl Default for Options {
    fn default() -> (r: Options)
        ensures
            r.command@ == DEFAULT_COMMAND@,
            r.args@.len() == 0,
            r.init_timeout == 60000,
            r.request_timeout == 30000,
    {
        Options {
            command: DEFAULT_COMMAND.to_owned(),
            args: Vec::new(),
            init_timeout: 60000,
            request_timeout: 30000,
        }
    }
}

/// One navigation hit. Lines are 1-based.
#[derive(Debug, Clone, PartialEq, Eq)]
pub struct Target {
    /// Absolute file path.
    pub path: String,
    /// 1-based first line.
    pub start_line: u32,
    /// 1-based last line (inclusive).
    pub end_line: u32,
    /// Target escapes the workspace root.
    pub outside_root: bool,
}

/// What a [`Target`] says, as mathematical values.
pub struct TargetView {
    pub path: Seq<char>,
    pub start_line: int,
    pub end_line: int,
    pub outside_root: bool,
}

impl View for Target {
    type V = TargetView;

    open spec fn view(&self) -> TargetView {
        TargetView {
            path: self.path@,
            start_line: self.start_line as int,
            end_line: self.end_line as int,
            outside_root: self.outside_root,
        }
    }
}

/// How many UTF-16 code units a character takes.
pub open spec fn units_of(c: char) -> int {
    if c as u32 <= 0xffff {
        1
    } else {
        2
    }
}

/// How many UTF-16 code units the first `n` characters take.
pub open spec fn utf16_len(s: Seq<char>, n: int) -> int
    decreases n,
{
    if n <= 0 {
        0
    } else {
        utf16_len(s, n - 1) + units_of(s[n - 1])
    }
}

/// How many characters come before the 1-based character `char_1`, at most
/// those of the line.
pub open spec fn chars_before(s: Seq<char>, char_1: u32) -> int {
    let n = if char_1 == 0 {
        0
    } else {
        char_1 - 1
    };
    if n <= s.len() {
        n
    } else {
        s.len() as int
    }
}

/// Count UTF-16 code units of the first `char_1 - 1` characters, clamped
/// to the line length (mirrors server-side clamping).
pub fn char_to_utf16_units(line_text: &str, char_1: u32) -> (r: u64)
    ensures
        r == utf16_len(line_text@, chars_before(line_text@, char_1)),
{
    let cs = chars_of(line_text);
    let want: u32 = if char_1 == 0 {
        0
    } else {
        char_1 - 1
    };
    let mut units: u64 = 0;
    let mut i: u32 = 0;
    while i < want && (i as usize) < cs.len()
        invariant
            i <= want,
            i <= cs@.len(),
            cs@ == line_text@,
            units == utf16_len(cs@, i as int),
            units <= 2 * i,
        decreases want - i,
    {
        let c = cs[i as usize];
        if c as u32 <= 0xffff {
            units += 1;
        } else {
            units += 2;
        }
        i += 1;
    }
    units
}

/// A message about a server as an error.
pub fn lsp_error(msg: &str) -> (r: Error)
    ensures
        r@ == ErrorView::Lsp(msg@),
{
    Error::Lsp(msg.to_owned())
}

/// The text of the URL that `url::Url::from_file_path` makes of a path.
pub uninterp spec fn file_url(path: Seq<char>) -> Option<Seq<char>>;

/// The path that `url::Url::to_file_path` makes of the URL that a text
/// parses to; none where the text is no URL or no path is made of it.
pub uninterp spec fn url_path(uri: Seq<char>) -> Option<Seq<char>>;

/// Whether a path is spelt the way its components are put together: it is
/// absolute, and has no empty, `.` or `..` component.
pub open spec fn plainly_spelt(p: Seq<char>) -> bool {
    absolute(p) && text_of(lexical(components(p))) == p
}

/// Whether a text is a drive: a letter and `:` or `|`.
pub open spec fn is_drive(t: Seq<char>) -> bool {
    t.len() == 2 && ('a' <= t[0] <= 'z' || 'A' <= t[0] <= 'Z') && (t[1] == ':' || t[1] == '|')
}

/// Whether a path starts with a drive written with `|`, or ends like a drive.
pub open spec fn names_a_drive(p: Seq<char>) -> bool {
    (components(p).len() > 1 && is_drive(components(p)[1]) && components(p)[1][1] == '|') || (p.len() >= 2 && is_drive(
        p.skip(p.len() - 2),
    ))
}

/// `url::Url::from_file_path`: a function of the path, which fails exactly
/// on paths that are not absolute. `url::Url::to_file_path` leads back to a
/// path that is plainly spelt. Nothing is said of paths that start with a
/// drive written with `|` or end like a drive: a drive is spelt in its own way.
#[verifier::external_body]
fn url_of_path(path: &str) -> (r: Option<String>)
    ensures
        match r {
            Some(u) => file_url(path@) == Some(u@) && (plainly_spelt(path@) && !names_a_drive(
                path@,
            ) ==> url_path(u@) == Some(path@)),
            None => file_url(path@) is None,
        },
        r is Some <==> absolute(path@),
{
    url::Url::from_file_path(path).ok().map(|u| u.to_string())
}

/// `url::Url::to_file_path` of a parsed URL: a function of its text.
#[verifier::external_body]
fn path_of_url(uri: &str) -> (r: Option<String>)
    ensures
        match r {
            Some(p) => url_path(uri@) == Some(p@),
            None => url_path(uri@) is None,
        },
{
    let path = url::Url::parse(uri).ok()?.to_file_path().ok()?;
    Some(path.to_string_lossy().into_owned())
}

/// The URL of a file, for a path that is absolute. Read back, it leads to the
/// path again where that is plainly spelt and names no drive.
pub fn file_uri(path: &str) -> (r: Result<String, Error>)
    ensures
        match r {
            Ok(u) => absolute(path@) && file_url(path@) == Some(u@) && (plainly_spelt(path@)
                && !names_a_drive(path@) ==> url_path(u@) == Some(path@)),
            Err(e) => !absolute(path@) && e@ == ErrorView::Lsp("not a file path: "@ + path@),
        },
{
    match url_of_path(path) {
        Some(u) => Ok(u),
        None => {
            let mut m = "not a file path: ".to_owned();
            m.append(path);
            Err(Error::Lsp(m))
        },
    }
}

/// A place that a server names: a URL and 0-based lines.
#[derive(Debug)]
pub struct Location {
    pub uri: String,
    pub start_line: u32,
    pub end_line: u32,
}

/// What a server answers to a definition request.
#[derive(Debug)]
pub enum DefinitionResponse {
    /// One place.
    Scalar(Location),
    /// Any number of places.
    Array(Vec<Location>),
    /// Any number of links, each to a place.
    Link(Vec<Location>),
}

/// The target at a place whose URL leads to `path`.
pub open spec fn target_at(root: Seq<char>, l: Location, path: Seq<char>) -> TargetView {
    TargetView {
        path,
        start_line: l.start_line + 1,
        end_line: l.end_line + 1,
        outside_root: !lies_in(path, root),
    }
}

/// The number of the first place whose URL leads to no file; the number of
/// places when all do.
pub open spec fn first_strange(paths: Seq<Option<Seq<char>>>) -> int
    decreases paths.len(),
{
    if paths.len() == 0 || paths[0] is None {
        0
    } else {
        1 + first_strange(paths.skip(1))
    }
}

/// The targets at places whose URLs lead to `paths`, or a complaint about the
/// first that leads to no file.
pub open spec fn targets_at(root: Seq<char>, ls: Seq<Location>, paths: Seq<Option<Seq<char>>>) -> Result<
    Seq<TargetView>,
    ErrorView,
> {
    let k = first_strange(paths);
    if k < ls.len() {
        Err(ErrorView::Lsp("server returned non-file URI: "@ + ls[k].uri@))
    } else {
        Ok(Seq::new(ls.len(), |i: int| target_at(root, ls[i], paths[i]->0)))
    }
}

/// The places of a response.
pub open spec fn places(r: Option<DefinitionResponse>) -> Seq<Location> {
    match r {
        None => Seq::empty(),
        Some(DefinitionResponse::Scalar(l)) => seq![l],
        Some(DefinitionResponse::Array(v)) => v@,
        Some(DefinitionResponse::Link(v)) => v@,
    }
}

/// What optional strings hold.
pub open spec fn opt_texts(v: Seq<Option<String>>) -> Seq<Option<Seq<char>>> {
    Seq::new(
        v.len(),
        |i: int|
            match v[i] {
                Some(s) => Some(s@),
                None => None,
            },
    )
}

/// What targets, or the reason for not having them, say.
pub open spec fn targets_view(r: Result<Vec<Target>, Error>) -> Result<Seq<TargetView>, ErrorView> {
    match r {
        Ok(v) => Ok(views(v@)),
        Err(e) => Err(e@),
    }
}

proof fn lemma_first_strange(paths: Seq<Option<Seq<char>>>, k: int)
    requires
        0 <= k <= paths.len(),
        forall|i: int| 0 <= i < k ==> (#[trigger] paths[i]) is Some,
        k < paths.len() ==> paths[k] is None,
    ensures
        first_strange(paths) == k,
    decreases k,
{
    if k > 0 {
        let t = paths.skip(1);
        assert forall|i: int| 0 <= i < k - 1 implies (#[trigger] t[i]) is Some by {
            assert(t[i] == paths[i + 1]);
        }
        lemma_first_strange(t, k - 1);
    }
}

fn starts_in(path: &str, root: &str) -> (r: bool)
    ensures
        r == lies_in(path@, root@),
{
    prefix_of(&components_of(root), &components_of(path))
}

/// The targets at places whose URLs lead to `paths`.
pub fn targets_from(root: &str, ls: &[Location], paths: &[Option<String>]) -> (r: Result<
    Vec<Target>,
    Error,
>)
    requires
        paths@.len() == ls@.len(),
        forall|i: int|
            0 <= i < ls@.len() ==> (#[trigger] ls@[i]).start_line < u32::MAX && ls@[i].end_line
                < u32::MAX,
    ensures
        targets_view(r) == targets_at(root@, ls@, opt_texts(paths@)),
{
    let ghost pv = opt_texts(paths@);
    let ghost all = Seq::new(ls@.len(), |i: int| target_at(root@, ls@[i], pv[i]->0));
    let mut out: Vec<Target> = Vec::new();
    let mut i: usize = 0;
    while i < ls.len()
        invariant
            i <= ls@.len(),
            paths@.len() == ls@.len(),
            forall|i: int|
                0 <= i < ls@.len() ==> (#[trigger] ls@[i]).start_line < u32::MAX && ls@[i].end_line
                    < u32::MAX,
            pv == opt_texts(paths@),
            all == Seq::new(ls@.len(), |i: int| target_at(root@, ls@[i], pv[i]->0)),
            forall|j: int| 0 <= j < i ==> (#[trigger] pv[j]) is Some,
            views(out@) == all.take(i as int),
        decreases ls@.len() - i,
    {
        let ghost before = out@;
        match &paths[i] {
            None => {
                proof {
                    lemma_first_strange(pv, i as int);
                }
                let mut m = "server returned non-file URI: ".to_owned();
                m.append(ls[i].uri.as_str());
                return Err(Error::Lsp(m));
            },
            Some(p) => {
                let t = Target {
                    path: p.clone(),
                    start_line: ls[i].start_line + 1,
                    end_line: ls[i].end_line + 1,
                    outside_root: !starts_in(p.as_str(), root),
                };
                out.push(t);
                proof {
                    assert(pv[i as int] == Some(p@));
                    assert(all[i as int] == t@);
                    assert(views(out@) =~= views(before).push(t@));
                    assert(views(out@) =~= all.take(i + 1));
                }
            },
        }
        i += 1;
    }
    proof {
        lemma_first_strange(pv, i as int);
        assert(all.take(i as int) =~= all);
    }
    Ok(out)
}

fn resolve(root: &str, ls: &[Location]) -> (r: Result<Vec<Target>, Error>)
    requires
        forall|i: int|
            0 <= i < ls@.len() ==> (#[trigger] ls@[i]).start_line < u32::MAX && ls@[i].end_line
                < u32::MAX,
    ensures
        targets_view(r) == targets_at(
            root@,
            ls@,
            Seq::new(ls@.len(), |i: int| url_path(ls@[i].uri@)),
        ),
{
    let ghost all = Seq::new(ls@.len(), |i: int| url_path(ls@[i].uri@));
    let mut paths: Vec<Option<String>> = Vec::new();
    let mut i: usize = 0;
    while i < ls.len()
        invariant
            i <= ls@.len(),
            all == Seq::new(ls@.len(), |i: int| url_path(ls@[i].uri@)),
            opt_texts(paths@) == all.take(i as int),
        decreases ls@.len() - i,
    {
        let ghost before = paths@;
        let p = path_of_url(ls[i].uri.as_str());
        paths.push(p);
        proof {
            assert(opt_texts(paths@) =~= opt_texts(before).push(all[i as int]));
            assert(opt_texts(paths@) =~= all.take(i + 1));
        }
        i += 1;
    }
    proof {
        assert(all.take(i as int) =~= all);
        assert(opt_texts(paths@).len() == paths@.len());
    }
    targets_from(root, ls, &paths)
}

/// The targets of a response, in its order.
pub fn normalize_targets(root: &str, response: Option<DefinitionResponse>) -> (r: Result<
    Vec<Target>,
    Error,
>)
    requires
        forall|i: int|
            0 <= i < places(response).len() ==> (#[trigger] places(response)[i]).start_line
                < u32::MAX && places(response)[i].end_line < u32::MAX,
    ensures
        targets_view(r) == targets_at(
            root@,
            places(response),
            Seq::new(places(response).len(), |i: int| url_path(places(response)[i].uri@)),
        ),
{
    match response {
        None => {
            let none: Vec<Target> = Vec::new();
            proof {
                assert(first_strange(
                    Seq::new(places(response).len(), |i: int| url_path(places(response)[i].uri@)),
                ) == 0);
                assert(views(none@) =~= Seq::new(
                    0,
                    |i: int|
                        target_at(
                            root@,
                            places(response)[i],
                            url_path(places(response)[i].uri@)->0,
                        ),
                ));
                assert(targets_at(
                    root@,
                    places(response),
                    Seq::new(places(response).len(), |i: int| url_path(places(response)[i].uri@)),
                )->Ok_0 =~= views(none@));
            }
            Ok(none)
        },
        Some(DefinitionResponse::Scalar(l)) => {
            let mut v: Vec<Location> = Vec::new();
            v.push(l);
            proof {
                assert(v@ =~= seq![l]);
                assert(v@[0] == places(response)[0]);
            }
            resolve(root, &v)
        },
        Some(DefinitionResponse::Array(v)) => resolve(root, &v),
        Some(DefinitionResponse::Link(v)) => resolve(root, &v),
    }
}

/// A target is marked as outside exactly where its path does not lie in the
/// root, and its lines are one more than the server's.
pub proof fn escaping_targets_are_marked(root: Seq<char>, ls: Seq<Location>, paths: Seq<Option<Seq<char>>>, i: int)
    requires
        targets_at(root, ls, paths) is Ok,
        0 <= i < ls.len(),
    ensures
        targets_at(root, ls, paths)->Ok_0.len() == ls.len(),
        targets_at(root, ls, paths)->Ok_0[i].outside_root <==> !lies_in(paths[i]->0, root),
        targets_at(root, ls, paths)->Ok_0[i].start_line == ls[i].start_line + 1,
        targets_at(root, ls, paths)->Ok_0[i].end_line == ls[i].end_line + 1,
{
}

/// A message as a frame.
pub open spec fn framed(text: Seq<char>) -> Seq<char> {
    "Content-Length: "@ + decimal(byte_len(text)) + "\r\n\r\n"@ + text
}

/// A message as a frame: its length in bytes, a blank line, the message.
pub fn frame(text: &str) -> (r: String)
    ensures
        r@ == "Content-Length: "@ + decimal(byte_len(text@)) + "\r\n\r\n"@ + text@,
        r@ == framed(text@),
{
    let n: usize = text.as_bytes().len();
    proof {
        lemma_byte_len(text@);
    }
    let mut out = "Content-Length: ".to_owned();
    out.append(decimal_of(n as u64).as_str());
    out.append("\r\n\r\n");
    out.append(text);
    out
}

/// Whether every character is a decimal digit.
pub open spec fn all_digits(s: Seq<char>) -> bool {
    forall|i: int| 0 <= i < s.len() ==> '0' <= #[trigger] s[i] <= '9'
}

/// The value of a row of digits.
pub open spec fn value_of(s: Seq<char>) -> int
    decreases s.len(),
{
    if s.len() == 0 {
        0
    } else {
        value_of(s.drop_last()) * 10 + (s.last() as u32 - '0' as u32)
    }
}

/// The digits of a number, behind a plus sign where it has one.
pub open spec fn unsigned(s: Seq<char>) -> Seq<char> {
    if s.len() > 1 && s[0] == '+' {
        s.skip(1)
    } else {
        s
    }
}

/// The number that a text writes, if it writes one that fits.
pub open spec fn number_of(s: Seq<char>) -> Option<u64> {
    let d = unsigned(s);
    if d.len() > 0 && all_digits(d) && value_of(d) <= u64::MAX {
        Some(value_of(d) as u64)
    } else {
        None
    }
}

proof fn lemma_value_grows(s: Seq<char>, k: int)
    requires
        0 <= k <= s.len(),
        all_digits(s),
    ensures
        0 <= value_of(s.take(k)) <= value_of(s),
    decreases s.len() - k,
{
    lemma_value_nonneg(s.take(k));
    if k < s.len() {
        lemma_value_grows(s, k + 1);
        let t = s.take(k + 1);
        assert(t.drop_last() =~= s.take(k));
        assert(t.last() == s[k]);
    } else {
        assert(s.take(k) =~= s);
    }
}

proof fn lemma_value_nonneg(s: Seq<char>)
    requires
        all_digits(s),
    ensures
        0 <= value_of(s),
    decreases s.len(),
{
    if s.len() > 0 {
        let t = s.drop_last();
        assert forall|i: int| 0 <= i < t.len() implies '0' <= #[trigger] t[i] <= '9' by {
            assert(t[i] == s[i]);
        }
        lemma_value_nonneg(t);
        assert('0' <= s[s.len() - 1] <= '9');
    }
}

/// The number that a text writes, if it writes one that fits.
pub fn parse_number(s: &[char]) -> (r: Option<u64>)
    ensures
        r == number_of(s@),
{
    let from: usize = if s.len() > 1 && s[0] == '+' {
        1
    } else {
        0
    };
    let d = vstd::slice::slice_subrange(s, from, s.len());
    proof {
        assert(d@ =~= unsigned(s@));
    }
    if d.len() == 0 {
        return None;
    }
    let mut k: usize = 0;
    while k < d.len()
        invariant
            k <= d@.len(),
            d@ == unsigned(s@),
            forall|j: int| 0 <= j < k ==> '0' <= #[trigger] d@[j] <= '9',
        decreases d@.len() - k,
    {
        if !('0' <= d[k] && d[k] <= '9') {
            return None;
        }
        k += 1;
    }
    let mut n: u64 = 0;
    let mut i: usize = 0;
    proof {
        assert(d@.take(0) =~= Seq::<char>::empty());
    }
    while i < d.len()
        invariant
            i <= d@.len(),
            d@.len() > 0,
            d@ == unsigned(s@),
            all_digits(d@),
            n == value_of(d@.take(i as int)),
        decreases d@.len() - i,
    {
        let v: u64 = (d[i] as u32 - '0' as u32) as u64;
        proof {
            assert('0' <= d@[i as int] <= '9');
            assert(d@.take(i + 1).drop_last() =~= d@.take(i as int));
            assert(d@.take(i + 1).last() == d@[i as int]);
            lemma_value_grows(d@, i + 1);
        }
        if n > 1844674407370955161 || (n == 1844674407370955161 && v > 5) {
            return None;
        }
        n = n * 10 + v;
        i += 1;
    }
    proof {
        assert(d@.take(i as int) =~= d@);
    }
    Some(n)
}

/// What a line of a frame's header leads to.
#[derive(Debug)]
pub enum HeaderStep {
    /// The header goes on; the length that has been given so far.
    More(Option<u64>),
    /// The header is over; the body has this many bytes.
    Body(usize),
}

/// What a line of a header leads to, `length` being what was given before. A
/// blank line ends the header; a length that cannot be read counts as none.
pub open spec fn header_step(line: Seq<char>, length: Option<u64>) -> Result<HeaderStep, ErrorView> {
    let t = trimmed(line);
    if t.len() == 0 {
        match length {
            None => Err(ErrorView::Lsp("server frame without Content-Length"@)),
            Some(n) => if n > MAX_FRAME {
                Err(
                    ErrorView::Lsp(
                        "server frame too large: "@ + decimal(n as nat) + " bytes"@,
                    ),
                )
            } else {
                Ok(HeaderStep::Body(n as usize))
            },
        }
    } else if "Content-Length:"@.is_prefix_of(t) {
        Ok(HeaderStep::More(number_of(trimmed(t.skip(15)))))
    } else {
        Ok(HeaderStep::More(length))
    }
}

/// What a line of a frame's header leads to.
pub fn read_header(line: &str, length: Option<u64>) -> (r: Result<HeaderStep, Error>)
    ensures
        match r {
            Ok(s) => header_step(line@, length) == Ok::<_, ErrorView>(s),
            Err(e) => header_step(line@, length) == Err::<HeaderStep, _>(e@),
        },
{
    let cs = chars_of(line);
    let t = trim(&cs);
    if t.len() == 0 {
        match length {
            None => Err(lsp_error("server frame without Content-Length")),
            Some(n) => if n > MAX_FRAME as u64 {
                let mut m = "server frame too large: ".to_owned();
                m.append(decimal_of(n).as_str());
                m.append(" bytes");
                Err(Error::Lsp(m))
            } else {
                Ok(HeaderStep::Body(n as usize))
            },
        }
    } else {
        proof {
            reveal_strlit("Content-Length:");
        }
        if starts_with(t, "Content-Length:") {
            let rest = vstd::slice::slice_subrange(t, 15, t.len());
            proof {
                assert(rest@ =~= t@.skip(15));
            }
            Ok(HeaderStep::More(parse_number(trim(rest))))
        } else {
            Ok(HeaderStep::More(length))
        }
    }
}

/// A number in decimal writes that number.
proof fn lemma_number_of_decimal(n: nat)
    ensures
        decimal(n).len() > 0,
        all_digits(decimal(n)),
        value_of(decimal(n)) == n,
    decreases n,
{
    lemma_decimal_digits(n);
    let d = decimal(n);
    if n < 10 {
        assert(d =~= seq![digit_char(n)]);
        assert(d.drop_last() =~= Seq::<char>::empty());
        assert(value_of(d.drop_last()) == 0);
        assert(d.last() == digit_char(n));
    } else {
        lemma_number_of_decimal(n / 10);
        assert(d.drop_last() =~= decimal(n / 10));
        assert(d.last() == digit_char(n % 10));
    }
    assert forall|i: int| 0 <= i < d.len() implies '0' <= #[trigger] d[i] <= '9' by {
        assert('0' <= decimal(n)[i] <= '9');
    }
}

/// The header of a frame says how long its body is: reading the line that
/// frames start with gives back the number that was written.
pub proof fn frame_lengths_read_back(n: nat, length: Option<u64>)
    requires
        n <= u64::MAX,
    ensures
        header_step("Content-Length: "@ + decimal(n) + "\r\n"@, length) == Ok::<_, ErrorView>(
            HeaderStep::More(Some(n as u64)),
        ),
{
    reveal_strlit("Content-Length: ");
    reveal_strlit("Content-Length:");
    reveal_strlit("\r\n");
    lemma_number_of_decimal(n);
    let d = decimal(n);
    let bare = "Content-Length: "@ + d;
    let line = bare + "\r\n"@;
    assert('0' <= d[d.len() - 1] <= '9');
    assert('0' <= d[0] <= '9');
    // The line without its end.
    assert(line[0] == 'C');
    assert(ltrimmed(line) == line);
    assert(line.drop_last().drop_last() =~= bare);
    assert(line.last() == '\n');
    assert(line.drop_last().last() == '\r');
    assert(bare.last() == d[d.len() - 1]);
    assert(rtrimmed(bare) == bare);
    assert(rtrimmed(line.drop_last()) == rtrimmed(bare));
    assert(trimmed(line) == bare);
    // The value without the space before it.
    assert(bare.subrange(0, 15) =~= "Content-Length:"@);
    let rest = bare.skip(15);
    assert(rest =~= seq![' '] + d);
    assert(rest[0] == ' ');
    assert(rest.skip(1) =~= d);
    assert(ltrimmed(d) == d);
    assert(ltrimmed(rest) == ltrimmed(d));
    assert(rtrimmed(d) == d);
    assert(trimmed(rest) == d);
    assert(unsigned(d) == d);
}

/// What is done with a message of the server while a reply is awaited.
#[derive(Debug)]
pub enum MessageStep {
    /// It is the reply, and an error.
    Fail(Error),
    /// It is the reply: its result is the answer.
    Done,
    /// It is a request: it is answered with `null`.
    Answer,
    /// It is of no concern.
    Ignore,
}

/// What is done with a message while the reply to `method` is awaited.
/// `is_reply` says whether it carries the id of the request, `error` what
/// error it carries, and the other two whether it has an id and a method.
/// Requests of the server are answered so that a progress handshake never
/// deadlocks the wait.
pub fn on_message(method: &str, is_reply: bool, error: Option<&str>, has_id: bool, has_method: bool) -> (r:
    MessageStep)
    ensures
        match r {
            MessageStep::Fail(e) => is_reply && error is Some && e@ == ErrorView::LspServer(
                method@ + ": "@ + error->0@,
            ),
            MessageStep::Done => is_reply && error is None,
            MessageStep::Answer => !is_reply && has_id && has_method,
            MessageStep::Ignore => !is_reply && !(has_id && has_method),
        },
        is_reply ==> (r is Done || r is Fail) && (error is None <==> r is Done),
        !is_reply ==> (r is Answer || r is Ignore) && (has_id && has_method <==> r is Answer),
{
    if is_reply {
        match error {
            Some(e) => {
                let mut m = method.to_owned();
                m.append(": ");
                m.append(e);
                MessageStep::Fail(Error::LspServer(m))
            },
            None => MessageStep::Done,
        }
    } else if has_id && has_method {
        MessageStep::Answer
    } else {
        MessageStep::Ignore
    }
}

/// The 0-based line of a 1-based position, which must not be 0.
pub fn check_position(line_1: u32, char_1: u32) -> (r: Result<u32, Error>)
    ensures
        match r {
            Ok(l) => line_1 >= 1 && char_1 >= 1 && l == line_1 - 1,
            Err(e) => if line_1 < 1 {
                e@ == ErrorView::Lsp("line must be >= 1"@)
            } else {
                char_1 < 1 && e@ == ErrorView::Lsp("character must be >= 1"@)
            },
        },
        r is Ok <==> line_1 >= 1 && char_1 >= 1,
        r matches Ok(l) ==> l + 1 == line_1,
{
    if line_1 < 1 {
        return Err(lsp_error("line must be >= 1"));
    }
    if char_1 < 1 {
        return Err(lsp_error("character must be >= 1"));
    }
    Ok(line_1 - 1)
}

/// The LSP position of a 1-based line and character in the text of a file: a
/// 0-based line and the code units before the character.
pub open spec fn position_of(text: Seq<char>, file: Seq<char>, line_1: u32, char_1: u32) -> Result<
    (int, int),
    ErrorView,
> {
    let ls = lines_of(text);
    if line_1 > ls.len() {
        Err(ErrorView::Lsp("line "@ + decimal(line_1 as nat) + " out of range in "@ + file))
    } else {
        Ok((line_1 - 1, utf16_len(ls[line_1 - 1], chars_before(ls[line_1 - 1], char_1))))
    }
}

/// The LSP position of a 1-based line and character in the text of a file.
pub fn locate(text: &str, file: &str, line_1: u32, char_1: u32) -> (r: Result<(u32, u64), Error>)
    requires
        line_1 >= 1,
    ensures
        match r {
            Ok(p) => line_1 <= lines_of(text@).len() && p.0 == line_1 - 1 && p.1 == utf16_len(
                lines_of(text@)[line_1 - 1],
                chars_before(lines_of(text@)[line_1 - 1], char_1),
            ),
            Err(e) => line_1 > lines_of(text@).len() && e@ == ErrorView::Lsp(
                "line "@ + decimal(line_1 as nat) + " out of range in "@ + file@,
            ),
        },
        match r {
            Ok(p) => position_of(text@, file@, line_1, char_1) == Ok::<_, ErrorView>(
                (p.0 as int, p.1 as int),
            ),
            Err(e) => position_of(text@, file@, line_1, char_1) == Err::<(int, int), _>(e@),
        },
{
    let ls = lines(text);
    let k: usize = (line_1 - 1) as usize;
    proof {
        assert(texts(ls@).len() == ls@.len());
    }
    if k >= ls.len() {
        let mut m = "line ".to_owned();
        m.append(decimal_of(line_1 as u64).as_str());
        m.append(" out of range in ");
        m.append(file);
        return Err(Error::Lsp(m));
    }
    proof {
        assert(texts(ls@)[k as int] == ls@[k as int]@);
    }
    Ok((line_1 - 1, char_to_utf16_units(ls[k].as_str(), char_1)))
}

/// How a request to a pooled server ended.
#[derive(Debug)]
pub enum Ending {
    /// With targets.
    Targets(Vec<Target>),
    /// With an error, of the server or on the way to it.
    Failed(Error),
    /// Not within its time, which is shown as this.
    TimedOut(String),
}

/// Whether a server loses its place in the pool: a live server answering
/// with an error keeps it; only transport failures and timeouts evict.
pub open spec fn evicts(e: Ending) -> bool {
    match e {
        Ending::Targets(_) => false,
        Ending::Failed(e) => !(e@ matches ErrorView::LspServer(_)),
        Ending::TimedOut(_) => true,
    }
}

/// What a request came to, and whether its server loses its place.
pub fn settle(ending: Ending) -> (r: (bool, Result<Vec<Target>, Error>))
    ensures
        r.0 == evicts(ending),
        match ending {
            Ending::Targets(v) => r.1 == Ok::<_, Error>(v),
            Ending::Failed(e) => r.1 == Err::<Vec<Target>, _>(e),
            Ending::TimedOut(shown) => r.1 matches Err(e) && e@ == ErrorView::Lsp(
                "definition request timed out after "@ + shown@,
            ),
        },
{
    match ending {
        Ending::Targets(v) => (false, Ok(v)),
        Ending::Failed(e) => {
            let out = match &e {
                Error::LspServer(_) => false,
                _ => true,
            };
            (out, Err(e))
        },
        Ending::TimedOut(shown) => {
            let mut m = "definition request timed out after ".to_owned();
            m.append(shown.as_str());
            (true, Err(Error::Lsp(m)))
        },
    }
}

/// Targets come out if and only if every place leads to a file: each has the
/// path that the URL of its place leads to and the lines of its place, counted
/// from 1. Else the first place that leads to no file is named.
pub proof fn targets_lead_where_the_server_points(
    root: Seq<char>,
    ls: Seq<Location>,
    paths: Seq<Option<Seq<char>>>,
)
    requires
        paths.len() == ls.len(),
    ensures
        targets_at(root, ls, paths) is Ok <==> forall|i: int|
            0 <= i < paths.len() ==> (#[trigger] paths[i]) is Some,
        targets_at(root, ls, paths) matches Ok(ts) ==> ts.len() == ls.len() && forall|i: int|
            0 <= i < ls.len() ==> ({
                let t = #[trigger] ts[i];
                &&& paths[i] == Some(t.path)
                &&& t.start_line == ls[i].start_line + 1 && t.end_line == ls[i].end_line + 1
            }),
        forall|k: int|
            0 <= k < paths.len() && (#[trigger] paths[k]) is None && (forall|j: int|
                0 <= j < k ==> (#[trigger] paths[j]) is Some) ==> targets_at(root, ls, paths)
                == Err::<Seq<TargetView>, _>(
                ErrorView::Lsp("server returned non-file URI: "@ + ls[k].uri@),
            ),
{
    lemma_strange_is(paths);
    assert forall|k: int|
        0 <= k < paths.len() && (#[trigger] paths[k]) is None && (forall|j: int|
            0 <= j < k ==> (#[trigger] paths[j]) is Some) implies targets_at(root, ls, paths)
        == Err::<Seq<TargetView>, _>(
        ErrorView::Lsp("server returned non-file URI: "@ + ls[k].uri@),
    ) by {
        lemma_first_strange(paths, k);
    }
}

proof fn lemma_strange_is(paths: Seq<Option<Seq<char>>>)
    ensures
        0 <= first_strange(paths) <= paths.len(),
        first_strange(paths) < paths.len() ==> paths[first_strange(paths)] is None,
        forall|i: int| 0 <= i < first_strange(paths) ==> (#[trigger] paths[i]) is Some,
    decreases paths.len(),
{
    if paths.len() > 0 && paths[0] is Some {
        let t = paths.skip(1);
        lemma_strange_is(t);
        assert forall|i: int| 0 <= i < first_strange(paths) implies (#[trigger] paths[i]) is Some by {
            if i > 0 {
                assert(t[i - 1] == paths[i]);
            }
        }
    }
}

/// A target below the root is not marked as outside of it.
pub proof fn targets_below_the_root_are_inside(
    dir: Seq<Seq<char>>,
    names: Seq<Seq<char>>,
    l: Location,
)
    requires
        dir.len() > 0,
        dir[0] == root_comp(),
        plain(dir),
        names.len() > 0,
        forall|i: int| 0 <= i < names.len() ==> is_name(#[trigger] names[i]),
    ensures
        !target_at(text_of(dir), l, text_of(dir + names)).outside_root,
{
    paths_below_a_directory_are_what_is_left(dir, names);
}

/// A response is read whole: a single place is one target, and any number of
/// places or links as many.
pub proof fn every_place_is_read(l: Location, v: Vec<Location>)
    ensures
        places(None).len() == 0,
        places(Some(DefinitionResponse::Scalar(l))).len() == 1,
        places(Some(DefinitionResponse::Scalar(l)))[0] == l,
        places(Some(DefinitionResponse::Array(v))) == v@,
        places(Some(DefinitionResponse::Link(v))) == v@,
{
}

/// The first character of a line stands at column 0. The next column follows
/// by one code unit for a character of the basic plane and by two for any
/// other, up to the end of the line, where the columns end.
pub proof fn columns_count_code_units(s: Seq<char>, char_1: u32)
    requires
        char_1 < u32::MAX,
    ensures
        utf16_len(s, chars_before(s, 0)) == 0,
        utf16_len(s, chars_before(s, 1)) == 0,
        1 <= char_1 <= s.len() ==> utf16_len(s, chars_before(s, (char_1 + 1) as u32)) == utf16_len(
            s,
            chars_before(s, char_1),
        ) + (if (s[char_1 - 1] as u32) < 0x10000 {
            1int
        } else {
            2
        }),
        char_1 > s.len() ==> chars_before(s, char_1) == s.len(),
{
}

/// In a text of the basic plane, columns are characters counted from 0.
pub proof fn plain_columns_are_characters(s: Seq<char>, char_1: u32)
    requires
        1 <= char_1 <= s.len() + 1,
        forall|i: int| 0 <= i < s.len() ==> (#[trigger] s[i]) as u32 <= 0xffff,
    ensures
        utf16_len(s, chars_before(s, char_1)) == char_1 - 1,
{
    lemma_plain_units(s, char_1 - 1);
}

proof fn lemma_plain_units(s: Seq<char>, n: int)
    requires
        0 <= n <= s.len(),
        forall|i: int| 0 <= i < s.len() ==> (#[trigger] s[i]) as u32 <= 0xffff,
    ensures
        utf16_len(s, n) == n,
    decreases n,
{
    if n > 0 {
        lemma_plain_units(s, n - 1);
        assert(s[n - 1] as u32 <= 0xffff);
    }
}

/// A position exists if and only if the text has its line; the line is counted
/// from 0, and the column is counted in that line of the text.
pub proof fn positions_stand_in_their_line(text: Seq<char>, file: Seq<char>, line_1: u32, char_1: u32)
    requires
        line_1 >= 1,
    ensures
        position_of(text, file, line_1, char_1) is Ok <==> line_1 <= lines_of(text).len(),
        position_of(text, file, line_1, char_1) matches Ok((line, column)) ==> line + 1 == line_1
            && column == utf16_len(lines_of(text)[line], chars_before(lines_of(text)[line], char_1)),
        position_of(text, file, line_1, 1) matches Ok((_, column)) ==> column == 0,
{
}

/// A frame is read back as it was written: its first line gives the length of
/// the message in bytes, a blank line ends the header with that length, and
/// what follows is the message.
pub proof fn frames_read_back(text: Seq<char>, length: Option<u64>)
    requires
        byte_len(text) <= MAX_FRAME,
    ensures
        ({
            let n = byte_len(text);
            let first = "Content-Length: "@ + decimal(n) + "\r\n"@;
            &&& framed(text) == first + "\r\n"@ + text
            &&& header_step(first, length) == Ok::<_, ErrorView>(HeaderStep::More(Some(n as u64)))
            &&& header_step("\r\n"@, Some(n as u64)) == Ok::<_, ErrorView>(
                HeaderStep::Body(n as usize),
            )
        }),
{
    let n = byte_len(text);
    frame_lengths_read_back(n, length);
    reveal_strlit("\r\n");
    reveal_strlit("\r\n\r\n");
    assert(framed(text) =~= "Content-Length: "@ + decimal(n) + "\r\n"@ + "\r\n"@ + text);
    let end = "\r\n"@;
    assert(ltrimmed(end.skip(1).skip(1)).len() == 0);
    assert(ltrimmed(end.skip(1)).len() == 0);
    assert(ltrimmed(end).len() == 0);
    assert(trimmed(end).len() == 0);
}

/// A header's end needs a length within the cap; a line that gives none leaves
/// the length as it was.
pub proof fn headers_need_a_length(line: Seq<char>, length: Option<u64>)
    ensures
        trimmed(line).len() == 0 ==> (header_step(line, length) is Ok <==> (length matches Some(n)
            && n <= MAX_FRAME)),
        header_step(line, length) matches Ok(HeaderStep::Body(n)) ==> trimmed(line).len() == 0
            && length == Some(n as u64),
        trimmed(line).len() > 0 && !"Content-Length:"@.is_prefix_of(trimmed(line)) ==> header_step(
            line,
            length,
        ) == Ok::<_, ErrorView>(HeaderStep::More(length)),
        header_step(line, length) is Err ==> header_step(line, length)->Err_0 is Lsp,
{
}

/// A server that answers, with targets or with an error of its own, keeps its
/// place; one that is late or cannot be reached loses it.
pub proof fn answering_servers_keep_their_place(e: Ending)
    ensures
        e is Targets ==> !evicts(e),
        e is TimedOut ==> evicts(e),
        e matches Ending::Failed(Error::LspServer(_)) ==> !evicts(e),
        e matches Ending::Failed(Error::Lsp(_)) ==> evicts(e),
{
}

} // verus!
