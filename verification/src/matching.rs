//! Lines that match a pattern, as the `grep` crates find them.

use vstd::prelude::*;

verus! {

/// A line that matches.
#[derive(Debug)]
pub struct LineMatch {
    /// 1-based line number.
    pub line: u64,
    /// The bytes of the line, with its line terminator.
    pub bytes: Vec<u8>,
}

impl View for LineMatch {
    type V = (u64, Seq<u8>);

    open spec fn view(&self) -> (u64, Seq<u8>) {
        (self.line, self.bytes@)
    }
}

/// What is wrong with a pattern, as the error of
/// `grep::regex::RegexMatcherBuilder::build` reads.
pub uninterp spec fn pattern_fault(pattern: Seq<char>, case_insensitive: bool, fixed: bool) -> Option<
    Seq<char>,
>;

/// The lines of `bytes` that `grep::searcher::Searcher::search_reader` reports
/// for a pattern; `None` where the pattern does not compile.
pub uninterp spec fn line_matches(
    pattern: Seq<char>,
    case_insensitive: bool,
    fixed: bool,
    bytes: Seq<u8>,
) -> Option<Seq<(u64, Seq<u8>)>>;

/// `grep::regex::RegexMatcherBuilder::build`: whether a pattern compiles, and
/// if not, why. The answer is a function of the pattern and the two options.
#[verifier::external_body]
pub(crate) fn compile_fault(pattern: &str, case_insensitive: bool, fixed: bool) -> (r: Option<
    String,
>)
    ensures
        match r {
            Some(m) => pattern_fault(pattern@, case_insensitive, fixed) == Some(m@),
            None => pattern_fault(pattern@, case_insensitive, fixed) is None,
        },
{
    grep::regex::RegexMatcherBuilder::new()
        .case_insensitive(case_insensitive)
        .fixed_strings(fixed)
        .build(pattern)
        .err()
        .map(|e| e.to_string())
}

/// Adds a line to those found so far; the search is to go on.
fn record(out: &mut Vec<LineMatch>, line: u64, bytes: &[u8]) -> (r: bool)
    ensures
        r,
        final(out)@.len() == old(out)@.len() + 1,
        final(out)@.drop_last() == old(out)@,
        final(out)@.last()@ == (line, bytes@),
{
    let mut copy: Vec<u8> = Vec::new();
    let mut i: usize = 0;
    while i < bytes.len()
        invariant
            i <= bytes@.len(),
            copy@ == bytes@.take(i as int),
        decreases bytes@.len() - i,
    {
        copy.push(bytes[i]);
        proof {
            assert(copy@ =~= bytes@.take(i + 1));
        }
        i += 1;
    }
    proof {
        assert(copy@ =~= bytes@);
    }
    out.push(LineMatch { line, bytes: copy });
    proof {
        assert(out@.drop_last() =~= old(out)@);
    }
    true
}

/// What a list of matching lines says.
pub open spec fn match_views(v: Option<Vec<LineMatch>>) -> Option<Seq<(u64, Seq<u8>)>> {
    match v {
        Some(v) => Some(Seq::new(v@.len(), |i: int| v@[i]@)),
        None => None,
    }
}

/// Whether matching lines come by line number, each line once.
pub open spec fn lines_increase(found: Option<Seq<(u64, Seq<u8>)>>) -> bool {
    match found {
        Some(v) => forall|i: int, j: int|
            0 <= i < j < v.len() ==> (#[trigger] v[i]).0 < (#[trigger] v[j]).0,
        None => true,
    }
}

/// `grep::searcher::Searcher::search_reader` over bytes in memory, with line
/// numbers, stopping at a NUL byte: the lines that match, in the order found,
/// which is that of their numbers. The lines are a function of the pattern,
/// the two options and the bytes. There is no answer exactly for a pattern
/// that does not compile.
#[verifier::external_body]
pub(crate) fn matching_lines(pattern: &str, case_insensitive: bool, fixed: bool, bytes: &[u8]) -> (r:
    Option<Vec<LineMatch>>)
    ensures
        match_views(r) == line_matches(pattern@, case_insensitive, fixed, bytes@),
        r is None <==> pattern_fault(pattern@, case_insensitive, fixed) is Some,
        lines_increase(match_views(r)),
{
    let mut builder = grep::regex::RegexMatcherBuilder::new();
    builder.case_insensitive(case_insensitive).fixed_strings(fixed);
    let matcher = builder.build(pattern).ok()?;
    let mut searcher = grep::searcher::SearcherBuilder::new()
        .line_number(true)
        .binary_detection(grep::searcher::BinaryDetection::quit(b'\x00'))
        .build();
    let mut out: Vec<LineMatch> = Vec::new();
    let sink = grep::searcher::sinks::Bytes(|n, line| Ok(record(&mut out, n, line)));
    searcher.search_reader(&matcher, bytes, sink).ok()?;
    Some(out)
}

} // verus!
