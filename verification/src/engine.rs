//! The regular-expression engine (the `regex` crate), as the library uses it:
//! compile a pattern, then list its successive matches in a text.

use vstd::prelude::*;
use vstd::utf8::*;
use vstd::string::StringSliceAdditionalSpecFns;
use regex::Regex;
use crate::includes::INCLUDE_REPLACE_TOKEN_REGEX;
use crate::template_path::TEMPLATE_PATH_REGEX;

verus! {

/// A compiled regular expression of the `regex` crate, carried through
/// unopened.
#[verifier::external_type_specification]
#[verifier::external_body]
pub struct ExRegex(Regex);

/// Byte offsets of one match in a text, and of its first capture group when
/// that group took part in the match.
pub struct CaptureSpan {
    pub start: usize,
    pub end: usize,
    pub group: Option<(usize, usize)>,
}

/// `start..end` is a byte range of `b` whose two ends are
/// character boundaries, so it can be sliced out of the text.
pub open spec fn sliceable(b: Seq<u8>, start: int, end: int) -> bool {
    &&& 0 <= start <= end <= b.len()
    &&& is_char_boundary(b, start)
    &&& is_char_boundary(b, end)
}

/// A compiled regular expression, with the pattern it was compiled from.
pub struct CompiledRegex {
    regex: Regex,
    pattern: String,
}

impl CompiledRegex {
    /// The pattern this regex was compiled from.
    pub closed spec fn pattern(&self) -> Seq<char> {
        self.pattern@
    }

    /// The engine's compiled regex.
    pub fn regex(&self) -> &Regex {
        &self.regex
    }
}

/// Compiles `pattern` with `regex::Regex::new`, or gives `None` when the
/// pattern does not compile.  Claimed: a compiled regex records `pattern`
/// as its pattern; and the library's two fixed patterns (the include
/// pattern and the template-path pattern) compile, being valid syntax and
/// far below the engine's default size limit.  Which other patterns fail
/// is not stated.
#[verifier::external_body]
pub(crate) fn compile_regex(pattern: &str) -> (r: Option<CompiledRegex>)
    ensures
        r matches Some(c) ==> c.pattern() == pattern@,
        pattern@ == INCLUDE_REPLACE_TOKEN_REGEX@ || pattern@ == TEMPLATE_PATH_REGEX@ ==> r is Some,
{
    Regex::new(pattern).ok().map(|regex| CompiledRegex { regex, pattern: pattern.to_string() })
}

/// What `regex::Regex::captures_iter` reports for the regex compiled from
/// `pattern` on `haystack`: for each successive match, its byte offsets and
/// those of its first capture group, when that group took part.
pub uninterp spec fn regex_captures(pattern: Seq<char>, haystack: Seq<char>) -> Seq<(int, int, Option<(int, int)>)>;

/// The view of one `CaptureSpan`: its offsets as integers.
pub open spec fn span_view(c: CaptureSpan) -> (int, int, Option<(int, int)>) {
    (c.start as int, c.end as int, match c.group {
        Some((gs, ge)) => Some((gs as int, ge as int)),
        None => None,
    })
}

/// The views of a list of `CaptureSpan`s.
pub open spec fn span_views(s: Seq<CaptureSpan>) -> Seq<(int, int, Option<(int, int)>)> {
    s.map_values(|c: CaptureSpan| span_view(c))
}

/// The successive matches of `re` in `haystack`, from
/// `regex::Regex::captures_iter`, as byte offsets.
///
/// Claimed: they are `regex_captures` of `re`'s pattern and the haystack (a
/// function of the two alone); and, as the crate documents it, every offset
/// of a match or of a group lies on a UTF-8 boundary of the haystack with
/// `start <= end` (`Match::start`, `Match::end`), and the matches come in
/// order without overlapping ("successive non-overlapping matches").
#[verifier::external_body]
pub(crate) fn capture_spans(re: &CompiledRegex, haystack: &str) -> (r: Vec<CaptureSpan>)
    ensures
        span_views(r@) == regex_captures(re.pattern(), haystack@),
        forall|i: int|
            0 <= i < r.len() ==> sliceable(
                haystack.spec_bytes(),
                (#[trigger] r[i]).start as int,
                r[i].end as int,
            ),
        forall|i: int|
            0 <= i < r.len() ==> ((#[trigger] r[i]).group matches Some((gs, ge)) ==> sliceable(
                haystack.spec_bytes(),
                gs as int,
                ge as int,
            )),
        forall|i: int| 0 <= i < r.len() - 1 ==> (#[trigger] r[i]).end <= r[i + 1].start,
{
    let mut spans = Vec::new();
    for caps in re.regex.captures_iter(haystack) {
        let whole = caps.get_match();
        let group = caps.get(1).map(|g| (g.start(), g.end()));
        spans.push(CaptureSpan { start: whole.start(), end: whole.end(), group });
    }
    spans
}

} // verus!
