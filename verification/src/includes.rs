//! Finding `<% include!("..."); %>` tokens in a template.
//!
//! The token grammar is the one the include pattern
//! `<% *include!\s*\(\s*"([^"]+)"\s*\)\s*;\s*%>` describes; here it is a
//! function on the template's UTF-8 bytes, and every offset is a byte offset.

use vstd::prelude::*;
use vstd::utf8::*;
use vstd::string::StringSliceAdditionalSpecFns;
use core::ops::Range;
use crate::engine::{
    CaptureSpan, CompiledRegex, sliceable, compile_regex, capture_spans, regex_captures, span_view,
    span_views,
};
use crate::text::{
    bytes_at, byte_at, skip_ws, skip_spaces, find_byte_from, lemma_skip_ws_bounds,
    lemma_skip_spaces_bounds, lemma_find_byte_from, lemma_boundary_at_ascii,
    lemma_boundary_after_ascii, exec_skip_ws, exec_skip_spaces, exec_find_byte, exec_bytes_at,
    substring, str_bytes,
};

verus! {

broadcast use vstd::utf8::group_utf8_lib;

/// The bytes of `<%`.
pub open spec fn open_tag() -> Seq<u8> {
    seq![0x3cu8, 0x25u8]
}

/// The bytes of `%>`.
pub open spec fn close_tag() -> Seq<u8> {
    seq![0x25u8, 0x3eu8]
}

/// The bytes of `include!`.
pub open spec fn include_word() -> Seq<u8> {
    seq![0x69u8, 0x6eu8, 0x63u8, 0x6cu8, 0x75u8, 0x64u8, 0x65u8, 0x21u8]
}

/// The include token that starts at byte `s` of `b`, if one does, as
/// `(end, name_start, name_end)`: `<%`, ASCII spaces, `include!`,
/// whitespace, `(`, whitespace, `"`, a non-empty file name without `"`, `"`,
/// whitespace, `)`, whitespace, `;`, whitespace, `%>`.  The token covers
/// `s..end` and the file name `name_start..name_end`.
pub open spec fn include_token_at(b: Seq<u8>, s: int) -> Option<(int, int, int)> {
    if !bytes_at(b, s, open_tag()) {
        None
    } else {
        let i1 = skip_spaces(b, s + 2);
        if !bytes_at(b, i1, include_word()) {
            None
        } else {
            let i2 = skip_ws(b, i1 + 8);
            if !byte_at(b, i2, 0x28) {
                None
            } else {
                let i3 = skip_ws(b, i2 + 1);
                if !byte_at(b, i3, 0x22) {
                    None
                } else {
                    match find_byte_from(b, i3 + 1, 0x22) {
                        None => None,
                        Some(q) => {
                            if q == i3 + 1 {
                                None
                            } else {
                                let i4 = skip_ws(b, q + 1);
                                if !byte_at(b, i4, 0x29) {
                                    None
                                } else {
                                    let i5 = skip_ws(b, i4 + 1);
                                    if !byte_at(b, i5, 0x3b) {
                                        None
                                    } else {
                                        let i6 = skip_ws(b, i5 + 1);
                                        if !bytes_at(b, i6, close_tag()) {
                                            None
                                        } else {
                                            Some((i6 + 2, i3 + 1, q))
                                        }
                                    }
                                }
                            }
                        },
                    }
                }
            }
        }
    }
}

/// Shape of a token that `include_token_at` finds: it lies within the text,
/// its name lies strictly inside it, and it begins with `<%`, ends with `%>`
/// and has a `"` on either side of the name.
pub open spec fn token_shape(b: Seq<u8>, s: int, e: int, ns: int, ne: int) -> bool {
    &&& 0 <= s && s + 2 < ns && ns < ne && ne + 2 < e && e <= b.len()
    &&& b[s] == 0x3c && b[e - 1] == 0x3e && b[ns - 1] == 0x22 && b[ne] == 0x22
    &&& forall|k: int| ns <= k < ne ==> b[k] != 0x22
}

/// The include tokens of `b` from position `pos` on, leftmost first and
/// without overlap, as `(start, end, name_start, name_end)`.
pub open spec fn include_matches_from(b: Seq<u8>, pos: int) -> Seq<(int, int, int, int)>
    decreases b.len() - pos,
{
    if pos < 0 || pos >= b.len() {
        seq![]
    } else {
        match include_token_at(b, pos) {
            Some((e, ns, ne)) => {
                proof {
                    lemma_token_shape(b, pos);
                }
                seq![(pos, e, ns, ne)] + include_matches_from(b, e)
            },
            None => include_matches_from(b, pos + 1),
        }
    }
}

/// All include tokens of `b`.
pub open spec fn include_matches(b: Seq<u8>) -> Seq<(int, int, int, int)> {
    include_matches_from(b, 0)
}

/// A token found by `include_token_at` has the expected shape.
pub proof fn lemma_token_shape(b: Seq<u8>, s: int)
    requires
        0 <= s,
        include_token_at(b, s) is Some,
    ensures
        ({
            let (e, ns, ne) = include_token_at(b, s).unwrap();
            token_shape(b, s, e, ns, ne)
        }),
{
    assert(b.subrange(s, s + 2)[0] == b[s]);
    let i1 = skip_spaces(b, s + 2);
    lemma_skip_spaces_bounds(b, s + 2);
    let i2 = skip_ws(b, i1 + 8);
    lemma_skip_ws_bounds(b, i1 + 8);
    let i3 = skip_ws(b, i2 + 1);
    lemma_skip_ws_bounds(b, i2 + 1);
    lemma_find_byte_from(b, i3 + 1, 0x22);
    let q = find_byte_from(b, i3 + 1, 0x22).unwrap();
    let i4 = skip_ws(b, q + 1);
    lemma_skip_ws_bounds(b, q + 1);
    let i5 = skip_ws(b, i4 + 1);
    lemma_skip_ws_bounds(b, i4 + 1);
    let i6 = skip_ws(b, i5 + 1);
    lemma_skip_ws_bounds(b, i5 + 1);
    assert(b.subrange(i6, i6 + 2)[1] == b[i6 + 1]);
}

/// Every match of `include_matches_from(b, pos)` is a token with the
/// expected shape, the matches start at or after `pos`, and each ends
/// before the next begins.
pub proof fn lemma_matches_shape(b: Seq<u8>, pos: int)
    ensures
        ({
            let m = include_matches_from(b, pos);
            &&& forall|i: int| 0 <= i < m.len() ==> pos <= (#[trigger] m[i]).0
            &&& forall|i: int|
                0 <= i < m.len() ==> include_token_at(b, (#[trigger] m[i]).0) == Some(
                    (m[i].1, m[i].2, m[i].3),
                )
            &&& forall|i: int|
                0 <= i < m.len() ==> token_shape(b, (#[trigger] m[i]).0, m[i].1, m[i].2, m[i].3)
            &&& forall|i: int| 0 <= i < m.len() - 1 ==> (#[trigger] m[i]).1 <= m[i + 1].0
        }),
    decreases b.len() - pos,
{
    if pos < 0 || pos >= b.len() {
    } else {
        match include_token_at(b, pos) {
            Some((e, ns, ne)) => {
                lemma_token_shape(b, pos);
                lemma_matches_shape(b, e);
                let rest = include_matches_from(b, e);
                let m = include_matches_from(b, pos);
                assert(m == seq![(pos, e, ns, ne)] + rest);
                assert forall|i: int| 0 <= i < m.len() - 1 implies (#[trigger] m[i]).1 <= m[i
                    + 1].0 by {
                    if i > 0 {
                        assert(m[i] == rest[i - 1]);
                        assert(m[i + 1] == rest[i]);
                    } else {
                        assert(m[1] == rest[0]);
                    }
                }
                assert forall|i: int| 0 <= i < m.len() implies pos <= (#[trigger] m[i]).0 by {
                    if i > 0 {
                        assert(m[i] == rest[i - 1]);
                    }
                }
                assert forall|i: int|
                    0 <= i < m.len() implies include_token_at(b, (#[trigger] m[i]).0) == Some(
                    (m[i].1, m[i].2, m[i].3),
                ) by {
                    if i > 0 {
                        assert(m[i] == rest[i - 1]);
                    }
                }
                assert forall|i: int|
                    0 <= i < m.len() implies token_shape(
                    b,
                    (#[trigger] m[i]).0,
                    m[i].1,
                    m[i].2,
                    m[i].3,
                ) by {
                    if i > 0 {
                        assert(m[i] == rest[i - 1]);
                    }
                }
            },
            None => {
                lemma_matches_shape(b, pos + 1);
            },
        }
    }
}

/// Where no `<%` starts in `pos..s`, scanning from `pos` is scanning from `s`.
pub proof fn lemma_skip_to_open(b: Seq<u8>, pos: int, s: int)
    requires
        0 <= pos <= s <= b.len(),
        forall|k: int| pos <= k < s ==> !bytes_at(b, k, open_tag()),
    ensures
        include_matches_from(b, pos) == include_matches_from(b, s),
    decreases s - pos,
{
    if pos < s {
        assert(include_token_at(b, pos) is None);
        lemma_skip_to_open(b, pos + 1, s);
    }
}

/// The token that starts at `s`, as `include_token_at` gives it.
fn match_include_token(b: &[u8], s: usize) -> (r: Option<(usize, usize, usize)>)
    requires
        s + 2 <= b@.len(),
        bytes_at(b@, s as int, open_tag()),
    ensures
        r is None <==> include_token_at(b@, s as int) is None,
        r matches Some((e, ns, ne)) ==> include_token_at(b@, s as int) == Some(
            (e as int, ns as int, ne as int),
        ),
{
    proof {
        lemma_token_shape_bounds(b@, s as int);
    }
    let len = b.len();
    assert(s + 2 <= len);
    let i1 = exec_skip_spaces(b, s + 2);
    let word: [u8; 8] = [0x69, 0x6e, 0x63, 0x6c, 0x75, 0x64, 0x65, 0x21];
    assert(word@ =~= include_word());
    if !exec_bytes_at(b, i1, &word) {
        return None;
    }
    assert(i1 + 8 <= len);
    let i2 = exec_skip_ws(b, i1 + 8);
    if !(i2 < b.len() && b[i2] == 0x28) {
        return None;
    }
    let i3 = exec_skip_ws(b, i2 + 1);
    if !(i3 < b.len() && b[i3] == 0x22) {
        return None;
    }
    let q = match exec_find_byte(b, i3 + 1, 0x22) {
        None => return None,
        Some(q) => q,
    };
    proof {
        lemma_find_byte_from(b@, i3 + 1, 0x22);
    }
    if q == i3 + 1 {
        return None;
    }
    let i4 = exec_skip_ws(b, q + 1);
    if !(i4 < b.len() && b[i4] == 0x29) {
        return None;
    }
    let i5 = exec_skip_ws(b, i4 + 1);
    if !(i5 < b.len() && b[i5] == 0x3b) {
        return None;
    }
    let i6 = exec_skip_ws(b, i5 + 1);
    let close: [u8; 2] = [0x25, 0x3e];
    assert(close@ =~= close_tag());
    if !exec_bytes_at(b, i6, &close) {
        return None;
    }
    Some((i6 + 2, i3 + 1, q))
}

/// A token found at `s` has the shape of `token_shape`, whichever it is.
proof fn lemma_token_shape_bounds(b: Seq<u8>, s: int)
    requires
        0 <= s,
        s + 2 <= b.len(),
    ensures
        include_token_at(b, s) is Some ==> {
            let (e, ns, ne) = include_token_at(b, s).unwrap();
            token_shape(b, s, e, ns, ne)
        },
{
    if include_token_at(b, s) is Some {
        lemma_token_shape(b, s);
    }
}

/// The first `<%` at or after `pos`.
fn find_open_tag(b: &[u8], pos: usize) -> (r: Option<usize>)
    requires
        pos <= b@.len(),
    ensures
        r matches Some(s) ==> pos <= s && s + 2 <= b@.len() && bytes_at(b@, s as int, open_tag())
            && forall|k: int| pos <= k < s ==> !bytes_at(b@, k, open_tag()),
        r is None ==> forall|k: int| pos <= k <= b@.len() ==> !bytes_at(b@, k, open_tag()),
{
    let len = b.len();
    let mut j = pos;
    while len - j >= 2
        invariant
            pos <= j <= len,
            len == b@.len(),
            forall|k: int| pos <= k < j ==> !bytes_at(b@, k, open_tag()),
        decreases len - j,
    {
        if b[j] == 0x3c && b[j + 1] == 0x25 {
            assert(b@.subrange(j as int, j + 2) =~= open_tag());
            return Some(j);
        }
        assert(b@.subrange(j as int, j + 2)[0] == b@[j as int]);
        assert(b@.subrange(j as int, j + 2)[1] == b@[j + 1]);
        j = j + 1;
    }
    None
}

/// The view of one found include: `(start, end, full token, file name)`,
/// with the two strings taken as their UTF-8 bytes.
pub open spec fn include_entry_view(x: (Range<usize>, String, String)) -> (int, int, Seq<u8>, Seq<u8>) {
    (x.0.start as int, x.0.end as int, encode_utf8(x.1@), encode_utf8(x.2@))
}

/// `r` lists exactly the tokens `m` of the text `b`: the same ranges, each
/// with the token's text and its file name.
pub open spec fn lists_matches(
    b: Seq<u8>,
    r: Seq<(Range<usize>, String, String)>,
    m: Seq<(int, int, int, int)>,
) -> bool {
    &&& r.len() == m.len()
    &&& forall|i: int|
        0 <= i < r.len() ==> #[trigger] include_entry_view(r[i]) == (
            m[i].0,
            m[i].1,
            b.subrange(m[i].0, m[i].1),
            b.subrange(m[i].2, m[i].3),
        )
}

/// One step of the scan when a token starts at `s`: it is the next match,
/// and scanning resumes after it.
proof fn lemma_scan_step_found(b: Seq<u8>, s: int, done: Seq<(int, int, int, int)>, k: int)
    requires
        0 <= s < b.len(),
        0 <= k <= done.len(),
        include_token_at(b, s) is Some,
        include_matches_from(b, s) == done.skip(k),
    ensures
        ({
            let (e, ns, ne) = include_token_at(b, s).unwrap();
            &&& k < done.len()
            &&& done[k] == (s, e, ns, ne)
            &&& include_matches_from(b, e) == done.skip(k + 1)
        }),
{
    lemma_token_shape(b, s);
    let (e, ns, ne) = include_token_at(b, s).unwrap();
    let rest = include_matches_from(b, s);
    assert(rest == seq![(s, e, ns, ne)] + include_matches_from(b, e));
    assert(rest.len() >= 1);
    assert(done.skip(k)[0] == done[k]);
    assert(done.skip(k + 1) =~= rest.drop_first());
    assert(rest.drop_first() =~= include_matches_from(b, e));
}

/// Appending the entry for the next match keeps `lists_matches`.
proof fn lemma_lists_matches_push(
    b: Seq<u8>,
    r: Seq<(Range<usize>, String, String)>,
    m: Seq<(int, int, int, int)>,
    x: (Range<usize>, String, String),
)
    requires
        r.len() < m.len(),
        lists_matches(b, r, m.take(r.len() as int)),
        include_entry_view(x) == (
            m[r.len() as int].0,
            m[r.len() as int].1,
            b.subrange(m[r.len() as int].0, m[r.len() as int].1),
            b.subrange(m[r.len() as int].2, m[r.len() as int].3),
        ),
    ensures
        lists_matches(b, r.push(x), m.take(r.len() as int + 1)),
{
    let k = r.len() as int;
    let r2 = r.push(x);
    let m2 = m.take(k + 1);
    assert forall|i: int| 0 <= i < r2.len() implies #[trigger] include_entry_view(r2[i]) == (
        m2[i].0,
        m2[i].1,
        b.subrange(m2[i].0, m2[i].1),
        b.subrange(m2[i].2, m2[i].3),
    ) by {
        if i < k {
            assert(r2[i] == r[i]);
            assert(m2[i] == m.take(k)[i]);
            assert(include_entry_view(r[i]) == (
                m.take(k)[i].0,
                m.take(k)[i].1,
                b.subrange(m.take(k)[i].0, m.take(k)[i].1),
                b.subrange(m.take(k)[i].2, m.take(k)[i].3),
            ));
        }
    }
}

/// Every `<% include!("..."); %>` token of `contents`, leftmost first and
/// without overlap, as `(byte_range, full_match, file_name)`.
///
/// This parser needs no regular-expression engine.
pub fn extract_includes_manual_ranges(contents: &str) -> (r: Vec<(Range<usize>, String, String)>)
    ensures
        lists_matches(contents.spec_bytes(), r@, include_matches(contents.spec_bytes())),
{
    let b = str_bytes(contents);
    let ghost bs = contents.spec_bytes();
    proof {
        encode_utf8_valid_utf8(contents@);
    }
    let len = b.len();
    let mut results: Vec<(Range<usize>, String, String)> = Vec::new();
    let mut pos: usize = 0;
    loop
        invariant
            b@ == bs,
            bs == contents.spec_bytes(),
            valid_utf8(bs),
            len == bs.len(),
            pos <= len,
            ({
                let done = include_matches(bs);
                let rest = include_matches_from(bs, pos as int);
                &&& done.len() == results@.len() + rest.len()
                &&& lists_matches(bs, results@, done.take(results@.len() as int))
                &&& rest == done.skip(results@.len() as int)
            }),
        decreases len - pos,
    {
        let ghost prev = results@;
        let ghost done = include_matches(bs);
        let found = find_open_tag(b, pos);
        match found {
            None => {
                proof {
                    lemma_skip_to_open(bs, pos as int, len as int);
                    assert(include_matches_from(bs, len as int) =~= Seq::<(int, int, int, int)>::empty());
                    assert(done.skip(results@.len() as int).len() == 0);
                    assert(done.len() == results@.len());
                    assert(done.take(results@.len() as int) =~= done);
                    assert(lists_matches(bs, results@, done));
                }
                return results;
            },
            Some(s) => {
                proof {
                    lemma_skip_to_open(bs, pos as int, s as int);
                }
                match match_include_token(b, s) {
                    Some((e, ns, ne)) => {
                        proof {
                            lemma_scan_step_found(bs, s as int, done, prev.len() as int);
                            lemma_token_shape(bs, s as int);
                            lemma_boundary_at_ascii(bs, s as int);
                            lemma_boundary_after_ascii(bs, e - 1);
                            lemma_boundary_after_ascii(bs, ns - 1);
                            lemma_boundary_at_ascii(bs, ne as int);
                        }
                        let full = substring(contents, s, e);
                        let name = substring(contents, ns, ne);
                        results.push((s..e, full, name));
                        proof {
                            lemma_lists_matches_push(bs, prev, done, (s..e, full, name));
                        }
                        pos = e;
                    },
                    None => {
                        proof {
                            assert(include_token_at(bs, s as int) is None);
                            assert(bs[s + 1] == 0x25) by {
                                assert(bs.subrange(s as int, s + 2)[1] == bs[s + 1]);
                            }
                            if s + 1 < len {
                                assert(!bytes_at(bs, s + 1, open_tag())) by {
                                    if bytes_at(bs, s + 1, open_tag()) {
                                        assert(bs.subrange(s + 1, s + 3)[0] == bs[s + 1]);
                                    }
                                }
                                assert(include_token_at(bs, s + 1) is None);
                            }
                            assert(include_matches_from(bs, s as int) == include_matches_from(bs, s + 1));
                            assert(include_matches_from(bs, s + 1) == include_matches_from(bs, s + 2));
                        }
                        pos = s + 2;
                    },
                }
            },
        }
    }
}

/// What every list of found includes satisfies, whichever engine found
/// them: each entry's range can be sliced out of the text, its full match is
/// that slice, its file name is the text of some sliceable range, and the
/// ranges come in order without overlapping.
pub open spec fn include_entries_ok(b: Seq<u8>, r: Seq<(Range<usize>, String, String)>) -> bool {
    &&& forall|i: int|
        0 <= i < r.len() ==> {
            let (start, end, full, name) = #[trigger] include_entry_view(r[i]);
            &&& sliceable(b, start, end)
            &&& full == b.subrange(start, end)
            &&& exists|ns: int, ne: int| sliceable(b, ns, ne) && name == b.subrange(ns, ne)
        }
    &&& forall|i: int| 0 <= i < r.len() - 1 ==> (#[trigger] r[i]).0.end <= r[i + 1].0.start
}

/// The entries of the include tokens of valid UTF-8 text satisfy
/// `include_entries_ok`.
pub proof fn lemma_matches_entries_ok(b: Seq<u8>, r: Seq<(Range<usize>, String, String)>)
    requires
        valid_utf8(b),
        lists_matches(b, r, include_matches(b)),
    ensures
        include_entries_ok(b, r),
{
    let m = include_matches(b);
    lemma_matches_shape(b, 0);
    assert forall|i: int| 0 <= i < r.len() implies {
        let (start, end, full, name) = #[trigger] include_entry_view(r[i]);
        &&& sliceable(b, start, end)
        &&& full == b.subrange(start, end)
        &&& exists|ns: int, ne: int| sliceable(b, ns, ne) && name == b.subrange(ns, ne)
    } by {
        let (s, e, ns, ne) = m[i];
        assert(token_shape(b, s, e, ns, ne));
        lemma_boundary_at_ascii(b, s);
        lemma_boundary_after_ascii(b, e - 1);
        lemma_boundary_after_ascii(b, ns - 1);
        lemma_boundary_at_ascii(b, ne);
        assert(sliceable(b, ns, ne));
    }
    assert forall|i: int| 0 <= i < r.len() - 1 implies (#[trigger] r[i]).0.end <= r[i + 1].0.start by {
        assert(include_entry_view(r[i]).1 == m[i].1);
        assert(include_entry_view(r[i + 1]).0 == m[i + 1].0);
    }
}

/// The include pattern, as a regular expression.
pub const INCLUDE_REPLACE_TOKEN_REGEX: &'static str = "<% *include!\\s*\\(\\s*\"([^\"]+)\"\\s*\\)\\s*;\\s*%>";

/// The include pattern, compiled by the regular-expression engine.
pub fn get_include_regex() -> (r: CompiledRegex)
    ensures
        r.pattern() == INCLUDE_REPLACE_TOKEN_REGEX@,
{
    compile_regex(INCLUDE_REPLACE_TOKEN_REGEX).unwrap()
}

/// The matches of a list of regex matches whose first group took part, as
/// `(start, end, group_start, group_end)`, in order.
pub open spec fn group_matches(s: Seq<(int, int, Option<(int, int)>)>) -> Seq<(int, int, int, int)>
    decreases s.len(),
{
    if s.len() == 0 {
        seq![]
    } else {
        let rest = group_matches(s.drop_last());
        match s.last().2 {
            Some((gs, ge)) => rest.push((s.last().0, s.last().1, gs, ge)),
            None => rest,
        }
    }
}

/// `r` lists the include tokens of the text `text` (whose UTF-8 bytes are
/// `b`): the matches of the include pattern whose group took part, in
/// order.
pub open spec fn lists_include_tokens(b: Seq<u8>, text: Seq<char>, r: Seq<(Range<usize>, String, String)>) -> bool {
    lists_matches(b, r, group_matches(regex_captures(INCLUDE_REPLACE_TOKEN_REGEX@, text)))
}

/// Every `<% include!("..."); %>` token of `contents` as
/// `(byte_range, full_match, file_name)`, in source order
/// (`extract_include_ranges_with` the compiled include pattern): the matches
/// of the include pattern whose group took part.
pub fn extract_include_ranges(contents: &str) -> (r: Vec<(Range<usize>, String, String)>)
    ensures
        include_entries_ok(contents.spec_bytes(), r@),
        lists_include_tokens(contents.spec_bytes(), contents@, r@),
{
    let re = Some(get_include_regex());
    extract_include_ranges_with(&re, contents)
}

/// Every include token of `contents` as `(byte_range, full_match,
/// file_name)`, in source order, found by the compiled include pattern `re`;
/// without one (working without the engine), by the manual parser
/// (`extract_includes_manual_ranges`), and then exactly its result.
pub fn extract_include_ranges_with(re: &Option<CompiledRegex>, contents: &str) -> (r: Vec<(Range<usize>, String, String)>)
    ensures
        include_entries_ok(contents.spec_bytes(), r@),
        re is None ==> lists_matches(
            contents.spec_bytes(),
            r@,
            include_matches(contents.spec_bytes()),
        ),
        re matches Some(c) ==> lists_matches(
            contents.spec_bytes(),
            r@,
            group_matches(regex_captures(c.pattern(), contents@)),
        ),
{
    let ghost bs = contents.spec_bytes();
    proof {
        encode_utf8_valid_utf8(contents@);
    }
    match re {
        None => {
            let r = extract_includes_manual_ranges(contents);
            proof {
                lemma_matches_entries_ok(bs, r@);
            }
            r
        },
        Some(compiled) => {
            let spans = capture_spans(compiled, contents);
            include_entries_from_spans(contents, &spans)
        },
    }
}

/// What the engine reports of the matches it lists in the text `b`: each
/// match and each group that took part can be sliced out of `b`, and the
/// matches come in order without overlapping.
pub open spec fn spans_fit(b: Seq<u8>, spans: Seq<CaptureSpan>) -> bool {
    &&& forall|j: int| 0 <= j < spans.len() ==> sliceable(b, (#[trigger] spans[j]).start as int, spans[j].end as int)
    &&& forall|j: int|
        0 <= j < spans.len() ==> ((#[trigger] spans[j]).group matches Some((gs, ge)) ==> sliceable(
            b,
            gs as int,
            ge as int,
        ))
    &&& forall|j: int| 0 <= j < spans.len() - 1 ==> (#[trigger] spans[j]).end <= spans[j + 1].start
}

/// The include entries of the regex matches `spans` of `contents`: one
/// `(byte_range, full_match, file_name)` for each match whose group took
/// part, in order, exactly the matches of `group_matches`.
pub fn include_entries_from_spans(contents: &str, spans: &Vec<CaptureSpan>) -> (r: Vec<(Range<usize>, String, String)>)
    requires
        spans_fit(contents.spec_bytes(), spans@),
    ensures
        include_entries_ok(contents.spec_bytes(), r@),
        lists_matches(contents.spec_bytes(), r@, group_matches(span_views(spans@))),
{
    let ghost bs = contents.spec_bytes();
    let ghost sv = span_views(spans@);
    let mut out: Vec<(Range<usize>, String, String)> = Vec::new();
    let mut i: usize = 0;
    proof {
        assert(sv.take(0) =~= Seq::<(int, int, Option<(int, int)>)>::empty());
        assert(group_matches(sv.take(0)) =~= Seq::<(int, int, int, int)>::empty());
    }
    while i < spans.len()
        invariant
            bs == contents.spec_bytes(),
            sv == span_views(spans@),
            sv.len() == spans@.len(),
            lists_matches(bs, out@, group_matches(sv.take(i as int))),
            i <= spans@.len(),
            include_entries_ok(bs, out@),
            forall|j: int| 0 <= j < spans@.len() ==> sliceable(bs, (#[trigger] spans@[j]).start as int, spans@[j].end as int),
            forall|j: int|
                0 <= j < spans@.len() ==> ((#[trigger] spans@[j]).group matches Some((gs, ge)) ==> sliceable(
                    bs,
                    gs as int,
                    ge as int,
                )),
            forall|j: int| 0 <= j < spans@.len() - 1 ==> (#[trigger] spans@[j]).end <= spans@[j + 1].start,
            out@.len() > 0 ==> exists|j: int| 0 <= j < i && out@.last().0.end == (#[trigger] spans@[j]).end,
        decreases spans@.len() - i,
    {
        let span = &spans[i];
        proof {
            assert(sv.take(i + 1).drop_last() =~= sv.take(i as int));
            assert(sv.take(i + 1).last() == sv[i as int]);
            assert(sv[i as int] == span_view(spans@[i as int]));
        }
        match span.group {
            Some((gs, ge)) => {
                let full = substring(contents, span.start, span.end);
                let name = substring(contents, gs, ge);
                let ghost prev = out@;
                proof {
                    if prev.len() > 0 {
                        let j = choose|j: int| 0 <= j < i && prev.last().0.end == (#[trigger] spans@[j]).end;
                        lemma_spans_ordered(spans@, j, i as int);
                    }
                }
                proof {
                    let gm = group_matches(sv.take(i + 1));
                    assert(gm == group_matches(sv.take(i as int)).push(
                        (span.start as int, span.end as int, gs as int, ge as int),
                    ));
                    assert(gm.take(prev.len() as int) =~= group_matches(sv.take(i as int)));
                    lemma_lists_matches_push(bs, prev, gm, (span.start..span.end, full, name));
                    assert(gm.take(prev.len() as int + 1) =~= gm);
                }
                out.push((span.start..span.end, full, name));
                proof {
                    assert forall|k: int| 0 <= k < out@.len() implies {
                        let (start, end, full, name) = #[trigger] include_entry_view(out@[k]);
                        &&& sliceable(bs, start, end)
                        &&& full == bs.subrange(start, end)
                        &&& exists|ns: int, ne: int| sliceable(bs, ns, ne) && name == bs.subrange(ns, ne)
                    } by {
                        if k < prev.len() {
                            assert(out@[k] == prev[k]);
                        } else {
                            assert(sliceable(bs, gs as int, ge as int));
                        }
                    }
                    assert forall|k: int| 0 <= k < out@.len() - 1 implies (#[trigger] out@[k]).0.end <= out@[k + 1].0.start by {
                        assert(out@[k] == prev[k]);
                        if k + 1 < prev.len() {
                            assert(out@[k + 1] == prev[k + 1]);
                        }
                    }
                    assert(out@.last().0.end == spans@[i as int].end);
                }
            },
            None => {},
        }
        i = i + 1;
    }
    proof {
        assert(sv.take(spans@.len() as int) =~= sv);
    }
    out
}

/// Matches listed by the engine are ordered: an earlier one ends no later
/// than a later one starts.
proof fn lemma_spans_ordered(spans: Seq<CaptureSpan>, j: int, i: int)
    requires
        0 <= j < i < spans.len(),
        forall|k: int| 0 <= k < spans.len() ==> (#[trigger] spans[k]).start <= spans[k].end,
        forall|k: int| 0 <= k < spans.len() - 1 ==> (#[trigger] spans[k]).end <= spans[k + 1].start,
    ensures
        spans[j].end <= spans[i].start,
    decreases i - j,
{
    if j + 1 < i {
        lemma_spans_ordered(spans, j + 1, i);
    }
}

/// The `(full_match, file_name)` pairs of a list of found includes, as
/// character sequences.
pub open spec fn entry_spans(r: Seq<(Range<usize>, String, String)>) -> Seq<(Seq<char>, Seq<char>)> {
    r.map_values(|x: (Range<usize>, String, String)| (x.1@, x.2@))
}

/// The file names of a list of found includes, as character sequences.
pub open spec fn entry_names(r: Seq<(Range<usize>, String, String)>) -> Seq<Seq<char>> {
    r.map_values(|x: (Range<usize>, String, String)| x.2@)
}

/// Views of a vector of strings.
pub open spec fn string_views(v: Seq<String>) -> Seq<Seq<char>> {
    v.map_values(|s: String| s@)
}

/// Views of a vector of string pairs.
pub open spec fn pair_views(v: Seq<(String, String)>) -> Seq<(Seq<char>, Seq<char>)> {
    v.map_values(|p: (String, String)| (p.0@, p.1@))
}

/// The `(full_match, file_name)` pairs of `entries`, in order.
pub fn include_spans_of(entries: &Vec<(Range<usize>, String, String)>) -> (r: Vec<(String, String)>)
    ensures
        pair_views(r@) == entry_spans(entries@),
{
    let mut out: Vec<(String, String)> = Vec::new();
    for i in 0..entries.len()
        invariant
            out@.len() == i,
            forall|j: int|
                0 <= j < i ==> (#[trigger] out@[j]).0@ == entries@[j].1@ && out@[j].1@
                    == entries@[j].2@,
    {
        out.push((entries[i].1.clone(), entries[i].2.clone()));
    }
    assert(pair_views(out@) =~= entry_spans(entries@));
    out
}

/// The file names of `entries`, in order.
pub fn include_names_of(entries: &Vec<(Range<usize>, String, String)>) -> (r: Vec<String>)
    ensures
        string_views(r@) == entry_names(entries@),
{
    let mut out: Vec<String> = Vec::new();
    for i in 0..entries.len()
        invariant
            out@.len() == i,
            forall|j: int| 0 <= j < i ==> (#[trigger] out@[j])@ == entries@[j].2@,
    {
        out.push(entries[i].2.clone());
    }
    assert(string_views(out@) =~= entry_names(entries@));
    out
}

/// The file names referenced by `<% include!("..."); %>` tokens of
/// `contents`, in source order: those of `extract_include_ranges`.
pub fn extract_includes(contents: &str) -> (r: Vec<String>)
    ensures
        exists|entries: Seq<(Range<usize>, String, String)>|
            #![trigger entry_names(entries)]
            include_entries_ok(contents.spec_bytes(), entries) && lists_include_tokens(
                contents.spec_bytes(),
                contents@,
                entries,
            ) && string_views(r@) == entry_names(entries),
{
    let entries = extract_include_ranges(contents);
    let r = include_names_of(&entries);
    assert(include_entries_ok(contents.spec_bytes(), entries@) && lists_include_tokens(
        contents.spec_bytes(),
        contents@,
        entries@,
    ) && string_views(r@) == entry_names(entries@));
    r
}

/// Every include token of `contents` as `(full_match, file_name)`, in
/// source order: those of `extract_include_ranges`.
pub fn extract_includes_spans(contents: &str) -> (r: Vec<(String, String)>)
    ensures
        exists|entries: Seq<(Range<usize>, String, String)>|
            #![trigger entry_spans(entries)]
            include_entries_ok(contents.spec_bytes(), entries) && lists_include_tokens(
                contents.spec_bytes(),
                contents@,
                entries,
            ) && pair_views(r@) == entry_spans(entries),
{
    let entries = extract_include_ranges(contents);
    let r = include_spans_of(&entries);
    assert(include_entries_ok(contents.spec_bytes(), entries@) && lists_include_tokens(
        contents.spec_bytes(),
        contents@,
        entries@,
    ) && pair_views(r@) == entry_spans(entries@));
    r
}

/// Every include token of `contents` as `(full_match, file_name)`, found by
/// the manual parser: exactly the tokens of `include_matches`, each with
/// its text and its file name.
pub fn extract_includes_manual(contents: &str) -> (r: Vec<(String, String)>)
    ensures
        ({
            let b = contents.spec_bytes();
            let m = include_matches(b);
            &&& r@.len() == m.len()
            &&& forall|i: int|
                0 <= i < m.len() ==> encode_utf8((#[trigger] r@[i]).0@) == b.subrange(m[i].0, m[i].1)
                    && encode_utf8(r@[i].1@) == b.subrange(m[i].2, m[i].3)
        }),
{
    let entries = extract_includes_manual_ranges(contents);
    let r = include_spans_of(&entries);
    proof {
        let b = contents.spec_bytes();
        let m = include_matches(b);
        assert(pair_views(r@).len() == r@.len());
        assert(entry_spans(entries@).len() == entries@.len());
        assert forall|i: int|
            0 <= i < m.len() implies encode_utf8((#[trigger] r@[i]).0@) == b.subrange(m[i].0, m[i].1)
                && encode_utf8(r@[i].1@) == b.subrange(m[i].2, m[i].3) by {
            assert(pair_views(r@)[i] == entry_spans(entries@)[i]);
            assert(pair_views(r@)[i] == (r@[i].0@, r@[i].1@));
            assert(entry_spans(entries@)[i] == (entries@[i].1@, entries@[i].2@));
            assert(include_entry_view(entries@[i]) == (
                m[i].0,
                m[i].1,
                b.subrange(m[i].0, m[i].1),
                b.subrange(m[i].2, m[i].3),
            ));
        }
    }
    r
}

} // verus!
