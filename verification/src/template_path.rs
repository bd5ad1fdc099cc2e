//! Reading the path out of a `#[template(path = "...")]` attribute.

use vstd::prelude::*;
use vstd::utf8::*;
use vstd::string::StringSliceAdditionalSpecFns;
use crate::engine::{
    CaptureSpan, CompiledRegex, sliceable, compile_regex, capture_spans, regex_captures, span_view, span_views,
};
use crate::text::{
    ws_len, skip_ws, byte_at, find_from, find_byte_from, bytes_at, lemma_skip_ws_bounds,
    lemma_find_byte_from, lemma_boundary_at_ascii, lemma_boundary_after_ascii, exec_skip_ws,
    exec_find_byte, exec_find, str_bytes, substring,
};

verus! {

broadcast use vstd::utf8::group_utf8_lib;

/// The bytes of `path`.
pub open spec fn path_word() -> Seq<u8> {
    seq![0x70u8, 0x61u8, 0x74u8, 0x68u8]
}

/// The template path that a match of `path\s*=\s*"([^"]+)"` starting at
/// byte `p` of `b` captures, as a byte range: `path`, whitespace, `=`,
/// whitespace, `"`, then a non-empty run of bytes other than `"` up to the
/// next `"`.
pub open spec fn template_path_at(b: Seq<u8>, p: int) -> Option<(int, int)> {
    if !bytes_at(b, p, path_word()) {
        None
    } else {
        let i = skip_ws(b, p + 4);
        if !byte_at(b, i, 0x3d) {
            None
        } else {
            let j = skip_ws(b, i + 1);
            if !byte_at(b, j, 0x22) {
                None
            } else {
                match find_byte_from(b, j + 1, 0x22) {
                    None => None,
                    Some(k) => if k > j + 1 {
                        Some((j + 1, k))
                    } else {
                        None
                    },
                }
            }
        }
    }
}

/// The capture of the leftmost match of `path\s*=\s*"([^"]+)"` that starts
/// at or after byte `p` of `b`.
pub open spec fn template_path_from(b: Seq<u8>, p: int) -> Option<(int, int)>
    decreases b.len() - p,
{
    if p < 0 || p >= b.len() {
        None
    } else {
        match template_path_at(b, p) {
            Some(span) => Some(span),
            None => template_path_from(b, p + 1),
        }
    }
}

/// Where the template path sits in the attribute text `b`, as a byte range:
/// the capture of the leftmost match of `path\s*=\s*"([^"]+)"`.
pub open spec fn template_path_span(b: Seq<u8>) -> Option<(int, int)> {
    template_path_from(b, 0)
}

proof fn lemma_find_from_bounds(b: Seq<u8>, i: int, pat: Seq<u8>)
    requires
        0 <= i,
    ensures
        find_from(b, i, pat) matches Some(m) ==> i <= m && bytes_at(b, m, pat),
    decreases b.len() - i,
{
    if i >= 0 && i + pat.len() <= b.len() && !bytes_at(b, i, pat) && i < b.len() {
        lemma_find_from_bounds(b, i + 1, pat);
    }
}

/// No match starts before the next `path`: the search may jump to it.
proof fn lemma_path_from_skip(b: Seq<u8>, pos: int)
    requires
        0 <= pos,
    ensures
        match find_from(b, pos, path_word()) {
            Some(m) => template_path_from(b, pos) == template_path_from(b, m),
            None => template_path_from(b, pos) is None,
        },
    decreases b.len() - pos,
{
    if pos < b.len() && !bytes_at(b, pos, path_word()) {
        lemma_path_from_skip(b, pos + 1);
    }
}

/// The capture range of a match of the template-path pattern at `p`.
fn template_path_at_exec(b: &[u8], p: usize) -> (r: Option<(usize, usize)>)
    requires
        bytes_at(b@, p as int, path_word()),
    ensures
        r is Some <==> template_path_at(b@, p as int) is Some,
        r matches Some((s, e)) ==> template_path_at(b@, p as int) == Some((s as int, e as int)),
        r matches Some((s, e)) ==> p < s < e < b@.len() && b@[s - 1] == 0x22 && b@[e as int] == 0x22,
{
    let ghost bs = b@;
    let len = b.len();
    assert(p + 4 <= len);
    proof {
        lemma_skip_ws_bounds(bs, p + 4);
    }
    let i = exec_skip_ws(b, p + 4);
    if !(i < len && b[i] == 0x3d) {
        return None;
    }
    proof {
        lemma_skip_ws_bounds(bs, i + 1);
    }
    let j = exec_skip_ws(b, i + 1);
    if !(j < len && b[j] == 0x22) {
        return None;
    }
    proof {
        lemma_find_byte_from(bs, j + 1, 0x22);
    }
    match exec_find_byte(b, j + 1, 0x22) {
        None => None,
        Some(k) => if k > j + 1 {
            Some((j + 1, k))
        } else {
            None
        },
    }
}

/// The template path in the attribute text `attrs`, found without a
/// regular-expression engine: the capture of the leftmost match of
/// `path\s*=\s*"([^"]+)"`, exactly the text of `template_path_span`.
pub fn extract_template_path_str_fallback(attrs: &str) -> (r: Option<String>)
    ensures
        r is Some <==> template_path_span(attrs.spec_bytes()) is Some,
        r matches Some(p) ==> ({
            let (s, e) = template_path_span(attrs.spec_bytes()).unwrap();
            encode_utf8(p@) == attrs.spec_bytes().subrange(s, e)
        }),
{
    let b = str_bytes(attrs);
    let ghost bs = attrs.spec_bytes();
    proof {
        encode_utf8_valid_utf8(attrs@);
    }
    let word: [u8; 4] = [0x70, 0x61, 0x74, 0x68];
    assert(word@ =~= path_word());
    let len = b.len();
    let mut pos: usize = 0;
    while pos < len
        invariant
            pos <= len,
            len == bs.len(),
            b@ == bs,
            bs == attrs.spec_bytes(),
            valid_utf8(bs),
            word@ == path_word(),
            template_path_from(bs, pos as int) == template_path_span(bs),
        decreases len - pos,
    {
        proof {
            lemma_path_from_skip(bs, pos as int);
            lemma_find_from_bounds(bs, pos as int, path_word());
        }
        let m = match exec_find(b, pos, &word) {
            None => return None,
            Some(m) => m,
        };
        match template_path_at_exec(b, m) {
            Some((s, e)) => {
                assert(template_path_from(bs, m as int) == template_path_at(bs, m as int));
                proof {
                    lemma_boundary_after_ascii(bs, s - 1);
                    lemma_boundary_at_ascii(bs, e as int);
                }
                return Some(substring(attrs, s, e));
            },
            None => {
                pos = m + 1;
            },
        }
    }
    None
}

/// The template-path pattern, as a regular expression: the value of `path`
/// inside a `#[template(...)]` attribute.
pub const TEMPLATE_PATH_REGEX: &'static str = "#\\[template\\([^)]*path\\s*=\\s*\"([^\"]+)\"[^)]*\\)\\]";

/// The template-path pattern, compiled by the regular-expression engine.
pub fn get_template_path_regex() -> (r: CompiledRegex)
    ensures
        r.pattern() == TEMPLATE_PATH_REGEX@,
{
    compile_regex(TEMPLATE_PATH_REGEX).unwrap()
}

/// The first capture group among regex matches that took part in a match.
pub open spec fn first_group(s: Seq<(int, int, Option<(int, int)>)>) -> Option<(int, int)>
    decreases s.len(),
{
    if s.len() == 0 {
        None
    } else {
        match s[0].2 {
            Some(g) => Some(g),
            None => first_group(s.drop_first()),
        }
    }
}

/// `r` is the text of the byte range `span` of `b`, or `None` with it.
pub open spec fn found_as(b: Seq<u8>, r: Option<String>, span: Option<(int, int)>) -> bool {
    match (r, span) {
        (None, None) => true,
        (Some(p), Some((s, e))) => encode_utf8(p@) == b.subrange(s, e),
        _ => false,
    }
}

/// The template path in the attribute text `attrs`
/// (`extract_template_path_str_with` the compiled template-path pattern):
/// the first capture of the template-path pattern.
pub fn extract_template_path_str(attrs: &str) -> (r: Option<String>)
    ensures
        r matches Some(p) ==> exists|s: int, e: int|
            sliceable(attrs.spec_bytes(), s, e) && encode_utf8(p@) == attrs.spec_bytes().subrange(s, e),
        found_as(attrs.spec_bytes(), r, first_group(regex_captures(TEMPLATE_PATH_REGEX@, attrs@))),
{
    let re = Some(get_template_path_regex());
    extract_template_path_str_with(&re, attrs)
}

/// The template path in the attribute text `attrs`: the first capture of
/// the compiled template-path pattern `re`; without one (working without
/// the engine), what the fallback parser finds, and then exactly its
/// result.
pub fn extract_template_path_str_with(re: &Option<CompiledRegex>, attrs: &str) -> (r: Option<String>)
    ensures
        re matches Some(c) ==> found_as(
            attrs.spec_bytes(),
            r,
            first_group(regex_captures(c.pattern(), attrs@)),
        ),
        r matches Some(p) ==> exists|s: int, e: int|
            sliceable(attrs.spec_bytes(), s, e) && encode_utf8(p@) == attrs.spec_bytes().subrange(s, e),
        re is None ==> (r is Some <==> template_path_span(attrs.spec_bytes()) is Some),
        re is None ==> (r matches Some(p) ==> ({
            let (s, e) = template_path_span(attrs.spec_bytes()).unwrap();
            encode_utf8(p@) == attrs.spec_bytes().subrange(s, e)
        })),
{
    let ghost bs = attrs.spec_bytes();
    proof {
        encode_utf8_valid_utf8(attrs@);
    }
    match re {
        None => {
            let r = extract_template_path_str_fallback(attrs);
            proof {
                if r is Some {
                    let (s, e) = template_path_span(bs).unwrap();
                    lemma_span_sliceable(bs, 0);
                    assert(sliceable(bs, s, e));
                }
            }
            r
        },
        Some(compiled) => {
            let spans = capture_spans(compiled, attrs);
            first_group_text(attrs, &spans)
        },
    }
}

/// The text of the first capture group among the regex matches `spans` of
/// `attrs` that took part in a match, or `None` when none did.
pub fn first_group_text(attrs: &str, spans: &Vec<CaptureSpan>) -> (r: Option<String>)
    requires
        forall|j: int|
            0 <= j < spans@.len() ==> ((#[trigger] spans@[j]).group matches Some((gs, ge)) ==> sliceable(
                attrs.spec_bytes(),
                gs as int,
                ge as int,
            )),
    ensures
        found_as(attrs.spec_bytes(), r, first_group(span_views(spans@))),
        r matches Some(p) ==> exists|s: int, e: int|
            sliceable(attrs.spec_bytes(), s, e) && encode_utf8(p@) == attrs.spec_bytes().subrange(s, e),
{
    let ghost bs = attrs.spec_bytes();
    let ghost sv = span_views(spans@);
    let ghost target = first_group(span_views(spans@));
    assert(sv.skip(0) =~= sv);
    let mut i: usize = 0;
    while i < spans.len()
        invariant
            i <= spans@.len(),
            bs == attrs.spec_bytes(),
            sv == span_views(spans@),
            sv.len() == spans@.len(),
            target == first_group(span_views(spans@)),
            first_group(sv.skip(i as int)) == target,
            forall|j: int|
                0 <= j < spans@.len() ==> ((#[trigger] spans@[j]).group matches Some((gs, ge)) ==> sliceable(
                    bs,
                    gs as int,
                    ge as int,
                )),
        decreases spans@.len() - i,
    {
        proof {
            assert(sv.skip(i as int)[0] == sv[i as int]);
            assert(sv[i as int] == span_view(spans@[i as int]));
            assert(sv.skip(i as int).drop_first() =~= sv.skip(i + 1));
        }
        match spans[i].group {
            Some((gs, ge)) => {
                assert(sliceable(bs, gs as int, ge as int));
                return Some(substring(attrs, gs, ge));
            },
            None => {},
        }
        i = i + 1;
    }
    proof {
        assert(sv.skip(spans@.len() as int) =~= Seq::<(int, int, Option<(int, int)>)>::empty());
    }
    None
}

/// The span that `template_path_from` finds can be sliced out of valid
/// UTF-8 text.
proof fn lemma_span_sliceable(b: Seq<u8>, p: int)
    requires
        valid_utf8(b),
        0 <= p,
        template_path_from(b, p) is Some,
    ensures
        ({
            let (s, e) = template_path_from(b, p).unwrap();
            sliceable(b, s, e)
        }),
    decreases b.len() - p,
{
    if template_path_at(b, p) is Some {
        let i = skip_ws(b, p + 4);
        lemma_skip_ws_bounds(b, p + 4);
        let j = skip_ws(b, i + 1);
        lemma_skip_ws_bounds(b, i + 1);
        lemma_find_byte_from(b, j + 1, 0x22);
        let k = find_byte_from(b, j + 1, 0x22).unwrap();
        lemma_boundary_after_ascii(b, j);
        lemma_boundary_at_ascii(b, k);
    } else {
        lemma_span_sliceable(b, p + 1);
    }
}

} // verus!
