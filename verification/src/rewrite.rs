//! Rewriting the include tokens of a template to point at new paths.

use vstd::prelude::*;
use vstd::utf8::*;
use vstd::string::StringSliceAdditionalSpecFns;
use vstd::string::StringExecFns;
use core::ops::Range;
use crate::engine::sliceable;
use crate::includes::{
    include_entries_ok, include_entry_view, include_token_at, include_matches,
    include_matches_from,
};
use crate::splice::{
    RepView, rep_views, sort_by_start, starts_sorted, ordered_within, spliced,
    splice_include_replacements, lemma_sort_by_start_sorted_input, lemma_splice_same_text,
    rep_shift, rep_delta, end_before, lands_at, lemma_splice_positions,
};
use crate::text::{lemma_encode_utf8_concat, skip_ws, skip_spaces, ws_len, find_byte_from, bytes_at};

verus! {

broadcast use vstd::utf8::group_utf8_lib;

/// The text of an include token for `path`: `<% include!("path"); %>`.
pub open spec fn include_token_text(path: Seq<char>) -> Seq<char> {
    "<% include!(\""@ + path + "\"); %>"@
}

/// The include token that refers to `path`: `<% include!("path"); %>`.
pub fn include_token_for(path: &str) -> (r: String)
    ensures
        r@ == include_token_text(path@),
{
    let mut r = String::new();
    r.append("<% include!(\"");
    r.append(path);
    r.append("\"); %>");
    assert(r@ =~= include_token_text(path@));
    r
}

proof fn lemma_high_bit(a: u8, y: u8)
    requires
        a >= 0x80,
    ensures
        (a | y) >= 0x80,
{
    assert(a >= 0x80 ==> (a | y) >= 0x80) by (bit_vector);
}

/// The UTF-8 encoding of a character other than `"` holds no `"` byte.
proof fn lemma_encode_scalar_no_quote(c: char)
    requires
        c != '"',
    ensures
        forall|k: int| 0 <= k < encode_scalar(c as u32).len() ==> #[trigger] encode_scalar(c as u32)[k] != 0x22,
{
    let s = c as u32;
    if has_width_1_encoding(s) {
        assert(s <= 0x7F ==> (s & 0x7F) as u8 == s) by (bit_vector);
        assert(s != 0x22);
    } else if has_width_2_encoding(s) {
        lemma_high_bit(0xC0, ((s >> 6) & 0x1F) as u8);
        lemma_high_bit(0x80, (s & 0x3F) as u8);
    } else if has_width_3_encoding(s) {
        lemma_high_bit(0xE0, ((s >> 12) & 0x0F) as u8);
        lemma_high_bit(0x80, ((s >> 6) & 0x3F) as u8);
        lemma_high_bit(0x80, (s & 0x3F) as u8);
    } else {
        lemma_high_bit(0xF0, ((s >> 18) & 0x7) as u8);
        lemma_high_bit(0x80, ((s >> 12) & 0x3F) as u8);
        lemma_high_bit(0x80, ((s >> 6) & 0x3F) as u8);
        lemma_high_bit(0x80, (s & 0x3F) as u8);
    }
}

/// The UTF-8 encoding of characters without `"` holds no `"` byte.
proof fn lemma_encode_no_quote(p: Seq<char>)
    requires
        !p.contains('"'),
    ensures
        forall|k: int| 0 <= k < encode_utf8(p).len() ==> encode_utf8(p)[k] != 0x22,
    decreases p.len(),
{
    if p.len() > 0 {
        assert(p[0] != '"');
        lemma_encode_scalar_no_quote(p[0]);
        assert(!p.drop_first().contains('"')) by {
            if p.drop_first().contains('"') {
                let k = choose|k: int| 0 <= k < p.drop_first().len() && p.drop_first()[k] == '"';
                assert(p[k + 1] == '"');
            }
        }
        lemma_encode_no_quote(p.drop_first());
        let e0 = encode_scalar(p[0] as u32);
        let rest = encode_utf8(p.drop_first());
        assert forall|k: int| 0 <= k < encode_utf8(p).len() implies encode_utf8(p)[k] != 0x22 by {
            if k < e0.len() {
                assert(encode_utf8(p)[k] == e0[k]);
            } else {
                assert(encode_utf8(p)[k] == rest[k - e0.len()]);
            }
        }
    }
}

/// The bytes of the include token for the path bytes `p`.
pub open spec fn include_token_bytes(p: Seq<u8>) -> Seq<u8> {
    seq![0x3cu8, 0x25, 0x20, 0x69, 0x6e, 0x63, 0x6c, 0x75, 0x64, 0x65, 0x21, 0x28, 0x22] + p
        + seq![0x22u8, 0x29, 0x3b, 0x20, 0x25, 0x3e]
}

/// The UTF-8 bytes of an include token are the prefix, the path's bytes and
/// the suffix.
proof fn lemma_include_token_encoding(path: Seq<char>)
    ensures
        encode_utf8(include_token_text(path)) == include_token_bytes(encode_utf8(path)),
{
    reveal_strlit("<% include!(\"");
    reveal_strlit("\"); %>");
    let pre = "<% include!(\""@;
    let suf = "\"); %>"@;
    is_ascii_chars_encode_utf8(pre);
    is_ascii_chars_encode_utf8(suf);
    lemma_encode_utf8_concat(pre, path);
    lemma_encode_utf8_concat(pre + path, suf);
    assert(encode_utf8(pre) =~= seq![0x3cu8, 0x25, 0x20, 0x69, 0x6e, 0x63, 0x6c, 0x75, 0x64, 0x65, 0x21, 0x28, 0x22]);
    assert(encode_utf8(suf) =~= seq![0x22u8, 0x29, 0x3b, 0x20, 0x25, 0x3e]);
}

/// An include token written for a non-empty path without `"` is found again
/// by the include grammar, alone in its text, with exactly that path as its
/// file name: writing a token and reading it back agree.
#[verifier::spinoff_prover]
#[verifier::rlimit(40)]
pub proof fn lemma_include_token_roundtrip(path: Seq<char>)
    requires
        path.len() > 0,
        !path.contains('"'),
    ensures
        ({
            let b = encode_utf8(include_token_text(path));
            let n = encode_utf8(path).len() as int;
            &&& include_matches(b) == seq![(0int, b.len() as int, 13int, 13 + n)]
            &&& b.subrange(13, 13 + n) == encode_utf8(path)
        }),
{
    let p = encode_utf8(path);
    let n = p.len() as int;
    lemma_include_token_encoding(path);
    lemma_encode_no_quote(path);
    let b = include_token_bytes(p);
    assert(p.len() > 0) by {
        assert(encode_scalar(path[0] as u32).len() > 0);
    }
    assert(b.len() == n + 19);
    assert(b[0] == 0x3c && b[1] == 0x25 && b[2] == 0x20 && b[11] == 0x28 && b[12] == 0x22);
    assert(b[13 + n] == 0x22 && b[14 + n] == 0x29 && b[15 + n] == 0x3b && b[16 + n] == 0x20
        && b[17 + n] == 0x25 && b[18 + n] == 0x3e);
    assert(forall|k: int| 13 <= k < 13 + n ==> b[k] == p[k - 13]);
    assert(b.subrange(0, 2) =~= seq![0x3cu8, 0x25]);
    assert(skip_spaces(b, 3) == 3);
    assert(skip_spaces(b, 2) == 3);
    assert(b.subrange(3, 11) =~= seq![0x69u8, 0x6e, 0x63, 0x6c, 0x75, 0x64, 0x65, 0x21]);
    assert(ws_len(b, 11) == 0);
    assert(skip_ws(b, 11) == 11);
    assert(ws_len(b, 12) == 0);
    assert(skip_ws(b, 12) == 12);
    assert(b[13 + n] == 0x22);
    assert(find_byte_from(b, 13 + n, 0x22) == Some(13 + n));
    lemma_find_quote_skips_path(b, p, 13);
    assert(find_byte_from(b, 13, 0x22) == Some(13 + n));
    assert(ws_len(b, 14 + n) == 0);
    assert(skip_ws(b, 14 + n) == 14 + n);
    assert(ws_len(b, 15 + n) == 0);
    assert(skip_ws(b, 15 + n) == 15 + n);
    assert(ws_len(b, 16 + n) == 1);
    assert(ws_len(b, 17 + n) == 0);
    assert(skip_ws(b, 17 + n) == 17 + n);
    assert(skip_ws(b, 16 + n) == 17 + n);
    assert(b.subrange(17 + n, 19 + n) =~= seq![0x25u8, 0x3e]);
    assert(include_token_at(b, 0) == Some((19 + n, 13int, 13 + n)));
    assert(include_matches_from(b, 19 + n) =~= Seq::<(int, int, int, int)>::empty());
    assert(include_matches(b) =~= seq![(0int, b.len() as int, 13int, 13 + n)]);
    assert(b.subrange(13, 13 + n) =~= p);
}

/// Searching for `"` from the start of a path without `"` bytes finds the
/// byte just after it.
proof fn lemma_find_quote_skips_path(b: Seq<u8>, p: Seq<u8>, i: int)
    requires
        13 <= i <= 13 + p.len(),
        b.len() > 13 + p.len(),
        b[13 + p.len() as int] == 0x22,
        forall|k: int| 13 <= k < 13 + p.len() ==> b[k] == p[k - 13],
        forall|k: int| 0 <= k < p.len() ==> p[k] != 0x22,
    ensures
        find_byte_from(b, i, 0x22) == Some(13 + p.len() as int),
    decreases 13 + p.len() - i,
{
    if i < 13 + p.len() {
        assert(b[i] == p[i - 13]);
        lemma_find_quote_skips_path(b, p, i + 1);
    }
}

/// The replacement views that rewrite include `i` of `includes` into the
/// token for `paths[i]`.
pub open spec fn rewrite_views(
    includes: Seq<(Range<usize>, String, String)>,
    paths: Seq<String>,
) -> Seq<RepView> {
    Seq::new(
        includes.len(),
        |i: int| (includes[i].0.start as int, includes[i].0.end as int, include_token_text(paths[i]@)),
    )
}

/// Entries that satisfy `include_entries_ok` can be spliced as they come.
proof fn lemma_entries_ordered(b: Seq<u8>, includes: Seq<(Range<usize>, String, String)>, s: Seq<RepView>)
    requires
        include_entries_ok(b, includes),
        s.len() == includes.len(),
        forall|i: int| 0 <= i < s.len() ==> (#[trigger] s[i]).0 == includes[i].0.start && s[i].1 == includes[i].0.end,
    ensures
        starts_sorted(s),
        ordered_within(b, s),
{
    assert forall|k: int| 0 <= k < s.len() implies sliceable(b, (#[trigger] s[k]).0, s[k].1) by {
        assert(include_entry_view(includes[k]).0 == s[k].0);
    }
    assert forall|k: int| 0 <= k < s.len() - 1 implies (#[trigger] s[k]).1 <= s[k + 1].0 by {
        assert(includes[k].0.end <= includes[k + 1].0.start);
    }
    assert forall|i: int, j: int| 0 <= i < j < s.len() implies s[i].0 <= s[j].0 by {
        lemma_ordered_chain(b, s, i, j);
    }
}

proof fn lemma_ordered_chain(b: Seq<u8>, s: Seq<RepView>, i: int, j: int)
    requires
        0 <= i < j < s.len(),
        forall|k: int| 0 <= k < s.len() ==> sliceable(b, (#[trigger] s[k]).0, s[k].1),
        forall|k: int| 0 <= k < s.len() - 1 ==> (#[trigger] s[k]).1 <= s[k + 1].0,
    ensures
        s[i].0 <= s[j].0,
        s[i].1 <= s[j].0,
    decreases j - i,
{
    assert(sliceable(b, s[i].0, s[i].1));
    if i + 1 < j {
        lemma_ordered_chain(b, s, i + 1, j);
        assert(sliceable(b, s[i + 1].0, s[i + 1].1));
    }
}

/// How many bytes longer the text before include `i` becomes once each
/// include before it is rewritten into the token for its new path.
pub open spec fn rewrite_shift(
    includes: Seq<(Range<usize>, String, String)>,
    paths: Seq<String>,
    i: int,
) -> int
    decreases i,
{
    if i <= 0 {
        0
    } else {
        rewrite_shift(includes, paths, i - 1) + encode_utf8(include_token_text(paths[i - 1]@)).len() - (
        includes[i - 1].0.end - includes[i - 1].0.start)
    }
}

/// Where the include before include `i` ends (0 for the first).
pub open spec fn include_end_before(includes: Seq<(Range<usize>, String, String)>, i: int) -> int {
    if i <= 0 {
        0
    } else {
        includes[i - 1].0.end as int
    }
}

/// In the rewritten text `r` of `b`, include `i` has become the include
/// token for `paths[i]`, standing at the include's start moved by the
/// rewrites before it, right after the bytes of `b` between the include
/// before it and this one.
pub open spec fn rewritten_at(
    r: Seq<u8>,
    b: Seq<u8>,
    includes: Seq<(Range<usize>, String, String)>,
    paths: Seq<String>,
    i: int,
) -> bool {
    let off = includes[i].0.start + rewrite_shift(includes, paths, i);
    let token = encode_utf8(include_token_text(paths[i]@));
    &&& r.subrange(off, off + token.len()) == token
    &&& r.subrange(include_end_before(includes, i) + rewrite_shift(includes, paths, i), off) == b.subrange(
        include_end_before(includes, i),
        includes[i].0.start as int,
    )
}

/// The shifts of the rewrite are those of splicing its replacements.
proof fn lemma_rewrite_shift(includes: Seq<(Range<usize>, String, String)>, paths: Seq<String>, i: int)
    requires
        0 <= i <= includes.len(),
        includes.len() == paths.len(),
    ensures
        rewrite_shift(includes, paths, i) == rep_shift(rewrite_views(includes, paths), i),
    decreases i,
{
    if i > 0 {
        lemma_rewrite_shift(includes, paths, i - 1);
        assert(rewrite_views(includes, paths)[i - 1] == (
            includes[i - 1].0.start as int,
            includes[i - 1].0.end as int,
            include_token_text(paths[i - 1]@),
        ));
    }
}

/// `contents` with include `i` of `includes` replaced by the include token
/// for `new_paths[i]`, every other byte kept: each include `i` becomes the
/// token for `new_paths[i]` in place (`rewritten_at`), whatever the other
/// includes name, and the text after the last include is kept.
pub fn rewrite_include_tokens(
    contents: &str,
    includes: &Vec<(Range<usize>, String, String)>,
    new_paths: &Vec<String>,
) -> (r: String)
    requires
        includes@.len() == new_paths@.len(),
        include_entries_ok(contents.spec_bytes(), includes@),
    ensures
        encode_utf8(r@) == spliced(contents.spec_bytes(), rewrite_views(includes@, new_paths@)),
        forall|i: int|
            0 <= i < includes@.len() ==> #[trigger] rewritten_at(
                encode_utf8(r@),
                contents.spec_bytes(),
                includes@,
                new_paths@,
                i,
            ),
        encode_utf8(r@).len() == contents.spec_bytes().len() + rewrite_shift(
            includes@,
            new_paths@,
            includes@.len() as int,
        ),
        encode_utf8(r@).subrange(
            include_end_before(includes@, includes@.len() as int) + rewrite_shift(
                includes@,
                new_paths@,
                includes@.len() as int,
            ),
            encode_utf8(r@).len() as int,
        ) == contents.spec_bytes().subrange(
            include_end_before(includes@, includes@.len() as int),
            contents.spec_bytes().len() as int,
        ),
{
    let ghost target = rewrite_views(includes@, new_paths@);
    let mut replacements: Vec<(Range<usize>, String)> = Vec::new();
    for i in 0..includes.len()
        invariant
            includes@.len() == new_paths@.len(),
            target == rewrite_views(includes@, new_paths@),
            replacements@.len() == i,
            forall|j: int| 0 <= j < i ==> rep_views(replacements@)[j] == #[trigger] target[j],
    {
        let token = include_token_for(new_paths[i].as_str());
        let range = includes[i].0.start..includes[i].0.end;
        replacements.push((range, token));
        proof {
            assert forall|j: int| 0 <= j < i + 1 implies rep_views(replacements@)[j] == #[trigger] target[j] by {
                if j < i {
                    assert(replacements@[j] == replacements@.drop_last()[j]);
                }
            }
        }
    }
    proof {
        assert(rep_views(replacements@) =~= target);
        lemma_entries_ordered(contents.spec_bytes(), includes@, target);
        lemma_sort_by_start_sorted_input(target);
    }
    let r = splice_include_replacements(contents, replacements);
    proof {
        let b = contents.spec_bytes();
        let n = includes@.len() as int;
        if n > 0 {
            assert(sliceable(b, target[0].0, target[0].1));
        }
        lemma_splice_positions(b, target, 0);
        lemma_rewrite_shift(includes@, new_paths@, n);
        assert forall|i: int| 0 <= i < n implies #[trigger] rewritten_at(
            encode_utf8(r@),
            b,
            includes@,
            new_paths@,
            i,
        ) by {
            assert(lands_at(spliced(b, target), b, target, 0, i));
            lemma_rewrite_shift(includes@, new_paths@, i);
            assert(target[i] == (
                includes@[i].0.start as int,
                includes@[i].0.end as int,
                include_token_text(new_paths@[i]@),
            ));
            if i > 0 {
                assert(target[i - 1].1 == includes@[i - 1].0.end);
            }
        }
        if n > 0 {
            assert(target[n - 1].1 == includes@[n - 1].0.end);
        }
    }
    r
}

/// The replacements that put each found include back as the text it
/// already is.
pub open spec fn self_replacements(includes: Seq<(Range<usize>, String, String)>) -> Seq<RepView> {
    Seq::new(
        includes.len(),
        |i: int| (includes[i].0.start as int, includes[i].0.end as int, includes[i].1@),
    )
}

/// The ranges that `extract_include_ranges` reports cover exactly their
/// tokens: splicing each token back in over its own range, as
/// `splice_include_replacements` does, gives the template back unchanged.
pub proof fn lemma_splice_found_includes_identity(
    b: Seq<u8>,
    includes: Seq<(Range<usize>, String, String)>,
)
    requires
        include_entries_ok(b, includes),
    ensures
        ordered_within(b, sort_by_start(self_replacements(includes))),
        spliced(b, sort_by_start(self_replacements(includes))) == b,
{
    let s = self_replacements(includes);
    lemma_entries_ordered(b, includes, s);
    lemma_sort_by_start_sorted_input(s);
    assert forall|k: int| 0 <= k < s.len() implies encode_utf8((#[trigger] s[k]).2) == b.subrange(s[k].0, s[k].1) by {
        assert(include_entry_view(includes[k]).2 == encode_utf8(includes[k].1@));
    }
    lemma_splice_same_text(b, s);
}

} // verus!
