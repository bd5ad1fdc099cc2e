//! Splicing replacements into a template in one forward pass.

use vstd::prelude::*;
use vstd::utf8::*;
use vstd::string::StringSliceAdditionalSpecFns;
use vstd::string::StringExecFns;
use core::ops::Range;
use vstd::multiset::Multiset;
use crate::engine::sliceable;
use crate::text::{slice_str, str_bytes, lemma_encode_utf8_concat};

verus! {

broadcast use vstd::utf8::group_utf8_lib;

/// A replacement as `(start, end, replacement text)`.
pub type RepView = (int, int, Seq<char>);

/// The view of one `(byte_range, replacement)` pair.
pub open spec fn rep_view(x: (Range<usize>, String)) -> RepView {
    (x.0.start as int, x.0.end as int, x.1@)
}

/// The views of a list of replacements.
pub open spec fn rep_views(s: Seq<(Range<usize>, String)>) -> Seq<RepView> {
    s.map_values(|x: (Range<usize>, String)| rep_view(x))
}

/// `x` inserted into `s` after every element whose start is not greater
/// than its own.
pub open spec fn insert_by_start(s: Seq<RepView>, x: RepView) -> Seq<RepView>
    decreases s.len(),
{
    if s.len() == 0 {
        seq![x]
    } else if x.0 < s[0].0 {
        seq![x] + s
    } else {
        seq![s[0]] + insert_by_start(s.drop_first(), x)
    }
}

/// The replacements ordered by start, equal starts keeping their order (a
/// stable sort by the range's start).
pub open spec fn sort_by_start(s: Seq<RepView>) -> Seq<RepView>
    decreases s.len(),
{
    if s.len() == 0 {
        s
    } else {
        insert_by_start(sort_by_start(s.drop_last()), s.last())
    }
}

/// Starts never decrease along `s`.
pub open spec fn starts_sorted(s: Seq<RepView>) -> bool {
    forall|i: int, j: int| 0 <= i < j < s.len() ==> s[i].0 <= s[j].0
}

/// Each range can be sliced out of `b`, and each ends no later than the next
/// one starts: what a forward splice needs.
pub open spec fn ordered_within(b: Seq<u8>, s: Seq<RepView>) -> bool {
    &&& forall|k: int| 0 <= k < s.len() ==> sliceable(b, (#[trigger] s[k]).0, s[k].1)
    &&& forall|k: int| 0 <= k < s.len() - 1 ==> (#[trigger] s[k]).1 <= s[k + 1].0
}

/// The text `b` from `cursor` on with each range of `s`, taken in order,
/// replaced by the UTF-8 bytes of its replacement.
pub open spec fn splice_from(b: Seq<u8>, s: Seq<RepView>, cursor: int) -> Seq<u8>
    decreases s.len(),
{
    if s.len() == 0 {
        b.subrange(cursor, b.len() as int)
    } else {
        b.subrange(cursor, s[0].0) + encode_utf8(s[0].2) + splice_from(b, s.drop_first(), s[0].1)
    }
}

/// The text `b` with each range of `s` replaced, taken in order.
pub open spec fn spliced(b: Seq<u8>, s: Seq<RepView>) -> Seq<u8> {
    splice_from(b, s, 0)
}

/// Inserting into `s` puts `x` at the first position whose start is greater
/// than its own.
proof fn lemma_insert_position(s: Seq<RepView>, x: RepView, p: int)
    requires
        0 <= p <= s.len(),
        forall|k: int| 0 <= k < p ==> (#[trigger] s[k]).0 <= x.0,
        p < s.len() ==> x.0 < s[p].0,
    ensures
        insert_by_start(s, x) == s.insert(p, x),
    decreases s.len(),
{
    if s.len() == 0 {
        assert(s.insert(p, x) =~= seq![x]);
    } else if p == 0 {
        assert(s.insert(0, x) =~= seq![x] + s);
    } else {
        lemma_insert_position(s.drop_first(), x, p - 1);
        assert(s.insert(p, x) =~= seq![s[0]] + s.drop_first().insert(p - 1, x));
    }
}

/// Inserting into a sorted sequence keeps it sorted.
proof fn lemma_insert_sorted(s: Seq<RepView>, x: RepView)
    requires
        starts_sorted(s),
    ensures
        starts_sorted(insert_by_start(s, x)),
        insert_by_start(s, x).len() == s.len() + 1,
        insert_by_start(s, x).to_multiset() == s.to_multiset().insert(x),
    decreases s.len(),
{
    broadcast use vstd::seq_lib::group_seq_properties, vstd::multiset::group_multiset_axioms;
    if s.len() == 0 {
        assert(seq![x].to_multiset() =~= s.to_multiset().insert(x)) by {
            assert(seq![x] =~= s.push(x));
        }
    } else if x.0 < s[0].0 {
        let r = seq![x] + s;
        assert forall|i: int, j: int| 0 <= i < j < r.len() implies r[i].0 <= r[j].0 by {
            if i > 0 {
                assert(r[i] == s[i - 1]);
            }
            assert(r[j] == s[j - 1]);
        }
        assert(r.to_multiset() =~= s.to_multiset().insert(x)) by {
            vstd::seq_lib::lemma_multiset_commutative(seq![x], s);
            assert(seq![x].to_multiset() =~= Multiset::empty().insert(x)) by {
                assert(seq![x] =~= Seq::<RepView>::empty().push(x));
            }
        }
    } else {
        let t = s.drop_first();
        assert(starts_sorted(t)) by {
            assert forall|i: int, j: int| 0 <= i < j < t.len() implies t[i].0 <= t[j].0 by {
                assert(t[i] == s[i + 1]);
                assert(t[j] == s[j + 1]);
            }
        }
        lemma_insert_sorted(t, x);
        let it = insert_by_start(t, x);
        let r = seq![s[0]] + it;
        assert forall|k: int| 0 <= k < it.len() implies s[0].0 <= (#[trigger] it[k]).0 by {
            assert(it.to_multiset().count(it[k]) > 0) by {
                vstd::seq_lib::lemma_seq_contains_after_push(it, it[k], it[k]);
                assert(it.contains(it[k]));
            }
            if it[k] != x {
                assert(t.to_multiset().count(it[k]) > 0);
                assert(t.contains(it[k]));
                let m = choose|m: int| 0 <= m < t.len() && t[m] == it[k];
                assert(t[m] == s[m + 1]);
            }
        }
        assert forall|i: int, j: int| 0 <= i < j < r.len() implies r[i].0 <= r[j].0 by {
            assert(r[j] == it[j - 1]);
            if i > 0 {
                assert(r[i] == it[i - 1]);
            }
        }
        assert(r.to_multiset() =~= s.to_multiset().insert(x)) by {
            vstd::seq_lib::lemma_multiset_commutative(seq![s[0]], it);
            vstd::seq_lib::lemma_multiset_commutative(seq![s[0]], t);
            assert(seq![s[0]] + t =~= s);
        }
    }
}

/// The stable sort by start is sorted and a permutation of its input.
pub proof fn lemma_sort_by_start_sorted(s: Seq<RepView>)
    ensures
        starts_sorted(sort_by_start(s)),
        sort_by_start(s).len() == s.len(),
        sort_by_start(s).to_multiset() == s.to_multiset(),
    decreases s.len(),
{
    broadcast use vstd::seq_lib::group_seq_properties, vstd::multiset::group_multiset_axioms;
    if s.len() > 0 {
        lemma_sort_by_start_sorted(s.drop_last());
        lemma_insert_sorted(sort_by_start(s.drop_last()), s.last());
        assert(s.drop_last().push(s.last()) =~= s);
    }
}

/// Sorting a sequence whose starts never decrease leaves it as it is.
pub proof fn lemma_sort_by_start_sorted_input(s: Seq<RepView>)
    requires
        starts_sorted(s),
    ensures
        sort_by_start(s) == s,
    decreases s.len(),
{
    if s.len() > 0 {
        let t = s.drop_last();
        assert(starts_sorted(t)) by {
            assert forall|i: int, j: int| 0 <= i < j < t.len() implies t[i].0 <= t[j].0 by {
                assert(t[i] == s[i]);
                assert(t[j] == s[j]);
            }
        }
        lemma_sort_by_start_sorted_input(t);
        assert forall|k: int| 0 <= k < t.len() implies (#[trigger] t[k]).0 <= s.last().0 by {
            assert(t[k] == s[k]);
        }
        lemma_insert_position(t, s.last(), t.len() as int);
        assert(t.insert(t.len() as int, s.last()) =~= s);
    }
}

/// One step of the stable sort: the views of the first `i + 1` elements,
/// sorted, are those of the first `i`, sorted, with element `i` inserted.
proof fn lemma_sort_take_step(s: Seq<RepView>, i: int)
    requires
        0 <= i < s.len(),
    ensures
        sort_by_start(s.take(i + 1)) == insert_by_start(sort_by_start(s.take(i)), s[i]),
{
    assert(s.take(i + 1).drop_last() =~= s.take(i));
    assert(s.take(i + 1).last() == s[i]);
}

/// The indices of `reps` in the order of `sort_by_start`.
fn sort_order(reps: &Vec<(Range<usize>, String)>) -> (order: Vec<usize>)
    ensures
        forall|k: int| 0 <= k < order@.len() ==> (#[trigger] order@[k]) < reps@.len(),
        order@.map_values(|j: usize| rep_view(reps@[j as int])) == sort_by_start(rep_views(reps@)),
{
    let ghost v = rep_views(reps@);
    let mut order: Vec<usize> = Vec::new();
    let n = reps.len();
    for i in 0..n
        invariant
            n == reps@.len(),
            v == rep_views(reps@),
            forall|k: int| 0 <= k < order@.len() ==> (#[trigger] order@[k]) < i,
            order@.map_values(|j: usize| rep_view(reps@[j as int])) == sort_by_start(v.take(i as int)),
    {
        let ghost sorted = order@.map_values(|j: usize| rep_view(reps@[j as int]));
        proof {
            lemma_sort_by_start_sorted(v.take(i as int));
        }
        let key = reps[i].0.start;
        let mut p: usize = 0;
        while p < order.len() && reps[order[p]].0.start <= key
            invariant
                p <= order@.len(),
                n == reps@.len(),
                i < n,
                key == reps@[i as int].0.start,
                sorted == order@.map_values(|j: usize| rep_view(reps@[j as int])),
                forall|k: int| 0 <= k < order@.len() ==> (#[trigger] order@[k]) < i,
                forall|k: int| 0 <= k < p ==> (#[trigger] sorted[k]).0 <= key,
            decreases order@.len() - p,
        {
            assert(sorted[p as int] == rep_view(reps@[order@[p as int] as int]));
            p = p + 1;
        }
        proof {
            assert(v[i as int] == rep_view(reps@[i as int]));
            if p < order@.len() {
                assert(sorted[p as int] == rep_view(reps@[order@[p as int] as int]));
            }
            lemma_insert_position(sorted, v[i as int], p as int);
            lemma_sort_take_step(v, i as int);
        }
        order.insert(p, i);
        proof {
            let nw = order@.map_values(|j: usize| rep_view(reps@[j as int]));
            assert(nw =~= sorted.insert(p as int, v[i as int]));
        }
    }
    proof {
        assert(v.take(n as int) =~= v);
    }
    order
}

/// How many bytes longer replacing the range of `x` by its text makes a
/// text.
pub open spec fn rep_delta(x: RepView) -> int {
    encode_utf8(x.2).len() - (x.1 - x.0)
}

/// How many bytes longer the replacements before the `k`-th of `s` make a
/// text.
pub open spec fn rep_shift(s: Seq<RepView>, k: int) -> int
    decreases k,
{
    if k <= 0 {
        0
    } else {
        rep_shift(s, k - 1) + rep_delta(s[k - 1])
    }
}

/// The shift before the `k`-th replacement is that of the first one plus
/// the shift before it among the rest.
proof fn lemma_rep_shift_first(s: Seq<RepView>, k: int)
    requires
        1 <= k <= s.len(),
    ensures
        rep_shift(s, k) == rep_delta(s[0]) + rep_shift(s.drop_first(), k - 1),
    decreases k,
{
    if k > 1 {
        lemma_rep_shift_first(s, k - 1);
        assert(s.drop_first()[k - 2] == s[k - 1]);
        assert(rep_shift(s.drop_first(), k - 1) == rep_shift(s.drop_first(), k - 2) + rep_delta(s.drop_first()[k - 2]));
    } else {
        assert(rep_shift(s, 0) == 0);
        assert(rep_shift(s.drop_first(), 0) == 0);
    }
}

/// Where replacing stopped before the `k`-th replacement: the end of the
/// range before it, or `cursor` for the first.
pub open spec fn end_before(s: Seq<RepView>, k: int, cursor: int) -> int {
    if k <= 0 {
        cursor
    } else {
        s[k - 1].1
    }
}

/// In the text `r` spliced from `b` from `cursor` on, the text of the
/// `k`-th replacement of `s` stands at its range's start moved by the
/// replacements before it, right after the bytes of `b` between the range
/// before it and its own.
pub open spec fn lands_at(r: Seq<u8>, b: Seq<u8>, s: Seq<RepView>, cursor: int, k: int) -> bool {
    let off = s[k].0 - cursor + rep_shift(s, k);
    &&& 0 <= end_before(s, k, cursor) - cursor + rep_shift(s, k) <= off
    &&& off + encode_utf8(s[k].2).len() <= r.len()
    &&& r.subrange(off, off + encode_utf8(s[k].2).len()) == encode_utf8(s[k].2)
    &&& r.subrange(end_before(s, k, cursor) - cursor + rep_shift(s, k), off) == b.subrange(
        end_before(s, k, cursor),
        s[k].0,
    )
}

/// Splicing the ordered replacements `s` into `b` from `cursor` on puts
/// the text of each one at its range's start moved by the replacements
/// before it, keeps the bytes between ranges as they were, and keeps the
/// rest of `b` after the last range: each replacement lands in place,
/// whatever the others hold.
#[verifier::rlimit(60)]
pub proof fn lemma_splice_positions(b: Seq<u8>, s: Seq<RepView>, cursor: int)
    requires
        ordered_within(b, s),
        0 <= cursor <= b.len(),
        s.len() > 0 ==> cursor <= s[0].0,
    ensures
        ({
            let r = splice_from(b, s, cursor);
            &&& r.len() == b.len() - cursor + rep_shift(s, s.len() as int)
            &&& 0 <= end_before(s, s.len() as int, cursor) - cursor + rep_shift(s, s.len() as int) <= r.len()
            &&& r.subrange(end_before(s, s.len() as int, cursor) - cursor + rep_shift(s, s.len() as int), r.len() as int)
                == b.subrange(end_before(s, s.len() as int, cursor), b.len() as int)
            &&& forall|k: int| 0 <= k < s.len() ==> #[trigger] lands_at(r, b, s, cursor, k)
        }),
    decreases s.len(),
{
    let r = splice_from(b, s, cursor);
    if s.len() == 0 {
        assert(r =~= b.subrange(cursor, b.len() as int));
        assert(r.subrange(0, r.len() as int) =~= r);
    } else {
        let g = b.subrange(cursor, s[0].0);
        let e = encode_utf8(s[0].2);
        let t = s.drop_first();
        let c2 = s[0].1;
        assert(sliceable(b, s[0].0, s[0].1));
        assert(ordered_within(b, t)) by {
            assert forall|k: int| 0 <= k < t.len() implies sliceable(b, (#[trigger] t[k]).0, t[k].1) by {
                assert(t[k] == s[k + 1]);
            }
            assert forall|k: int| 0 <= k < t.len() - 1 implies (#[trigger] t[k]).1 <= t[k + 1].0 by {
                assert(t[k] == s[k + 1]);
                assert(t[k + 1] == s[k + 2]);
            }
        }
        if t.len() > 0 {
            assert(t[0] == s[1]);
        }
        lemma_splice_positions(b, t, c2);
        let rt = splice_from(b, t, c2);
        assert(r == g + e + rt);
        let p = (g.len() + e.len()) as int;
        assert(p == s[0].0 - cursor + e.len());
        lemma_rep_shift_first(s, s.len() as int);
        assert(s.len() - 1 == t.len());
        if t.len() == 0 {
            assert(end_before(s, s.len() as int, cursor) == c2);
            assert(end_before(t, t.len() as int, c2) == c2);
        } else {
            assert(end_before(s, s.len() as int, cursor) == end_before(t, t.len() as int, c2));
        }
        let q = end_before(t, t.len() as int, c2) - c2 + rep_shift(t, t.len() as int);
        assert(r.subrange(p + q, r.len() as int) =~= rt.subrange(q, rt.len() as int));
        assert forall|k: int| 0 <= k < s.len() implies #[trigger] lands_at(r, b, s, cursor, k) by {
            assert(rep_shift(s, 0) == 0);
            if k == 0 {
                assert(r.subrange(g.len() as int, p) =~= e);
                assert(r.subrange(0, g.len() as int) =~= g);
            } else {
                assert(lands_at(rt, b, t, c2, k - 1));
                lemma_lands_after_first(b, s, cursor, k, g + e, rt);
            }
        }
    }
}

/// A replacement after the first lands in the whole splice where it lands
/// in the splice of the rest, moved by what the first one leaves before it.
proof fn lemma_lands_after_first(b: Seq<u8>, s: Seq<RepView>, cursor: int, k: int, head: Seq<u8>, rt: Seq<u8>)
    requires
        1 <= k < s.len(),
        head.len() == s[0].0 - cursor + encode_utf8(s[0].2).len(),
        lands_at(rt, b, s.drop_first(), s[0].1, k - 1),
    ensures
        lands_at(head + rt, b, s, cursor, k),
{
    let t = s.drop_first();
    let c2 = s[0].1;
    let r = head + rt;
    let p = head.len() as int;
    lemma_rep_shift_first(s, k);
    assert(t[k - 1] == s[k]);
    let len = encode_utf8(s[k].2).len() as int;
    let off2 = t[k - 1].0 - c2 + rep_shift(t, k - 1);
    let eb = end_before(t, k - 1, c2) - c2 + rep_shift(t, k - 1);
    assert(end_before(s, k, cursor) == end_before(t, k - 1, c2));
    assert(s[k].0 - cursor + rep_shift(s, k) == p + off2);
    assert(end_before(s, k, cursor) - cursor + rep_shift(s, k) == p + eb);
    assert(r.subrange(p + off2, p + off2 + len) =~= rt.subrange(off2, off2 + len));
    assert(r.subrange(p + eb, p + off2) =~= rt.subrange(eb, off2));
}

/// Unfolds one step of the splice.
proof fn lemma_splice_step(b: Seq<u8>, s: Seq<RepView>, k: int, cursor: int)
    requires
        0 <= k < s.len(),
    ensures
        splice_from(b, s.skip(k), cursor) == b.subrange(cursor, s[k].0) + encode_utf8(s[k].2)
            + splice_from(b, s.skip(k + 1), s[k].1),
{
    assert(s.skip(k)[0] == s[k]);
    assert(s.skip(k).drop_first() =~= s.skip(k + 1));
}

/// `contents` with every `(byte_range, replacement)` pair spliced in: the
/// pairs are first ordered by the start of their range (stably), then each
/// range is replaced in one forward pass.
///
/// The ranges, once ordered, must each be sliceable and must not overlap;
/// the include ranges that `extract_include_ranges` finds are.
#[verifier::rlimit(30)]
pub fn splice_include_replacements(
    contents: &str,
    replacements: Vec<(Range<usize>, String)>,
) -> (r: String)
    requires
        ordered_within(contents.spec_bytes(), sort_by_start(rep_views(replacements@))),
    ensures
        encode_utf8(r@) == spliced(contents.spec_bytes(), sort_by_start(rep_views(replacements@))),
{
    let ghost b = contents.spec_bytes();
    let ghost sorted = sort_by_start(rep_views(replacements@));
    let order = sort_order(&replacements);
    proof {
        encode_utf8_valid_utf8(contents@);
        is_char_boundary_start_end_of_seq(b);
        lemma_sort_by_start_sorted(rep_views(replacements@));
    }
    let mut out = String::new();
    let mut cursor: usize = 0;
    let len = str_bytes(contents).len();
    proof {
        assert(encode_utf8(out@) =~= Seq::<u8>::empty());
        assert(sorted.skip(0) =~= sorted);
        assert(encode_utf8(out@) + splice_from(b, sorted.skip(0), 0) =~= spliced(b, sorted));
    }
    for k in 0..order.len()
        invariant
            b == contents.spec_bytes(),
            len == b.len(),
            sorted == sort_by_start(rep_views(replacements@)),
            order@.len() == sorted.len(),
            order@.map_values(|j: usize| rep_view(replacements@[j as int])) == sorted,
            forall|m: int| 0 <= m < order@.len() ==> (#[trigger] order@[m]) < replacements@.len(),
            ordered_within(b, sorted),
            is_char_boundary(b, 0),
            k == 0 ==> cursor == 0,
            k > 0 ==> cursor == sorted[k - 1].1,
            cursor <= len,
            encode_utf8(out@) + splice_from(b, sorted.skip(k as int), cursor as int) == spliced(b, sorted),
    {
        let j = order[k];
        let ghost x = sorted[k as int];
        assert(x == rep_view(replacements@[j as int]));
        let start = replacements[j].0.start;
        let end = replacements[j].0.end;
        proof {
            assert(sliceable(b, x.0, x.1));
            if k > 0 {
                assert(sorted[k - 1].1 <= sorted[k as int].0);
                assert(sliceable(b, sorted[k - 1].0, sorted[k - 1].1));
            }
            lemma_splice_step(b, sorted, k as int, cursor as int);
        }
        let piece = slice_str(contents, cursor, start);
        let ghost before = out@;
        out.append(piece);
        out.append(replacements[j].1.as_str());
        proof {
            lemma_encode_utf8_concat(before, piece@);
            lemma_encode_utf8_concat(before + piece@, replacements@[j as int].1@);
            assert(out@ == before + piece@ + replacements@[j as int].1@);
        }
        cursor = end;
    }
    proof {
        assert(sorted.skip(order@.len() as int) =~= Seq::<RepView>::empty());
        if order@.len() > 0 {
            assert(sliceable(b, sorted[order@.len() - 1].0, sorted[order@.len() - 1].1));
        }
    }
    let tail = slice_str(contents, cursor, len);
    let ghost before = out@;
    out.append(tail);
    proof {
        lemma_encode_utf8_concat(before, tail@);
    }
    out
}

/// Splicing each range back in with the text it already holds gives the
/// text back: replacing every token by itself changes nothing.
pub proof fn lemma_splice_same_text(b: Seq<u8>, s: Seq<RepView>)
    requires
        ordered_within(b, s),
        forall|k: int| 0 <= k < s.len() ==> encode_utf8((#[trigger] s[k]).2) == b.subrange(s[k].0, s[k].1),
    ensures
        spliced(b, s) == b,
{
    lemma_splice_same_text_from(b, s, 0);
    assert(b.subrange(0, b.len() as int) =~= b);
}

proof fn lemma_splice_same_text_from(b: Seq<u8>, s: Seq<RepView>, cursor: int)
    requires
        ordered_within(b, s),
        forall|k: int| 0 <= k < s.len() ==> encode_utf8((#[trigger] s[k]).2) == b.subrange(s[k].0, s[k].1),
        0 <= cursor <= b.len(),
        s.len() > 0 ==> cursor <= s[0].0,
    ensures
        splice_from(b, s, cursor) == b.subrange(cursor, b.len() as int),
    decreases s.len(),
{
    if s.len() > 0 {
        let t = s.drop_first();
        assert(sliceable(b, s[0].0, s[0].1));
        assert(ordered_within(b, t)) by {
            assert forall|k: int| 0 <= k < t.len() implies sliceable(b, (#[trigger] t[k]).0, t[k].1) by {
                assert(t[k] == s[k + 1]);
            }
            assert forall|k: int| 0 <= k < t.len() - 1 implies (#[trigger] t[k]).1 <= t[k + 1].0 by {
                assert(t[k] == s[k + 1]);
                assert(t[k + 1] == s[k + 2]);
            }
        }
        assert forall|k: int| 0 <= k < t.len() implies encode_utf8((#[trigger] t[k]).2) == b.subrange(t[k].0, t[k].1) by {
            assert(t[k] == s[k + 1]);
        }
        if t.len() > 0 {
            assert(t[0] == s[1]);
        }
        lemma_splice_same_text_from(b, t, s[0].1);
        assert(b.subrange(cursor, s[0].0) + b.subrange(s[0].0, s[0].1) + b.subrange(s[0].1, b.len() as int)
            =~= b.subrange(cursor, b.len() as int));
    }
}

} // verus!
