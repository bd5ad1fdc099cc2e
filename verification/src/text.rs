//! Byte-level facts about UTF-8 text that the parsers and the splicer share.

use vstd::prelude::*;
use vstd::utf8::*;
use vstd::string::StringSliceAdditionalSpecFns;

verus! {

broadcast use vstd::utf8::group_utf8_lib;

/// Length in bytes of the Unicode `White_Space` character whose UTF-8
/// encoding starts at byte `i` of `b`, or 0 when none starts there.
///
/// `White_Space` is the set that `char::is_whitespace` (and so
/// `str::trim_start` and the `\s` class of a Unicode regex) accepts:
/// U+0009..U+000D, U+0020, U+0085, U+00A0, U+1680, U+2000..U+200A,
/// U+2028, U+2029, U+202F, U+205F and U+3000.
pub open spec fn ws_len(b: Seq<u8>, i: int) -> int {
    if !(0 <= i < b.len()) {
        0
    } else if (0x09 <= b[i] <= 0x0d) || b[i] == 0x20 {
        1
    } else if i + 1 < b.len() && b[i] == 0xc2 && (b[i + 1] == 0x85 || b[i + 1] == 0xa0) {
        2
    } else if i + 2 < b.len() && (
        (b[i] == 0xe1 && b[i + 1] == 0x9a && b[i + 2] == 0x80)
        || (b[i] == 0xe2 && b[i + 1] == 0x80 && ((0x80 <= b[i + 2] <= 0x8a) || b[i + 2] == 0xa8
            || b[i + 2] == 0xa9 || b[i + 2] == 0xaf))
        || (b[i] == 0xe2 && b[i + 1] == 0x81 && b[i + 2] == 0x9f)
        || (b[i] == 0xe3 && b[i + 1] == 0x80 && b[i + 2] == 0x80)) {
        3
    } else {
        0
    }
}

/// The first position at or after `i` that does not start a whitespace
/// character (what `trim_start` leaves).
pub open spec fn skip_ws(b: Seq<u8>, i: int) -> int
    decreases b.len() - i,
{
    if ws_len(b, i) > 0 {
        skip_ws(b, i + ws_len(b, i))
    } else {
        i
    }
}

/// The first position at or after `i` that does not hold an ASCII space.
pub open spec fn skip_spaces(b: Seq<u8>, i: int) -> int
    decreases b.len() - i,
{
    if 0 <= i < b.len() && b[i] == 0x20 {
        skip_spaces(b, i + 1)
    } else {
        i
    }
}

/// `b` holds the bytes of `pat` from position `i` on.
pub open spec fn bytes_at(b: Seq<u8>, i: int, pat: Seq<u8>) -> bool {
    0 <= i && i + pat.len() <= b.len() && b.subrange(i, i + pat.len()) == pat
}

/// `b[i]` exists and is the byte `c`.
pub open spec fn byte_at(b: Seq<u8>, i: int, c: u8) -> bool {
    0 <= i < b.len() && b[i] == c
}

/// The first position `j >= i` at which `pat` occurs in `b`.
pub open spec fn find_from(b: Seq<u8>, i: int, pat: Seq<u8>) -> Option<int>
    decreases b.len() - i,
{
    if i < 0 || i + pat.len() > b.len() {
        None
    } else if bytes_at(b, i, pat) {
        Some(i)
    } else if i >= b.len() {
        None
    } else {
        find_from(b, i + 1, pat)
    }
}

/// The first position `j >= i` that holds the byte `c`.
pub open spec fn find_byte_from(b: Seq<u8>, i: int, c: u8) -> Option<int>
    decreases b.len() - i,
{
    if i < 0 || i >= b.len() {
        None
    } else if b[i] == c {
        Some(i)
    } else {
        find_byte_from(b, i + 1, c)
    }
}

/// UTF-8 encoding distributes over concatenation.
pub proof fn lemma_encode_utf8_concat(a: Seq<char>, b: Seq<char>)
    ensures
        encode_utf8(a + b) == encode_utf8(a) + encode_utf8(b),
    decreases a.len(),
{
    if a.len() == 0 {
        assert(a + b =~= b);
        assert(encode_utf8(a) =~= Seq::<u8>::empty());
        assert(encode_utf8(a) + encode_utf8(b) =~= encode_utf8(b));
    } else {
        lemma_encode_utf8_concat(a.drop_first(), b);
        assert((a + b).drop_first() =~= a.drop_first() + b);
        assert((a + b)[0] == a[0]);
        assert(encode_scalar(a[0] as u32) + (encode_utf8(a.drop_first()) + encode_utf8(b))
            =~= (encode_scalar(a[0] as u32) + encode_utf8(a.drop_first())) + encode_utf8(b));
    }
}

/// Two character sequences with the same UTF-8 encoding are equal.
pub proof fn lemma_encode_utf8_injective(a: Seq<char>, b: Seq<char>)
    requires
        encode_utf8(a) == encode_utf8(b),
    ensures
        a == b,
{
    encode_utf8_decode_utf8(a);
    encode_utf8_decode_utf8(b);
}

/// In valid UTF-8, the position just after an ASCII byte is a character
/// boundary.
pub proof fn lemma_boundary_after_ascii(b: Seq<u8>, i: int)
    requires
        valid_utf8(b),
        0 <= i < b.len(),
        b[i] < 0x80,
    ensures
        is_char_boundary(b, i + 1),
    decreases b.len(),
{
    reveal_with_fuel(is_char_boundary, 2);
    let l = length_of_first_scalar(b);
    if i == 0 {
        assert(l == 1);
        is_char_boundary_start_end_of_seq(pop_first_scalar(b));
    } else if i < l {
        assert(is_continuation_byte(b[i]));
    } else {
        let rest = pop_first_scalar(b);
        assert(rest[i - l] == b[i]);
        lemma_boundary_after_ascii(rest, i - l);
    }
}

/// In valid UTF-8, a position that holds an ASCII byte is a character
/// boundary.
pub proof fn lemma_boundary_at_ascii(b: Seq<u8>, i: int)
    requires
        valid_utf8(b),
        0 <= i < b.len(),
        b[i] < 0x80,
    ensures
        is_char_boundary(b, i),
{
    is_char_boundary_iff_not_is_continuation_byte(b, i);
}

/// The bytes `start..end` of `s`, borrowed (`&s[start..end]`).
pub fn slice_str<'a>(s: &'a str, start: usize, end: usize) -> (r: &'a str)
    requires
        start <= end <= s.spec_bytes().len(),
        is_char_boundary(s.spec_bytes(), start as int),
        is_char_boundary(s.spec_bytes(), end as int),
    ensures
        r.spec_bytes() == s.spec_bytes().subrange(start as int, end as int),
{
    let ghost b = s.spec_bytes();
    proof {
        encode_utf8_valid_utf8(s@);
    }
    let (_head, rest) = s.split_at(start);
    let ghost rb = rest.spec_bytes();
    assert(rb =~= b.subrange(start as int, b.len() as int));
    proof {
        encode_utf8_valid_utf8(rest@);
        if end < b.len() {
            is_char_boundary_iff_not_is_continuation_byte(b, end as int);
            assert(rb[end - start] == b[end as int]);
            is_char_boundary_iff_not_is_continuation_byte(rb, (end - start) as int);
        } else {
            is_char_boundary_start_end_of_seq(rb);
        }
    }
    let (mid, _tail) = rest.split_at(end - start);
    assert(mid.spec_bytes() =~= b.subrange(start as int, end as int));
    mid
}

/// The owned string made of the bytes `start..end` of `s`
/// (`s[start..end].to_string()`).
pub fn substring(s: &str, start: usize, end: usize) -> (r: String)
    requires
        start <= end <= s.spec_bytes().len(),
        is_char_boundary(s.spec_bytes(), start as int),
        is_char_boundary(s.spec_bytes(), end as int),
    ensures
        encode_utf8(r@) == s.spec_bytes().subrange(start as int, end as int),
{
    slice_str(s, start, end).to_owned()
}

/// The UTF-8 bytes of `s`.
pub fn str_bytes(s: &str) -> (r: &[u8])
    ensures
        r@ == s.spec_bytes(),
{
    s.as_bytes()
}

/// `skip_ws` never moves backwards and stays within the text.
pub proof fn lemma_skip_ws_bounds(b: Seq<u8>, i: int)
    requires
        0 <= i <= b.len(),
    ensures
        i <= skip_ws(b, i) <= b.len(),
        ws_len(b, skip_ws(b, i)) == 0,
    decreases b.len() - i,
{
    if ws_len(b, i) > 0 {
        lemma_skip_ws_bounds(b, i + ws_len(b, i));
    }
}

/// `skip_spaces` never moves backwards and stays within the text.
pub proof fn lemma_skip_spaces_bounds(b: Seq<u8>, i: int)
    requires
        0 <= i <= b.len(),
    ensures
        i <= skip_spaces(b, i) <= b.len(),
    decreases b.len() - i,
{
    if 0 <= i < b.len() && b[i] == 0x20 {
        lemma_skip_spaces_bounds(b, i + 1);
    }
}

/// What `find_byte_from` finds is the byte, and it is the first one.
pub proof fn lemma_find_byte_from(b: Seq<u8>, i: int, c: u8)
    requires
        0 <= i,
    ensures
        find_byte_from(b, i, c) matches Some(q) ==> i <= q < b.len() && b[q] == c && forall|k: int|
            i <= k < q ==> b[k] != c,
        find_byte_from(b, i, c) is None ==> forall|k: int| i <= k < b.len() ==> b[k] != c,
    decreases b.len() - i,
{
    if i < b.len() && b[i] != c {
        lemma_find_byte_from(b, i + 1, c);
    }
}

/// Length of the whitespace character at `i` (`ws_len`).
pub fn exec_ws_len(b: &[u8], i: usize) -> (n: usize)
    ensures
        n == ws_len(b@, i as int),
{
    if i >= b.len() {
        return 0;
    }
    let c = b[i];
    if (0x09 <= c && c <= 0x0d) || c == 0x20 {
        1
    } else if b.len() - i > 1 && c == 0xc2 && (b[i + 1] == 0x85 || b[i + 1] == 0xa0) {
        2
    } else if b.len() - i > 2 && ((c == 0xe1 && b[i + 1] == 0x9a && b[i + 2] == 0x80) || (c
        == 0xe2 && b[i + 1] == 0x80 && ((0x80 <= b[i + 2] && b[i + 2] <= 0x8a) || b[i + 2]
        == 0xa8 || b[i + 2] == 0xa9 || b[i + 2] == 0xaf)) || (c == 0xe2 && b[i + 1] == 0x81
        && b[i + 2] == 0x9f) || (c == 0xe3 && b[i + 1] == 0x80 && b[i + 2] == 0x80)) {
        3
    } else {
        0
    }
}

/// The position `skip_ws(b, i)`: `i` moved past any whitespace.
pub fn exec_skip_ws(b: &[u8], i: usize) -> (j: usize)
    requires
        i <= b@.len(),
    ensures
        j == skip_ws(b@, i as int),
        i <= j <= b@.len(),
{
    let mut j = i;
    loop
        invariant
            i <= j <= b@.len(),
            skip_ws(b@, j as int) == skip_ws(b@, i as int),
        decreases b@.len() - j,
    {
        let n = exec_ws_len(b, j);
        if n == 0 {
            return j;
        }
        let len = b.len();
        assert(j + n <= len);
        j = j + n;
    }
}

/// The position `skip_spaces(b, i)`: `i` moved past any ASCII spaces.
pub fn exec_skip_spaces(b: &[u8], i: usize) -> (j: usize)
    requires
        i <= b@.len(),
    ensures
        j == skip_spaces(b@, i as int),
        i <= j <= b@.len(),
{
    let mut j = i;
    while j < b.len() && b[j] == 0x20
        invariant
            i <= j <= b@.len(),
            skip_spaces(b@, j as int) == skip_spaces(b@, i as int),
        decreases b@.len() - j,
    {
        j = j + 1;
    }
    j
}

/// The position `find_byte_from(b, i, c)`: the first `c` at or after `i`.
pub fn exec_find_byte(b: &[u8], i: usize, c: u8) -> (r: Option<usize>)
    ensures
        r == (match find_byte_from(b@, i as int, c) {
            Some(q) => Some(q as usize),
            None => None::<usize>,
        }),
{
    let mut j = i;
    while j < b.len()
        invariant
            i <= j,
            find_byte_from(b@, j as int, c) == find_byte_from(b@, i as int, c),
        decreases b@.len() - j,
    {
        if b[j] == c {
            return Some(j);
        }
        j = j + 1;
    }
    None
}

/// Whether `b` holds the bytes `pat` from position `i` on (`bytes_at`).
pub fn exec_bytes_at(b: &[u8], i: usize, pat: &[u8]) -> (r: bool)
    ensures
        r == bytes_at(b@, i as int, pat@),
{
    if i > b.len() || b.len() - i < pat.len() {
        return false;
    }
    let mut k: usize = 0;
    while k < pat.len()
        invariant
            k <= pat@.len(),
            i + pat@.len() <= b@.len(),
            forall|m: int| 0 <= m < k ==> b@[i + m] == pat@[m],
        decreases pat@.len() - k,
    {
        let len = b.len();
        assert(i + k < len);
        if b[i + k] != pat[k] {
            assert(b@.subrange(i as int, i + pat@.len())[k as int] != pat@[k as int]);
            return false;
        }
        k = k + 1;
    }
    assert(b@.subrange(i as int, i + pat@.len()) =~= pat@);
    true
}

/// The position `find_from(b, i, pat)`: the first occurrence of the
/// non-empty `pat` at or after `i`.
pub fn exec_find(b: &[u8], i: usize, pat: &[u8]) -> (r: Option<usize>)
    requires
        pat@.len() > 0,
    ensures
        r == (match find_from(b@, i as int, pat@) {
            Some(q) => Some(q as usize),
            None => None::<usize>,
        }),
{
    let len = b.len();
    let plen = pat.len();
    if i > len {
        return None;
    }
    let mut j = i;
    while j < len && len - j >= plen
        invariant
            i <= j <= len,
            len == b@.len(),
            plen == pat@.len(),
            plen > 0,
            find_from(b@, j as int, pat@) == find_from(b@, i as int, pat@),
        decreases len - j,
    {
        if exec_bytes_at(b, j, pat) {
            return Some(j);
        }
        j = j + 1;
    }
    None
}

} // verus!
