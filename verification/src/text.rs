//! Byte-level text helpers: Unicode white-space trimming of UTF-8 text, line splitting and
//! the checked conversion from bytes to `&str`.
use vstd::prelude::*;
use vstd::utf8::{valid_utf8, is_char_boundary, is_continuation_byte, length_of_first_scalar, pop_first_scalar};
use vstd::string::StringSliceAdditionalSpecFns;

verus! {

/// Length of the UTF-8 encoded Unicode `White_Space` character that `s` starts with
/// (U+0009..=U+000D, U+0020, U+0085, U+00A0, U+1680, U+2000..=U+200A, U+2028, U+2029,
/// U+202F, U+205F, U+3000), or 0.
pub open spec fn ws_front(s: Seq<u8>) -> int {
    if s.len() >= 1 && ((0x09 <= s[0] <= 0x0d) || s[0] == 0x20) {
        1
    } else if s.len() >= 2 && s[0] == 0xc2 && (s[1] == 0x85 || s[1] == 0xa0) {
        2
    } else if s.len() >= 3 && ws3(s[0], s[1], s[2]) {
        3
    } else {
        0
    }
}

/// The three-byte encodings of the white-space characters.
pub open spec fn ws3(a: u8, b: u8, c: u8) -> bool {
    (a == 0xe1 && b == 0x9a && c == 0x80)
        || (a == 0xe2 && b == 0x80 && (0x80 <= c <= 0x8a || c == 0xa8 || c == 0xa9 || c == 0xaf))
        || (a == 0xe2 && b == 0x81 && c == 0x9f)
        || (a == 0xe3 && b == 0x80 && c == 0x80)
}

/// Length of the white-space character that `s` ends with, or 0.
pub open spec fn ws_back(s: Seq<u8>) -> int {
    let n = s.len() as int;
    if n >= 1 && ((0x09 <= s[n - 1] <= 0x0d) || s[n - 1] == 0x20) {
        1
    } else if n >= 2 && s[n - 2] == 0xc2 && (s[n - 1] == 0x85 || s[n - 1] == 0xa0) {
        2
    } else if n >= 3 && ws3(s[n - 3], s[n - 2], s[n - 1]) {
        3
    } else {
        0
    }
}

/// `s` without leading white space.
pub open spec fn trim_start(s: Seq<u8>) -> Seq<u8>
    decreases s.len(),
{
    let k = ws_front(s);
    if 0 < k <= s.len() {
        trim_start(s.subrange(k, s.len() as int))
    } else {
        s
    }
}

/// `s` without trailing white space.
pub open spec fn trim_end(s: Seq<u8>) -> Seq<u8>
    decreases s.len(),
{
    let k = ws_back(s);
    if 0 < k <= s.len() {
        trim_end(s.subrange(0, s.len() - k))
    } else {
        s
    }
}

/// `s` without leading and trailing white space.
pub open spec fn trim(s: Seq<u8>) -> Seq<u8> {
    trim_end(trim_start(s))
}

fn ws_front_at(b: &[u8], lo: usize, hi: usize) -> (k: usize)
    requires
        lo <= hi <= b.len(),
    ensures
        k == ws_front(b@.subrange(lo as int, hi as int)),
{
    let n = hi - lo;
    let ghost s = b@.subrange(lo as int, hi as int);
    if n >= 1 && ((0x09 <= b[lo] && b[lo] <= 0x0d) || b[lo] == 0x20) {
        return 1;
    }
    if n >= 2 && b[lo] == 0xc2 && (b[lo + 1] == 0x85 || b[lo + 1] == 0xa0) {
        return 2;
    }
    if n >= 3 && is_ws3(b[lo], b[lo + 1], b[lo + 2]) {
        return 3;
    }
    0
}

fn ws_back_at(b: &[u8], lo: usize, hi: usize) -> (k: usize)
    requires
        lo <= hi <= b.len(),
    ensures
        k == ws_back(b@.subrange(lo as int, hi as int)),
{
    let n = hi - lo;
    if n >= 1 && ((0x09 <= b[hi - 1] && b[hi - 1] <= 0x0d) || b[hi - 1] == 0x20) {
        return 1;
    }
    if n >= 2 && b[hi - 2] == 0xc2 && (b[hi - 1] == 0x85 || b[hi - 1] == 0xa0) {
        return 2;
    }
    if n >= 3 && is_ws3(b[hi - 3], b[hi - 2], b[hi - 1]) {
        return 3;
    }
    0
}

fn is_ws3(a: u8, b: u8, c: u8) -> (r: bool)
    ensures
        r == ws3(a, b, c),
{
    (a == 0xe1 && b == 0x9a && c == 0x80)
        || (a == 0xe2 && b == 0x80 && ((0x80 <= c && c <= 0x8a) || c == 0xa8 || c == 0xa9 || c == 0xaf))
        || (a == 0xe2 && b == 0x81 && c == 0x9f)
        || (a == 0xe3 && b == 0x80 && c == 0x80)
}

/// The bounds of `b[lo..hi]` with white space trimmed from both ends.
pub fn trim_range(b: &[u8], lo: usize, hi: usize) -> (r: (usize, usize))
    requires
        lo <= hi <= b.len(),
    ensures
        lo <= r.0 <= r.1 <= hi,
        b@.subrange(r.0 as int, r.1 as int) == trim(b@.subrange(lo as int, hi as int)),
        valid_utf8(b@) && is_char_boundary(b@, lo as int) && is_char_boundary(b@, hi as int) ==> is_char_boundary(
            b@,
            r.0 as int,
        ) && is_char_boundary(b@, r.1 as int),
{
    let mut a = lo;
    while a < hi
        invariant
            lo <= a <= hi <= b.len(),
            trim_start(b@.subrange(lo as int, hi as int)) == trim_start(b@.subrange(a as int, hi as int)),
            valid_utf8(b@) && is_char_boundary(b@, lo as int) ==> is_char_boundary(b@, a as int),
        ensures
            valid_utf8(b@) && is_char_boundary(b@, lo as int) ==> is_char_boundary(b@, a as int),
            lo <= a <= hi,
            trim_start(b@.subrange(lo as int, hi as int)) == trim_start(b@.subrange(a as int, hi as int)),
            a == hi || ws_front(b@.subrange(a as int, hi as int)) == 0,
        decreases hi - a,
    {
        let k = ws_front_at(b, a, hi);
        if k == 0 {
            break;
        }
        assert(b@.subrange(a as int, hi as int).subrange(k as int, (hi - a) as int) =~= b@.subrange(a + k, hi as int));
        proof {
            if valid_utf8(b@) && is_char_boundary(b@, lo as int) {
                assert(b@.subrange(a as int, hi as int)[0] == b@[a as int]);
                assert(k == lead_width(b@[a as int]));
                lemma_next_boundary(b@, a as int);
            }
        }
        a = a + k;
    }
    let mut z = hi;
    let ghost ts = b@.subrange(a as int, hi as int);
    assert(trim_start(b@.subrange(lo as int, hi as int)) == ts) by {
        if a == hi {
            assert(ts.len() == 0);
        }
    }
    while z > a
        invariant
            lo <= a <= z <= hi <= b.len(),
            trim_end(ts) == trim_end(b@.subrange(a as int, z as int)),
            ts == b@.subrange(a as int, hi as int),
            valid_utf8(b@) && is_char_boundary(b@, hi as int) ==> is_char_boundary(b@, z as int),
        ensures
            valid_utf8(b@) && is_char_boundary(b@, hi as int) ==> is_char_boundary(b@, z as int),
            a <= z <= hi,
            trim_end(ts) == trim_end(b@.subrange(a as int, z as int)),
            z == a || ws_back(b@.subrange(a as int, z as int)) == 0,
        decreases z - a,
    {
        let k = ws_back_at(b, a, z);
        if k == 0 {
            break;
        }
        assert(b@.subrange(a as int, z as int).subrange(0, (z - a - k) as int) =~= b@.subrange(a as int, z - k));
        proof {
            if valid_utf8(b@) {
                assert(b@.subrange(a as int, z as int)[z - a - k] == b@[z - k]);
                lemma_boundary_at(b@, z - k);
            }
        }
        z = z - k;
    }
    assert(trim_end(b@.subrange(a as int, z as int)) == b@.subrange(a as int, z as int)) by {
    }
    (a, z)
}

/// Index of the first `c` in `b[from..hi]`, or `hi`.
pub open spec fn find_byte(s: Seq<u8>, c: u8, from: int) -> int
    decreases s.len() - from,
{
    if from >= s.len() {
        s.len() as int
    } else if s[from] == c {
        from
    } else {
        find_byte(s, c, from + 1)
    }
}

/// Index of the first `c` in `b[from..hi]`, or `hi`.
pub fn find_byte_in(b: &[u8], c: u8, from: usize, hi: usize) -> (r: usize)
    requires
        from <= hi <= b.len(),
    ensures
        from <= r <= hi,
        r == find_byte(b@.subrange(0, hi as int), c, from as int),
{
    let mut i = from;
    while i < hi && b[i] != c
        invariant
            from <= i <= hi <= b.len(),
            find_byte(b@.subrange(0, hi as int), c, from as int) == find_byte(b@.subrange(0, hi as int), c, i as int),
        decreases hi - i,
    {
        i += 1;
    }
    i
}

/// `b[lo..hi]` equals `lit`.
pub fn range_eq(b: &[u8], lo: usize, hi: usize, lit: &[u8]) -> (r: bool)
    requires
        lo <= hi <= b.len(),
    ensures
        r == (b@.subrange(lo as int, hi as int) == lit@),
{
    if hi - lo != lit.len() {
        return false;
    }
    let mut i: usize = 0;
    while i < lit.len()
        invariant
            hi - lo == lit@.len(),
            lo <= hi <= b.len(),
            i <= lit.len(),
            forall|k: int| 0 <= k < i ==> b@[lo + k] == lit@[k],
        decreases lit.len() - i,
    {
        if b[lo + i] != lit[i] {
            assert(b@.subrange(lo as int, hi as int)[i as int] != lit@[i as int]);
            return false;
        }
        i += 1;
    }
    assert(b@.subrange(lo as int, hi as int) =~= lit@);
    true
}

/// `b` read as UTF-8 text, if it is valid UTF-8.
///
/// Calls `core::str::from_utf8`, whose documentation promises success exactly for valid
/// UTF-8 and returns a view of the same bytes.
#[verifier::external_body]
pub fn utf8(b: &[u8]) -> (r: Option<&str>)
    ensures
        r is Some <==> valid_utf8(b@),
        r matches Some(s) ==> s.spec_bytes() == b@,
{
    core::str::from_utf8(b).ok()
}

/// `find_byte` lands in `[from, len]`, on a `c` unless it reached the end, and skips no `c`.
pub proof fn lemma_find_byte(s: Seq<u8>, c: u8, from: int)
    requires
        0 <= from <= s.len(),
    ensures
        from <= find_byte(s, c, from) <= s.len(),
        find_byte(s, c, from) < s.len() ==> s[find_byte(s, c, from)] == c,
        forall|k: int| from <= k < find_byte(s, c, from) ==> s[k] != c,
    decreases s.len() - from,
{
    if from < s.len() && s[from] != c {
        lemma_find_byte(s, c, from + 1);
    }
}

/// The first `c` at or after `from` is at `j`.
pub proof fn lemma_find_byte_at(s: Seq<u8>, c: u8, from: int, j: int)
    requires
        0 <= from <= j <= s.len(),
        j < s.len() ==> s[j] == c,
        forall|k: int| from <= k < j ==> s[k] != c,
    ensures
        find_byte(s, c, from) == j,
    decreases j - from,
{
    if from < j {
        lemma_find_byte_at(s, c, from + 1, j);
    }
}

/// Searching a window of `s` is searching `s` and shifting by the window's start.
pub proof fn lemma_find_byte_window(s: Seq<u8>, c: u8, lo: int, hi: int, from: int)
    requires
        0 <= lo <= from <= hi <= s.len(),
    ensures
        find_byte(s.subrange(lo, hi), c, from - lo) == find_byte(s.subrange(0, hi), c, from) - lo,
    decreases hi - from,
{
    if from < hi {
        assert(s.subrange(lo, hi)[from - lo] == s.subrange(0, hi)[from]);
        lemma_find_byte_window(s, c, lo, hi, from + 1);
    }
}

/// Width of the UTF-8 sequence that a leading byte starts.
pub open spec fn lead_width(b: u8) -> int {
    if b < 0x80 {
        1
    } else if 0xc0 <= b <= 0xdf {
        2
    } else if 0xe0 <= b <= 0xef {
        3
    } else {
        4
    }
}

/// In valid UTF-8, the character that starts at a boundary ends at the next one.
pub proof fn lemma_next_boundary(s: Seq<u8>, i: int)
    requires
        valid_utf8(s),
        is_char_boundary(s, i),
        0 <= i < s.len(),
    ensures
        i + lead_width(s[i]) <= s.len(),
        is_char_boundary(s, i + lead_width(s[i])),
    decreases s.len(),
{
    let l = length_of_first_scalar(s);
    let t = pop_first_scalar(s);
    assert(t.len() == s.len() - l);
    if i == 0 {
        assert(is_char_boundary(t, 0));
        assert(is_char_boundary(s, l));
    } else {
        assert(is_char_boundary(s, i) == is_char_boundary(t, i - l));
        assert(t[i - l] == s[i]);
        lemma_next_boundary(t, i - l);
        assert(is_char_boundary(s, i + lead_width(s[i])) == is_char_boundary(t, i - l + lead_width(s[i])));
    }
}

/// In valid UTF-8, a byte that is no continuation byte starts a character.
pub proof fn lemma_boundary_at(s: Seq<u8>, i: int)
    requires
        valid_utf8(s),
        0 <= i <= s.len(),
        i < s.len() ==> !is_continuation_byte(s[i]),
    ensures
        is_char_boundary(s, i),
{
    if i < s.len() {
        vstd::utf8::is_char_boundary_iff_not_is_continuation_byte(s, i);
    } else {
        vstd::utf8::is_char_boundary_start_end_of_seq(s);
    }
}

} // verus!
