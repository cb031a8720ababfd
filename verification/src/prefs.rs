//! The system preferences and their text form: one `key=value` line per preference.
//!
//! Reading is forgiving: unknown keys, lines without `=`, non-numeric or overflowing values
//! and a zero scale are ignored, and every preference that is missing keeps its default.
use vstd::prelude::*;
use crate::bytes::{splice, lemma_splice_concat};
use crate::text::{find_byte, find_byte_in, range_eq, lemma_find_byte, lemma_find_byte_at};

verus! {

/// The system preferences.
#[derive(Clone, Copy, Debug, PartialEq, Eq, Structural)]
pub struct Prefs {
    /// Reduced motion (accessibility): applications turn animations off.
    pub reduce_motion: bool,
    /// Numerator of the global scale.
    pub scale_num: u32,
    /// Denominator of the global scale.
    pub scale_den: u32,
    /// Theme: 0 = dark, 1 = light.
    pub theme: u8,
    /// Language: 0 = pt-BR, 1 = en-US.
    pub idioma: u8,
}

/// Factory settings: scale 1:1, dark theme, Portuguese, no reduced motion.
pub open spec fn default_prefs() -> Prefs {
    Prefs { reduce_motion: false, scale_num: 1, scale_den: 1, theme: 0, idioma: 0 }
}

impl Default for Prefs {
    fn default() -> (p: Prefs)
        ensures
            p == default_prefs(),
    {
        Prefs { reduce_motion: false, scale_num: 1, scale_den: 1, theme: 0, idioma: 0 }
    }
}

pub open spec fn key_reduce_motion() -> Seq<u8> {
    seq![114u8, 101u8, 100u8, 117u8, 99u8, 101u8, 95u8, 109u8, 111u8, 116u8, 105u8, 111u8, 110u8]
}

pub open spec fn key_scale_num() -> Seq<u8> {
    seq![115u8, 99u8, 97u8, 108u8, 101u8, 95u8, 110u8, 117u8, 109u8]
}

pub open spec fn key_scale_den() -> Seq<u8> {
    seq![115u8, 99u8, 97u8, 108u8, 101u8, 95u8, 100u8, 101u8, 110u8]
}

pub open spec fn key_theme() -> Seq<u8> {
    seq![116u8, 104u8, 101u8, 109u8, 101u8]
}

pub open spec fn key_idioma() -> Seq<u8> {
    seq![105u8, 100u8, 105u8, 111u8, 109u8, 97u8]
}

fn reduce_motion_key() -> (r: [u8; 13])
    ensures
        r@ == key_reduce_motion(),
{
    [114u8, 101u8, 100u8, 117u8, 99u8, 101u8, 95u8, 109u8, 111u8, 116u8, 105u8, 111u8, 110u8]
}

fn scale_num_key() -> (r: [u8; 9])
    ensures
        r@ == key_scale_num(),
{
    [115u8, 99u8, 97u8, 108u8, 101u8, 95u8, 110u8, 117u8, 109u8]
}

fn scale_den_key() -> (r: [u8; 9])
    ensures
        r@ == key_scale_den(),
{
    [115u8, 99u8, 97u8, 108u8, 101u8, 95u8, 100u8, 101u8, 110u8]
}

fn theme_key() -> (r: [u8; 5])
    ensures
        r@ == key_theme(),
{
    [116u8, 104u8, 101u8, 109u8, 101u8]
}

fn idioma_key() -> (r: [u8; 6])
    ensures
        r@ == key_idioma(),
{
    [105u8, 100u8, 105u8, 111u8, 109u8, 97u8]
}

/// Decimal digits of `v` without leading zeros (empty for 0).
pub open spec fn digits(v: nat) -> Seq<u8>
    decreases v,
{
    if v == 0 {
        Seq::empty()
    } else {
        digits(v / 10).push((48u8 + v % 10) as u8)
    }
}

/// Decimal text of `v`.
pub open spec fn decimal(v: nat) -> Seq<u8> {
    if v == 0 {
        seq![48u8]
    } else {
        digits(v)
    }
}

/// One line of the file: `key=value\n`.
pub open spec fn pref_line(key: Seq<u8>, v: nat) -> Seq<u8> {
    key + seq![61u8] + decimal(v) + seq![10u8]
}

/// The text that `serializa` writes for `p`.
pub open spec fn prefs_text(p: Prefs) -> Seq<u8> {
    pref_line(key_reduce_motion(), if p.reduce_motion { 1 } else { 0 })
        + pref_line(key_scale_num(), p.scale_num as nat)
        + pref_line(key_scale_den(), p.scale_den as nat)
        + pref_line(key_theme(), p.theme as nat)
        + pref_line(key_idioma(), p.idioma as nat)
}

/// Value of a sequence of decimal digits.
pub open spec fn digits_value(s: Seq<u8>) -> nat
    decreases s.len(),
{
    if s.len() == 0 {
        0
    } else {
        digits_value(s.drop_last()) * 10 + (s.last() - 48u8) as nat
    }
}

pub open spec fn all_digits(s: Seq<u8>) -> bool {
    forall|i: int| 0 <= i < s.len() ==> 48u8 <= #[trigger] s[i] <= 57u8
}

/// An unsigned decimal number, with one trailing `\r` tolerated; `None` when empty,
/// holding anything but digits, or above `u32::MAX`.
pub open spec fn number(b: Seq<u8>) -> Option<u32> {
    let s = if b.len() > 0 && b.last() == 13u8 { b.drop_last() } else { b };
    if s.len() == 0 || !all_digits(s) || digits_value(s) > u32::MAX {
        None
    } else {
        Some(digits_value(s) as u32)
    }
}

/// `p` after reading one line.
pub open spec fn apply_line(p: Prefs, line: Seq<u8>) -> Prefs {
    let q = find_byte(line, 61u8, 0);
    if q >= line.len() {
        p
    } else {
        let key = line.subrange(0, q);
        match number(line.subrange(q + 1, line.len() as int)) {
            None => p,
            Some(v) => if key == key_reduce_motion() {
                Prefs { reduce_motion: v != 0, ..p }
            } else if key == key_scale_num() {
                if v > 0 { Prefs { scale_num: v, ..p } } else { p }
            } else if key == key_scale_den() {
                if v > 0 { Prefs { scale_den: v, ..p } } else { p }
            } else if key == key_theme() {
                Prefs { theme: if v != 0 { 1u8 } else { 0u8 }, ..p }
            } else if key == key_idioma() {
                Prefs { idioma: if v != 0 { 1u8 } else { 0u8 }, ..p }
            } else {
                p
            },
        }
    }
}

/// `p` after reading the lines of `s` from `pos` on (lines end at `\n`).
pub open spec fn read_lines(s: Seq<u8>, pos: int, p: Prefs) -> Prefs
    decreases s.len() + 1 - pos,
{
    if pos < 0 || pos > s.len() {
        p
    } else {
        let e = find_byte(s, 10u8, pos);
        let p2 = apply_line(p, s.subrange(pos, e));
        if e >= s.len() {
            p2
        } else {
            proof {
                lemma_find_byte(s, 10u8, pos);
            }
            read_lines(s, e + 1, p2)
        }
    }
}

/// The preferences that the text `s` describes.
pub open spec fn parse_spec(s: Seq<u8>) -> Prefs {
    read_lines(s, 0, default_prefs())
}

pub open spec fn pow10(k: nat) -> nat
    decreases k,
{
    if k == 0 { 1 } else { 10 * pow10((k - 1) as nat) }
}

proof fn lemma_digits_bound(v: nat, k: nat)
    requires
        v < pow10(k),
    ensures
        digits(v).len() <= k,
    decreases k,
{
    if v > 0 && k > 0 {
        lemma_digits_bound(v / 10, (k - 1) as nat);
    }
}

proof fn lemma_digits_len(v: nat)
    ensures
        v > 0 ==> digits(v).len() >= 1,
        v < 10 ==> digits(v).len() <= 1,
        v <= u32::MAX ==> digits(v).len() <= 10,
{
    reveal_with_fuel(pow10, 11);
    if v <= u32::MAX {
        lemma_digits_bound(v, 10);
    }
    if v < 10 {
        lemma_digits_bound(v, 1);
    }
}

proof fn lemma_digits_value(v: nat)
    ensures
        all_digits(digits(v)),
        digits_value(digits(v)) == v,
    decreases v,
{
    if v > 0 {
        lemma_digits_value(v / 10);
        let d = digits(v);
        assert(d.drop_last() == digits(v / 10));
    }
}

/// Decimal text is made of the digits `0`..`9`.
pub proof fn lemma_decimal_digits(v: nat)
    ensures
        forall|k: int| 0 <= k < decimal(v).len() ==> 48u8 <= #[trigger] decimal(v)[k] <= 57u8,
{
    lemma_decimal(v);
}

proof fn lemma_decimal(v: nat)
    ensures
        decimal(v).len() >= 1,
        all_digits(decimal(v)),
        digits_value(decimal(v)) == v,
        decimal(v).last() != 13u8,
        forall|i: int| 0 <= i < decimal(v).len() ==> decimal(v)[i] != 10u8 && decimal(v)[i] != 61u8,
{
    lemma_digits_value(v);
    lemma_digits_len(v);
    if v == 0 {
        assert(decimal(v).drop_last() =~= Seq::<u8>::empty());
    }
}

/// Number of decimal digits of `v`.
pub(crate) fn decimal_len(v: u32) -> (n: usize)
    ensures
        n == decimal(v as nat).len(),
        1 <= n <= 10,
{
    proof {
        lemma_digits_len(v as nat);
    }
    if v == 0 {
        return 1;
    }
    let mut n: usize = 0;
    let mut t: u32 = v;
    while t > 0
        invariant
            0 < v,
            t <= v,
            n + digits(t as nat).len() == digits(v as nat).len(),
            digits(v as nat).len() <= 10,
        decreases t,
    {
        t = t / 10;
        n += 1;
    }
    n
}

/// Writes the decimal text of `v` at `pos`.
pub(crate) fn put_decimal(out: &mut [u8], pos: usize, v: u32) -> (r: usize)
    requires
        pos + decimal(v as nat).len() <= old(out).len(),
    ensures
        r == pos + decimal(v as nat).len(),
        final(out)@ == splice(old(out)@, pos as int, decimal(v as nat)),
{
    let len = decimal_len(v);
    if v == 0 {
        out[pos] = 48u8;
        assert(out@ =~= splice(old(out)@, pos as int, decimal(v as nat)));
        return pos + 1;
    }
    let end = pos + len;
    let mut i = end;
    let mut t: u32 = v;
    while t > 0
        invariant
            pos <= i <= end <= out.len(),
            end == pos + digits(v as nat).len(),
            out@.len() == old(out)@.len(),
            i == pos + digits(t as nat).len(),
            digits(v as nat) == digits(t as nat) + out@.subrange(i as int, end as int),
            forall|k: int| 0 <= k < i ==> out@[k] == old(out)@[k],
            forall|k: int| end <= k < out@.len() ==> out@[k] == old(out)@[k],
        decreases t,
    {
        proof {
            lemma_digits_len(t as nat);
        }
        let d = (t % 10) as u8;
        let ghost before = out@;
        out[i - 1] = 48u8 + d;
        assert(out@.subrange(i - 1, end as int) =~= seq![(48u8 + d) as u8] + before.subrange(i as int, end as int));
        assert(digits(t as nat) == digits((t / 10) as nat).push((48u8 + t % 10) as u8));
        assert(digits(t as nat) + before.subrange(i as int, end as int) =~= digits((t / 10) as nat) + out@.subrange(i - 1, end as int));
        t = t / 10;
        i = i - 1;
    }
    assert(out@ =~= splice(old(out)@, pos as int, decimal(v as nat)));
    end
}

/// Writes `key=value\n` at `pos`.
fn put_line(out: &mut [u8], pos: usize, key: &[u8], v: u32) -> (r: usize)
    requires
        pos + pref_line(key@, v as nat).len() <= old(out).len(),
    ensures
        r == pos + pref_line(key@, v as nat).len(),
        final(out)@ == splice(old(out)@, pos as int, pref_line(key@, v as nat)),
{
    let ghost o = out@;
    crate::bytes::copy_in(out, pos, key);
    let p1 = pos + key.len();
    out[p1] = 61u8;
    assert(out@ == splice(splice(o, pos as int, key@), p1 as int, seq![61u8]));
    proof {
        lemma_splice_concat(o, pos as int, key@, seq![61u8]);
    }
    let p2 = put_decimal(out, p1 + 1, v);
    proof {
        lemma_splice_concat(o, pos as int, key@ + seq![61u8], decimal(v as nat));
    }
    out[p2] = 10u8;
    let ghost w = key@ + seq![61u8] + decimal(v as nat);
    assert(out@ == splice(splice(o, pos as int, w), p2 as int, seq![10u8]));
    proof {
        lemma_splice_concat(o, pos as int, w, seq![10u8]);
    }
    p2 + 1
}

/// Writes the preferences into `out` and returns the number of bytes used, or 0 when the
/// text does not fit (then `out` is left as it was).
pub fn serializa(p: &Prefs, out: &mut [u8]) -> (n: usize)
    ensures
        prefs_text(*p).len() <= old(out).len() ==> n == prefs_text(*p).len() && final(out)@
            == splice(old(out)@, 0, prefs_text(*p)),
        prefs_text(*p).len() > old(out).len() ==> n == 0 && final(out)@ == old(out)@,
{
    let rm: u32 = if p.reduce_motion { 1 } else { 0 };
    let th: u32 = p.theme as u32;
    let id: u32 = p.idioma as u32;
    let total = 13 + decimal_len(rm) + 9 + decimal_len(p.scale_num) + 9 + decimal_len(p.scale_den)
        + 5 + decimal_len(th) + 6 + decimal_len(id) + 10;
    let ghost l1 = pref_line(key_reduce_motion(), rm as nat);
    let ghost l2 = pref_line(key_scale_num(), p.scale_num as nat);
    let ghost l3 = pref_line(key_scale_den(), p.scale_den as nat);
    let ghost l4 = pref_line(key_theme(), th as nat);
    let ghost l5 = pref_line(key_idioma(), id as nat);
    assert(prefs_text(*p) == l1 + l2 + l3 + l4 + l5);
    assert(total == prefs_text(*p).len());
    if total > out.len() {
        return 0;
    }
    let ghost o = out@;
    let k1 = reduce_motion_key();
    let n1 = put_line(out, 0, &k1, rm);
    let k2 = scale_num_key();
    let n2 = put_line(out, n1, &k2, p.scale_num);
    proof {
        lemma_splice_concat(o, 0, l1, l2);
    }
    let k3 = scale_den_key();
    let n3 = put_line(out, n2, &k3, p.scale_den);
    proof {
        lemma_splice_concat(o, 0, l1 + l2, l3);
    }
    let k4 = theme_key();
    let n4 = put_line(out, n3, &k4, th);
    proof {
        lemma_splice_concat(o, 0, l1 + l2 + l3, l4);
    }
    let k5 = idioma_key();
    let n5 = put_line(out, n4, &k5, id);
    proof {
        lemma_splice_concat(o, 0, l1 + l2 + l3 + l4, l5);
    }
    n5
}

proof fn lemma_value_prefix(s: Seq<u8>, k: int)
    requires
        all_digits(s),
        0 <= k <= s.len(),
    ensures
        digits_value(s.subrange(0, k)) <= digits_value(s),
    decreases s.len(),
{
    if k < s.len() {
        assert(s.drop_last().subrange(0, k) =~= s.subrange(0, k));
        lemma_value_prefix(s.drop_last(), k);
    } else {
        assert(s.subrange(0, k) =~= s);
    }
}

/// The number in `b[lo..hi]`.
fn number_in(b: &[u8], lo: usize, hi: usize) -> (r: Option<u32>)
    requires
        lo <= hi <= b.len(),
    ensures
        r == number(b@.subrange(lo as int, hi as int)),
{
    let ghost whole = b@.subrange(lo as int, hi as int);
    let mut end = hi;
    if end > lo && b[end - 1] == 13u8 {
        end = end - 1;
        assert(whole.drop_last() =~= b@.subrange(lo as int, end as int));
    }
    let ghost s = b@.subrange(lo as int, end as int);
    assert(s == if whole.len() > 0 && whole.last() == 13u8 { whole.drop_last() } else { whole });
    if end == lo {
        return None;
    }
    let mut v: u32 = 0;
    let mut i = lo;
    while i < end
        invariant
            lo <= i <= end <= hi <= b.len(),
            s == b@.subrange(lo as int, end as int),
            whole == b@.subrange(lo as int, hi as int),
            s == if whole.len() > 0 && whole.last() == 13u8 { whole.drop_last() } else { whole },
            s.len() > 0,
            all_digits(b@.subrange(lo as int, i as int)),
            v == digits_value(b@.subrange(lo as int, i as int)),
        decreases end - i,
    {
        let c = b[i];
        if c < 48u8 || c > 57u8 {
            assert(s[i - lo] == c);
            return None;
        }
        let ghost next = b@.subrange(lo as int, i + 1);
        assert(next.drop_last() =~= b@.subrange(lo as int, i as int));
        assert(all_digits(next)) by {
            assert forall|k: int| 0 <= k < next.len() implies 48u8 <= #[trigger] next[k] <= 57u8 by {
                if k < next.len() - 1 {
                    assert(next[k] == b@.subrange(lo as int, i as int)[k]);
                }
            }
        }
        let d = (c - 48u8) as u32;
        let m = v.checked_mul(10);
        if m.is_none() {
            proof {
                if all_digits(s) {
                    assert(s.subrange(0, i + 1 - lo) =~= next);
                    lemma_value_prefix(s, i + 1 - lo);
                }
            }
            return None;
        }
        let a = m.unwrap().checked_add(d);
        if a.is_none() {
            proof {
                if all_digits(s) {
                    assert(s.subrange(0, i + 1 - lo) =~= next);
                    lemma_value_prefix(s, i + 1 - lo);
                }
            }
            return None;
        }
        v = a.unwrap();
        i += 1;
    }
    Some(v)
}

/// `p` after reading the line `b[lo..hi]`.
fn apply_line_in(p: Prefs, b: &[u8], lo: usize, hi: usize) -> (r: Prefs)
    requires
        lo <= hi <= b.len(),
    ensures
        r == apply_line(p, b@.subrange(lo as int, hi as int)),
{
    let ghost line = b@.subrange(lo as int, hi as int);
    let q = find_byte_in(b, 61u8, lo, hi);
    proof {
        crate::text::lemma_find_byte_window(b@, 61u8, lo as int, hi as int, lo as int);
    }
    if q >= hi {
        return p;
    }
    assert(line.subrange(0, q - lo) =~= b@.subrange(lo as int, q as int));
    assert(line.subrange(q + 1 - lo, line.len() as int) =~= b@.subrange(q + 1, hi as int));
    let v = match number_in(b, q + 1, hi) {
        None => { return p; },
        Some(v) => v,
    };
    let k1 = reduce_motion_key();
    if range_eq(b, lo, q, &k1) {
        return Prefs { reduce_motion: v != 0, ..p };
    }
    let k2 = scale_num_key();
    if range_eq(b, lo, q, &k2) {
        return if v > 0 { Prefs { scale_num: v, ..p } } else { p };
    }
    let k3 = scale_den_key();
    if range_eq(b, lo, q, &k3) {
        return if v > 0 { Prefs { scale_den: v, ..p } } else { p };
    }
    let k4 = theme_key();
    if range_eq(b, lo, q, &k4) {
        return Prefs { theme: if v != 0 { 1u8 } else { 0u8 }, ..p };
    }
    let k5 = idioma_key();
    if range_eq(b, lo, q, &k5) {
        return Prefs { idioma: if v != 0 { 1u8 } else { 0u8 }, ..p };
    }
    p
}

/// Reads preferences from `bytes`, keeping the default for whatever is missing or makes
/// no sense.
pub fn parse(bytes: &[u8]) -> (p: Prefs)
    ensures
        p == parse_spec(bytes@),
{
    let mut p = Prefs::default();
    let mut pos: usize = 0;
    assert(bytes@.subrange(0, bytes@.len() as int) =~= bytes@);
    loop
        invariant
            pos <= bytes.len(),
            bytes@.subrange(0, bytes@.len() as int) == bytes@,
            parse_spec(bytes@) == read_lines(bytes@, pos as int, p),
        decreases bytes.len() - pos,
    {
        let e = find_byte_in(bytes, 10u8, pos, bytes.len());
        p = apply_line_in(p, bytes, pos, e);
        if e >= bytes.len() {
            return p;
        }
        pos = e + 1;
    }
}

/// A key holds neither a line end nor `=`.
pub open spec fn plain_key(k: Seq<u8>) -> bool {
    forall|i: int| 0 <= i < k.len() ==> #[trigger] k[i] != 10u8 && k[i] != 61u8
}

proof fn lemma_keys_plain()
    ensures
        plain_key(key_reduce_motion()),
        plain_key(key_scale_num()),
        plain_key(key_scale_den()),
        plain_key(key_theme()),
        plain_key(key_idioma()),
        key_scale_den() != key_scale_num(),
{
    assert(key_scale_den()[6] != key_scale_num()[6]);
}

proof fn lemma_apply_pref_line(p: Prefs, key: Seq<u8>, v: u32)
    requires
        plain_key(key),
    ensures
        apply_line(p, key + seq![61u8] + decimal(v as nat)) == ({
            let line = key + seq![61u8] + decimal(v as nat);
            let q = key.len() as int;
            match number(line.subrange(q + 1, line.len() as int)) {
                None => p,
                Some(w) => if key == key_reduce_motion() {
                    Prefs { reduce_motion: w != 0, ..p }
                } else if key == key_scale_num() {
                    if w > 0 { Prefs { scale_num: w, ..p } } else { p }
                } else if key == key_scale_den() {
                    if w > 0 { Prefs { scale_den: w, ..p } } else { p }
                } else if key == key_theme() {
                    Prefs { theme: if w != 0 { 1u8 } else { 0u8 }, ..p }
                } else if key == key_idioma() {
                    Prefs { idioma: if w != 0 { 1u8 } else { 0u8 }, ..p }
                } else {
                    p
                },
            }
        }),
        number((key + seq![61u8] + decimal(v as nat)).subrange(key.len() as int + 1, (key + seq![61u8] + decimal(v as nat)).len() as int)) == Some(v),
{
    let line = key + seq![61u8] + decimal(v as nat);
    let q = key.len() as int;
    assert forall|k: int| 0 <= k < q implies line[k] != 61u8 by {
        assert(line[k] == key[k]);
    }
    crate::text::lemma_find_byte_at(line, 61u8, 0, q);
    assert(line.subrange(0, q) =~= key);
    let val = line.subrange(q + 1, line.len() as int);
    assert(val =~= decimal(v as nat));
    lemma_decimal(v as nat);
}

proof fn lemma_read_pref_line(s: Seq<u8>, pos: int, key: Seq<u8>, v: u32, p: Prefs)
    requires
        plain_key(key),
        0 <= pos,
        pos + pref_line(key, v as nat).len() <= s.len(),
        s.subrange(pos, pos + pref_line(key, v as nat).len()) == pref_line(key, v as nat),
    ensures
        read_lines(s, pos, p) == read_lines(
            s,
            pos + pref_line(key, v as nat).len(),
            apply_line(p, key + seq![61u8] + decimal(v as nat)),
        ),
{
    let line = pref_line(key, v as nat);
    let l = line.len() as int;
    lemma_decimal(v as nat);
    assert forall|k: int| pos <= k < pos + l - 1 implies s[k] != 10u8 by {
        assert(s[k] == line[k - pos]);
        if k - pos < key.len() {
            assert(line[k - pos] == key[k - pos]);
        } else if k - pos > key.len() {
            assert(line[k - pos] == decimal(v as nat)[k - pos - key.len() - 1]);
        }
    }
    assert(s[pos + l - 1] == line[l - 1]);
    crate::text::lemma_find_byte_at(s, 10u8, pos, pos + l - 1);
    assert(s.subrange(pos, pos + l - 1) =~= key + seq![61u8] + decimal(v as nat));
}

/// Reading back the text that `serializa` writes gives the same preferences, for every value
/// that reading can produce (scales above zero, theme and language 0 or 1).
pub proof fn lemma_parse_serializa(p: Prefs)
    requires
        p.scale_num > 0,
        p.scale_den > 0,
        p.theme <= 1,
        p.idioma <= 1,
    ensures
        parse_spec(prefs_text(p)) == p,
{
    let rm: u32 = if p.reduce_motion { 1 } else { 0 };
    let l1 = pref_line(key_reduce_motion(), rm as nat);
    let l2 = pref_line(key_scale_num(), p.scale_num as nat);
    let l3 = pref_line(key_scale_den(), p.scale_den as nat);
    let l4 = pref_line(key_theme(), p.theme as nat);
    let l5 = pref_line(key_idioma(), p.idioma as nat);
    let s = prefs_text(p);
    assert(s == l1 + l2 + l3 + l4 + l5);
    lemma_keys_plain();
    let d = default_prefs();
    let a1 = l1.len() as int;
    let a2 = a1 + l2.len();
    let a3 = a2 + l3.len();
    let a4 = a3 + l4.len();
    let a5 = a4 + l5.len();
    assert(s.subrange(0, a1) =~= l1);
    assert(s.subrange(a1, a2) =~= l2);
    assert(s.subrange(a2, a3) =~= l3);
    assert(s.subrange(a3, a4) =~= l4);
    assert(s.subrange(a4, a5) =~= l5);
    lemma_read_pref_line(s, 0, key_reduce_motion(), rm, d);
    lemma_apply_pref_line(d, key_reduce_motion(), rm);
    let p1 = Prefs { reduce_motion: p.reduce_motion, ..d };
    lemma_read_pref_line(s, a1, key_scale_num(), p.scale_num, p1);
    lemma_apply_pref_line(p1, key_scale_num(), p.scale_num);
    let p2 = Prefs { scale_num: p.scale_num, ..p1 };
    lemma_read_pref_line(s, a2, key_scale_den(), p.scale_den, p2);
    lemma_apply_pref_line(p2, key_scale_den(), p.scale_den);
    let p3 = Prefs { scale_den: p.scale_den, ..p2 };
    lemma_read_pref_line(s, a3, key_theme(), p.theme as u32, p3);
    lemma_apply_pref_line(p3, key_theme(), p.theme as u32);
    let p4 = Prefs { theme: p.theme, ..p3 };
    lemma_read_pref_line(s, a4, key_idioma(), p.idioma as u32, p4);
    lemma_apply_pref_line(p4, key_idioma(), p.idioma as u32);
    let p5 = Prefs { idioma: p.idioma, ..p4 };
    assert(p5 == p);
    assert(s.subrange(a5, a5) =~= Seq::<u8>::empty());
}

} // verus!
