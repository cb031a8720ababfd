//! Byte-level helpers shared by the wire formats: big/little-endian field access and
//! in-place copies, each with an exact contract over the buffer's sequence view.
use vstd::prelude::*;

verus! {

/// `s` with the bytes of `t` written over it starting at `off`.
pub open spec fn splice(s: Seq<u8>, off: int, t: Seq<u8>) -> Seq<u8> {
    s.subrange(0, off) + t + s.subrange(off + t.len(), s.len() as int)
}

/// Big-endian value of the two bytes at `o`.
pub open spec fn be16(s: Seq<u8>, o: int) -> int {
    s[o] * 256 + s[o + 1]
}

/// Big-endian value of the four bytes at `o`.
pub open spec fn be32(s: Seq<u8>, o: int) -> int {
    s[o] * 0x100_0000 + s[o + 1] * 0x1_0000 + s[o + 2] * 0x100 + s[o + 3]
}

/// Little-endian value of the two bytes at `o`.
pub open spec fn le16(s: Seq<u8>, o: int) -> int {
    s[o] + s[o + 1] * 256
}

/// Little-endian value of the four bytes at `o`.
pub open spec fn le32(s: Seq<u8>, o: int) -> int {
    s[o] + s[o + 1] * 0x100 + s[o + 2] * 0x1_0000 + s[o + 3] * 0x100_0000
}

/// Little-endian value of the eight bytes at `o`.
pub open spec fn le64(s: Seq<u8>, o: int) -> int {
    le32(s, o) + le32(s, o + 4) * 0x1_0000_0000
}

/// Big-endian encoding of a 16-bit value.
pub open spec fn be16_bytes(v: int) -> Seq<u8> {
    seq![(v / 256 % 256) as u8, (v % 256) as u8]
}

/// Big-endian encoding of a 32-bit value.
pub open spec fn be32_bytes(v: int) -> Seq<u8> {
    seq![(v / 0x100_0000 % 256) as u8, (v / 0x1_0000 % 256) as u8, (v / 0x100 % 256) as u8, (v % 256) as u8]
}

/// Little-endian encoding of a 32-bit value.
pub open spec fn le32_bytes(v: int) -> Seq<u8> {
    seq![(v % 256) as u8, (v / 0x100 % 256) as u8, (v / 0x1_0000 % 256) as u8, (v / 0x100_0000 % 256) as u8]
}

/// Little-endian encoding of a 64-bit value.
pub open spec fn le64_bytes(v: int) -> Seq<u8> {
    le32_bytes(v % 0x1_0000_0000) + le32_bytes(v / 0x1_0000_0000)
}

/// Reads a big-endian `u16` at `o`.
pub fn get_be16(b: &[u8], o: usize) -> (r: u16)
    requires
        o + 2 <= b.len(),
    ensures
        r == be16(b@, o as int),
{
    (b[o] as u16) * 256 + b[o + 1] as u16
}

/// Reads a big-endian `u32` at `o`.
pub fn get_be32(b: &[u8], o: usize) -> (r: u32)
    requires
        o + 4 <= b.len(),
    ensures
        r == be32(b@, o as int),
{
    (b[o] as u32) * 0x100_0000 + (b[o + 1] as u32) * 0x1_0000 + (b[o + 2] as u32) * 0x100 + b[o + 3] as u32
}

/// Reads a little-endian `u16` at `o`.
pub fn get_le16(b: &[u8], o: usize) -> (r: u16)
    requires
        o + 2 <= b.len(),
    ensures
        r == le16(b@, o as int),
{
    b[o] as u16 + (b[o + 1] as u16) * 256
}

/// Reads a little-endian `u32` at `o`.
pub fn get_le32(b: &[u8], o: usize) -> (r: u32)
    requires
        o + 4 <= b.len(),
    ensures
        r == le32(b@, o as int),
{
    b[o] as u32 + (b[o + 1] as u32) * 0x100 + (b[o + 2] as u32) * 0x1_0000 + (b[o + 3] as u32) * 0x100_0000
}

/// Reads a little-endian `u64` at `o`.
pub fn get_le64(b: &[u8], o: usize) -> (r: u64)
    requires
        o + 8 <= b.len(),
    ensures
        r == le64(b@, o as int),
{
    let lo = get_le32(b, o) as u64;
    let hi = get_le32(b, o + 4) as u64;
    lo + hi * 0x1_0000_0000
}

/// Byte-wise equality of two slices.
pub fn bytes_eq(a: &[u8], b: &[u8]) -> (r: bool)
    ensures
        r == (a@ == b@),
{
    if a.len() != b.len() {
        return false;
    }
    let mut i: usize = 0;
    while i < a.len()
        invariant
            a.len() == b.len(),
            i <= a.len(),
            forall|k: int| 0 <= k < i ==> a@[k] == b@[k],
        decreases a.len() - i,
    {
        if a[i] != b[i] {
            return false;
        }
        i += 1;
    }
    assert(a@ =~= b@);
    true
}

/// Copies `src` into `buf` at `off`.
pub fn copy_in(buf: &mut [u8], off: usize, src: &[u8])
    requires
        off + src@.len() <= old(buf).len(),
    ensures
        final(buf)@ == splice(old(buf)@, off as int, src@),
{
    let n = src.len();
    let mut i: usize = 0;
    while i < n
        invariant
            n == src@.len(),
            off + n <= buf.len(),
            0 <= i <= n,
            buf@.len() == old(buf)@.len(),
            forall|k: int| 0 <= k < off ==> buf@[k] == old(buf)@[k],
            forall|k: int| 0 <= k < i ==> buf@[off + k] == src@[k],
            forall|k: int| off + i <= k < buf@.len() ==> buf@[k] == old(buf)@[k],
        decreases n - i,
    {
        buf[off + i] = src[i];
        i += 1;
    }
    assert(buf@ =~= splice(old(buf)@, off as int, src@));
}

/// Fills `buf[off..off + len]` with `v`.
pub fn fill_range(buf: &mut [u8], off: usize, len: usize, v: u8)
    requires
        off + len <= old(buf).len(),
    ensures
        final(buf)@ == splice(old(buf)@, off as int, Seq::new(len as nat, |_i: int| v)),
{
    let mut i: usize = 0;
    while i < len
        invariant
            off + len <= buf.len(),
            0 <= i <= len,
            buf@.len() == old(buf)@.len(),
            forall|k: int| 0 <= k < off ==> buf@[k] == old(buf)@[k],
            forall|k: int| off <= k < off + i ==> buf@[k] == v,
            forall|k: int| off + i <= k < buf@.len() ==> buf@[k] == old(buf)@[k],
        decreases len - i,
    {
        buf[off + i] = v;
        i += 1;
    }
    assert(buf@ =~= splice(old(buf)@, off as int, Seq::new(len as nat, |_i: int| v)));
}

/// Writes `v` big-endian at `off`.
pub fn put_be16(buf: &mut [u8], off: usize, v: u16)
    requires
        off + 2 <= old(buf).len(),
    ensures
        final(buf)@ == splice(old(buf)@, off as int, be16_bytes(v as int)),
{
    buf[off] = (v / 256) as u8;
    buf[off + 1] = (v % 256) as u8;
    assert(buf@ =~= splice(old(buf)@, off as int, be16_bytes(v as int)));
}

/// Writes `v` little-endian at `off`.
pub fn put_le16(buf: &mut [u8], off: usize, v: u16)
    requires
        off + 2 <= old(buf).len(),
    ensures
        final(buf)@ == splice(old(buf)@, off as int, seq![(v % 256) as u8, (v / 256) as u8]),
{
    buf[off] = (v % 256) as u8;
    buf[off + 1] = (v / 256) as u8;
    assert(buf@ =~= splice(old(buf)@, off as int, seq![(v % 256) as u8, (v / 256) as u8]));
}

/// Writes `v` big-endian at `off`.
pub fn put_be32(buf: &mut [u8], off: usize, v: u32)
    requires
        off + 4 <= old(buf).len(),
    ensures
        final(buf)@ == splice(old(buf)@, off as int, be32_bytes(v as int)),
{
    buf[off] = (v / 0x100_0000 % 256) as u8;
    buf[off + 1] = (v / 0x1_0000 % 256) as u8;
    buf[off + 2] = (v / 0x100 % 256) as u8;
    buf[off + 3] = (v % 256) as u8;
    assert(buf@ =~= splice(old(buf)@, off as int, be32_bytes(v as int)));
}

/// Writes `v` little-endian at `off`.
pub fn put_le32(buf: &mut [u8], off: usize, v: u32)
    requires
        off + 4 <= old(buf).len(),
    ensures
        final(buf)@ == splice(old(buf)@, off as int, le32_bytes(v as int)),
{
    buf[off] = (v % 256) as u8;
    buf[off + 1] = (v / 0x100 % 256) as u8;
    buf[off + 2] = (v / 0x1_0000 % 256) as u8;
    buf[off + 3] = (v / 0x100_0000 % 256) as u8;
    assert(buf@ =~= splice(old(buf)@, off as int, le32_bytes(v as int)));
}

/// Writes `v` little-endian at `off`.
pub fn put_le64(buf: &mut [u8], off: usize, v: u64)
    requires
        off + 8 <= old(buf).len(),
    ensures
        final(buf)@ == splice(old(buf)@, off as int, le64_bytes(v as int)),
{
    put_le32(buf, off, (v % 0x1_0000_0000) as u32);
    put_le32(buf, off + 4, (v / 0x1_0000_0000) as u32);
    assert(buf@ =~= splice(old(buf)@, off as int, le64_bytes(v as int)));
}

/// Decoding what `put_le32` wrote gives the value back.
pub proof fn lemma_le32_roundtrip(v: u32)
    ensures
        le32(le32_bytes(v as int), 0) == v,
{
}

/// Decoding what `put_le64` wrote gives the value back.
pub proof fn lemma_le64_roundtrip(v: u64)
    ensures
        le64(le64_bytes(v as int), 0) == v,
{
    let lo = v as int % 0x1_0000_0000;
    let hi = v as int / 0x1_0000_0000;
    assert(le32(le32_bytes(lo), 0) == lo);
    assert(le32(le32_bytes(hi), 0) == hi);
    assert(le64_bytes(v as int).subrange(4, 8) =~= le32_bytes(hi));
}

/// Decoding what `put_be16` wrote gives the value back.
pub proof fn lemma_be16_roundtrip(v: u16)
    ensures
        be16(be16_bytes(v as int), 0) == v,
{
}

/// Decoding what `put_be32` wrote gives the value back.
pub proof fn lemma_be32_roundtrip(v: u32)
    ensures
        be32(be32_bytes(v as int), 0) == v,
{
}

/// A buffer whose first `t.len()` bytes are `t` and whose tail is that of `old` is
/// `old` with `t` written at the front.
pub proof fn lemma_prefix_splice(s: Seq<u8>, old: Seq<u8>, t: Seq<u8>)
    requires
        s.len() == old.len(),
        t.len() <= s.len(),
        s.subrange(0, t.len() as int) == t,
        s.subrange(t.len() as int, s.len() as int) == old.subrange(t.len() as int, old.len() as int),
    ensures
        s == splice(old, 0, t),
{
    assert forall|k: int| 0 <= k < s.len() implies s[k] == splice(old, 0, t)[k] by {
        if k < t.len() {
            assert(s[k] == s.subrange(0, t.len() as int)[k]);
        } else {
            assert(s[k] == s.subrange(t.len() as int, s.len() as int)[k - t.len()]);
        }
    }
    assert(s =~= splice(old, 0, t));
}

/// Writing `a` at `off` and then `b` right after it is writing `a + b` at `off`.
pub proof fn lemma_splice_concat(s: Seq<u8>, off: int, a: Seq<u8>, b: Seq<u8>)
    requires
        0 <= off,
        off + a.len() + b.len() <= s.len(),
    ensures
        splice(splice(s, off, a), off + a.len(), b) == splice(s, off, a + b),
{
    assert(splice(splice(s, off, a), off + a.len(), b) =~= splice(s, off, a + b));
}

/// The four bytes at `o` spell `v` little-endian.
pub proof fn lemma_le32_at(s: Seq<u8>, o: int, v: int)
    requires
        0 <= o,
        o + 4 <= s.len(),
        0 <= v < 0x1_0000_0000,
        s.subrange(o, o + 4) == le32_bytes(v),
    ensures
        le32(s, o) == v,
{
    assert(s[o] == s.subrange(o, o + 4)[0]);
    assert(s[o + 1] == s.subrange(o, o + 4)[1]);
    assert(s[o + 2] == s.subrange(o, o + 4)[2]);
    assert(s[o + 3] == s.subrange(o, o + 4)[3]);
}

/// The eight bytes at `o` spell `v` little-endian.
pub proof fn lemma_le64_at(s: Seq<u8>, o: int, v: int)
    requires
        0 <= o,
        o + 8 <= s.len(),
        0 <= v < 0x1_0000_0000_0000_0000,
        s.subrange(o, o + 8) == le64_bytes(v),
    ensures
        le64(s, o) == v,
{
    let lo = v % 0x1_0000_0000;
    let hi = v / 0x1_0000_0000;
    assert(s.subrange(o, o + 4) =~= s.subrange(o, o + 8).subrange(0, 4));
    assert(s.subrange(o + 4, o + 8) =~= s.subrange(o, o + 8).subrange(4, 8));
    assert(le64_bytes(v).subrange(0, 4) =~= le32_bytes(lo));
    assert(le64_bytes(v).subrange(4, 8) =~= le32_bytes(hi));
    lemma_le32_at(s, o, lo);
    lemma_le32_at(s, o + 4, hi);
}

/// `n` zero bytes.
pub open spec fn zeros(n: nat) -> Seq<u8> {
    Seq::new(n, |_i: int| 0u8)
}

/// `s` matches `target` before `off` and is zero from `off` on.
pub open spec fn filled_to(s: Seq<u8>, target: Seq<u8>, off: int) -> bool {
    &&& s.len() == target.len()
    &&& 0 <= off <= s.len()
    &&& forall|i: int| 0 <= i < off ==> #[trigger] s[i] == target[i]
    &&& forall|i: int| off <= i < s.len() ==> #[trigger] s[i] == 0u8
}

/// Writing the next field of `target` extends the matching prefix.
pub proof fn lemma_fill_field(s: Seq<u8>, target: Seq<u8>, off: int, t: Seq<u8>)
    requires
        filled_to(s, target, off),
        off + t.len() <= s.len(),
        forall|k: int| 0 <= k < t.len() ==> #[trigger] t[k] == target[off + k],
    ensures
        filled_to(splice(s, off, t), target, off + t.len()),
{
    let r = splice(s, off, t);
    assert forall|i: int| 0 <= i < off + t.len() implies #[trigger] r[i] == target[i] by {
        if i >= off {
            assert(r[i] == t[i - off]);
        }
    }
}

/// Zero bytes of `target` are matched already.
pub proof fn lemma_fill_gap(s: Seq<u8>, target: Seq<u8>, off: int, n: int)
    requires
        filled_to(s, target, off),
        0 <= n,
        off + n <= s.len(),
        forall|k: int| off <= k < off + n ==> #[trigger] target[k] == 0u8,
    ensures
        filled_to(s, target, off + n),
{
}

/// A buffer matching all of `target` is `target`.
pub proof fn lemma_filled(s: Seq<u8>, target: Seq<u8>)
    requires
        filled_to(s, target, s.len() as int),
    ensures
        s == target,
{
    assert(s =~= target);
}

/// Progress of a read that fills `buf` piece by piece: after piece `[done, done + take)` the
/// bytes read so far and the rest still to read make up the same whole.
pub proof fn lemma_read_progress<E>(
    old_buf: Seq<u8>,
    before: Seq<u8>,
    after: Seq<u8>,
    done: int,
    take: int,
    r1: Result<Seq<u8>, E>,
    r2: Result<Seq<u8>, E>,
    total: Result<Seq<u8>, E>,
)
    requires
        before.len() == old_buf.len(),
        after.len() == old_buf.len(),
        0 <= done,
        0 < take,
        done + take <= before.len(),
        before.subrange(done, before.len() as int) == old_buf.subrange(done, old_buf.len() as int),
        forall|k: int| 0 <= k < before.len() && !(done <= k < done + take) ==> #[trigger] after[k] == before[k],
        total == match r1 {
            Ok(rest) => Ok(before.subrange(0, done) + rest),
            Err(e) => Err::<Seq<u8>, E>(e),
        },
        r1 == match r2 {
            Ok(rest) => Ok(after.subrange(done, done + take) + rest),
            Err(e) => Err::<Seq<u8>, E>(e),
        },
    ensures
        after.subrange(done + take, after.len() as int) == old_buf.subrange(done + take, old_buf.len() as int),
        total == match r2 {
            Ok(rest) => Ok(after.subrange(0, done + take) + rest),
            Err(e) => Err::<Seq<u8>, E>(e),
        },
{
    assert forall|k: int| done + take <= k < after.len() implies after[k] == old_buf[k] by {
        assert(before[k] == before.subrange(done, before.len() as int)[k - done]);
    }
    assert(after.subrange(done + take, after.len() as int) =~= old_buf.subrange(done + take, old_buf.len() as int));
    assert(after.subrange(0, done + take) =~= before.subrange(0, done) + after.subrange(done, done + take));
    if let Ok(rest) = r2 {
        assert(before.subrange(0, done) + (after.subrange(done, done + take) + rest) =~= after.subrange(0, done + take) + rest);
    }
}

} // verus!
