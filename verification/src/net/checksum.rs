//! The Internet one's-complement checksum (RFC 1071) shared by IPv4, ICMP and ICMPv6.
use vstd::prelude::*;

verus! {

/// Sum of the first `n` big-endian 16-bit words of `s`.
pub open spec fn word_sum(s: Seq<u8>, n: nat) -> nat
    decreases n,
{
    if n == 0 {
        0
    } else {
        word_sum(s, (n - 1) as nat) + s[2 * (n - 1)] as nat * 256 + s[2 * (n - 1) + 1] as nat
    }
}

/// Sum of all big-endian 16-bit words of `s`; an odd trailing byte counts as its high half.
pub open spec fn ones_sum(s: Seq<u8>) -> nat {
    word_sum(s, s.len() / 2) + if s.len() % 2 == 1 {
        s[s.len() - 1] as nat * 256
    } else {
        0
    }
}

/// End-around-carry folding of a sum into 16 bits.
pub open spec fn fold16(x: nat) -> nat
    decreases x,
{
    if x < 0x1_0000 {
        x
    } else {
        fold16((x % 0x1_0000 + x / 0x1_0000) as nat)
    }
}

/// The checksum of a sum of words: the complement of its folded value.
pub open spec fn finish(x: nat) -> u16 {
    !(fold16(x) as u16)
}

/// The RFC 1071 checksum of `s`.
pub open spec fn inet_checksum_spec(s: Seq<u8>) -> u16 {
    finish(ones_sum(s))
}

proof fn lemma_word_sum_bound(s: Seq<u8>, n: nat)
    requires
        2 * n <= s.len(),
    ensures
        word_sum(s, n) <= n * 0xffff,
    decreases n,
{
    if n > 0 {
        lemma_word_sum_bound(s, (n - 1) as nat);
    }
}

proof fn lemma_fold16_bound(x: nat)
    ensures
        fold16(x) < 0x1_0000,
    decreases x,
{
    if x >= 0x1_0000 {
        lemma_fold16_bound((x % 0x1_0000 + x / 0x1_0000) as nat);
    }
}

/// Adds the words of `data` to `acc`.
pub fn ones_sum_add(data: &[u8], acc: u32) -> (r: u32)
    requires
        acc + (data.len() / 2 + 1) * 0xffff <= u32::MAX,
    ensures
        r == acc + ones_sum(data@),
        r <= acc + (data.len() / 2 + 1) * 0xffff,
{
    let n = data.len() / 2;
    let mut sum: u32 = acc;
    let mut i: usize = 0;
    proof {
        lemma_word_sum_bound(data@, n as nat);
    }
    while i < n
        invariant
            n == data@.len() / 2,
            acc + (n + 1) * 0xffff <= u32::MAX,
            0 <= i <= n,
            sum == acc + word_sum(data@, i as nat),
        decreases n - i,
    {
        proof {
            lemma_word_sum_bound(data@, (i + 1) as nat);
            assert(acc + (i + 1) * 0xffff <= acc + (n + 1) * 0xffff) by (nonlinear_arith)
                requires i + 1 <= n + 1;
        }
        sum = sum + (data[2 * i] as u32) * 256 + data[2 * i + 1] as u32;
        i += 1;
    }
    proof {
        lemma_word_sum_bound(data@, n as nat);
        assert(acc + n * 0xffff + 0xffff == acc + (n + 1) * 0xffff) by (nonlinear_arith);
    }
    if data.len() % 2 == 1 {
        sum = sum + (data[data.len() - 1] as u32) * 256;
    }
    sum
}

/// Folds `sum` and complements it.
pub fn finish_sum(sum: u32) -> (r: u16)
    ensures
        r == finish(sum as nat),
{
    let mut s = sum;
    while s >> 16 != 0
        invariant
            fold16(s as nat) == fold16(sum as nat),
        decreases s,
    {
        assert(s >> 16 != 0 ==> s >= 0x1_0000) by (bit_vector);
        assert((s & 0xffff) == s % 0x1_0000 && (s >> 16) == s / 0x1_0000) by (bit_vector);
        s = (s & 0xffff) + (s >> 16);
    }
    assert(s >> 16 == 0 ==> s < 0x1_0000) by (bit_vector);
    !(s as u16)
}

/// Internet checksum (RFC 1071) of `data`.
pub fn inet_checksum(data: &[u8]) -> (r: u16)
    requires
        data.len() < 0x2_0000,
    ensures
        r == inet_checksum_spec(data@),
{
    let s = ones_sum_add(data, 0);
    finish_sum(s)
}

} // verus!
