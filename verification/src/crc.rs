//! CRC-32 (IEEE 802.3, reflected, polynomial 0xEDB88320), computed bit by bit.
use vstd::prelude::*;

verus! {

/// One bit step of the reflected CRC register.
pub open spec fn crc_bit(c: u32) -> u32 {
    (c >> 1u32) ^ (0xedb8_8320u32 & 0u32.wrapping_sub(c & 1u32))
}

/// `k` bit steps.
pub open spec fn crc_bits(c: u32, k: nat) -> u32
    decreases k,
{
    if k == 0 {
        c
    } else {
        crc_bits(crc_bit(c), (k - 1) as nat)
    }
}

/// The register after feeding all of `data` into the initial value `0xffffffff`.
pub open spec fn crc_register(data: Seq<u8>) -> u32
    decreases data.len(),
{
    if data.len() == 0 {
        0xffff_ffff
    } else {
        crc_bits(crc_register(data.drop_last()) ^ (data.last() as u32), 8)
    }
}

/// The CRC-32 of `data`: the complemented final register.
pub open spec fn crc32_spec(data: Seq<u8>) -> u32 {
    !crc_register(data)
}

/// CRC-32 (IEEE, reflected) of `data`.
pub fn crc32(data: &[u8]) -> (r: u32)
    ensures
        r == crc32_spec(data@),
{
    let mut crc: u32 = 0xffff_ffff;
    let mut i: usize = 0;
    while i < data.len()
        invariant
            i <= data.len(),
            crc == crc_register(data@.subrange(0, i as int)),
        decreases data.len() - i,
    {
        let ghost prefix = data@.subrange(0, i as int + 1);
        assert(prefix.drop_last() =~= data@.subrange(0, i as int));
        crc = crc ^ (data[i] as u32);
        let mut k: u32 = 0;
        let ghost c0 = crc;
        while k < 8
            invariant
                k <= 8,
                crc_bits(c0, 8) == crc_bits(crc, (8 - k) as nat),
            decreases 8 - k,
        {
            let mask = 0u32.wrapping_sub(crc & 1);
            crc = (crc >> 1) ^ (0xedb8_8320 & mask);
            k += 1;
        }
        i += 1;
    }
    assert(data@.subrange(0, data.len() as int) =~= data@);
    !crc
}

} // verus!
