//! The checksum of a stream header.

use vstd::prelude::*;

verus! {

/// The polynomial of the checksum, lowest bit first.
pub const CRC32_POLY_REFLECTED: u32 = 0xEDB8_8320;

/// The register with one bit divided out.
pub open spec fn crc_bit(crc: u32) -> u32 {
    if crc & 1 == 1 {
        (crc >> 1) ^ 0xEDB8_8320u32
    } else {
        crc >> 1
    }
}

/// The register with `n` bits divided out.
pub open spec fn crc_bits(crc: u32, n: nat) -> u32
    decreases n,
{
    if n == 0 {
        crc
    } else {
        crc_bit(crc_bits(crc, (n - 1) as nat))
    }
}

/// The register behind `data`: each byte enters at the low end, and its eight bits are
/// divided out.
pub open spec fn crc_register(data: Seq<u8>) -> u32
    decreases data.len(),
{
    if data.len() == 0 {
        0xFFFF_FFFF
    } else {
        crc_bits(crc_register(data.drop_last()) ^ (data.last() as u32), 8)
    }
}

/// The checksum of `data`: the complement of the register.
pub open spec fn crc32(data: Seq<u8>) -> u32 {
    crc_register(data) ^ 0xFFFF_FFFF
}

/// The checksum of `data`.
#[must_use]
pub fn sv8_crc32(data: &[u8]) -> (crc: u32)
    ensures
        crc == crc32(data@),
{
    let mut crc: u32 = 0xFFFF_FFFF;
    let mut i: usize = 0;
    assert(data@.take(0) =~= Seq::<u8>::empty());
    while i < data.len()
        invariant
            i <= data@.len(),
            crc == crc_register(data@.take(i as int)),
        decreases data@.len() - i,
    {
        let ghost before = crc ^ (data@[i as int] as u32);
        crc = crc ^ data[i] as u32;
        let mut k: u32 = 0;
        while k < 8
            invariant
                k <= 8,
                crc == crc_bits(before, k as nat),
            decreases 8 - k,
        {
            let low: u32 = crc & 1;
            crc = crc >> 1;
            if low == 1 {
                crc = crc ^ CRC32_POLY_REFLECTED;
            }
            k = k + 1;
        }
        proof {
            let more = data@.take(i + 1);
            assert(more.drop_last() =~= data@.take(i as int));
            assert(more.last() == data@[i as int]);
        }
        i = i + 1;
    }
    assert(data@.take(i as int) =~= data@);
    crc ^ 0xFFFF_FFFF
}

} // verus!
