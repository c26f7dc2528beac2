//! CRC-32 (IEEE, reflected) used by every checksummed NovaDB format.
use vstd::prelude::*;

verus! {

/// One bit step of the reflected CRC-32 register.
pub open spec fn crc_bit(c: u32) -> u32 {
    if c & 1 == 1 {
        (c >> 1) ^ 0xedb8_8320u32
    } else {
        c >> 1
    }
}

/// `n` bit steps of the CRC-32 register.
pub open spec fn crc_bits(c: u32, n: nat) -> u32
    decreases n,
{
    if n == 0 {
        c
    } else {
        crc_bits(crc_bit(c), (n - 1) as nat)
    }
}

/// Feeds one byte into the CRC-32 register.
pub open spec fn crc_byte(c: u32, b: u8) -> u32 {
    crc_bits(c ^ (b as u32), 8)
}

/// The CRC-32 register after feeding all of `bytes`, starting from all ones.
pub open spec fn crc_register(bytes: Seq<u8>) -> u32
    decreases bytes.len(),
{
    if bytes.len() == 0 {
        0xffff_ffffu32
    } else {
        crc_byte(crc_register(bytes.drop_last()), bytes.last())
    }
}

/// The standard CRC-32 of a byte sequence.
pub open spec fn crc32_of(bytes: Seq<u8>) -> u32 {
    !crc_register(bytes)
}

/// `bytes` with the positions in `[lo, hi)` replaced by zero.
pub open spec fn zeroed(bytes: Seq<u8>, lo: int, hi: int) -> Seq<u8> {
    Seq::new(bytes.len(), |i: int| if lo <= i && i < hi { 0u8 } else { bytes[i] })
}

/// Computes the CRC-32 of `bytes`, treating the bytes in `[zero_start,
/// zero_end)` as zero (the place where the checksum itself is stored).
pub fn crc32(bytes: &[u8], zero_start: usize, zero_end: usize) -> (r: u32)
    ensures
        r == crc32_of(zeroed(bytes@, zero_start as int, zero_end as int)),
{
    let ghost z = zeroed(bytes@, zero_start as int, zero_end as int);
    let mut crc: u32 = 0xffff_ffff;
    let mut index: usize = 0;
    while index < bytes.len()
        invariant
            index <= bytes.len(),
            z == zeroed(bytes@, zero_start as int, zero_end as int),
            crc == crc_register(z.take(index as int)),
        decreases bytes.len() - index,
    {
        let byte: u8 = if zero_start <= index && index < zero_end {
            0
        } else {
            bytes[index]
        };
        crc = crc ^ (byte as u32);
        let mut bit: usize = 0;
        let ghost start = crc;
        while bit < 8
            invariant
                bit <= 8,
                crc_bits(start, 8) == crc_bits(crc, (8 - bit) as nat),
            decreases 8 - bit,
        {
            crc = if crc & 1 == 1 {
                (crc >> 1) ^ 0xedb8_8320u32
            } else {
                crc >> 1
            };
            bit = bit + 1;
        }
        proof {
            assert(z.take(index + 1).drop_last() =~= z.take(index as int));
            assert(z.take(index + 1).last() == byte);
        }
        index = index + 1;
    }
    proof {
        assert(z.take(index as int) =~= z);
    }
    !crc
}

} // verus!
