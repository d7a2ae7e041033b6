//! The two checksums of a frame: CRC-8 over its header and CRC-16 over all of it.
//! Both start from zero, shift the most significant bit first and reflect nothing.
use vstd::prelude::*;

verus! {

/// `k` steps of the CRC-8 register, polynomial `x^8 + x^2 + x + 1`.
pub open spec fn crc8_shift(c: u8, k: nat) -> u8
    decreases k,
{
    if k == 0 {
        c
    } else {
        let d = crc8_shift(c, (k - 1) as nat);
        if d & 0x80u8 != 0 {
            (d << 1u8) ^ 0x07u8
        } else {
            d << 1u8
        }
    }
}

/// The CRC-8 of `bytes`.
pub open spec fn crc8_of(bytes: Seq<u8>) -> u8
    decreases bytes.len(),
{
    if bytes.len() == 0 {
        0
    } else {
        crc8_shift(crc8_of(bytes.drop_last()) ^ bytes.last(), 8)
    }
}

/// `k` steps of the CRC-16 register, polynomial `x^16 + x^15 + x^2 + 1`.
pub open spec fn crc16_shift(c: u16, k: nat) -> u16
    decreases k,
{
    if k == 0 {
        c
    } else {
        let d = crc16_shift(c, (k - 1) as nat);
        if d & 0x8000u16 != 0 {
            (d << 1u16) ^ 0x8005u16
        } else {
            d << 1u16
        }
    }
}

/// The CRC-16 of `bytes`.
pub open spec fn crc16_of(bytes: Seq<u8>) -> u16
    decreases bytes.len(),
{
    if bytes.len() == 0 {
        0
    } else {
        crc16_shift(crc16_of(bytes.drop_last()) ^ ((bytes.last() as u16) << 8u16), 8)
    }
}

/// The CRC-8 of `data[start..end]`.
pub fn crc8(data: &Vec<u8>, start: usize, end: usize) -> (r: u8)
    requires
        start <= end <= data@.len(),
    ensures
        r == crc8_of(data@.subrange(start as int, end as int)),
{
    let mut c: u8 = 0;
    let mut i: usize = start;
    while i < end
        invariant
            start <= i <= end <= data@.len(),
            c == crc8_of(data@.subrange(start as int, i as int)),
        decreases end - i,
    {
        proof {
            let next = data@.subrange(start as int, i + 1);
            assert(next.drop_last() =~= data@.subrange(start as int, i as int));
            assert(next.last() == data@[i as int]);
        }
        c = c ^ data[i];
        let mut k: u32 = 0;
        let ghost c0 = c;
        while k < 8
            invariant
                k <= 8,
                c == crc8_shift(c0, k as nat),
            decreases 8 - k,
        {
            c = if c & 0x80u8 != 0 {
                (c << 1u8) ^ 0x07u8
            } else {
                c << 1u8
            };
            k = k + 1;
        }
        i = i + 1;
    }
    c
}

/// The CRC-16 of `data[start..end]`.
pub fn crc16(data: &Vec<u8>, start: usize, end: usize) -> (r: u16)
    requires
        start <= end <= data@.len(),
    ensures
        r == crc16_of(data@.subrange(start as int, end as int)),
{
    let mut c: u16 = 0;
    let mut i: usize = start;
    while i < end
        invariant
            start <= i <= end <= data@.len(),
            c == crc16_of(data@.subrange(start as int, i as int)),
        decreases end - i,
    {
        proof {
            let next = data@.subrange(start as int, i + 1);
            assert(next.drop_last() =~= data@.subrange(start as int, i as int));
            assert(next.last() == data@[i as int]);
        }
        c = c ^ ((data[i] as u16) << 8u16);
        let mut k: u32 = 0;
        let ghost c0 = c;
        while k < 8
            invariant
                k <= 8,
                c == crc16_shift(c0, k as nat),
            decreases 8 - k,
        {
            c = if c & 0x8000u16 != 0 {
                (c << 1u16) ^ 0x8005u16
            } else {
                c << 1u16
            };
            k = k + 1;
        }
        i = i + 1;
    }
    c
}

} // verus!
