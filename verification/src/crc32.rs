//! CRC-32 (IEEE, reflected) as used for the server-side checksum of
//! uploaded blobs.

use vstd::prelude::*;

verus! {

pub open spec fn crc32_shift(crc: u32) -> u32 {
    if crc & 1 == 1 {
        (crc >> 1) ^ 0xEDB88320
    } else {
        crc >> 1
    }
}

pub open spec fn crc32_byte(crc: u32, b: u8) -> u32 {
    crc32_shift(
        crc32_shift(
            crc32_shift(
                crc32_shift(crc32_shift(crc32_shift(crc32_shift(crc32_shift(crc ^ b as u32))))),
            ),
        ),
    )
}

/// The running CRC state after folding in every byte of `data`.
pub open spec fn crc32_fold(crc: u32, data: Seq<u8>) -> u32
    decreases data.len(),
{
    if data.len() == 0 {
        crc
    } else {
        crc32_fold(crc32_byte(crc, data.first()), data.drop_first())
    }
}

/// The CRC-32 checksum of a byte sequence.
pub open spec fn crc32_spec(data: Seq<u8>) -> u32 {
    crc32_fold(0xFFFFFFFFu32, data) ^ 0xFFFFFFFFu32
}

fn crc32_update(crc: u32, b: u8) -> (r: u32)
    ensures
        r == crc32_byte(crc, b),
{
    let mut c: u32 = crc ^ (b as u32);
    let mut k: usize = 0;
    let ghost start = c;
    while k < 8
        invariant
            k <= 8,
            c == crc32_shift_n(start, k as nat),
        decreases 8 - k,
    {
        if c & 1 == 1 {
            c = (c >> 1) ^ 0xEDB88320;
        } else {
            c = c >> 1;
        }
        k += 1;
    }
    proof {
        lemma_crc32_shift_n_unfold(start);
    }
    c
}

pub open spec fn crc32_shift_n(crc: u32, n: nat) -> u32
    decreases n,
{
    if n == 0 {
        crc
    } else {
        crc32_shift(crc32_shift_n(crc, (n - 1) as nat))
    }
}

proof fn lemma_crc32_shift_n_unfold(c: u32)
    ensures
        crc32_shift_n(c, 8) == crc32_shift(
            crc32_shift(
                crc32_shift(
                    crc32_shift(crc32_shift(crc32_shift(crc32_shift(crc32_shift(c))))),
                ),
            ),
        ),
{
    assert(crc32_shift_n(c, 0) == c);
    assert(crc32_shift_n(c, 1) == crc32_shift(crc32_shift_n(c, 0)));
    assert(crc32_shift_n(c, 2) == crc32_shift(crc32_shift_n(c, 1)));
    assert(crc32_shift_n(c, 3) == crc32_shift(crc32_shift_n(c, 2)));
    assert(crc32_shift_n(c, 4) == crc32_shift(crc32_shift_n(c, 3)));
    assert(crc32_shift_n(c, 5) == crc32_shift(crc32_shift_n(c, 4)));
    assert(crc32_shift_n(c, 6) == crc32_shift(crc32_shift_n(c, 5)));
    assert(crc32_shift_n(c, 7) == crc32_shift(crc32_shift_n(c, 6)));
    assert(crc32_shift_n(c, 8) == crc32_shift(crc32_shift_n(c, 7)));
}

/// Compute the CRC-32 checksum of `data`.
pub fn crc32(data: &[u8]) -> (r: u32)
    ensures
        r == crc32_spec(data@),
{
    let mut crc: u32 = 0xFFFFFFFF;
    let mut i: usize = 0;
    assert(data@.skip(0) =~= data@);
    while i < data.len()
        invariant
            i <= data@.len(),
            crc32_fold(crc, data@.skip(i as int)) == crc32_fold(0xFFFFFFFFu32, data@),
        decreases data@.len() - i,
    {
        proof {
            let rest = data@.skip(i as int);
            assert(rest.len() > 0);
            assert(rest.first() == data@[i as int]);
            assert(rest.drop_first() =~= data@.skip(i + 1));
        }
        crc = crc32_update(crc, data[i]);
        i += 1;
    }
    assert(data@.skip(data@.len() as int) =~= Seq::<u8>::empty());
    crc ^ 0xFFFFFFFF
}

} // verus!
