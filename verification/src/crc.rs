//! CRC32 (IEEE 802.3) checksums.
//!
//! The reflected polynomial 0xEDB88320 is processed bit by bit; the
//! specification functions below define the checksum mathematically and the
//! executable implementation is proved to match them.

use vstd::prelude::*;

verus! {

/// One bit step of the reflected CRC32 computation.
pub open spec fn crc32_bit_step(crc: u32) -> u32 {
    if crc & 1 != 0 {
        (crc >> 1) ^ 0xEDB8_8320u32
    } else {
        crc >> 1
    }
}

/// `n` bit steps applied to `crc`.
pub open spec fn crc32_bit_steps(crc: u32, n: nat) -> u32
    decreases n,
{
    if n == 0 {
        crc
    } else {
        crc32_bit_step(crc32_bit_steps(crc, (n - 1) as nat))
    }
}

/// Folding one byte into the running CRC state.
pub open spec fn crc32_byte(crc: u32, byte: u8) -> u32 {
    crc32_bit_steps(crc ^ (byte as u32), 8)
}

/// Folding a whole byte sequence into the running CRC state, front to back.
pub open spec fn crc32_acc(s: Seq<u8>, acc: u32) -> u32
    decreases s.len(),
{
    if s.len() == 0 {
        acc
    } else {
        crc32_acc(s.drop_first(), crc32_byte(acc, s[0]))
    }
}

/// The IEEE CRC32 checksum of a byte sequence.
pub open spec fn crc32_of(s: Seq<u8>) -> u32 {
    crc32_acc(s, 0xFFFF_FFFFu32) ^ 0xFFFF_FFFFu32
}

/// Accumulating one more byte at the back commutes with the fold.
pub proof fn lemma_crc32_acc_push(s: Seq<u8>, acc: u32, byte: u8)
    ensures
        crc32_acc(s.push(byte), acc) == crc32_byte(crc32_acc(s, acc), byte),
    decreases s.len(),
{
    reveal_with_fuel(crc32_acc, 3);
    if s.len() == 0 {
        assert(s.push(byte)[0] == byte);
        assert(s.push(byte).drop_first() =~= Seq::<u8>::empty());
    } else {
        assert(s.push(byte)[0] == s[0]);
        assert(s.push(byte).drop_first() =~= s.drop_first().push(byte));
        lemma_crc32_acc_push(s.drop_first(), crc32_byte(acc, s[0]), byte);
    }
}

/// Computes the IEEE CRC32 checksum of `data`.
pub fn crc32_checksum(data: &[u8]) -> (r: u32)
    ensures
        r == crc32_of(data@),
{
    let mut crc: u32 = 0xFFFF_FFFF;
    let mut i: usize = 0;
    while i < data.len()
        invariant
            0 <= i <= data@.len(),
            crc == crc32_acc(data@.take(i as int), 0xFFFF_FFFFu32),
        decreases data@.len() - i,
    {
        let byte = data[i];
        let mut step: u32 = crc ^ (byte as u32);
        let mut j: usize = 0;
        while j < 8
            invariant
                0 <= j <= 8,
                step == crc32_bit_steps(crc ^ (byte as u32), j as nat),
            decreases 8 - j,
        {
            step = if step & 1 != 0 {
                (step >> 1) ^ 0xEDB8_8320
            } else {
                step >> 1
            };
            j += 1;
        }
        proof {
            lemma_crc32_acc_push(data@.take(i as int), 0xFFFF_FFFFu32, byte);
            assert(data@.take(i + 1) =~= data@.take(i as int).push(data@[i as int]));
        }
        crc = step;
        i += 1;
    }
    proof {
        assert(data@.take(data@.len() as int) =~= data@);
    }
    crc ^ 0xFFFF_FFFF
}

/// Relies on crc32fast::hash: it returns the IEEE CRC32 (reflected
/// polynomial 0xEDB88320, initial value and final xor 0xFFFFFFFF) of the
/// input bytes, as its documentation states.
#[verifier::external_body]
fn crc32fast_hash(data: &[u8]) -> (r: u32)
    ensures
        r == crc32_of(data@),
{
    crc32fast::hash(data)
}

/// Computes the CRC32 checksum of each buffer, in order.
pub fn compute_checksums(buffers: &Vec<Vec<u8>>) -> (r: Vec<u32>)
    ensures
        r@.len() == buffers@.len(),
        forall|i: int| 0 <= i < r@.len() ==> r@[i] == crc32_of(buffers@[i]@),
{
    let mut out: Vec<u32> = Vec::new();
    let mut i: usize = 0;
    while i < buffers.len()
        invariant
            0 <= i <= buffers@.len(),
            out@.len() == i,
            forall|j: int| 0 <= j < i ==> out@[j] == crc32_of(buffers@[j]@),
        decreases buffers@.len() - i,
    {
        out.push(crc32fast_hash(buffers[i].as_slice()));
        i += 1;
    }
    out
}

} // verus!
