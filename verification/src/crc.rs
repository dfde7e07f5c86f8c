//! Bit-serial 16-bit checksum: polynomial 0x1021, initial value 0xffff.

use vstd::prelude::*;
use vstd::arithmetic::power2::{pow2, lemma2_to64};
use crate::bits::{bits_value, bits_of, lemma_bits_value_congruence, lemma_bits_of_len, lemma_bits_of_value};

verus! {

/// One step of the bit-serial checksum: compare the incoming bit with the
/// accumulator's top bit; shift, and fold in the polynomial on mismatch.
pub open spec fn crc_step(acc: u16, b: u8) -> u16 {
    if b != (acc >> 15) as u8 {
        (acc << 1) ^ 0x1021
    } else {
        acc << 1
    }
}

/// Accumulator after feeding the first `n` bits of `s` starting at `start`.
pub open spec fn crc_acc(s: Seq<u8>, start: int, n: int) -> u16
    decreases n,
{
    if n <= 0 {
        0xffff
    } else {
        crc_step(crc_acc(s, start, n - 1), s[start + n - 1])
    }
}

/// `crc_acc` reads only the elements it indexes: two sequences that agree on
/// the addressed window give the same accumulator.
pub proof fn lemma_crc_acc_congruence(s1: Seq<u8>, start1: int, s2: Seq<u8>, start2: int, n: int)
    requires
        forall|k: int| 0 <= k < n ==> #[trigger] s1[start1 + k] == s2[start2 + k],
    ensures
        crc_acc(s1, start1, n) == crc_acc(s2, start2, n),
    decreases n,
{
    if n > 0 {
        lemma_crc_acc_congruence(s1, start1, s2, start2, n - 1);
        assert(s1[start1 + (n - 1)] == s2[start2 + (n - 1)]);
    }
}

/// Recompute the checksum over the `n` bits of `bits` starting at `start`.
pub fn crc16(bits: &Vec<u8>, start: usize, n: usize) -> (r: u16)
    requires
        start + n <= bits@.len(),
    ensures
        r == crc_acc(bits@, start as int, n as int),
{
    let total = bits.len();
    let mut acc: u16 = 0xffff;
    let mut k: usize = 0;
    while k < n
        invariant
            k <= n,
            total == bits@.len(),
            start + n <= total,
            acc == crc_acc(bits@, start as int, k as int),
        decreases n - k,
    {
        let b = bits[start + k];
        if b != #[verifier::truncate] ((acc >> 15) as u8) {
            acc = (acc << 1) ^ 0x1021;
        } else {
            acc = acc << 1;
        }
        k = k + 1;
    }
    acc
}

/// Checksum round trip: append the 16-bit image of the checksum computed over
/// a frame's bits, and the validator's two readings agree — the trailing bits
/// read back as the checksum, and the checksum recomputed over the frame part
/// of the extended sequence is that same value.
pub proof fn lemma_crc_round_trip(frame: Seq<u8>)
    ensures
        ({
            let c = crc_acc(frame, 0, frame.len() as int);
            let full = frame + bits_of(c as int, 16);
            &&& bits_value(full, frame.len() as int, 16) == c
            &&& crc_acc(full, 0, frame.len() as int) == c
        }),
{
    let n = frame.len() as int;
    let c = crc_acc(frame, 0, n);
    let tail = bits_of(c as int, 16);
    let full = frame + tail;
    lemma_bits_of_len(c as int, 16);
    assert(forall|k: int| 0 <= k < 16 ==> #[trigger] full[n + k] == tail[0 + k]);
    lemma_bits_value_congruence(full, n, tail, 0, 16);
    assert((c as int) < pow2(16)) by {
        lemma2_to64();
    };
    lemma_bits_of_value(c as int, 16);
    assert(forall|k: int| 0 <= k < n ==> #[trigger] full[0 + k] == frame[0 + k]);
    lemma_crc_acc_congruence(full, 0, frame, 0, n);
}

} // verus!
