//! Bit sequences and most-significant-bit-first field extraction.

use vstd::prelude::*;
use vstd::arithmetic::power2::{pow2, lemma_pow2_unfold, lemma_pow2_strictly_increases, lemma2_to64};

verus! {

/// Every element of the sequence is a single bit: 0 or 1.
pub open spec fn bit_seq(s: Seq<u8>) -> bool {
    forall|i: int| 0 <= i < s.len() ==> s[i] <= 1
}

/// Value of the `n` bits of `s` starting at `start`, most-significant bit first.
pub open spec fn bits_value(s: Seq<u8>, start: int, n: int) -> int
    decreases n,
{
    if n <= 0 {
        0
    } else {
        bits_value(s, start, n - 1) * 2 + s[start + n - 1]
    }
}

/// `bits_value` reads only the elements it indexes: two sequences that agree
/// on the addressed window give the same value.
pub proof fn lemma_bits_value_congruence(s1: Seq<u8>, start1: int, s2: Seq<u8>, start2: int, n: int)
    requires
        forall|k: int| 0 <= k < n ==> #[trigger] s1[start1 + k] == s2[start2 + k],
    ensures
        bits_value(s1, start1, n) == bits_value(s2, start2, n),
    decreases n,
{
    if n > 0 {
        lemma_bits_value_congruence(s1, start1, s2, start2, n - 1);
        assert(s1[start1 + (n - 1)] == s2[start2 + (n - 1)]);
    }
}

/// An `n`-bit field holds a value below `pow2(n)`.
pub proof fn lemma_bits_value_bound(s: Seq<u8>, start: int, n: int)
    requires
        0 <= start,
        0 <= n,
        start + n <= s.len(),
        bit_seq(s),
    ensures
        0 <= bits_value(s, start, n) < pow2(n as nat),
    decreases n,
{
    if n == 0 {
        lemma2_to64();
    } else {
        lemma_bits_value_bound(s, start, n - 1);
        lemma_pow2_unfold(n as nat);
        assert(s[start + n - 1] <= 1);
    }
}

/// The `n`-bit, most-significant-bit-first representation of `v`.
pub open spec fn bits_of(v: int, n: int) -> Seq<u8>
    decreases n,
{
    if n <= 0 {
        Seq::empty()
    } else {
        bits_of(v / 2, n - 1).push((v % 2) as u8)
    }
}

pub proof fn lemma_bits_of_len(v: int, n: int)
    requires
        0 <= n,
    ensures
        bits_of(v, n).len() == n,
    decreases n,
{
    if n > 0 {
        lemma_bits_of_len(v / 2, n - 1);
    }
}

/// Reading back the representation of a value below `pow2(n)` yields the value.
pub proof fn lemma_bits_of_value(v: int, n: int)
    requires
        0 <= n,
        0 <= v < pow2(n as nat),
    ensures
        bits_value(bits_of(v, n), 0, n) == v,
    decreases n,
{
    if n == 0 {
        lemma2_to64();
    } else {
        lemma_pow2_unfold(n as nat);
        assert(v / 2 < pow2((n - 1) as nat)) by {
            vstd::arithmetic::div_mod::lemma_fundamental_div_mod(v, 2);
        };
        lemma_bits_of_value(v / 2, n - 1);
        lemma_bits_of_len(v / 2, n - 1);
        let s = bits_of(v, n);
        assert(s[n - 1] == (v % 2) as u8);
        assert(forall|k: int| 0 <= k < n - 1 ==> #[trigger] s[0 + k] == bits_of(v / 2, n - 1)[0 + k]);
        lemma_bits_value_congruence(s, 0, bits_of(v / 2, n - 1), 0, n - 1);
        assert(v == 2 * (v / 2) + v % 2) by {
            vstd::arithmetic::div_mod::lemma_fundamental_div_mod(v, 2);
        };
    }
}

/// Extract the `n`-bit field of `bits` starting at `start`, most-significant
/// bit first, as the original shift-and-or parsing loops do.
pub fn read_bits(bits: &Vec<u8>, start: usize, n: usize) -> (r: u16)
    requires
        n <= 16,
        start + n <= bits@.len(),
        bit_seq(bits@),
    ensures
        r as int == bits_value(bits@, start as int, n as int),
{
    let total = bits.len();
    let mut acc: u16 = 0;
    let mut k: usize = 0;
    while k < n
        invariant
            k <= n,
            n <= 16,
            total == bits@.len(),
            start + n <= total,
            bit_seq(bits@),
            acc as int == bits_value(bits@, start as int, k as int),
        decreases n - k,
    {
        proof {
            lemma_bits_value_bound(bits@, start as int, k + 1);
            if k + 1 < 16 {
                lemma_pow2_strictly_increases((k + 1) as nat, 16);
            }
            lemma2_to64();
        }
        let b = bits[start + k];
        assert(b <= 1);
        acc = acc * 2 + b as u16;
        k = k + 1;
    }
    acc
}

} // verus!
