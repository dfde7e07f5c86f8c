//! Frame grammar and scan: preamble detection by alternating-bit runs,
//! MSB-first field parsing, and checksum validation of every candidate.

use vstd::prelude::*;
use vstd::arithmetic::power2::{lemma2_to64, lemma_pow2_strictly_increases};
use crate::bits::{bit_seq, bits_value, bits_of, read_bits, lemma_bits_value_bound, lemma_bits_value_congruence};
use crate::crc::{crc_acc, crc16, lemma_crc_acc_congruence, lemma_crc_round_trip};

verus! {

/// A decoded packet as the mathematical model sees it.
#[verifier::ext_equal]
pub struct SpecPacket {
    pub address: Seq<u8>,
    pub pid: u8,
    pub payload: Seq<u8>,
}

/// A packet accepted by the validator: 4-byte address, 2-bit packet id,
/// payload of at most 32 bytes. The no-ack flag is parsed but never used.
#[derive(Clone, Debug, PartialEq, Eq)]
pub struct Packet {
    pub address: Vec<u8>,
    pub pid: u8,
    pub payload: Vec<u8>,
}

impl View for Packet {
    type V = SpecPacket;

    open spec fn view(&self) -> SpecPacket {
        SpecPacket { address: self.address@, pid: self.pid, payload: self.payload@ }
    }
}

impl Packet {
    /// Shape every emitted packet has.
    pub open spec fn wf(&self) -> bool {
        &&& self.address@.len() == 4
        &&& self.pid < 4
        &&& self.payload@.len() <= 32
    }
}

/// The value of the 6-bit length field of a candidate at bit offset `i`.
pub open spec fn spec_length(s: Seq<u8>, i: int) -> int {
    bits_value(s, i + 32, 6)
}

/// The bytes spanned by `n` consecutive 8-bit groups starting at `start`.
pub open spec fn spec_bytes(s: Seq<u8>, start: int, n: int) -> Seq<u8> {
    Seq::new(n as nat, |b: int| bits_value(s, start + 8 * b, 8) as u8)
}

/// Parse and validate the candidate frame at bit offset `i`: address
/// (32 bits), length (6), packet id (2), no-ack (1, ignored), payload
/// (`length` bytes), transmitted checksum (16). The candidate is rejected if
/// the bitstream cannot hold its frame, if the length field exceeds 32, or if
/// the checksum recomputed over everything before the transmitted checksum
/// differs from the transmitted one.
pub open spec fn spec_parse(s: Seq<u8>, i: int) -> Option<SpecPacket> {
    if i + 41 > s.len() {
        None
    } else if spec_length(s, i) > 32 {
        None
    } else if i + 57 + 8 * spec_length(s, i) > s.len() {
        None
    } else if crc_acc(s, i, 41 + 8 * spec_length(s, i)) as int
        != bits_value(s, i + 41 + 8 * spec_length(s, i), 16) {
        None
    } else {
        Some(SpecPacket {
            address: spec_bytes(s, i, 4),
            pid: bits_value(s, i + 38, 2) as u8,
            payload: spec_bytes(s, i + 41, spec_length(s, i)),
        })
    }
}

/// Length of the run of strictly alternating bits ending at position `i`.
pub open spec fn alt_count(s: Seq<u8>, i: int) -> int
    decreases i,
{
    if i <= 0 {
        0
    } else if s[i] != s[i - 1] {
        alt_count(s, i - 1) + 1
    } else {
        0
    }
}

/// Position `i` looks like the first bit after a preamble: the alternating
/// run ending there has a plausible preamble length.
pub open spec fn preamble_end(s: Seq<u8>, i: int) -> bool {
    9 <= alt_count(s, i) <= 17
}

/// The packets accepted at offsets in `[1, n)`, in scan order.
pub open spec fn spec_scan_upto(s: Seq<u8>, n: int) -> Seq<SpecPacket>
    decreases n,
{
    if n <= 1 {
        Seq::empty()
    } else if preamble_end(s, n - 1) {
        match spec_parse(s, n - 1) {
            Some(p) => spec_scan_upto(s, n - 1).push(p),
            None => spec_scan_upto(s, n - 1),
        }
    } else {
        spec_scan_upto(s, n - 1)
    }
}

/// All packets accepted anywhere in the bitstream, in scan order.
pub open spec fn spec_scan(s: Seq<u8>) -> Seq<SpecPacket> {
    spec_scan_upto(s, s.len() as int)
}

/// Attempt to decode the candidate frame starting at bit offset `i`.
pub fn parse_candidate(bits: &Vec<u8>, i: usize) -> (r: Option<Packet>)
    requires
        bit_seq(bits@),
    ensures
        match r {
            Some(p) => spec_parse(bits@, i as int) == Some(p@) && p.wf(),
            None => spec_parse(bits@, i as int) is None,
        },
{
    let total = bits.len();
    if total < 41 || i > total - 41 {
        return None;
    }
    let length = read_bits(bits, i + 32, 6) as usize;
    if length > 32 {
        return None;
    }
    // bits left after the 41-bit header must hold the payload and the checksum
    let rem = total - (i + 41);
    if rem < 16 + 8 * length {
        return None;
    }
    let mut address: Vec<u8> = Vec::new();
    let mut b: usize = 0;
    while b < 4
        invariant
            b <= 4,
            total == bits@.len(),
            i + 41 <= total,
            bit_seq(bits@),
            address@.len() == b,
            forall|j: int| 0 <= j < b
                ==> #[trigger] address@[j] == bits_value(bits@, i + 8 * j, 8) as u8,
        decreases 4 - b,
    {
        proof {
            lemma_bits_value_bound(bits@, i + 8 * b, 8);
            lemma_pow2_strictly_increases(8, 16);
            lemma2_to64();
        }
        let byte = read_bits(bits, i + 8 * b, 8);
        address.push(byte as u8);
        b = b + 1;
    }
    let pid_raw = read_bits(bits, i + 38, 2);
    proof {
        lemma_bits_value_bound(bits@, i + 38, 2);
        lemma_pow2_strictly_increases(2, 16);
        lemma2_to64();
    }
    let pid = pid_raw as u8;
    let mut payload: Vec<u8> = Vec::new();
    let mut b: usize = 0;
    while b < length
        invariant
            b <= length,
            length <= 32,
            total == bits@.len(),
            i + 57 + 8 * length <= total,
            bit_seq(bits@),
            payload@.len() == b,
            forall|j: int| 0 <= j < b
                ==> #[trigger] payload@[j] == bits_value(bits@, i + 41 + 8 * j, 8) as u8,
        decreases length - b,
    {
        proof {
            lemma_bits_value_bound(bits@, i + 41 + 8 * b, 8);
            lemma_pow2_strictly_increases(8, 16);
            lemma2_to64();
        }
        let byte = read_bits(bits, i + 41 + 8 * b, 8);
        payload.push(byte as u8);
        b = b + 1;
    }
    let crc_given = read_bits(bits, i + 41 + 8 * length, 16);
    let crc_calc = crc16(bits, i, 41 + 8 * length);
    if crc_calc == crc_given {
        let p = Packet { address, pid, payload };
        proof {
            assert(p@.address =~= spec_bytes(bits@, i as int, 4));
            assert(p@.payload =~= spec_bytes(bits@, i + 41, length as int));
            assert(spec_parse(bits@, i as int) == Some(p@));
        }
        Some(p)
    } else {
        None
    }
}

/// Scan the whole bitstream: keep the length of the alternating-bit run, and
/// at every position whose run length lies in [9, 17] attempt to decode a
/// frame there; accepted packets are emitted in scan order.
pub fn scan(bits: &Vec<u8>) -> (r: Vec<Packet>)
    requires
        bit_seq(bits@),
    ensures
        r@.len() == spec_scan(bits@).len(),
        forall|k: int| 0 <= k < r@.len() ==> #[trigger] r@[k]@ == spec_scan(bits@)[k],
        forall|k: int| 0 <= k < r@.len() ==> (#[trigger] r@[k]).wf(),
{
    let n = bits.len();
    let mut out: Vec<Packet> = Vec::new();
    let mut alt: usize = 0;
    let mut i: usize = 1;
    while i < n
        invariant
            bit_seq(bits@),
            n == bits@.len(),
            1 <= i,
            n == 0 ==> i == 1,
            n >= 1 ==> i <= n,
            alt <= i - 1,
            alt as int == alt_count(bits@, i - 1),
            out@.len() == spec_scan_upto(bits@, i as int).len(),
            forall|k: int| 0 <= k < out@.len()
                ==> #[trigger] out@[k]@ == spec_scan_upto(bits@, i as int)[k],
            forall|k: int| 0 <= k < out@.len() ==> (#[trigger] out@[k]).wf(),
        decreases n - i,
    {
        if bits[i] != bits[i - 1] {
            alt = alt + 1;
        } else {
            alt = 0;
        }
        assert(alt as int == alt_count(bits@, i as int));
        if 9 <= alt && alt <= 17 {
            match parse_candidate(bits, i) {
                Some(p) => {
                    out.push(p);
                }
                None => {}
            }
        }
        assert(spec_scan_upto(bits@, i + 1) == (
            if preamble_end(bits@, i as int) {
                match spec_parse(bits@, i as int) {
                    Some(p) => spec_scan_upto(bits@, i as int).push(p),
                    None => spec_scan_upto(bits@, i as int),
                }
            } else {
                spec_scan_upto(bits@, i as int)
            }
        ));
        i = i + 1;
    }
    proof {
        if n == 0 {
            assert(spec_scan_upto(bits@, 0).len() == 0);
            assert(spec_scan_upto(bits@, 1).len() == 0);
        }
    }
    out
}

/// Length bound: a candidate whose parsed length field exceeds 32 is rejected
/// outright — in particular, the checksum is never consulted.
pub proof fn lemma_length_bound(s: Seq<u8>, i: int)
    requires
        spec_length(s, i) > 32,
    ensures
        spec_parse(s, i) is None,
{
}

/// Checksum round trip at the frame level: take the bits of a frame whose
/// length field matches its size, compute the checksum over them, and append
/// its 16-bit image; the parser accepts the result and returns exactly the
/// fields encoded in the frame.
pub proof fn lemma_round_trip_accepted(frame: Seq<u8>)
    requires
        bit_seq(frame),
        0 <= spec_length(frame, 0) <= 32,
        frame.len() == 41 + 8 * spec_length(frame, 0),
    ensures
        ({
            let c = crc_acc(frame, 0, frame.len() as int);
            let full = frame + bits_of(c as int, 16);
            spec_parse(full, 0) == Some(SpecPacket {
                address: spec_bytes(frame, 0, 4),
                pid: bits_value(frame, 38, 2) as u8,
                payload: spec_bytes(frame, 41, spec_length(frame, 0)),
            })
        }),
{
    let n = frame.len() as int;
    let len = spec_length(frame, 0);
    let c = crc_acc(frame, 0, n);
    let full = frame + bits_of(c as int, 16);
    crate::bits::lemma_bits_of_len(c as int, 16);
    assert(forall|k: int| 0 <= k < n ==> #[trigger] full[0 + k] == frame[0 + k]);
    lemma_bits_value_congruence(full, 32int, frame, 32int, 6);
    assert(spec_length(full, 0) == len);
    lemma_crc_round_trip(frame);
    lemma_crc_acc_congruence(full, 0, frame, 0, n);
    assert(crc_acc(full, 0, 41 + 8 * len) as int == bits_value(full, 0 + 41 + 8 * len, 16));
    assert(spec_parse(full, 0) is Some);
    lemma_bits_value_congruence(full, 38int, frame, 38int, 2);
    assert forall|b: int| 0 <= b < 4 implies
        #[trigger] spec_bytes(full, 0, 4)[b] == spec_bytes(frame, 0, 4)[b] by {
        lemma_bits_value_congruence(full, 0 + 8 * b, frame, 0 + 8 * b, 8);
    };
    assert(spec_bytes(full, 0, 4) =~= spec_bytes(frame, 0, 4));
    assert forall|b: int| 0 <= b < len implies
        #[trigger] spec_bytes(full, 41, len)[b] == spec_bytes(frame, 41, len)[b] by {
        lemma_bits_value_congruence(full, 41 + 8 * b, frame, 41 + 8 * b, 8);
    };
    assert(spec_bytes(full, 41int, len) =~= spec_bytes(frame, 41, len));
    assert(spec_parse(full, 0) == Some(SpecPacket {
        address: spec_bytes(frame, 0, 4),
        pid: bits_value(frame, 38, 2) as u8,
        payload: spec_bytes(frame, 41, len),
    }));
}

} // verus!
