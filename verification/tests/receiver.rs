use nrf24_receiver::bits::read_bits;
use nrf24_receiver::crc::crc16;
use nrf24_receiver::frame::{parse_candidate, scan};

fn push_bits(bits: &mut Vec<u8>, value: u64, n: usize) {
    for k in 0..n {
        bits.push(((value >> (n - 1 - k)) & 1) as u8);
    }
}

fn frame_bits(address: [u8; 4], length: u8, pid: u8, no_ack: u8, payload: &[u8]) -> Vec<u8> {
    let mut bits = Vec::new();
    for b in address {
        push_bits(&mut bits, b as u64, 8);
    }
    push_bits(&mut bits, length as u64, 6);
    push_bits(&mut bits, pid as u64, 2);
    push_bits(&mut bits, no_ack as u64, 1);
    for &b in payload {
        push_bits(&mut bits, b as u64, 8);
    }
    bits
}

fn with_crc(mut frame: Vec<u8>) -> Vec<u8> {
    let c = crc16(&frame, 0, frame.len());
    push_bits(&mut frame, c as u64, 16);
    frame
}

fn preamble(n: usize) -> Vec<u8> {
    let mut bits = Vec::new();
    for k in 0..n {
        bits.push(if k % 2 == 0 { 1 } else { 0 });
    }
    bits
}

#[test]
fn read_bits_msb_first() {
    let bits = vec![1, 0, 1, 1, 0, 1];
    assert_eq!(read_bits(&bits, 0, 4), 0b1011);
    assert_eq!(read_bits(&bits, 2, 4), 0b1101);
    assert_eq!(read_bits(&bits, 1, 0), 0);
}

#[test]
fn crc_known_value() {
    // CRC-16/CCITT-FALSE check value over the ASCII digits "123456789"
    let mut bits = Vec::new();
    for &ch in b"123456789" {
        push_bits(&mut bits, ch as u64, 8);
    }
    assert_eq!(crc16(&bits, 0, bits.len()), 0x29b1);
}

#[test]
fn crc_empty_is_initial_value() {
    let bits: Vec<u8> = Vec::new();
    assert_eq!(crc16(&bits, 0, 0), 0xffff);
}

#[test]
fn parse_round_trip() {
    let full = with_crc(frame_bits([0xaa, 0xbb, 0xcc, 0xdd], 2, 1, 0, &[0x11, 0x22]));
    let p = parse_candidate(&full, 0).expect("round-tripped frame must be accepted");
    assert_eq!(p.address, vec![0xaa, 0xbb, 0xcc, 0xdd]);
    assert_eq!(p.pid, 1);
    assert_eq!(p.payload, vec![0x11, 0x22]);
}

#[test]
fn parse_round_trip_empty_payload() {
    let full = with_crc(frame_bits([0x12, 0x34, 0x56, 0x78], 0, 3, 1, &[]));
    let p = parse_candidate(&full, 0).expect("zero-length payload frame must be accepted");
    assert_eq!(p.address, vec![0x12, 0x34, 0x56, 0x78]);
    assert_eq!(p.pid, 3);
    assert_eq!(p.payload, Vec::<u8>::new());
}

#[test]
fn parse_rejects_corrupted_bit() {
    let mut full = with_crc(frame_bits([0xaa, 0xbb, 0xcc, 0xdd], 2, 1, 0, &[0x11, 0x22]));
    let k = full.len() - 1;
    full[k] ^= 1;
    assert!(parse_candidate(&full, 0).is_none());
}

#[test]
fn parse_rejects_truncated_frame() {
    let mut full = with_crc(frame_bits([0xaa, 0xbb, 0xcc, 0xdd], 2, 1, 0, &[0x11, 0x22]));
    full.pop();
    assert!(parse_candidate(&full, 0).is_none());
}

#[test]
fn parse_rejects_invalid_length() {
    // length field 33 with a checksum that would match if it were consulted
    let full = with_crc(frame_bits(
        [0xaa, 0xbb, 0xcc, 0xdd],
        33,
        1,
        0,
        &(0u8..33).collect::<Vec<u8>>(),
    ));
    assert!(parse_candidate(&full, 0).is_none());
}

#[test]
fn end_to_end_scenario() {
    let mut stream = preamble(10);
    stream.extend(with_crc(frame_bits([0xaa, 0xbb, 0xcc, 0xdd], 2, 1, 0, &[0x11, 0x22])));
    let packets = scan(&stream);
    assert_eq!(packets.len(), 1);
    assert_eq!(packets[0].address, vec![0xaa, 0xbb, 0xcc, 0xdd]);
    assert_eq!(packets[0].pid, 1);
    assert_eq!(packets[0].payload, vec![0x11, 0x22]);
}

#[test]
fn scan_finds_two_packets_in_order() {
    let mut stream = preamble(10);
    stream.extend(with_crc(frame_bits([0xaa, 0xbb, 0xcc, 0xdd], 2, 1, 0, &[0x11, 0x22])));
    stream.extend(preamble(10));
    stream.extend(with_crc(frame_bits([0x81, 0x02, 0x03, 0x04], 1, 2, 0, &[0x7f])));
    let packets = scan(&stream);
    assert_eq!(packets.len(), 2);
    assert_eq!(packets[0].address, vec![0xaa, 0xbb, 0xcc, 0xdd]);
    assert_eq!(packets[1].address, vec![0x81, 0x02, 0x03, 0x04]);
    assert_eq!(packets[1].pid, 2);
    assert_eq!(packets[1].payload, vec![0x7f]);
}

#[test]
fn scan_skips_short_preamble() {
    // a 5-bit run never reaches the [9, 17] window at the frame boundary
    let mut stream = preamble(5);
    stream.extend(with_crc(frame_bits([0xaa, 0xbb, 0xcc, 0xdd], 2, 1, 0, &[0x11, 0x22])));
    assert!(scan(&stream).is_empty());
}

#[test]
fn scan_skips_long_preamble() {
    // a 20-bit run overshoots the [9, 17] window at the frame boundary
    let mut stream = preamble(20);
    stream.extend(with_crc(frame_bits([0xaa, 0xbb, 0xcc, 0xdd], 2, 1, 0, &[0x11, 0x22])));
    assert!(scan(&stream).is_empty());
}

#[test]
fn scan_rejects_invalid_length_candidate() {
    let mut stream = preamble(10);
    stream.extend(with_crc(frame_bits(
        [0xaa, 0xbb, 0xcc, 0xdd],
        33,
        1,
        0,
        &(0u8..33).collect::<Vec<u8>>(),
    )));
    assert!(scan(&stream).is_empty());
}

#[test]
fn scan_alternation_window_boundaries() {
    // address 0x2a starts with bit 0, so the alternating run breaks exactly at
    // the frame boundary and its length equals the preamble length
    let full = with_crc(frame_bits([0x2a, 0xbb, 0xcc, 0xdd], 2, 1, 0, &[0x11, 0x22]));
    for (run, found) in [(8usize, false), (9, true), (17, true), (18, false)] {
        let mut stream = preamble(run);
        stream.extend(full.iter().copied());
        let packets = scan(&stream);
        assert_eq!(packets.len(), if found { 1 } else { 0 });
        if found {
            assert_eq!(packets[0].address, vec![0x2a, 0xbb, 0xcc, 0xdd]);
        }
    }
}

#[test]
fn parse_round_trip_max_payload() {
    let payload: Vec<u8> = (0u8..32).collect();
    let full = with_crc(frame_bits([0x2a, 0xbb, 0xcc, 0xdd], 32, 0, 0, &payload));
    let p = parse_candidate(&full, 0).expect("a 32-byte payload is the largest accepted");
    assert_eq!(p.payload, payload);
    assert_eq!(p.pid, 0);
}

#[test]
fn scan_handles_tiny_inputs() {
    assert!(scan(&Vec::new()).is_empty());
    assert!(scan(&vec![1]).is_empty());
    assert!(scan(&vec![1, 0, 1]).is_empty());
}

#[test]
fn noise_rejection() {
    // 10000 pseudo-random bits from a fixed linear congruential generator
    let mut state: u64 = 1;
    let mut bits = Vec::new();
    for _ in 0..10000 {
        state = state
            .wrapping_mul(6364136223846793005)
            .wrapping_add(1442695040888963407);
        bits.push((state >> 63) as u8);
    }
    assert!(scan(&bits).is_empty());
}

#[test]
fn scan_is_deterministic() {
    let mut stream = preamble(10);
    stream.extend(with_crc(frame_bits([0xaa, 0xbb, 0xcc, 0xdd], 2, 1, 0, &[0x11, 0x22])));
    let first = scan(&stream);
    let second = scan(&stream);
    assert_eq!(first, second);
}
