//! Wire-codec behaviour: layout, big-endian count, and round trips.

use grex_t0::common::{Channel, Payload, CHANNELS, PAYLOAD_SIZE};
use grex_t0::wire::{decode, encode};

fn patterned_bytes() -> Vec<u8> {
    // a fixed pseudo-random pattern covering all byte values
    let mut b = Vec::with_capacity(PAYLOAD_SIZE);
    let mut x: u32 = 0x12345678;
    for _ in 0..PAYLOAD_SIZE {
        x = x.wrapping_mul(1664525).wrapping_add(1013904223);
        b.push((x >> 24) as u8);
    }
    b
}

#[test]
fn decode_reads_big_endian_count() {
    let mut b = vec![0u8; PAYLOAD_SIZE];
    b[0] = 0x01;
    b[1] = 0x02;
    b[2] = 0x03;
    b[3] = 0x04;
    b[4] = 0x05;
    b[5] = 0x06;
    b[6] = 0x07;
    b[7] = 0x08;
    let p = decode(&b);
    assert_eq!(p.count, 0x0102030405060708);
}

#[test]
fn decode_reads_interleaved_words() {
    let mut b = vec![0u8; PAYLOAD_SIZE];
    // word 0 carries channels 0 and 1 of both polarizations
    b[8] = 1; // A0.re
    b[9] = 2; // A0.im
    b[10] = 3; // B0.re
    b[11] = 4; // B0.im
    b[12] = 5; // A1.re
    b[13] = 6; // A1.im
    b[14] = 7; // B1.re
    b[15] = 8; // B1.im
    // word 1 carries channels 2 and 3
    b[16] = 255; // A2.re == -1 as i8
    let p = decode(&b);
    assert_eq!(p.pol_a[0].re, 1);
    assert_eq!(p.pol_a[0].im, 2);
    assert_eq!(p.pol_b[0].re, 3);
    assert_eq!(p.pol_b[0].im, 4);
    assert_eq!(p.pol_a[1].re, 5);
    assert_eq!(p.pol_a[1].im, 6);
    assert_eq!(p.pol_b[1].re, 7);
    assert_eq!(p.pol_b[1].im, 8);
    assert_eq!(p.pol_a[2].re, -1);
    assert_eq!(p.pol_a[2].im, 0);
}

#[test]
fn decode_then_encode_round_trips_bit_for_bit() {
    let b = patterned_bytes();
    let p = decode(&b);
    let e = encode(&p);
    assert_eq!(e, b);
}

#[test]
fn encode_then_decode_round_trips_payload() {
    let mut p = Payload::default();
    p.count = 987654321;
    for c in 0..CHANNELS {
        p.pol_a[c] = Channel::new((c % 251) as i8, (c % 127) as i8 - 60);
        p.pol_b[c] = Channel::new(-((c % 120) as i8), (c % 7) as i8);
    }
    let b = encode(&p);
    assert_eq!(b.len(), PAYLOAD_SIZE);
    let q = decode(&b);
    assert_eq!(q.count, p.count);
    for c in 0..CHANNELS {
        assert_eq!(q.pol_a[c], p.pol_a[c]);
        assert_eq!(q.pol_b[c], p.pol_b[c]);
    }
}

#[test]
fn zero_bytes_decode_to_zero_payload() {
    let b = vec![0u8; PAYLOAD_SIZE];
    let p = decode(&b);
    assert_eq!(p.count, 0);
    for c in 0..CHANNELS {
        assert_eq!(p.pol_a[c], Channel::new(0, 0));
        assert_eq!(p.pol_b[c], Channel::new(0, 0));
    }
}

#[test]
fn packed_pols_interleaves_re_im() {
    let mut p = Payload::default();
    p.pol_a[0] = Channel::new(9, -9);
    p.pol_a[2047] = Channel::new(-128, 127);
    p.pol_b[5] = Channel::new(1, 2);
    let (a, b) = p.packed_pols();
    assert_eq!(a.len(), 2 * CHANNELS);
    assert_eq!(b.len(), 2 * CHANNELS);
    assert_eq!(a[0], 9);
    assert_eq!(a[1], -9);
    assert_eq!(a[2 * 2047], -128);
    assert_eq!(a[2 * 2047 + 1], 127);
    assert_eq!(b[10], 1);
    assert_eq!(b[11], 2);
}

#[test]
fn offset_ns_is_count_times_cadence() {
    let mut p = Payload::default();
    p.count = 3;
    assert_eq!(p.offset_ns(), 3 * 8192);
    p.count = u64::MAX;
    assert_eq!(p.offset_ns(), (u64::MAX as u128) * 8192);
}
