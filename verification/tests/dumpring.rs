//! The triggered voltage ring buffer.

use grex_t0::common::{Channel, Payload};
use grex_t0::dumps::DumpRing;

fn payload(count: u64) -> Payload {
    let mut p = Payload::default();
    p.count = count;
    p.pol_a[0] = Channel::new((count % 100) as i8, 1);
    p
}

#[test]
fn snapshot_holds_the_last_n_pushes_in_order() {
    // N = 4: push counts 10..=15, dump, expect 12, 13, 14, 15
    let mut ring = DumpRing::new(2);
    for c in 10..=15u64 {
        ring.push(payload(c));
    }
    let dump = ring.dump();
    let counts: Vec<u64> = dump.iter().map(|p| p.count).collect();
    assert_eq!(counts, vec![12, 13, 14, 15]);
    // payload contents ride along
    assert_eq!(dump[0].pol_a[0], Channel::new(12, 1));
    // the time coordinate of each sample is the epoch plus this offset
    assert_eq!(dump[0].offset_ns(), 12 * 8192);
    assert_eq!(dump[3].offset_ns(), 15 * 8192);
}

#[test]
fn partial_ring_dumps_zero_slots_first() {
    let mut ring = DumpRing::new(2);
    ring.push(payload(7));
    ring.push(payload(8));
    let dump = ring.dump();
    assert_eq!(dump.len(), 4);
    // two slots were never written: they read as zero payloads
    assert_eq!(dump[0].count, 0);
    assert_eq!(dump[0].pol_a[0], Channel::new(0, 0));
    assert_eq!(dump[1].count, 0);
    assert_eq!(dump[2].count, 7);
    assert_eq!(dump[3].count, 8);
}

#[test]
fn exactly_full_ring_dumps_everything() {
    let mut ring = DumpRing::new(1);
    ring.push(payload(1));
    ring.push(payload(2));
    let counts: Vec<u64> = ring.dump().iter().map(|p| p.count).collect();
    assert_eq!(counts, vec![1, 2]);
}

#[test]
fn pushes_keep_working_after_many_wraps() {
    let mut ring = DumpRing::new(2);
    for c in 0..23u64 {
        ring.push(payload(c));
    }
    let counts: Vec<u64> = ring.dump().iter().map(|p| p.count).collect();
    assert_eq!(counts, vec![19, 20, 21, 22]);
}

#[test]
fn capacity_is_two_to_the_size_power() {
    let ring = DumpRing::new(5);
    assert_eq!(ring.capacity, 32);
    assert_eq!(ring.dump().len(), 32);
}
