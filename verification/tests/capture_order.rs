//! The ordering state machine: the end-to-end arrival scenarios.

use grex_t0::capture::{check_datagram_len, check_recv_buffer, Capture, Error,
    BACKLOG_BUFFER_PAYLOADS};
use grex_t0::common::{Payload, PAYLOAD_SIZE};

fn payload(count: u64) -> Payload {
    let mut p = Payload::default();
    p.count = count;
    p
}

fn feed(cap: &mut Capture, counts: &[u64]) -> Vec<u64> {
    let mut emitted = Vec::new();
    for &c in counts {
        for q in cap.accept(payload(c)) {
            emitted.push(q.count);
        }
    }
    emitted
}

#[test]
fn perfect_stream() {
    let mut cap = Capture::new();
    let counts: Vec<u64> = (0..1000).collect();
    let emitted = feed(&mut cap, &counts);
    assert_eq!(emitted, counts);
    let stats = cap.stats();
    assert_eq!(stats.processed, 1000);
    assert_eq!(stats.drops, 0);
    assert_eq!(stats.shuffled, 0);
}

#[test]
fn small_reorder_is_absorbed() {
    let mut cap = Capture::new();
    let arrivals = [0, 1, 3, 2, 4, 5, 6, 7, 8, 9];
    let emitted = feed(&mut cap, &arrivals);
    assert_eq!(emitted, vec![0, 1, 2, 3, 4, 5, 6, 7, 8, 9]);
    let stats = cap.stats();
    assert_eq!(stats.drops, 0);
    assert_eq!(stats.shuffled, 0);
}

#[test]
fn anachronism_is_dropped() {
    let mut cap = Capture::new();
    let emitted = feed(&mut cap, &[0, 1, 2, 1, 3, 4]);
    assert_eq!(emitted, vec![0, 1, 2, 3, 4]);
    let stats = cap.stats();
    assert_eq!(stats.shuffled, 1);
    assert_eq!(stats.drops, 0);
}

#[test]
fn far_future_jump_flushes_and_counts_the_gap() {
    let b = BACKLOG_BUFFER_PAYLOADS;
    let mut cap = Capture::new();
    let arrivals = [0, 1, 2, 3 + b + 5, 3 + b + 6];
    let emitted = feed(&mut cap, &arrivals);
    assert_eq!(emitted, vec![0, 1, 2, 3 + b + 5, 3 + b + 6]);
    // every count from 3 up to (but not including) the jump target is
    // recorded as dropped
    let stats = cap.stats();
    assert_eq!(stats.drops, b + 5);
    assert_eq!(stats.shuffled, 0);
    // the backlog is empty afterwards: the next expected count flows on
    let more = feed(&mut cap, &[3 + b + 7]);
    assert_eq!(more, vec![3 + b + 7]);
}

#[test]
fn backlog_waits_for_the_gap_to_fill() {
    let mut cap = Capture::new();
    // 2 and 3 run ahead and wait; 1 releases the whole run
    let emitted = feed(&mut cap, &[0, 2, 3]);
    assert_eq!(emitted, vec![0]);
    let emitted = feed(&mut cap, &[1]);
    assert_eq!(emitted, vec![1, 2, 3]);
    let stats = cap.stats();
    assert_eq!(stats.drops, 0);
    assert_eq!(stats.shuffled, 0);
}

#[test]
fn first_count_is_recorded_once() {
    let mut cap = Capture::new();
    feed(&mut cap, &[41, 42, 43]);
    assert_eq!(cap.first_count, 41);
    assert_eq!(cap.next_expected_count, 44);
}

#[test]
fn duplicate_backlog_count_replaces_the_entry() {
    // the second arrival with count 2 overwrites the waiting one
    let mut p = payload(2);
    p.pol_a[0] = grex_t0::common::Channel::new(7, 0);
    let mut cap = Capture::new();
    assert_eq!(feed(&mut cap, &[0]), vec![0]);
    assert!(cap.accept(payload(2)).is_empty());
    assert!(cap.accept(p).is_empty());
    let out = cap.accept(payload(1));
    let counts: Vec<u64> = out.iter().map(|q| q.count).collect();
    assert_eq!(counts, vec![1, 2]);
    assert_eq!(out[1].pol_a[0].re, 7);
}

#[test]
fn datagram_length_must_match() {
    assert!(check_datagram_len(PAYLOAD_SIZE).is_ok());
    let e = check_datagram_len(12);
    assert!(matches!(e, Err(Error::SizeMismatch(12))));
}

#[test]
fn recv_buffer_size_must_match() {
    assert!(check_recv_buffer(512, 512).is_ok());
    let e = check_recv_buffer(512, 256);
    assert!(matches!(e, Err(Error::SetRecvBufferFailed { expected: 512, found: 256 })));
}
