//! Datagram bytes through the whole verified path: decode, ordering,
//! Stokes downsampling.

use grex_t0::capture::Capture;
use grex_t0::common::{Channel, Payload, CHANNELS, PAYLOAD_SIZE};
use grex_t0::processing::Downsampler;
use grex_t0::wire::{decode, encode};

fn datagram(count: u64, re: i8) -> Vec<u8> {
    let mut p = Payload::default();
    p.count = count;
    for c in 0..CHANNELS {
        p.pol_a[c] = Channel::new(re, 0);
    }
    encode(&p)
}

#[test]
fn datagrams_flow_to_windows() {
    // counts arrive slightly shuffled; D = 2 windows come out in order
    let mut cap = Capture::new();
    let mut ds = Downsampler::new(1);
    let mut windows = Vec::new();
    for (count, re) in [(0u64, 1i8), (2, 3), (1, 2), (3, 4)] {
        let bytes = datagram(count, re);
        assert_eq!(bytes.len(), PAYLOAD_SIZE);
        for released in cap.accept(decode(&bytes)) {
            if let Some(w) = ds.push(&released) {
                windows.push(w);
            }
        }
    }
    // window 0 sums counts 0 and 1: 1 + 4; window 1 sums 9 + 16
    assert_eq!(windows.len(), 2);
    assert!(windows[0].iter().all(|&v| v == 5));
    assert!(windows[1].iter().all(|&v| v == 25));
    assert_eq!(cap.stats().drops, 0);
    assert_eq!(cap.stats().shuffled, 0);
}

#[test]
fn duplicate_preserves_the_payload() {
    let mut p = Payload::default();
    p.count = 5;
    p.pol_b[3] = Channel::new(-4, 4);
    let q = p.duplicate();
    assert_eq!(q.count, 5);
    assert_eq!(q.pol_b[3], Channel::new(-4, 4));
    assert_eq!(q.pol_a[0], Channel::new(0, 0));
}

#[test]
fn default_payload_is_all_zero() {
    let p = Payload::default();
    assert_eq!(p.count, 0);
    assert_eq!(p.pol_a.len(), CHANNELS);
    assert_eq!(p.pol_b.len(), CHANNELS);
    assert!(p.pol_a.iter().all(|&c| c == Channel::new(0, 0)));
    assert!(p.pol_b.iter().all(|&c| c == Channel::new(0, 0)));
}
