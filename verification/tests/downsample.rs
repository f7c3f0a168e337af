//! Stokes-I computation and time-domain downsampling.

use grex_t0::common::{stokes_i, Channel, Payload, CHANNELS};
use grex_t0::processing::Downsampler;

fn payload_with_pol_a(count: u64, re: i8) -> Payload {
    let mut p = Payload::default();
    p.count = count;
    for c in 0..CHANNELS {
        p.pol_a[c] = Channel::new(re, 0);
    }
    p
}

#[test]
fn stokes_of_zero_payload_is_zero() {
    let p = Payload::default();
    let s = p.stokes_i();
    assert_eq!(s.len(), CHANNELS);
    assert!(s.iter().all(|&v| v == 0));
}

#[test]
fn stokes_sums_both_polarizations() {
    let mut a = vec![Channel::new(3, 4); CHANNELS];
    let b = vec![Channel::new(-1, 2); CHANNELS];
    a[7] = Channel::new(0, 0);
    let s = stokes_i(&a, &b);
    // 3^2 + 4^2 + (-1)^2 + 2^2 = 30
    assert_eq!(s[0], 30);
    assert_eq!(s[7], 5);
}

#[test]
fn stokes_handles_the_most_negative_sample() {
    let c = Channel::new(-128, -128);
    assert_eq!(c.abs_squared(), 32768);
    let a = vec![Channel::new(-128, -128); CHANNELS];
    let b = vec![Channel::new(-128, -128); CHANNELS];
    let s = stokes_i(&a, &b);
    assert_eq!(s[0], 65536);
}

#[test]
fn downsample_emits_window_sums() {
    // d = 2, so D = 4: feed 8 payloads with pol_a[k] = (k+1, 0)
    let mut ds = Downsampler::new(2);
    let mut windows = Vec::new();
    for k in 0..8u64 {
        let p = payload_with_pol_a(k, (k + 1) as i8);
        if let Some(w) = ds.push(&p) {
            windows.push(w);
        }
    }
    assert_eq!(windows.len(), 2);
    // window 0: 1 + 4 + 9 + 16 = 30 in every channel
    assert!(windows[0].iter().all(|&v| v == 30));
    // window 1: 25 + 36 + 49 + 64 = 174 in every channel
    assert!(windows[1].iter().all(|&v| v == 174));
    // the fractional Stokes mean of the specification is the sum
    // divided by D * 2^14, exact in f32
    let mean = windows[0][0] as f32 / (4.0 * 16384.0);
    assert_eq!(mean, 30.0 / (4.0 * 16384.0));
}

#[test]
fn downsample_window_length_is_a_power_of_two() {
    let mut ds = Downsampler::new(1);
    assert_eq!(ds.window, 2);
    let p0 = payload_with_pol_a(0, 1);
    let p1 = payload_with_pol_a(1, 1);
    assert!(ds.push(&p0).is_none());
    let w = ds.push(&p1).unwrap();
    assert!(w.iter().all(|&v| v == 2));
    // the accumulator starts afresh
    assert!(ds.push(&p0).is_none());
}
