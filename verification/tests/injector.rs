//! The pulse-injection state machine.

use grex_t0::injection::{Action, Injector};

#[test]
fn no_pulse_files_means_pass_through() {
    let mut inj = Injector::new(0);
    for i in 0..50usize {
        let cadence = i % 10 == 0;
        assert_eq!(inj.step(cadence, 16), Action::Pass);
        assert!(!inj.active);
    }
}

#[test]
fn one_pulse_of_length_l_spans_l_payloads() {
    let mut inj = Injector::new(3);
    // quiet until the cadence elapses
    assert_eq!(inj.step(false, 5), Action::Pass);
    // the payload that starts the injection carries sample 0
    assert_eq!(inj.step(true, 5), Action::Load { pulse: 0, sample: 0 });
    // the next four carry samples 1..=4, whatever the cadence does
    assert_eq!(inj.step(false, 5), Action::Overlay { sample: 1 });
    assert_eq!(inj.step(true, 5), Action::Overlay { sample: 2 });
    assert_eq!(inj.step(false, 5), Action::Overlay { sample: 3 });
    assert_eq!(inj.step(false, 5), Action::Overlay { sample: 4 });
    // exactly five payloads were touched; the machine is idle again
    assert_eq!(inj.step(false, 5), Action::Pass);
    assert!(!inj.active);
}

#[test]
fn pulse_files_cycle_in_order() {
    let mut inj = Injector::new(2);
    assert_eq!(inj.step(true, 1), Action::Load { pulse: 0, sample: 0 });
    // a one-sample pulse ends on the payload that loads it
    assert_eq!(inj.step(false, 1), Action::Pass);
    assert_eq!(inj.step(true, 1), Action::Load { pulse: 1, sample: 0 });
    assert_eq!(inj.step(false, 1), Action::Pass);
    // and the cycle wraps
    assert_eq!(inj.step(true, 1), Action::Load { pulse: 0, sample: 0 });
}

#[test]
fn zero_length_pulse_overlays_nothing() {
    let mut inj = Injector::new(1);
    assert_eq!(inj.step(true, 0), Action::Pass);
    assert!(!inj.active);
    assert_eq!(inj.step(false, 4), Action::Pass);
}
