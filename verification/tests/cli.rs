//! The command-line parsers: PSRDADA keys and core ranges.

use grex_t0::args::parse_core_range;
use grex_t0::exfil::{valid_dada_key, zero_edge_channels, Exfil};

#[test]
fn dada_key_parses_hex() {
    assert_eq!(valid_dada_key("dada"), Ok(0xdada));
    assert_eq!(valid_dada_key("DaDa"), Ok(0xdada));
    assert_eq!(valid_dada_key("0"), Ok(0));
    assert_eq!(valid_dada_key("7fffffff"), Ok(i32::MAX));
    assert_eq!(valid_dada_key("+10"), Ok(16));
    assert_eq!(valid_dada_key("-10"), Ok(-16));
    assert_eq!(valid_dada_key("-80000000"), Ok(i32::MIN));
    assert_eq!(valid_dada_key("000000000000ff"), Ok(255));
}

#[test]
fn dada_key_rejects_what_does_not_fit() {
    let msg = "Invalid hex litteral".to_string();
    assert_eq!(valid_dada_key(""), Err(msg.clone()));
    assert_eq!(valid_dada_key("-"), Err(msg.clone()));
    assert_eq!(valid_dada_key("+"), Err(msg.clone()));
    assert_eq!(valid_dada_key("0x12"), Err(msg.clone()));
    assert_eq!(valid_dada_key("g"), Err(msg.clone()));
    assert_eq!(valid_dada_key("80000000"), Err(msg.clone()));
    assert_eq!(valid_dada_key("-80000001"), Err(msg.clone()));
    assert_eq!(valid_dada_key("ffffffffff"), Err(msg));
}

#[test]
fn core_range_accepts_eight_or_more_cores() {
    assert_eq!(parse_core_range("0:7"), Ok((0, 7)));
    assert_eq!(parse_core_range("8:15"), Ok((8, 15)));
    assert_eq!(parse_core_range("2:100"), Ok((2, 100)));
}

#[test]
fn core_range_rejects_bad_input() {
    assert!(parse_core_range("").is_err());
    assert!(parse_core_range("0:").is_err());
    assert!(parse_core_range(":7").is_err());
    assert!(parse_core_range("a:b").is_err());
    assert!(parse_core_range("0-7").is_err());
    assert!(parse_core_range("0:7:9").is_err());
    // backwards
    assert_eq!(parse_core_range("7:0"), Err("Invalid CPU range".to_string()));
    // too few cores
    assert_eq!(parse_core_range("0:6"), Err("Not enough CPU cores".to_string()));
}

#[test]
fn edge_channels_are_zeroed_before_exfil() {
    let mut w: Vec<u32> = (0..2048u32).map(|i| i + 1).collect();
    zero_edge_channels(&mut w);
    for i in 0..=250 {
        assert_eq!(w[i], 0);
    }
    for i in 1797..=2047 {
        assert_eq!(w[i], 0);
    }
    for i in 251..1797 {
        assert_eq!(w[i], (i + 1) as u32);
    }
}

#[test]
fn exfil_choice_carries_its_settings() {
    let e = Exfil::Psrdada { key: 0xdada, samples: 65536 };
    assert!(matches!(e, Exfil::Psrdada { key: 0xdada, samples: 65536 }));
    assert!(matches!(Exfil::Filterbank, Exfil::Filterbank));
}
