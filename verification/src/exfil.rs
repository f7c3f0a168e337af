//! The exfil surface: sink selection, the PSRDADA key parser, and the
//! band-edge mask applied to every window before it is written.
//!
//! The sinks themselves (PSRDADA buffers, filterbank files) are I/O and
//! floating-point header work outside the library; what is verified
//! here is the logic they share.

use vstd::prelude::*;

use crate::common::CHANNELS;
use crate::parse::{digit_of, digits_value, is_digit, lemma_digits_value_prefix,
    lemma_digits_value_nonneg};

verus! {

/// How many channels at each band edge are zeroed before exfil, to
/// suppress aliasing artifacts.
pub const EDGE_CHANNELS: usize = 251;

/// Exfil method; leaving it unspecified discards the stokes data.
#[derive(Debug)]
pub enum Exfil {
    /// Stream windows into a PSRDADA ring buffer.
    Psrdada {
        /// Buffer key, given in hex.
        key: i32,
        /// Window size in number of time samples.
        samples: usize,
    },
    /// Stream samples into a filterbank file.
    Filterbank,
}

/// The digits of a key string, after any single leading sign.
pub open spec fn key_digits(s: Seq<char>) -> Seq<char> {
    if s.len() > 0 && (s[0] == '+' || s[0] == '-') {
        s.drop_first()
    } else {
        s
    }
}

/// The sign a key string carries.
pub open spec fn key_sign(s: Seq<char>) -> int {
    if s.len() > 0 && s[0] == '-' {
        -1
    } else {
        1
    }
}

/// What `i32::from_str_radix(s, 16)` accepts: an optional sign, then
/// at least one hex digit, denoting a value that fits an `i32`.
pub open spec fn valid_dada_key_str(s: Seq<char>) -> bool {
    let d = key_digits(s);
    &&& d.len() > 0
    &&& forall|i: int| 0 <= i < d.len() ==> is_digit(#[trigger] d[i], 16)
    &&& i32::MIN <= key_sign(s) * digits_value(d, 16) <= i32::MAX
}

/// Parse a PSRDADA buffer key: a hex literal with optional sign.
#[verifier::loop_isolation(false)]
pub fn valid_dada_key(s: &str) -> (r: Result<i32, String>)
    ensures
        r is Ok <==> valid_dada_key_str(s@),
        r is Ok ==> r.unwrap() == key_sign(s@) * digits_value(key_digits(s@), 16),
{
    let n = s.unicode_len();
    if n == 0 {
        return Err(invalid_hex_message());
    }
    let first = s.get_char(0);
    let neg = first == '-';
    let start: usize = if first == '-' || first == '+' {
        1
    } else {
        0
    };
    if n == start {
        return Err(invalid_hex_message());
    }
    let ghost d = key_digits(s@);
    proof {
        assert(d.len() == n - start);
        assert forall|i: int| 0 <= i < d.len() implies d[i] == s@[i + start] by {}
    }
    // The magnitude may reach 2^31 only for a negative key.
    let bound: i64 = if neg {
        0x8000_0000i64
    } else {
        0x7fff_ffffi64
    };
    let mut acc: i64 = 0;
    let mut i: usize = start;
    while i < n
        invariant
            start <= i <= n,
            0 <= acc <= bound,
            acc == digits_value(d.take(i - start), 16),
            forall|k: int| 0 <= k < i - start ==> is_digit(#[trigger] d[k], 16),
        decreases n - i,
    {
        let c = s.get_char(i);
        let v = digit_of(c, 16);
        if v < 0 {
            proof {
                assert(d[i - start] == c);
            }
            return Err(invalid_hex_message());
        }
        proof {
            assert(d.take(i + 1 - start).drop_last() =~= d.take(i - start));
            assert(d.take(i + 1 - start).last() == d[i - start]);
            assert(d[i - start] == c);
        }
        acc = acc * 16 + (v as i64);
        i = i + 1;
        if acc > bound {
            // Whatever the remaining characters hold, the key cannot
            // fit: if they are all digits, the value only grows.
            proof {
                if forall|k: int| 0 <= k < d.len() ==> is_digit(#[trigger] d[k], 16) {
                    lemma_digits_value_prefix(d, 16, i - start);
                }
            }
            return Err(invalid_hex_message());
        }
    }
    proof {
        assert(d.take(n - start) =~= d);
        lemma_digits_value_nonneg(d, 16);
    }
    if neg {
        Ok((-acc) as i32)
    } else {
        Ok(acc as i32)
    }
}

/// The parse error for a malformed key.
fn invalid_hex_message() -> (m: String) {
    "Invalid hex litteral".to_string()
}

/// Zero the aliased band edges of one window in place: the first and
/// last `EDGE_CHANNELS` channels are cleared, the interior is kept.
pub fn zero_edge_channels(s: &mut Vec<u32>)
    requires
        old(s)@.len() == CHANNELS,
    ensures
        final(s)@.len() == CHANNELS,
        forall|i: int| 0 <= i < EDGE_CHANNELS ==> final(s)@[i] == 0,
        forall|i: int| CHANNELS - EDGE_CHANNELS <= i < CHANNELS ==> final(s)@[i] == 0,
        forall|i: int|
            EDGE_CHANNELS <= i < CHANNELS - EDGE_CHANNELS ==> final(s)@[i] == old(s)@[i],
{
    let ghost s0 = s@;
    let mut i: usize = 0;
    while i < EDGE_CHANNELS
        invariant
            i <= EDGE_CHANNELS,
            s@.len() == CHANNELS,
            forall|k: int| 0 <= k < i ==> s@[k] == 0,
            forall|k: int| i <= k < CHANNELS ==> s@[k] == s0[k],
        decreases EDGE_CHANNELS - i,
    {
        s[i] = 0;
        i = i + 1;
    }
    let mut j: usize = CHANNELS - EDGE_CHANNELS;
    while j < CHANNELS
        invariant
            CHANNELS - EDGE_CHANNELS <= j <= CHANNELS,
            s@.len() == CHANNELS,
            forall|k: int| 0 <= k < EDGE_CHANNELS ==> s@[k] == 0,
            forall|k: int| CHANNELS - EDGE_CHANNELS <= k < j ==> s@[k] == 0,
            forall|k: int| EDGE_CHANNELS <= k < CHANNELS - EDGE_CHANNELS ==> s@[k] == s0[k],
        decreases CHANNELS - j,
    {
        s[j] = 0;
        j = j + 1;
    }
}

} // verus!
