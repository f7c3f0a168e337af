//! The command-line surface that carries logic: the core-range parser.
//!
//! Flag plumbing itself is argument-parser work outside the library;
//! the grammar `START:STOP` and its constraints (at least eight cores,
//! STOP not below START) are the library's own rules.

use vstd::prelude::*;

use crate::parse::{digit_of, digits_value, is_digit, lemma_digits_value_prefix,
    lemma_digits_value_nonneg};

verus! {

/// Index of the first colon in `s`, or `s.len()` if there is none.
pub open spec fn first_colon(s: Seq<char>) -> int
    decreases s.len(),
{
    if s.len() == 0 {
        0
    } else if s[0] == ':' {
        0
    } else {
        1 + first_colon(s.drop_first())
    }
}

/// A well-formed core range: one or more decimal digits, a colon, one
/// or more decimal digits, both values fitting `usize`.
pub open spec fn valid_core_range_str(s: Seq<char>) -> bool {
    let k = first_colon(s);
    let a = s.take(k);
    let b = s.skip(k + 1);
    &&& 0 < k < s.len()
    &&& forall|i: int| 0 <= i < a.len() ==> is_digit(#[trigger] a[i], 10)
    &&& b.len() > 0
    &&& forall|i: int| 0 <= i < b.len() ==> is_digit(#[trigger] b[i], 10)
    &&& digits_value(a, 10) <= usize::MAX
    &&& digits_value(b, 10) <= usize::MAX
}

/// The first core of a well-formed range string.
pub open spec fn core_range_start(s: Seq<char>) -> int {
    digits_value(s.take(first_colon(s)), 10)
}

/// The last core of a well-formed range string.
pub open spec fn core_range_stop(s: Seq<char>) -> int {
    digits_value(s.skip(first_colon(s) + 1), 10)
}

/// Parse `START:STOP`. The pipeline needs at least eight cores, and
/// the range must not run backwards; anything else is refused.
pub fn parse_core_range(input: &str) -> (r: Result<(usize, usize), String>)
    ensures
        r is Ok <==> valid_core_range_str(input@) && core_range_stop(input@) >= core_range_start(
            input@,
        ) && core_range_stop(input@) - core_range_start(input@) >= 7,
        r is Ok ==> r.unwrap().0 == core_range_start(input@) && r.unwrap().1 == core_range_stop(
            input@,
        ),
{
    let n = input.unicode_len();
    let mut k: usize = 0;
    while k < n && input.get_char(k) != ':'
        invariant
            k <= n,
            n == input@.len(),
            forall|i: int| 0 <= i < k ==> input@[i] != ':',
        decreases n - k,
    {
        k = k + 1;
    }
    proof {
        lemma_first_colon_unique(input@, k as int);
        assert(input@.subrange(0, k as int) =~= input@.take(k as int));
        if k < n {
            assert(input@.subrange(k + 1, n as int) =~= input@.skip(k + 1));
        }
    }
    if k == 0 || k >= n {
        return Err(invalid_range_message());
    }
    let start = match parse_dec(input, 0, k) {
        Some(v) => v,
        None => {
            return Err(invalid_range_message());
        },
    };
    let stop = match parse_dec(input, k + 1, n) {
        Some(v) => v,
        None => {
            return Err(invalid_range_message());
        },
    };
    if stop < start {
        return Err(invalid_range_message());
    }
    if stop - start < 7 {
        return Err(not_enough_cores_message());
    }
    Ok((start, stop))
}

/// The error for a malformed or backwards range.
fn invalid_range_message() -> (m: String) {
    "Invalid CPU range".to_string()
}

/// The error for a range of fewer than eight cores.
fn not_enough_cores_message() -> (m: String) {
    "Not enough CPU cores".to_string()
}

/// Parse the decimal number in `s[from..to]`, refusing empty or
/// non-digit input and values over `usize::MAX`.
#[verifier::loop_isolation(false)]
fn parse_dec(s: &str, from: usize, to: usize) -> (r: Option<usize>)
    requires
        from <= to <= s@.len(),
    ensures
        r is Some <==> ({
            let d = s@.subrange(from as int, to as int);
            &&& to - from > 0
            &&& forall|i: int| 0 <= i < d.len() ==> is_digit(#[trigger] d[i], 10)
            &&& digits_value(d, 10) <= usize::MAX
        }),
        r is Some ==> r.unwrap() == digits_value(s@.subrange(from as int, to as int), 10),
{
    if from == to {
        return None;
    }
    let ghost d = s@.subrange(from as int, to as int);
    let mut acc: u128 = 0;
    let mut i: usize = from;
    while i < to
        invariant
            from <= i <= to,
            acc <= usize::MAX as u128,
            acc == digits_value(d.take(i - from), 10),
            forall|k: int| 0 <= k < i - from ==> is_digit(#[trigger] d[k], 10),
        decreases to - i,
    {
        let c = s.get_char(i);
        let v = digit_of(c, 10);
        if v < 0 {
            proof {
                assert(d[i - from] == c);
            }
            return None;
        }
        proof {
            assert(d.take(i + 1 - from).drop_last() =~= d.take(i - from));
            assert(d.take(i + 1 - from).last() == d[i - from]);
            assert(d[i - from] == c);
        }
        acc = acc * 10 + (v as u128);
        i = i + 1;
        if acc > usize::MAX as u128 {
            // A longer digit string only grows; the value cannot fit.
            proof {
                if forall|k: int| 0 <= k < d.len() ==> is_digit(#[trigger] d[k], 10) {
                    lemma_digits_value_prefix(d, 10, i - from);
                }
            }
            return None;
        }
    }
    proof {
        assert(d.take(to - from) =~= d);
        lemma_digits_value_nonneg(d, 10);
    }
    Some(acc as usize)
}

/// A scan that stopped at `k` found the first colon (or none at all).
proof fn lemma_first_colon_unique(s: Seq<char>, k: int)
    requires
        0 <= k <= s.len(),
        forall|i: int| 0 <= i < k ==> s[i] != ':',
        k < s.len() ==> s[k] == ':',
    ensures
        k == first_colon(s),
    decreases s.len(),
{
    if k == 0 {
    } else {
        assert(s[0] != ':');
        assert forall|i: int| 0 <= i < k - 1 implies s.drop_first()[i] != ':' by {
            assert(s.drop_first()[i] == s[i + 1]);
        }
        if k - 1 < s.drop_first().len() {
            assert(s.drop_first()[k - 1] == s[k]);
        }
        lemma_first_colon_unique(s.drop_first(), k - 1);
    }
}

} // verus!
