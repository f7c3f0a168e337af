//! Digit-string arithmetic shared by the small parsers of the
//! command-line surface.

use vstd::prelude::*;

verus! {

/// Value of one digit character under any radix up to 16, or -1 where
/// the character is no digit: `0-9`, then `a-f` and `A-F`.
pub open spec fn digit_val(c: char) -> int {
    let u = c as int;
    if 48 <= u <= 57 {
        u - 48
    } else if 97 <= u <= 102 {
        u - 87
    } else if 65 <= u <= 70 {
        u - 55
    } else {
        -1
    }
}

/// Whether `c` is a digit under `base`.
pub open spec fn is_digit(c: char, base: int) -> bool {
    0 <= digit_val(c) < base
}

/// The number a digit string denotes under `base`, most significant
/// digit first.
pub open spec fn digits_value(d: Seq<char>, base: int) -> int
    decreases d.len(),
{
    if d.len() == 0 {
        0
    } else {
        digits_value(d.drop_last(), base) * base + digit_val(d.last())
    }
}

/// A string of digits denotes a nonnegative number.
pub proof fn lemma_digits_value_nonneg(d: Seq<char>, base: int)
    requires
        base >= 2,
        forall|i: int| 0 <= i < d.len() ==> is_digit(#[trigger] d[i], base),
    ensures
        digits_value(d, base) >= 0,
    decreases d.len(),
{
    if d.len() > 0 {
        assert forall|i: int| 0 <= i < d.len() - 1 implies is_digit(
            #[trigger] d.drop_last()[i],
            base,
        ) by {
            assert(d.drop_last()[i] == d[i]);
        }
        lemma_digits_value_nonneg(d.drop_last(), base);
        let v = digits_value(d.drop_last(), base);
        assert(v * base >= 0) by (nonlinear_arith)
            requires
                v >= 0 && base >= 2,
        ;
    }
}

/// Extending a digit string never shrinks its value: the value of a
/// prefix is a lower bound for the value of the whole.
pub proof fn lemma_digits_value_prefix(d: Seq<char>, base: int, k: int)
    requires
        base >= 2,
        0 <= k <= d.len(),
        forall|i: int| 0 <= i < d.len() ==> is_digit(#[trigger] d[i], base),
    ensures
        digits_value(d.take(k), base) <= digits_value(d, base),
    decreases d.len(),
{
    if k == d.len() {
        assert(d.take(k) =~= d);
    } else {
        assert forall|i: int| 0 <= i < d.len() - 1 implies is_digit(
            #[trigger] d.drop_last()[i],
            base,
        ) by {
            assert(d.drop_last()[i] == d[i]);
        }
        lemma_digits_value_prefix(d.drop_last(), base, k);
        assert(d.drop_last().take(k) =~= d.take(k));
        lemma_digits_value_nonneg(d.drop_last(), base);
        let v = digits_value(d.drop_last(), base);
        assert(v <= v * base) by (nonlinear_arith)
            requires
                v >= 0 && base >= 2,
        ;
    }
}

/// One digit exec-side: its value under `base`, or -1.
pub fn digit_of(c: char, base: u32) -> (r: i32)
    requires
        2 <= base <= 16,
    ensures
        r == if is_digit(c, base as int) {
            digit_val(c)
        } else {
            -1
        },
{
    let u = c as u32;
    let v: i32 = if 48 <= u && u <= 57 {
        (u - 48) as i32
    } else if 97 <= u && u <= 102 {
        (u - 87) as i32
    } else if 65 <= u && u <= 70 {
        (u - 55) as i32
    } else {
        -1
    };
    if v >= 0 && (v as u32) < base {
        v
    } else {
        -1
    }
}

} // verus!
