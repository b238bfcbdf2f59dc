//! Decimal fields such as `-0.41800` read as fixed-point components.
use vstd::prelude::*;
use vstd::utf8::encode_utf8;
use crate::vector::{in_limit, LIMIT, SCALE};

verus! {

/// An ASCII digit.
pub open spec fn is_digit(c: u8) -> bool {
    48 <= c <= 57
}

/// Index of the first byte at or after `i` that is not a digit.
pub open spec fn digits_end(b: Seq<u8>, i: int) -> int
    decreases b.len() - i,
{
    if i >= b.len() || i < 0 {
        i
    } else if is_digit(b[i]) {
        digits_end(b, i + 1)
    } else {
        i
    }
}

/// The number written by the digits `b[from..to]`.
pub open spec fn digits_value(b: Seq<u8>, from: int, to: int) -> int
    decreases to - from,
{
    if to <= from {
        0
    } else {
        digits_value(b, from, to - 1) * 10 + (b[to - 1] - 48)
    }
}

/// Ten to the power `k`.
pub open spec fn pow10(k: int) -> int
    decreases k,
{
    if k <= 0 {
        1
    } else {
        10 * pow10(k - 1)
    }
}

/// The place value, in millionths, of the `j`-th fraction digit; zero past the sixth.
pub open spec fn place(j: int) -> int {
    if j < 6 {
        pow10(5 - j)
    } else {
        0
    }
}

/// The millionths written by the fraction digits `b[from..to]`; digits past
/// the sixth are dropped.
pub open spec fn fraction_value(b: Seq<u8>, from: int, to: int) -> int
    decreases to - from,
{
    if to <= from {
        0
    } else {
        fraction_value(b, from, to - 1) + (b[to - 1] - 48) * place(to - 1 - from)
    }
}

/// Length of a leading sign.
pub open spec fn sign_len(b: Seq<u8>) -> int {
    if b.len() > 0 && (b[0] == 45 || b[0] == 43) {
        1
    } else {
        0
    }
}

/// The fixed-point value of a field `[+-]digits[.digits]` or `[+-].digits`,
/// or `None` when the field has another shape or its value is out of range.
pub open spec fn component_value(b: Seq<u8>) -> Option<int> {
    let p = sign_len(b);
    let q = digits_end(b, p);
    let r = if q < b.len() && b[q] == 46 {
        digits_end(b, q + 1)
    } else {
        q
    };
    let frac = if q < b.len() {
        fraction_value(b, q + 1, r)
    } else {
        0
    };
    let mag = digits_value(b, p, q) * SCALE + frac;
    let value = if p == 1 && b[0] == 45 {
        -mag
    } else {
        mag
    };
    if (q == p && r <= q + 1) || r != b.len() || !in_limit(value) {
        None
    } else {
        Some(value)
    }
}

proof fn lemma_digits_end(b: Seq<u8>, i: int)
    requires
        0 <= i <= b.len(),
    ensures
        i <= digits_end(b, i) <= b.len(),
        forall|k: int| i <= k < digits_end(b, i) ==> is_digit(#[trigger] b[k]),
        digits_end(b, i) < b.len() ==> !is_digit(b[digits_end(b, i)]),
    decreases b.len() - i,
{
    if i < b.len() && is_digit(b[i]) {
        lemma_digits_end(b, i + 1);
    }
}

proof fn lemma_values_nonneg(b: Seq<u8>, from: int, to: int)
    requires
        0 <= from,
        to <= b.len(),
        forall|k: int| from <= k < to ==> is_digit(#[trigger] b[k]),
    ensures
        digits_value(b, from, to) >= 0,
        fraction_value(b, from, to) >= 0,
    decreases to - from,
{
    if to > from {
        lemma_values_nonneg(b, from, to - 1);
        lemma_pow10_pos(5 - (to - 1 - from));
        assert((b[to - 1] - 48) * place(to - 1 - from) >= 0) by (nonlinear_arith)
            requires b[to - 1] - 48 >= 0, place(to - 1 - from) >= 0;
    }
}

proof fn lemma_pow10_pos(k: int)
    ensures
        pow10(k) >= 1,
    decreases k,
{
    if k > 0 {
        lemma_pow10_pos(k - 1);
    }
}

/// Reads a field as a fixed-point component (see `component_value`).
pub fn parse_component(field: &str) -> (r: Option<i64>)
    ensures
        r is Some <==> component_value(encode_utf8(field@)) is Some,
        r is Some ==> r->0 == component_value(encode_utf8(field@))->0,
{
    let b = field.as_bytes();
    let ghost s = b@;
    let n = b.len();
    let mut i: usize = 0;
    let mut negative = false;
    if n > 0 && (b[0] == 45 || b[0] == 43) {
        negative = b[0] == 45;
        i = 1;
    }
    let p = i;
    proof {
        lemma_digits_end(s, p as int);
    }
    // The whole part, saturated at 1000: anything above is out of range anyway.
    let mut whole: i64 = 0;
    while i < n && 48 <= b[i] && b[i] <= 57
        invariant
            s == b@,
            n == s.len(),
            p <= i <= digits_end(s, p as int),
            digits_end(s, p as int) <= n,
            forall|k: int| p <= k < digits_end(s, p as int) ==> is_digit(#[trigger] s[k]),
            digits_end(s, p as int) < n ==> !is_digit(s[digits_end(s, p as int)]),
            0 <= digits_value(s, p as int, i as int),
            whole == if digits_value(s, p as int, i as int) < 1000 {
                digits_value(s, p as int, i as int)
            } else {
                1000
            },
        decreases n - i,
    {
        let d = (b[i] - 48) as i64;
        whole = whole * 10 + d;
        if whole > 1000 {
            whole = 1000;
        }
        i += 1;
    }
    let q = i;
    let mut frac: i64 = 0;
    if i < n && b[i] == 46 {
        i += 1;
        let start = i;
        proof {
            lemma_digits_end(s, start as int);
        }
        proof {
            reveal_with_fuel(pow10, 6);
        }
        let mut unit: i64 = 100000;
        while i < n && 48 <= b[i] && b[i] <= 57
            invariant
                s == b@,
                n == s.len(),
                start == q + 1,
                start <= i <= digits_end(s, start as int),
                digits_end(s, start as int) <= n,
                forall|k: int| start <= k < digits_end(s, start as int) ==> is_digit(#[trigger] s[k]),
                digits_end(s, start as int) < n ==> !is_digit(s[digits_end(s, start as int)]),
                unit == place(i - start),
                0 <= unit,
                frac == fraction_value(s, start as int, i as int),
                0 <= frac,
                frac + 10 * unit <= 1_000_000,
            decreases n - i,
        {
            let d = (b[i] - 48) as i64;
            proof {
                let j = i - start;
                if j < 5 {
                    assert(pow10(5 - j) == 10 * pow10(4 - j));
                    assert((10 * pow10(4 - j)) / 10 == pow10(4 - j)) by (nonlinear_arith);
                }
                assert(d * unit <= 9 * unit) by (nonlinear_arith)
                    requires d <= 9, unit >= 0;
                assert(d * unit >= 0) by (nonlinear_arith)
                    requires d >= 0, unit >= 0;
                assert(unit / 10 * 10 <= unit) by (nonlinear_arith)
                    requires unit >= 0;
            }
            frac = frac + d * unit;
            unit = unit / 10;
            i += 1;
        }
        if i != n || (q == p && i == start) {
            return None;
        }
    } else if i != n || q == p {
        return None;
    }
    proof {
        lemma_values_nonneg(s, p as int, q as int);
    }
    if whole >= 1000 {
        assert(digits_value(s, p as int, q as int) * SCALE >= 1000 * SCALE) by (nonlinear_arith)
            requires digits_value(s, p as int, q as int) >= 1000;
        return None;
    }
    let mag = whole * SCALE + frac;
    if mag > LIMIT {
        return None;
    }
    if negative {
        Some(-mag)
    } else {
        Some(mag)
    }
}

} // verus!
