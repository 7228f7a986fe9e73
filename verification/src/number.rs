//! Numbers: 64-bit integers with wrap-around arithmetic, and IEEE 754
//! doubles held as their bit patterns.
//!
//! Whatever can be decided from the bits of a double is decided here: its
//! order, its sign, whether it is a whole number. Arithmetic that rounds is
//! left to the host (see the module `host`).

use vstd::prelude::*;
use vstd::arithmetic::power2::{
    lemma2_to64, lemma2_to64_rest, lemma_pow2_adds, lemma_pow2_pos, lemma_pow2_strictly_increases,
    pow2,
};
use vstd::bits::{lemma_u64_shl_is_mul, lemma_u64_shr_is_div};
use vstd::string::StringExecFns;

verus! {

/// The bit that holds the sign of a double.
pub const SIGN_BIT: u64 = 0x8000_0000_0000_0000;

/// The bit pattern of positive infinity. Every pattern whose lower 63 bits
/// are greater is a NaN.
pub const INFINITY_BITS: u64 = 0x7ff0_0000_0000_0000;

/// The weight of the lowest exponent bit: two to the power 52.
pub const FRACTION_RANGE: u64 = 0x10_0000_0000_0000;

/// The exponent field of the double 1.0.
pub const EXPONENT_BIAS: u64 = 1023;

/// Whether the sign bit is set.
pub open spec fn float_negative(bits: u64) -> bool {
    bits >= SIGN_BIT
}

/// The lower 63 bits: exponent and fraction. Among doubles of one sign that
/// are no NaN, a greater magnitude has a greater pattern.
pub open spec fn float_magnitude(bits: u64) -> int {
    if bits >= SIGN_BIT {
        bits - SIGN_BIT
    } else {
        bits as int
    }
}

/// The exponent field, from 0 to 2047.
pub open spec fn float_exponent(bits: u64) -> int {
    float_magnitude(bits) / (FRACTION_RANGE as int)
}

/// The 52 bits of the fraction field.
pub open spec fn float_fraction(bits: u64) -> int {
    float_magnitude(bits) % (FRACTION_RANGE as int)
}

pub open spec fn float_is_nan(bits: u64) -> bool {
    float_magnitude(bits) > INFINITY_BITS
}

/// The place of a double in the order of all doubles that are no NaN: the
/// magnitude, negated under a sign. Both zeros have place 0.
pub open spec fn float_place(bits: u64) -> int {
    if float_negative(bits) {
        -float_magnitude(bits)
    } else {
        float_magnitude(bits)
    }
}

/// `x < y` on doubles: false where either is a NaN.
pub open spec fn float_lt(x: u64, y: u64) -> bool {
    !float_is_nan(x) && !float_is_nan(y) && float_place(x) < float_place(y)
}

/// `x <= y` on doubles: false where either is a NaN.
pub open spec fn float_le(x: u64, y: u64) -> bool {
    !float_is_nan(x) && !float_is_nan(y) && float_place(x) <= float_place(y)
}

/// `x == y` on doubles: false where either is a NaN, true of the two zeros.
pub open spec fn float_eq(x: u64, y: u64) -> bool {
    !float_is_nan(x) && !float_is_nan(y) && float_place(x) == float_place(y)
}

/// The double with the sign turned round.
pub open spec fn float_neg(bits: u64) -> u64 {
    if bits >= SIGN_BIT {
        (bits - SIGN_BIT) as u64
    } else {
        (bits + SIGN_BIT) as u64
    }
}

pub fn is_nan(bits: u64) -> (r: bool)
    ensures
        r == float_is_nan(bits),
{
    magnitude(bits) > INFINITY_BITS
}

fn magnitude(bits: u64) -> (r: u64)
    ensures
        r == float_magnitude(bits),
{
    if bits >= SIGN_BIT {
        bits - SIGN_BIT
    } else {
        bits
    }
}

pub fn float_less(x: u64, y: u64) -> (r: bool)
    ensures
        r == float_lt(x, y),
{
    if is_nan(x) || is_nan(y) {
        return false;
    }
    let mx: u64 = magnitude(x);
    let my: u64 = magnitude(y);
    if x >= SIGN_BIT {
        if y >= SIGN_BIT {
            my < mx
        } else {
            mx > 0 || my > 0
        }
    } else {
        if y >= SIGN_BIT {
            false
        } else {
            mx < my
        }
    }
}

pub fn float_less_eq(x: u64, y: u64) -> (r: bool)
    ensures
        r == float_le(x, y),
{
    if is_nan(x) || is_nan(y) {
        return false;
    }
    let mx: u64 = magnitude(x);
    let my: u64 = magnitude(y);
    if x >= SIGN_BIT {
        if y >= SIGN_BIT {
            my <= mx
        } else {
            true
        }
    } else {
        if y >= SIGN_BIT {
            mx == 0 && my == 0
        } else {
            mx <= my
        }
    }
}

pub fn float_equal(x: u64, y: u64) -> (r: bool)
    ensures
        r == float_eq(x, y),
{
    if is_nan(x) || is_nan(y) {
        return false;
    }
    x == y || (magnitude(x) == 0 && magnitude(y) == 0)
}

pub fn float_negate(bits: u64) -> (r: u64)
    ensures
        r == float_neg(bits),
{
    if bits >= SIGN_BIT {
        bits - SIGN_BIT
    } else {
        bits + SIGN_BIT
    }
}

/// The magnitude of a double where it is a whole number.
///
/// With exponent field `e` and the fraction `f`, a double that is neither
/// zero, subnormal, infinite nor NaN has the magnitude
/// `(2^52 + f) * 2^(e - 1075)`.
pub open spec fn float_whole_magnitude(bits: u64) -> Option<int> {
    let e = float_exponent(bits);
    let m = FRACTION_RANGE + float_fraction(bits);
    if float_magnitude(bits) == 0 {
        Some(0)
    } else if e < EXPONENT_BIAS || e == 2047 {
        None
    } else if e <= 1075 {
        if m % (pow2((1075 - e) as nat) as int) == 0 {
            Some(m / (pow2((1075 - e) as nat) as int))
        } else {
            None
        }
    } else {
        Some(m * pow2((e - 1075) as nat))
    }
}

/// The whole number that a double stands for, where it stands for one.
pub open spec fn float_whole(bits: u64) -> Option<int> {
    match float_whole_magnitude(bits) {
        Some(v) => if float_negative(bits) {
            Some(-v)
        } else {
            Some(v)
        },
        None => None,
    }
}

/// A double as a 64-bit integer: the whole number it stands for, where that
/// is in range.
pub open spec fn float_to_int(bits: u64) -> Option<i64> {
    match float_whole(bits) {
        Some(v) => if i64::MIN <= v <= i64::MAX {
            Some(v as i64)
        } else {
            None
        },
        None => None,
    }
}

#[verifier::rlimit(50)]
pub fn float_to_integer(bits: u64) -> (r: Option<i64>)
    ensures
        r == float_to_int(bits),
{
    let mag: u64 = magnitude(bits);
    if mag == 0 {
        return Some(0);
    }
    let e: u64 = mag / FRACTION_RANGE;
    let m: u64 = FRACTION_RANGE + mag % FRACTION_RANGE;
    if e < EXPONENT_BIAS || e == 2047 {
        return None;
    }
    let negative = bits >= SIGN_BIT;
    if e <= 1075 {
        let shift: u64 = 1075 - e;
        let whole: u64 = m >> shift;
        proof {
            lemma_u64_shr_is_div(m, shift);
            lemma_pow2_pos(shift as nat);
            assert(whole * pow2(shift as nat) <= m) by (nonlinear_arith)
                requires
                    whole == m as nat / pow2(shift as nat),
                    pow2(shift as nat) > 0,
            ;
            lemma_u64_shl_is_mul(whole, shift);
        }
        if whole << shift != m {
            proof {
                assert(m as int % (pow2(shift as nat) as int) != 0) by (nonlinear_arith)
                    requires
                        whole == m as int / (pow2(shift as nat) as int),
                        whole * pow2(shift as nat) != m,
                        pow2(shift as nat) > 0,
                ;
            }
            return None;
        }
        proof {
            assert(m as int % (pow2(shift as nat) as int) == 0) by (nonlinear_arith)
                requires
                    whole == m as int / (pow2(shift as nat) as int),
                    whole * pow2(shift as nat) == m,
                    pow2(shift as nat) > 0,
            ;
        }
        if negative {
            Some(-(whole as i64))
        } else {
            Some(whole as i64)
        }
    } else if e <= 1085 {
        let shift: u64 = e - 1075;
        proof {
            lemma2_to64();
            if shift < 10 {
                lemma_pow2_strictly_increases(shift as nat, 10);
            }
            assert(m * pow2(shift as nat) < 0x8000_0000_0000_0000) by (nonlinear_arith)
                requires
                    m < 0x20_0000_0000_0000,
                    pow2(shift as nat) <= 0x400,
            ;
            lemma_u64_shl_is_mul(m, shift);
        }
        let whole: u64 = m << shift;
        if negative {
            Some(-(whole as i64))
        } else {
            Some(whole as i64)
        }
    } else {
        proof {
            lemma2_to64();
            if e > 1086 {
                lemma_pow2_strictly_increases(11, (e - 1075) as nat);
            }
            assert(m * pow2((e - 1075) as nat) >= 0x8000_0000_0000_0000) by (nonlinear_arith)
                requires
                    m >= 0x10_0000_0000_0000,
                    pow2((e - 1075) as nat) >= 0x800,
            ;
            if e == 1086 && m == FRACTION_RANGE {
                assert(m * pow2(11) == 0x8000_0000_0000_0000);
            } else {
                assert(m * pow2((e - 1075) as nat) > 0x8000_0000_0000_0000) by (nonlinear_arith)
                    requires
                        m >= 0x10_0000_0000_0000,
                        pow2((e - 1075) as nat) >= 0x800,
                        m > 0x10_0000_0000_0000 || pow2((e - 1075) as nat) > 0x800,
                ;
            }
        }
        if negative && e == 1086 && m == FRACTION_RANGE {
            Some(i64::MIN)
        } else {
            None
        }
    }
}

/// The magnitude of a double that is no NaN, counted in units of `2^-1074`,
/// the step between the smallest doubles: with exponent field `e` and
/// fraction `f` it is `f` for `e = 0` and `(2^52 + f) * 2^(e - 1)` otherwise.
/// An infinity counts as the power of two behind the greatest finite double.
pub open spec fn float_units(bits: u64) -> nat {
    let e = float_exponent(bits);
    let f = float_fraction(bits);
    if e == 0 {
        f as nat
    } else {
        ((FRACTION_RANGE + f) * pow2((e - 1) as nat)) as nat
    }
}

/// The value of a double that is no NaN, in units of `2^-1074`.
pub open spec fn float_value(bits: u64) -> int {
    if float_negative(bits) {
        -(float_units(bits) as int)
    } else {
        float_units(bits) as int
    }
}

/// Whether a double is neither infinite nor NaN.
pub open spec fn float_is_finite(bits: u64) -> bool {
    float_magnitude(bits) < INFINITY_BITS
}

/// Among doubles of one sign, the one with the greater bit pattern has the
/// greater magnitude.
#[verifier::rlimit(50)]
pub proof fn lemma_units_monotone(x: u64, y: u64)
    requires
        float_magnitude(x) < float_magnitude(y),
    ensures
        float_units(x) < float_units(y),
{
    let ex = float_exponent(x);
    let ey = float_exponent(y);
    let fx = float_fraction(x);
    let fy = float_fraction(y);
    let r = FRACTION_RANGE as int;
    assert(float_magnitude(x) == ex * r + fx && 0 <= fx < r && 0 <= ex);
    assert(float_magnitude(y) == ey * r + fy && 0 <= fy < r && 0 <= ey);
    assert(ex <= ey) by (nonlinear_arith)
        requires
            ex * r + fx < ey * r + fy,
            0 <= fx < r,
            0 <= fy < r,
    ;
    if ex == ey {
        if ex > 0 {
            let p = pow2((ex - 1) as nat) as int;
            lemma_pow2_pos((ex - 1) as nat);
            assert((r + fx) * p < (r + fy) * p) by (nonlinear_arith)
                requires
                    fx < fy,
                    p > 0,
            ;
        }
    } else {
        let q = pow2((ey - 1) as nat) as int;
        lemma_pow2_pos((ey - 1) as nat);
        assert(r <= (r + fy) * q) by (nonlinear_arith)
            requires
                0 <= fy,
                q >= 1,
                r >= 0,
        ;
        if ex > 0 {
            let p = pow2((ex - 1) as nat) as int;
            lemma_pow2_pos((ex - 1) as nat);
            vstd::arithmetic::power2::lemma_pow2_unfold(ex as nat);
            if ex < ey - 1 {
                lemma_pow2_strictly_increases(ex as nat, (ey - 1) as nat);
            }
            assert((r + fx) * p < (r + fy) * q) by (nonlinear_arith)
                requires
                    0 <= fx < r,
                    0 <= fy,
                    p > 0,
                    2 * p <= q,
            ;
        }
    }
}

/// The order of doubles that this module computes from the bits is the
/// order of their values, and so is their equality.
pub proof fn lemma_float_order(x: u64, y: u64)
    requires
        !float_is_nan(x),
        !float_is_nan(y),
    ensures
        float_lt(x, y) <==> float_value(x) < float_value(y),
        float_le(x, y) <==> float_value(x) <= float_value(y),
        float_eq(x, y) <==> float_value(x) == float_value(y),
{
    let mx = float_magnitude(x);
    let my = float_magnitude(y);
    let zero: u64 = 0;
    assert(float_units(zero) == 0);
    if mx < my {
        lemma_units_monotone(x, y);
    } else if my < mx {
        lemma_units_monotone(y, x);
    } else {
        assert(float_units(x) == float_units(y));
    }
    if 0 < mx {
        lemma_units_monotone(zero, x);
    }
    if 0 < my {
        lemma_units_monotone(zero, y);
    }
}

/// A finite double stands for the whole number `v` exactly if its value is
/// `v`, that is `v * 2^1074` units.
pub proof fn lemma_float_whole(bits: u64, v: int)
    requires
        float_is_finite(bits),
    ensures
        float_whole(bits) == Some(v) <==> v * pow2(1074) == float_value(bits),
{
    let w = if float_negative(bits) {
        -v
    } else {
        v
    };
    lemma_whole_magnitude(bits, w);
    assert((-v) * pow2(1074) == -(v * pow2(1074))) by (nonlinear_arith);
}

#[verifier::rlimit(50)]
proof fn lemma_whole_magnitude(bits: u64, w: int)
    requires
        float_is_finite(bits),
    ensures
        float_whole_magnitude(bits) == Some(w) <==> w * pow2(1074) == float_units(bits),
{
    let e = float_exponent(bits);
    let f = float_fraction(bits);
    let r = FRACTION_RANGE as int;
    let m = r + f;
    let unit = pow2(1074) as int;
    let units = float_units(bits) as int;
    assert(float_magnitude(bits) == e * r + f && 0 <= f < r && 0 <= e < 2047);
    lemma_pow2_pos(1074);
    lemma2_to64();
    lemma2_to64_rest();
    if e == 0 {
        // Zero or subnormal: fewer than 2^52 units.
        lemma_pow2_strictly_increases(52, 1074);
        assert(w * unit == f ==> w == 0 && f == 0) by (nonlinear_arith)
            requires
                0 <= f < unit,
                unit > 0,
        ;
        assert(0 * unit == 0);
    } else if e < EXPONENT_BIAS {
        // Less than one: fewer than 2^1074 units, and more than none.
        let p = pow2((e - 1) as nat) as int;
        lemma_pow2_pos((e - 1) as nat);
        lemma_pow2_adds(53, (e - 1) as nat);
        if e + 52 < 1074 {
            lemma_pow2_strictly_increases((e + 52) as nat, 1074);
        }
        assert(0 < m * p < unit) by (nonlinear_arith)
            requires
                r <= m < 2 * r,
                p > 0,
                2 * r * p <= unit,
                r > 0,
        ;
        assert(w * unit != m * p) by (nonlinear_arith)
            requires
                0 < m * p < unit,
                unit > 0,
        ;
    } else if e <= 1075 {
        let s = pow2((1075 - e) as nat) as int;
        let p = pow2((e - 1) as nat) as int;
        lemma_pow2_pos((1075 - e) as nat);
        lemma_pow2_pos((e - 1) as nat);
        lemma_pow2_adds((1075 - e) as nat, (e - 1) as nat);
        assert(s * p == unit);
        if m % s == 0 {
            let q = m / s;
            vstd::arithmetic::div_mod::lemma_fundamental_div_mod(m, s);
            assert(q * unit == m * p) by (nonlinear_arith)
                requires
                    m == s * q,
                    s * p == unit,
            ;
            assert(w * unit == m * p ==> w == q) by (nonlinear_arith)
                requires
                    q * unit == m * p,
                    unit > 0,
            ;
        } else {
            if w * unit == m * p {
                assert(w * s == m) by (nonlinear_arith)
                    requires
                        w * unit == m * p,
                        s * p == unit,
                        p > 0,
                ;
                vstd::arithmetic::div_mod::lemma_fundamental_div_mod_converse(m, s, w, 0);
            }
        }
    } else {
        let s = pow2((e - 1075) as nat) as int;
        let p = pow2((e - 1) as nat) as int;
        lemma_pow2_adds((e - 1075) as nat, 1074);
        assert(s * unit == p);
        assert((m * s) * unit == m * p) by (nonlinear_arith)
            requires
                s * unit == p,
        ;
        assert(w * unit == m * p ==> w == m * s) by (nonlinear_arith)
            requires
                (m * s) * unit == m * p,
                unit > 0,
        ;
    }
}

/// The number of binary digits of `a`.
pub open spec fn bit_length(a: nat) -> nat
    decreases a,
{
    if a == 0 {
        0
    } else {
        1 + bit_length(a / 2)
    }
}

/// A number of `k` digits lies between `2^(k-1)` and `2^k`.
pub proof fn lemma_bit_length_bounds(a: nat)
    requires
        a > 0,
    ensures
        bit_length(a) >= 1,
        pow2((bit_length(a) - 1) as nat) <= a < pow2(bit_length(a)),
    decreases a,
{
    lemma2_to64();
    if a == 1 {
        assert(bit_length(1) == 1 + bit_length(0));
    } else {
        lemma_bit_length_bounds(a / 2);
        let k = bit_length(a / 2);
        vstd::arithmetic::power2::lemma_pow2_unfold(k);
        vstd::arithmetic::power2::lemma_pow2_unfold(k + 1);
    }
}

/// The magnitude `a`, at least 1 and at most `2^63`, as the exponent and
/// fraction fields of the nearest double; of two doubles equally near, the
/// one whose fraction is even.
pub open spec fn nearest_fields(a: nat) -> int {
    let k = bit_length(a);
    if k <= 53 {
        (1022 + k) * FRACTION_RANGE + (a * pow2((53 - k) as nat) - FRACTION_RANGE)
    } else {
        let p = pow2((k - 53) as nat);
        let q = a / p;
        let r = a % p;
        let m = if 2 * r > p || (2 * r == p && q % 2 == 1) {
            q + 1
        } else {
            q
        };
        (1022 + k) * FRACTION_RANGE + (m - FRACTION_RANGE)
    }
}

/// The double nearest to an integer.
pub open spec fn int_to_float(i: i64) -> u64 {
    if i == 0 {
        0
    } else if i < 0 {
        (SIGN_BIT + nearest_fields((-i) as nat)) as u64
    } else {
        nearest_fields(i as nat) as u64
    }
}

/// The whole number nearest to `a` among those that a double can stand
/// for. A number of at most 53 digits is one itself. Of a number of `k`
/// digits, with `k` above 53, the doubles near it are the multiples of
/// `2^(k-53)`, and the nearest multiple is taken; of two equally near, the
/// even one.
pub open spec fn rounded(a: nat) -> nat {
    let k = bit_length(a);
    if k <= 53 {
        a
    } else {
        let p = pow2((k - 53) as nat);
        if 2 * (a % p) > p || (2 * (a % p) == p && (a / p) % 2 == 1) {
            (a / p + 1) * p
        } else {
            (a / p) * p
        }
    }
}

/// `rounded(a)` is a multiple of the step between the doubles near `a`, it is
/// at most half a step away from `a`, and where it is exactly half a step
/// away it is an even multiple.
pub proof fn lemma_rounded(a: nat)
    requires
        bit_length(a) > 53,
    ensures
        ({
            let p = pow2((bit_length(a) - 53) as nat) as int;
            let d = rounded(a) - a;
            &&& p > 0
            &&& rounded(a) % (p as nat) == 0
            &&& -p <= 2 * d <= p
            &&& (2 * d == p || 2 * d == -p) ==> (rounded(a) as int / p) % 2 == 0
        }),
{
    let p = pow2((bit_length(a) - 53) as nat) as int;
    let q = a as int / p;
    let r = a as int % p;
    lemma_pow2_pos((bit_length(a) - 53) as nat);
    vstd::arithmetic::div_mod::lemma_fundamental_div_mod(a as int, p);
    vstd::arithmetic::div_mod::lemma_mod_bound(a as int, p);
    assert(a == p * q + r && 0 <= r < p);
    let m = if 2 * r > p || (2 * r == p && q % 2 == 1) {
        q + 1
    } else {
        q
    };
    assert(rounded(a) == m * p);
    vstd::arithmetic::div_mod::lemma_fundamental_div_mod_converse(m * p, p, m, 0);
    assert(m * p - a == (m - q) * p - r) by (nonlinear_arith)
        requires
            a == p * q + r,
    ;
    if m == q + 1 {
        assert((m - q) * p == p) by (nonlinear_arith)
            requires
                m - q == 1,
        ;
    } else {
        assert((m - q) * p == 0) by (nonlinear_arith)
            requires
                m - q == 0,
        ;
    }
}

/// The fields that `nearest_fields` gives are those of the finite double
/// whose value is `rounded(a)`.
#[verifier::rlimit(50)]
pub proof fn lemma_nearest_fields(a: nat)
    requires
        1 <= a <= 0x8000_0000_0000_0000,
    ensures
        0 < nearest_fields(a) < INFINITY_BITS,
        float_units(nearest_fields(a) as u64) == rounded(a) * pow2(1074),
{
    let k = bit_length(a);
    let r = FRACTION_RANGE as int;
    lemma_bit_length_bounds(a);
    lemma2_to64();
    lemma2_to64_rest();
    assert(k <= 64) by {
        if k > 64 {
            lemma_pow2_strictly_increases(63, (k - 1) as nat);
        }
    }
    // The mantissa with its leading bit, and the power of two that it
    // stands for in units.
    let m: int = if k <= 53 {
        (a * pow2((53 - k) as nat)) as int
    } else {
        rounded(a) as int / (pow2((k - 53) as nat) as int)
    };
    let scale = pow2((1021 + k) as nat) as int;
    lemma_pow2_pos((1021 + k) as nat);
    if k <= 53 {
        let up = pow2((53 - k) as nat) as int;
        lemma_pow2_pos((53 - k) as nat);
        lemma_pow2_adds(k, (53 - k) as nat);
        lemma_pow2_adds((k - 1) as nat, (53 - k) as nat);
        assert(r <= m < 2 * r) by (nonlinear_arith)
            requires
                m == a * up,
                pow2((k - 1) as nat) <= a < pow2(k),
                pow2(k) * up == 2 * r,
                pow2((k - 1) as nat) * up == r,
                up > 0,
        ;
        lemma_pow2_adds((53 - k) as nat, (1021 + k) as nat);
        assert(m * scale == a * pow2(1074)) by (nonlinear_arith)
            requires
                m == a * up,
                up * scale == pow2(1074),
        ;
    } else {
        let p = pow2((k - 53) as nat) as int;
        lemma_rounded(a);
        let q = a as int / p;
        vstd::arithmetic::div_mod::lemma_fundamental_div_mod(a as int, p);
        vstd::arithmetic::div_mod::lemma_mod_bound(a as int, p);
        lemma_pow2_adds(52, (k - 53) as nat);
        lemma_pow2_adds(53, (k - 53) as nat);
        assert(r <= q < 2 * r) by (nonlinear_arith)
            requires
                a == p * q + a as int % p,
                0 <= a as int % p < p,
                r * p <= a < 2 * r * p,
                p > 0,
        ;
        let up = 2 * (a as int % p) > p || (2 * (a as int % p) == p && q % 2 == 1);
        if up {
            assert(rounded(a) == (q + 1) * p);
            vstd::arithmetic::div_mod::lemma_fundamental_div_mod_converse(
                (q + 1) * p,
                p,
                q + 1,
                0,
            );
            assert(m == q + 1);
        } else {
            assert(rounded(a) == q * p);
            vstd::arithmetic::div_mod::lemma_fundamental_div_mod_converse(q * p, p, q, 0);
            assert(m == q);
        }
        vstd::arithmetic::div_mod::lemma_fundamental_div_mod(rounded(a) as int, p);
        assert(rounded(a) == m * p) by (nonlinear_arith)
            requires
                rounded(a) as int == p * m + rounded(a) as int % p,
                rounded(a) as int % p == 0,
        ;
        lemma_pow2_adds((k - 53) as nat, 1074);
        assert(m * scale == rounded(a) * pow2(1074)) by (nonlinear_arith)
            requires
                rounded(a) == m * p,
                p * pow2(1074) == scale,
        ;
        assert(nearest_fields(a) == (1022 + k) * r + (m - r));
    }
    assert(r <= m <= 2 * r);
    let fields = nearest_fields(a);
    assert(fields == (1022 + k) * r + (m - r));
    let bits = fields as u64;
    assert(float_magnitude(bits) == fields);
    if m < 2 * r {
        assert(float_exponent(bits) == 1022 + k && float_fraction(bits) == m - r);
    } else {
        assert(float_exponent(bits) == 1023 + k && float_fraction(bits) == 0);
        vstd::arithmetic::power2::lemma_pow2_unfold((1022 + k) as nat);
        assert(r * pow2((1022 + k) as nat) == m * scale) by (nonlinear_arith)
            requires
                m == 2 * r,
                pow2((1022 + k) as nat) == 2 * scale,
        ;
    }
}

/// The double that `int_to_float` gives for an integer is finite, and its
/// value is the whole number nearest to the integer that a double can stand
/// for.
pub proof fn lemma_int_to_float(i: i64)
    ensures
        float_is_finite(int_to_float(i)),
        float_value(int_to_float(i)) == if i < 0 {
            -(rounded((-i) as nat) * pow2(1074))
        } else {
            (rounded(i as nat) * pow2(1074)) as int
        },
{
    if i == 0 {
        let zero: u64 = 0;
        assert(float_units(zero) == 0);
        assert(bit_length(0) == 0);
        assert(rounded(0) * pow2(1074) == 0) by (nonlinear_arith)
            requires
                rounded(0) == 0,
        ;
    } else if i < 0 {
        lemma_nearest_fields((-i) as nat);
        let fields = nearest_fields((-i) as nat);
        let bits = (SIGN_BIT + fields) as u64;
        assert(float_magnitude(bits) == fields);
        assert(float_units(bits) == float_units(fields as u64));
    } else {
        lemma_nearest_fields(i as nat);
    }
}

#[verifier::rlimit(50)]
pub fn integer_to_float(i: i64) -> (r: u64)
    ensures
        r == int_to_float(i),
{
    if i == 0 {
        return 0;
    }
    let a: u64 = if i < 0 {
        (-(i + 1)) as u64 + 1
    } else {
        i as u64
    };
    let mut k: u64 = 0;
    let mut t: u64 = a;
    proof {
        lemma2_to64();
    }
    while t > 0
        invariant
            k <= 64,
            bit_length(a as nat) == k + bit_length(t as nat),
            t > 0 ==> k < 64,
            t as nat * pow2(k as nat) <= a,
        decreases t,
    {
        proof {
            lemma_bit_length_bounds(a as nat);
            lemma_bit_length_bounds(t as nat);
            lemma2_to64();
            vstd::arithmetic::power2::lemma_pow2_unfold((k + 1) as nat);
            assert((t / 2) as nat * pow2((k + 1) as nat) <= a) by (nonlinear_arith)
                requires
                    t as nat * pow2(k as nat) <= a,
                    pow2((k + 1) as nat) == 2 * pow2(k as nat),
            ;
            if k == 63 && t / 2 > 0 {
                lemma2_to64_rest();
                assert((t / 2) as nat * pow2(64) >= pow2(64)) by (nonlinear_arith)
                    requires
                        t / 2 > 0,
                ;
            }
        }
        t = t / 2;
        k = k + 1;
    }
    proof {
        lemma_bit_length_bounds(a as nat);
        lemma2_to64();
        lemma2_to64_rest();
    }
    let fields: u64 = if k <= 53 {
        let shift: u64 = 53 - k;
        proof {
            lemma_pow2_adds(k as nat, shift as nat);
            lemma_pow2_pos(shift as nat);
            assert(a * pow2(shift as nat) < pow2(53)) by (nonlinear_arith)
                requires
                    a < pow2(k as nat),
                    pow2(shift as nat) > 0,
                    pow2(k as nat) * pow2(shift as nat) == pow2(53),
            ;
            lemma_pow2_adds((k - 1) as nat, shift as nat);
            assert(a * pow2(shift as nat) >= pow2(52)) by (nonlinear_arith)
                requires
                    a >= pow2((k - 1) as nat),
                    pow2((k - 1) as nat) * pow2(shift as nat) == pow2(52),
            ;
            lemma_u64_shl_is_mul(a, shift);
        }
        (1022 + k) * FRACTION_RANGE + ((a << shift) - FRACTION_RANGE)
    } else {
        let shift: u64 = k - 53;
        proof {
            lemma_u64_shr_is_div(a, shift);
            lemma_pow2_pos(shift as nat);
            lemma_pow2_adds(53, shift as nat);
            lemma_pow2_adds(52, shift as nat);
            lemma_pow2_strictly_increases(shift as nat, 12);
            lemma_u64_shl_is_mul(1, shift);
        }
        let p: u64 = 1u64 << shift;
        let q: u64 = a >> shift;
        proof {
            assert(pow2(52) <= q < pow2(53)) by (nonlinear_arith)
                requires
                    q == a as nat / pow2(shift as nat),
                    pow2(shift as nat) > 0,
                    pow2(52) * pow2(shift as nat) <= a,
                    a < pow2(53) * pow2(shift as nat),
            ;
        }
        let rem: u64 = a % p;
        let m: u64 = if 2 * rem > p || (2 * rem == p && q % 2 == 1) {
            q + 1
        } else {
            q
        };
        (1022 + k) * FRACTION_RANGE + (m - FRACTION_RANGE)
    };
    if i < 0 {
        SIGN_BIT + fields
    } else {
        fields
    }
}

/// The 64-bit integer that differs from `x` by a multiple of `2^64`.
pub open spec fn wrap(x: int) -> i64 {
    ((x + 0x8000_0000_0000_0000) % 0x1_0000_0000_0000_0000 - 0x8000_0000_0000_0000) as i64
}

/// The quotient rounded towards minus infinity. `b` is not 0.
pub open spec fn floor_quotient(a: int, b: int) -> int {
    if b > 0 {
        a / b
    } else {
        (-a) / (-b)
    }
}

/// What is left of `a` above the greatest multiple of `b` that `a` reaches
/// from below: 0 or a number with the sign of `b`. `b` is not 0.
pub open spec fn floor_remainder(a: int, b: int) -> int {
    a - b * floor_quotient(a, b)
}

/// Euclidean division of 64-bit integers by a divisor other than 0 and -1:
/// the quotient fits, and the remainder is less than the divisor's
/// magnitude.
proof fn lemma_euclid(a: i64, b: i64)
    requires
        b != 0,
        b != -1,
    ensures
        a == b * ((a as int) / (b as int)) + ((a as int) % (b as int)),
        0 <= (a as int) % (b as int),
        b > 0 ==> ((a as int) % (b as int)) < b,
        b < 0 ==> ((a as int) % (b as int)) < -b,
        i64::MIN <= (a as int) / (b as int) <= i64::MAX,
{
    let q = (a as int) / (b as int);
    let r = (a as int) % (b as int);
    vstd::arithmetic::div_mod::lemma_fundamental_div_mod(a as int, b as int);
    if b > 0 {
        vstd::arithmetic::div_mod::lemma_mod_bound(a as int, b as int);
        assert(i64::MIN <= q <= i64::MAX) by (nonlinear_arith)
            requires
                a == b * q + r,
                0 <= r < b,
                b >= 1,
                i64::MIN <= a <= i64::MAX,
        ;
    } else {
        // Dividing by `b` and by `-b` leaves the same remainder.
        let q2 = (a as int) / (-b);
        let r2 = (a as int) % (-b);
        vstd::arithmetic::div_mod::lemma_fundamental_div_mod(a as int, -b);
        vstd::arithmetic::div_mod::lemma_mod_bound(a as int, -b);
        assert(a == b * (-q2) + r2) by (nonlinear_arith)
            requires
                a == (-b) * q2 + r2,
        ;
        lemma_euclid_unique(a as int, b as int, -q2, r2);
        assert(i64::MIN <= q <= i64::MAX) by (nonlinear_arith)
            requires
                a == (-b) * q2 + r2,
                q == -q2,
                0 <= r2 < -b,
                -b >= 2,
                i64::MIN <= a <= i64::MAX,
        ;
    }
}

/// A quotient and a remainder that fit a negative divisor are the Euclidean
/// ones.
proof fn lemma_euclid_unique(a: int, b: int, q: int, r: int)
    requires
        b < 0,
        a == b * q + r,
        0 <= r < -b,
    ensures
        q == a / b,
        r == a % b,
{
    vstd::arithmetic::div_mod::lemma_fundamental_div_mod(a, b);
    let q0 = a / b;
    let r0 = a % b;
    assert(0 <= r0 < -b) by {
        assert(0 <= a % b < -b) by (nonlinear_arith)
            requires
                b < 0,
        ;
    }
    assert(q == q0) by (nonlinear_arith)
        requires
            b < 0,
            b * q + r == b * q0 + r0,
            0 <= r < -b,
            0 <= r0 < -b,
    ;
    assert(r == r0) by (nonlinear_arith)
        requires
            b * q + r == b * q0 + r0,
            q == q0,
    ;
}

/// Floor division, wrapped round where the quotient does not fit (the
/// smallest integer divided by -1).
#[verifier::rlimit(50)]
pub fn floor_div(a: i64, b: i64) -> (r: i64)
    requires
        b != 0,
    ensures
        r == wrap(floor_quotient(a as int, b as int)),
{
    if b == -1 {
        assert(floor_quotient(a as int, -1) == -a);
        return 0i64.wrapping_sub(a);
    }
    proof {
        lemma_euclid(a, b);
    }
    let q: i64 = a.checked_div_euclid(b).unwrap();
    let rem: i64 = a.checked_rem_euclid(b).unwrap();
    if b > 0 || rem == 0 {
        proof {
            if b < 0 {
                lemma_floor_of_negative_divisor(a as int, b as int, q as int, rem as int);
            }
        }
        q
    } else {
        proof {
            lemma_floor_of_negative_divisor(a as int, b as int, q as int, rem as int);
            assert(q - 1 >= i64::MIN) by (nonlinear_arith)
                requires
                    a == b * q + rem,
                    0 < rem < -b,
                    b <= -2,
                    i64::MIN <= a <= i64::MAX,
            ;
        }
        q - 1
    }
}

/// Floor division by a negative divisor, from the Euclidean quotient and
/// remainder.
proof fn lemma_floor_of_negative_divisor(a: int, b: int, q: int, rem: int)
    requires
        b < 0,
        a == b * q + rem,
        0 <= rem < -b,
    ensures
        floor_quotient(a, b) == if rem == 0 {
            q
        } else {
            q - 1
        },
        floor_remainder(a, b) == if rem == 0 {
            0
        } else {
            rem + b
        },
{
    if rem == 0 {
        assert(-a == q * (-b)) by (nonlinear_arith)
            requires
                a == b * q + rem,
                rem == 0,
        ;
        vstd::arithmetic::div_mod::lemma_fundamental_div_mod_converse(-a, -b, q, 0);
        assert(a - b * q == 0);
    } else {
        assert(-a == (q - 1) * (-b) + (-b - rem)) by (nonlinear_arith)
            requires
                a == b * q + rem,
        ;
        vstd::arithmetic::div_mod::lemma_fundamental_div_mod_converse(-a, -b, q - 1, -b - rem);
        assert(a - b * (q - 1) == rem + b) by (nonlinear_arith)
            requires
                a == b * q + rem,
        ;
    }
}

/// The remainder of floor division.
#[verifier::rlimit(50)]
pub fn floor_mod(a: i64, b: i64) -> (r: i64)
    requires
        b != 0,
    ensures
        r == floor_remainder(a as int, b as int),
{
    if b == -1 {
        assert(floor_remainder(a as int, -1) == 0) by (nonlinear_arith);
        return 0;
    }
    proof {
        lemma_euclid(a, b);
    }
    let rem: i64 = a.checked_rem_euclid(b).unwrap();
    if b > 0 || rem == 0 {
        proof {
            if b < 0 {
                lemma_floor_of_negative_divisor(
                    a as int,
                    b as int,
                    (a as int) / (b as int),
                    rem as int,
                );
            }
        }
        rem
    } else {
        proof {
            lemma_floor_of_negative_divisor(
                a as int,
                b as int,
                (a as int) / (b as int),
                rem as int,
            );
        }
        rem + b
    }
}

/// `a` shifted left by `n` bits, zeros coming in from the right. A negative
/// `n` shifts right, and 64 or more bits leave 0.
pub open spec fn shl_spec(a: i64, n: i64) -> i64 {
    if n <= -64 || n >= 64 {
        0
    } else if n >= 0 {
        ((a as u64) << (n as u64)) as i64
    } else {
        ((a as u64) >> ((-n) as u64)) as i64
    }
}

/// `a` shifted right by `n` bits, zeros coming in from the left. A negative
/// `n` shifts left, and 64 or more bits leave 0.
pub open spec fn shr_spec(a: i64, n: i64) -> i64 {
    if n <= -64 || n >= 64 {
        0
    } else if n >= 0 {
        ((a as u64) >> (n as u64)) as i64
    } else {
        ((a as u64) << ((-n) as u64)) as i64
    }
}

pub fn shift_left(a: i64, n: i64) -> (r: i64)
    ensures
        r == shl_spec(a, n),
{
    if n <= -64 || n >= 64 {
        0
    } else if n >= 0 {
        #[verifier::truncate]
        (((
        #[verifier::truncate]
        (a as u64)) << (n as u64)) as i64)
    } else {
        #[verifier::truncate]
        (((
        #[verifier::truncate]
        (a as u64)) >> ((-n) as u64)) as i64)
    }
}

pub fn shift_right(a: i64, n: i64) -> (r: i64)
    ensures
        r == shr_spec(a, n),
{
    if n <= -64 || n >= 64 {
        0
    } else if n >= 0 {
        #[verifier::truncate]
        (((
        #[verifier::truncate]
        (a as u64)) >> (n as u64)) as i64)
    } else {
        #[verifier::truncate]
        (((
        #[verifier::truncate]
        (a as u64)) << ((-n) as u64)) as i64)
    }
}

/// Whether every character is a decimal digit.
pub open spec fn all_digits(s: Seq<char>) -> bool {
    forall|i: int| 0 <= i < s.len() ==> '0' <= #[trigger] s[i] <= '9'
}

/// The number that a row of decimal digits writes.
pub open spec fn digits_value(s: Seq<char>) -> nat
    decreases s.len(),
{
    if s.len() == 0 {
        0
    } else {
        (10 * digits_value(s.drop_last()) + (s.last() as nat - '0' as nat)) as nat
    }
}

/// The integer that a text writes: an optional sign, `+` or `-`, and at
/// least one decimal digit, nothing before, between or behind; and the number
/// fits in 64 bits.
pub open spec fn parse_int(s: Seq<char>) -> Option<i64> {
    let signed = s.len() > 0 && (s[0] == '-' || s[0] == '+');
    let digits = if signed {
        s.skip(1)
    } else {
        s
    };
    let value: int = if s.len() > 0 && s[0] == '-' {
        -digits_value(digits)
    } else {
        digits_value(digits) as int
    };
    if digits.len() > 0 && all_digits(digits) && i64::MIN <= value <= i64::MAX {
        Some(value as i64)
    } else {
        None
    }
}

/// The decimal digits of a number, without leading zeros.
pub open spec fn decimal_digits(n: nat) -> Seq<char>
    decreases n,
{
    if n < 10 {
        seq![(n + '0' as nat) as char]
    } else {
        decimal_digits(n / 10).push((n % 10 + '0' as nat) as char)
    }
}

/// An integer written in decimal, with `-` before a negative one.
pub open spec fn int_text(i: int) -> Seq<char> {
    if i < 0 {
        seq!['-'] + decimal_digits((-i) as nat)
    } else {
        decimal_digits(i as nat)
    }
}

/// The decimal digits of a number are digits, there is at least one, and
/// they write the number.
pub proof fn lemma_decimal_digits(n: nat)
    ensures
        decimal_digits(n).len() >= 1,
        all_digits(decimal_digits(n)),
        digits_value(decimal_digits(n)) == n,
    decreases n,
{
    let d = decimal_digits(n);
    if n < 10 {
        assert(d.len() == 1);
        assert(d.drop_last() =~= Seq::<char>::empty());
        assert(d.last() == (n + '0' as nat) as char);
        assert(digits_value(d.drop_last()) == 0);
    } else {
        lemma_decimal_digits(n / 10);
        let head = decimal_digits(n / 10);
        assert(d.drop_last() =~= head);
        assert(d.last() == (n % 10 + '0' as nat) as char);
        assert forall|i: int| 0 <= i < d.len() implies '0' <= #[trigger] d[i] <= '9' by {
            if i < head.len() {
                assert(d[i] == head[i]);
            }
        }
    }
}

/// An integer written in decimal reads back as itself.
pub proof fn lemma_text_reads_back(i: i64)
    ensures
        parse_int(int_text(i as int)) == Some(i),
{
    if i < 0 {
        let digits = decimal_digits((-i) as nat);
        lemma_decimal_digits((-i) as nat);
        let text = int_text(i as int);
        assert(text[0] == '-');
        assert(text.skip(1) =~= digits);
    } else {
        lemma_decimal_digits(i as nat);
        let text = int_text(i as int);
        assert('0' <= text[0] <= '9');
    }
}

/// The number that the first digits of a row write is not greater than the
/// number that the whole row writes.
proof fn lemma_digits_grow(s: Seq<char>, j: int)
    requires
        0 <= j <= s.len(),
        all_digits(s),
    ensures
        digits_value(s.take(j)) <= digits_value(s),
    decreases s.len(),
{
    if j < s.len() {
        assert(s.drop_last().take(j) =~= s.take(j));
        let head = s.drop_last();
        assert forall|i: int| 0 <= i < head.len() implies '0' <= #[trigger] head[i] <= '9' by {
            assert(s.drop_last()[i] == s[i]);
        }
        lemma_digits_grow(s.drop_last(), j);
        assert('0' <= s.last() <= '9') by {
            assert(s.last() == s[s.len() - 1]);
        }
    } else {
        assert(s.take(j) =~= s);
    }
}

/// Reads a text as an integer.
#[verifier::rlimit(50)]
pub fn parse_integer(s: &str) -> (r: Option<i64>)
    ensures
        r == parse_int(s@),
{
    broadcast use vstd::string::is_ascii_spec_bytes;

    let ghost text = s@;
    let ghost signed = text.len() > 0 && (text[0] == '-' || text[0] == '+');
    let ghost digits = if signed {
        text.skip(1)
    } else {
        text
    };
    if !s.is_ascii() {
        proof {
            let i = choose|i: int| 0 <= i < text.len() && !('\0' <= #[trigger] text[i] <= '\u{7f}');
            if signed {
                assert(digits[i - 1] == text[i]);
            } else {
                assert(digits[i] == text[i]);
            }
        }
        return None;
    }
    let bytes = s.as_bytes();
    let n: usize = bytes.len();
    assert(n == text.len());
    assert(forall|i: int| 0 <= i < n ==> #[trigger] bytes@[i] == text[i] as u8);
    if n == 0 {
        return None;
    }
    let negative = bytes[0] == 0x2d;
    let start: usize = if negative || bytes[0] == 0x2b {
        1
    } else {
        0
    };
    assert(text[0] == '-' <==> bytes@[0] == 0x2d);
    assert(text[0] == '+' <==> bytes@[0] == 0x2b);
    assert(digits.len() == n - start);
    if start == n {
        return None;
    }
    let limit: u64 = if negative {
        0x8000_0000_0000_0000
    } else {
        0x7fff_ffff_ffff_ffff
    };
    let mut acc: u64 = 0;
    let mut i: usize = start;
    assert(digits.take(0) =~= Seq::<char>::empty());
    while i < n
        invariant
            start <= i <= n,
            n == text.len(),
            n == bytes@.len(),
            text == s@,
            n > 0,
            signed == (text[0] == '-' || text[0] == '+'),
            digits == (if signed {
                text.skip(1)
            } else {
                text
            }),
            negative == (text[0] == '-'),
            limit == (if negative {
                0x8000_0000_0000_0000u64
            } else {
                0x7fff_ffff_ffff_ffffu64
            }),
            digits.len() == n - start,
            forall|j: int| 0 <= j < digits.len() ==> digits[j] == text[j + start],
            forall|j: int| 0 <= j < n ==> #[trigger] bytes@[j] == text[j] as u8,
            forall|j: int| 0 <= j < n ==> '\0' <= #[trigger] text[j] <= '\u{7f}',
            all_digits(digits.take(i - start)),
            acc == digits_value(digits.take(i - start)),
            acc <= limit,
        decreases n - i,
    {
        let b: u8 = bytes[i];
        let ghost before = digits.take(i - start);
        let ghost after = digits.take(i - start + 1);
        assert(after.drop_last() =~= before);
        assert(after.last() == text[i as int]);
        assert(bytes@[i as int] == text[i as int] as u8);
        if b < 0x30 || b > 0x39 {
            proof {
                assert(!('0' <= digits[i - start] <= '9'));
            }
            return None;
        }
        assert('0' <= text[i as int] <= '9');
        assert forall|j: int| 0 <= j < after.len() implies '0' <= #[trigger] after[j] <= '9' by {
            if j < before.len() {
                assert(before[j] == after[j]);
            }
        }
        let d: u64 = (b - 0x30) as u64;
        assert(d == text[i as int] as nat - '0' as nat);
        if acc > (limit - d) / 10 {
            proof {
                assert(digits_value(after) > limit);
                if all_digits(digits) {
                    lemma_digits_grow(digits, i - start + 1);
                }
            }
            return None;
        }
        acc = acc * 10 + d;
        i += 1;
    }
    assert(digits.take(n - start) =~= digits);
    if negative {
        if acc == 0x8000_0000_0000_0000 {
            Some(i64::MIN)
        } else {
            Some(-(acc as i64))
        }
    } else {
        Some(acc as i64)
    }
}

/// The text of one decimal digit.
fn digit_text(d: u64) -> (r: &'static str)
    requires
        d < 10,
    ensures
        r@ == seq![(d + '0' as nat) as char],
{
    proof {
        reveal_strlit("0");
        reveal_strlit("1");
        reveal_strlit("2");
        reveal_strlit("3");
        reveal_strlit("4");
        reveal_strlit("5");
        reveal_strlit("6");
        reveal_strlit("7");
        reveal_strlit("8");
        reveal_strlit("9");
    }
    let r = if d == 0 {
        "0"
    } else if d == 1 {
        "1"
    } else if d == 2 {
        "2"
    } else if d == 3 {
        "3"
    } else if d == 4 {
        "4"
    } else if d == 5 {
        "5"
    } else if d == 6 {
        "6"
    } else if d == 7 {
        "7"
    } else if d == 8 {
        "8"
    } else {
        "9"
    };
    assert(r@ =~= seq![(d + '0' as nat) as char]);
    r
}

/// Writes a number in decimal.
fn natural_to_string(n: u64) -> (r: String)
    ensures
        r@ == decimal_digits(n as nat),
    decreases n,
{
    if n < 10 {
        String::from_str(digit_text(n))
    } else {
        let mut text = natural_to_string(n / 10);
        text.append(digit_text(n % 10));
        assert(text@ =~= decimal_digits((n / 10) as nat).push(((n % 10) + '0' as nat) as char));
        text
    }
}

/// Writes an integer in decimal.
pub fn integer_to_string(i: i64) -> (r: String)
    ensures
        r@ == int_text(i as int),
{
    if i < 0 {
        proof {
            reveal_strlit("-");
        }
        let magnitude: u64 = (-(i + 1)) as u64 + 1;
        let mut text = String::from_str("-");
        let digits = natural_to_string(magnitude);
        text.append(digits.as_str());
        assert(text@ =~= seq!['-'] + decimal_digits((-i) as nat));
        text
    } else {
        natural_to_string(i as u64)
    }
}

} // verus!
