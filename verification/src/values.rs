//! What the bit patterns mean. Every finite single-precision value is a
//! whole multiple of 2^-149, so a value is modelled by that multiple, and the
//! integer readings of the patterns are shown to agree with it.
use vstd::prelude::*;
use vstd::arithmetic::div_mod::{
    lemma_basic_div, lemma_div_multiples_vanish, lemma_div_multiples_vanish_quotient,
    lemma_mod_multiples_basic, lemma_small_mod, lemma_truncate_middle,
};
use vstd::arithmetic::power2::{
    lemma2_to64, lemma_pow2_adds, lemma_pow2_pos, lemma_pow2_strictly_increases, pow2,
};
use crate::bits::{
    exponent, fraction, is_nan, is_negative, is_whole, magnitude, order_key, significand,
    truncated_magnitude, value_le,
};

verus! {

/// Neither an infinity nor a NaN.
pub open spec fn is_finite(b: u32) -> bool {
    exponent(b) < 255
}

/// The absolute value in units of 2^-149: the fraction itself for a
/// subnormal, else the significand times 2^(exponent - 1).
pub open spec fn scaled_magnitude(b: u32) -> int {
    if exponent(b) == 0 {
        fraction(b)
    } else {
        significand(b) * pow2((exponent(b) - 1) as nat)
    }
}

/// The value in units of 2^-149.
pub open spec fn scaled_value(b: u32) -> int {
    if is_negative(b) {
        -scaled_magnitude(b)
    } else {
        scaled_magnitude(b)
    }
}

/// A pattern with exponent `e` has a magnitude from 2^(e + 22) up to, not
/// including, 2^(e + 23) units; a subnormal has less than 2^23 units.
pub proof fn lemma_scaled_magnitude_bounds(b: u32)
    ensures
        0 <= scaled_magnitude(b) < pow2((exponent(b) + 23) as nat),
        exponent(b) >= 1 ==> pow2((exponent(b) + 22) as nat) <= scaled_magnitude(b),
{
    lemma2_to64();
    let e = exponent(b);
    if e >= 1 {
        let p = pow2((e - 1) as nat) as int;
        let m = significand(b);
        lemma_pow2_adds(23, (e - 1) as nat);
        lemma_pow2_adds(24, (e - 1) as nat);
        lemma_pow2_pos((e - 1) as nat);
        assert(0x80_0000 * p <= m * p < 0x100_0000 * p) by (nonlinear_arith)
            requires
                0x80_0000 <= m < 0x100_0000,
                p > 0,
        ;
    }
}

proof fn lemma_smaller_pattern_smaller_magnitude(a: u32, b: u32)
    requires
        magnitude(a) < magnitude(b),
    ensures
        scaled_magnitude(a) < scaled_magnitude(b),
{
    let ea = exponent(a);
    let eb = exponent(b);
    lemma_scaled_magnitude_bounds(a);
    lemma_scaled_magnitude_bounds(b);
    if ea < eb {
        if ea + 23 < eb + 22 {
            lemma_pow2_strictly_increases((ea + 23) as nat, (eb + 22) as nat);
        }
    } else {
        assert(ea == eb && fraction(a) < fraction(b));
        if ea >= 1 {
            let p = pow2((ea - 1) as nat) as int;
            lemma_pow2_pos((ea - 1) as nat);
            assert(significand(a) * p < significand(b) * p) by (nonlinear_arith)
                requires
                    significand(a) < significand(b),
                    p > 0,
            ;
        }
    }
}

/// The patterns without their sign order as the absolute values do.
pub proof fn lemma_magnitude_orders_values(a: u32, b: u32)
    ensures
        magnitude(a) <= magnitude(b) <==> scaled_magnitude(a) <= scaled_magnitude(b),
{
    if magnitude(a) < magnitude(b) {
        lemma_smaller_pattern_smaller_magnitude(a, b);
    } else if magnitude(b) < magnitude(a) {
        lemma_smaller_pattern_smaller_magnitude(b, a);
    }
}

/// The order key orders the patterns as the values are ordered.
pub proof fn lemma_order_key_orders_values(a: u32, b: u32)
    ensures
        order_key(a) <= order_key(b) <==> scaled_value(a) <= scaled_value(b),
{
    lemma_magnitude_orders_values(a, b);
    lemma_magnitude_orders_values(b, a);
    lemma_magnitude_orders_values(a, 0);
    lemma_magnitude_orders_values(b, 0);
    lemma_scaled_magnitude_bounds(a);
    lemma_scaled_magnitude_bounds(b);
    assert(magnitude(0) == 0 && scaled_magnitude(0) == 0);
}

/// One value is at most another exactly when neither is a NaN and the
/// first is not the larger.
pub proof fn lemma_value_le_is_order(a: u32, b: u32)
    ensures
        value_le(a, b) <==> !is_nan(a) && !is_nan(b) && scaled_value(a) <= scaled_value(b),
{
    lemma_order_key_orders_values(a, b);
}

/// The truncated magnitude is the whole part of the absolute value.
pub proof fn lemma_truncation_is_whole_part(b: u32)
    ensures
        truncated_magnitude(b) == scaled_magnitude(b) / (pow2(149) as int),
{
    let e = exponent(b);
    let m = significand(b);
    let unit = pow2(149) as int;
    lemma_pow2_pos(149);
    lemma_scaled_magnitude_bounds(b);
    if e < 127 {
        if e + 23 < 149 {
            lemma_pow2_strictly_increases((e + 23) as nat, 149);
        }
        lemma_basic_div(scaled_magnitude(b), unit);
    } else if e >= 150 {
        let q = pow2((e - 150) as nat) as int;
        lemma_pow2_adds((e - 150) as nat, 149);
        assert(m * (q * unit) == unit * (m * q)) by (nonlinear_arith);
        lemma_div_multiples_vanish(m * q, unit);
    } else {
        let p = pow2((e - 1) as nat) as int;
        let q = pow2((150 - e) as nat) as int;
        lemma_pow2_adds((e - 1) as nat, (150 - e) as nat);
        lemma_pow2_pos((e - 1) as nat);
        lemma_pow2_pos((150 - e) as nat);
        lemma_div_multiples_vanish_quotient(p, m, q);
        assert(m * p == p * m) by (nonlinear_arith);
    }
}

/// A pattern is a whole number exactly when it is finite and its value is
/// a multiple of one, which is 2^149 units.
pub proof fn lemma_whole_is_multiple_of_one(b: u32)
    ensures
        is_whole(b) <==> is_finite(b) && scaled_magnitude(b) % (pow2(149) as int) == 0,
{
    let e = exponent(b);
    let m = significand(b);
    let unit = pow2(149) as int;
    lemma_pow2_pos(149);
    lemma_scaled_magnitude_bounds(b);
    if e == 255 {
    } else if e >= 150 {
        let q = pow2((e - 150) as nat) as int;
        lemma_pow2_adds((e - 150) as nat, 149);
        assert(m * (q * unit) == (m * q) * unit) by (nonlinear_arith);
        lemma_mod_multiples_basic(m * q, unit);
    } else if e >= 127 {
        let p = pow2((e - 1) as nat) as int;
        let q = pow2((150 - e) as nat) as int;
        lemma_pow2_adds((e - 1) as nat, (150 - e) as nat);
        lemma_pow2_pos((e - 1) as nat);
        lemma_pow2_pos((150 - e) as nat);
        lemma_truncate_middle(m, p, q);
        assert(m * p == p * m) by (nonlinear_arith);
        assert((p * (m % q) == 0) <==> (m % q == 0)) by (nonlinear_arith)
            requires
                p > 0,
        ;
    } else {
        if e + 23 < 149 {
            lemma_pow2_strictly_increases((e + 23) as nat, 149);
        }
        lemma_small_mod(scaled_magnitude(b) as nat, unit as nat);
        lemma_magnitude_orders_values(b, 0);
        assert(magnitude(0) == 0 && scaled_magnitude(0) == 0);
    }
}

} // verus!
