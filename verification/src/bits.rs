//! Integer reading of IEEE 754 single-precision bit patterns.
//!
//! A pattern is a `u32`: one sign bit, eight exponent bits, 23 fraction bits.
use vstd::prelude::*;
use vstd::arithmetic::power2::{lemma2_to64, lemma_pow2_strictly_increases, pow2};
use vstd::bits::{lemma_u64_shl_is_mul, lemma_u64_shr_is_div};

verus! {

/// Pattern of the value -1.0, which marks an unset filter field.
pub const UNSET_BITS: u32 = 0xbf80_0000;

/// Pattern of positive infinity, the largest magnitude that is not a NaN.
pub const INFINITY_BITS: u32 = 0x7f80_0000;

/// The pattern without its sign bit.
pub open spec fn magnitude(b: u32) -> int {
    b as int % 0x8000_0000
}

/// Whether the sign bit is set.
pub open spec fn is_negative(b: u32) -> bool {
    b >= 0x8000_0000u32
}

/// The biased exponent field.
pub open spec fn exponent(b: u32) -> int {
    magnitude(b) / 0x80_0000
}

/// The fraction field.
pub open spec fn fraction(b: u32) -> int {
    magnitude(b) % 0x80_0000
}

/// Whether the pattern is a NaN: all exponent bits set and a non-zero fraction.
pub open spec fn is_nan(b: u32) -> bool {
    magnitude(b) > 0x7f80_0000
}

/// An integer that orders patterns as their values are ordered: for two
/// patterns that are not NaN, the first value is below the second exactly when
/// its key is smaller. Both zeros have key 0. A NaN gets the key its bits give,
/// beyond the infinity of its sign.
pub open spec fn order_key(b: u32) -> int {
    if is_negative(b) {
        -magnitude(b)
    } else {
        magnitude(b)
    }
}

/// `a <= b` on the values: false when either is a NaN.
pub open spec fn value_le(a: u32, b: u32) -> bool {
    !is_nan(a) && !is_nan(b) && order_key(a) <= order_key(b)
}

/// The 24-bit significand, with the implicit leading bit of a normal value.
pub open spec fn significand(b: u32) -> int {
    if exponent(b) == 0 {
        fraction(b)
    } else {
        0x80_0000 + fraction(b)
    }
}

/// The integer part of the absolute value. A normal value is
/// `significand * 2^(exponent - 150)`; below exponent 127 it is less than one.
pub open spec fn truncated_magnitude(b: u32) -> int {
    let e = exponent(b);
    if e < 127 {
        0
    } else if e >= 150 {
        significand(b) * pow2((e - 150) as nat)
    } else {
        significand(b) / (pow2((150 - e) as nat) as int)
    }
}

/// The value truncated toward zero and brought into the range of `i32`:
/// a NaN gives 0, a value beyond the range gives the nearest end of it.
pub open spec fn truncate_i32(b: u32) -> int {
    if is_nan(b) {
        0
    } else if is_negative(b) {
        if truncated_magnitude(b) > 0x8000_0000 {
            -0x8000_0000
        } else {
            -truncated_magnitude(b)
        }
    } else {
        if truncated_magnitude(b) > 0x7fff_ffff {
            0x7fff_ffff
        } else {
            truncated_magnitude(b)
        }
    }
}

/// Whether the value is a whole number (infinities and NaN are not).
pub open spec fn is_whole(b: u32) -> bool {
    let e = exponent(b);
    if e == 255 {
        false
    } else if e >= 150 {
        true
    } else if e >= 127 {
        significand(b) % (pow2((150 - e) as nat) as int) == 0
    } else {
        magnitude(b) == 0
    }
}

/// The whole number that the value is, for a value that is one.
pub open spec fn whole_value(b: u32) -> int {
    if is_negative(b) {
        -truncated_magnitude(b)
    } else {
        truncated_magnitude(b)
    }
}

/// Below exponent 158 a magnitude is under 2^31. From there on it is at
/// least 2^31, and equal to it only for exponent 158 with an empty fraction.
pub proof fn lemma_truncated_magnitude_range(b: u32)
    ensures
        0 <= truncated_magnitude(b),
        exponent(b) < 158 ==> truncated_magnitude(b) < 0x8000_0000,
        exponent(b) >= 158 ==> truncated_magnitude(b) >= 0x8000_0000,
        exponent(b) >= 158 ==> (truncated_magnitude(b) == 0x8000_0000 <==> exponent(b) == 158
            && fraction(b) == 0),
{
    let e = exponent(b);
    let m = significand(b);
    lemma2_to64();
    if e >= 158 {
        let p = pow2((e - 150) as nat) as int;
        if e > 158 {
            lemma_pow2_strictly_increases(8, (e - 150) as nat);
            assert(m * p > 0x8000_0000) by (nonlinear_arith)
                requires
                    m >= 0x80_0000,
                    p > 256,
            ;
        } else {
            assert(p == 256);
            assert(m * p == m * 256) by (nonlinear_arith)
                requires
                    p == 256,
            ;
        }
        assert(truncated_magnitude(b) == m * p);
    } else if e >= 150 {
        let p = pow2((e - 150) as nat) as int;
        if e < 157 {
            lemma_pow2_strictly_increases((e - 150) as nat, 7);
        }
        assert(0 <= m * p <= 0x7fff_ff80) by (nonlinear_arith)
            requires
                0 <= m <= 0xff_ffff,
                0 <= p <= 128,
        ;
    } else if e >= 127 {
        let p = pow2((150 - e) as nat) as int;
        lemma_pow2_strictly_increases(0, (150 - e) as nat);
        assert(0 <= m / p <= m) by (nonlinear_arith)
            requires
                p > 0,
                m >= 0,
        ;
    }
}

/// Computes the order key.
pub fn key_of(b: u32) -> (k: i64)
    ensures
        k == order_key(b),
{
    let mag: u32 = b % 0x8000_0000;
    if b >= 0x8000_0000 {
        -(mag as i64)
    } else {
        mag as i64
    }
}

/// Tells whether the pattern is a NaN.
pub fn nan(b: u32) -> (r: bool)
    ensures
        r == is_nan(b),
{
    b % 0x8000_0000 > INFINITY_BITS
}

/// Compares two values: `a <= b`, which no NaN satisfies.
pub fn le(a: u32, b: u32) -> (r: bool)
    ensures
        r == value_le(a, b),
{
    !nan(a) && !nan(b) && key_of(a) <= key_of(b)
}

/// Tells whether the value is a whole number.
pub fn whole(b: u32) -> (r: bool)
    ensures
        r == is_whole(b),
{
    let mag: u32 = b % 0x8000_0000;
    let e: u32 = mag / 0x80_0000;
    let frac: u32 = mag % 0x80_0000;
    if e == 255 {
        false
    } else if e >= 150 {
        true
    } else if e >= 127 {
        let m: u64 = 0x80_0000 + frac as u64;
        let s: u64 = (150 - e) as u64;
        proof {
            let p = pow2(s as nat) as int;
            lemma_pow2_strictly_increases(0, s as nat);
            lemma2_to64();
            lemma_u64_shr_is_div(m, s);
            assert((m as int / p) * p <= m && ((m as int / p) * p == m) == (m as int % p == 0))
                by (nonlinear_arith)
                requires
                    p > 0,
                    m >= 0,
            ;
            lemma_u64_shl_is_mul(m >> s, s);
        }
        ((m >> s) << s) == m
    } else {
        mag == 0
    }
}

/// Truncates the value toward zero, as a conversion to `i32` does: a NaN
/// gives 0, and a value beyond the range gives the nearest end of it.
pub fn truncate_to_i32(b: u32) -> (r: i32)
    ensures
        r == truncate_i32(b),
{
    let mag: u32 = b % 0x8000_0000;
    let negative = b >= 0x8000_0000;
    let e: u32 = mag / 0x80_0000;
    let frac: u32 = mag % 0x80_0000;
    if mag > INFINITY_BITS || e < 127 {
        return 0;
    }
    proof {
        lemma_truncated_magnitude_range(b);
    }
    if e >= 158 {
        return if negative {
            i32::MIN
        } else {
            i32::MAX
        };
    }
    let m: u64 = 0x80_0000 + frac as u64;
    let t: u64 = if e >= 150 {
        let s: u64 = (e - 150) as u64;
        proof {
            lemma_u64_shl_is_mul(m, s);
        }
        m << s
    } else {
        let s: u64 = (150 - e) as u64;
        proof {
            lemma_u64_shr_is_div(m, s);
        }
        m >> s
    };
    if negative {
        -(t as i64) as i32
    } else {
        t as i32
    }
}

} // verus!
