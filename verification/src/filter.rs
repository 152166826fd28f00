//! The filter of a query: which nodes it lets through.
//!
//! A query of the first type lets every node through. The others constrain
//! the node's category, its timestamp, or both.
use vstd::prelude::*;
use vstd::arithmetic::div_mod::{
    lemma_fundamental_div_mod, lemma_fundamental_div_mod_converse, lemma_mod_multiples_basic,
};
use vstd::arithmetic::power2::{
    lemma2_to64, lemma_pow2_adds, lemma_pow2_pos, lemma_pow2_strictly_increases, pow2,
};
use crate::bits::{
    exponent, fraction, is_negative, is_whole, le, lemma_truncated_magnitude_range, magnitude,
    significand, truncate_to_i32, truncated_magnitude, value_le, whole, whole_value,
};
use crate::types::{ParsedNode, ParsedQuery, QueryType};
use crate::values::{
    is_finite, lemma_magnitude_orders_values, lemma_scaled_magnitude_bounds,
    lemma_truncation_is_whole_part, scaled_magnitude, scaled_value,
};

verus! {

/// Pattern of 2^-23, the tolerance of a category match.
pub const EPSILON_BITS: u32 = 0x3400_0000;

/// Pattern of the largest value below one.
pub const BELOW_ONE_BITS: u32 = 0x3f7f_ffff;

/// Pattern of the smallest value above minus one.
pub const ABOVE_MINUS_ONE_BITS: u32 = 0xbf7f_ffff;

/// Pattern of -2^31, the lowest category.
pub const LOWEST_CATEGORY_BITS: u32 = 0xcf00_0000;

/// Pattern of 2^31, which the highest categories are as single-precision
/// values.
pub const BEYOND_CATEGORY_BITS: u32 = 0x4f00_0000;

/// The distance between neighbouring single-precision values around a whole
/// number of magnitude `a`, for `a` up to 2^31: one up to 2^24, and twice as
/// much with every further bit.
pub open spec fn spacing(a: int) -> int {
    if a < 0x100_0000 {
        1
    } else if a < 0x200_0000 {
        2
    } else if a < 0x400_0000 {
        4
    } else if a < 0x800_0000 {
        8
    } else if a < 0x1000_0000 {
        16
    } else if a < 0x2000_0000 {
        32
    } else if a < 0x4000_0000 {
        64
    } else {
        128
    }
}

/// The whole number that the category `v` is as a single-precision value: `v`
/// itself up to magnitude 2^24, beyond that the nearest multiple of the
/// spacing, and of two that are equally near the even multiple.
pub open spec fn nearest_single(v: int) -> int {
    let a = if v < 0 {
        -v
    } else {
        v
    };
    let s = spacing(a);
    let q = a / s;
    let r = a % s;
    let m = if 2 * r > s || (2 * r == s && q % 2 == 1) {
        (q + 1) * s
    } else {
        q * s
    };
    if v < 0 {
        -m
    } else {
        m
    }
}

/// The node's category is finite and lies less than 2^-23 from the category
/// `v` taken as a single-precision value. In units of 2^-149, in which every
/// finite value is a whole number, the category asked for is
/// `nearest_single(v) * 2^149` and the tolerance is 2^126.
pub open spec fn categorical_match(c_attr: u32, v: i32) -> bool {
    is_finite(c_attr) && -pow2(126) < scaled_value(c_attr) - nearest_single(v as int) * pow2(149)
        < pow2(126)
}

/// The patterns that match a category. From magnitude one on, neighbouring
/// values are at least 2^-23 apart, so only the category's own value matches.
/// Below that, every magnitude under 2^-23 matches 0, and only the nearest
/// value to 1 or to -1 matches it.
pub open spec fn matches_by_pattern(c_attr: u32, v: i32) -> bool {
    ||| is_whole(c_attr) && whole_value(c_attr) == nearest_single(v as int)
    ||| v == 0 && magnitude(c_attr) < EPSILON_BITS
    ||| v == 1 && c_attr == BELOW_ONE_BITS
    ||| v == -1 && c_attr == ABOVE_MINUS_ONE_BITS
}

/// Both ends of the range are set and the timestamp lies between them, the
/// ends included.
pub open spec fn timestamp_match(t_attr: u32, lower: Option<u32>, upper: Option<u32>) -> bool {
    lower is Some && upper is Some && value_le(lower->0, t_attr) && value_le(t_attr, upper->0)
}

/// Whether a node with these attributes passes the query's filter.
pub open spec fn passes(query: ParsedQuery, c_attr: u32, t_attr: u32) -> bool {
    match query.query_type {
        QueryType::VectorOnly => true,
        QueryType::CategoricalConstraint => query.v_categorical is Some && categorical_match(
            c_attr,
            query.v_categorical->0,
        ),
        QueryType::TimestampConstraint => timestamp_match(
            t_attr,
            query.t_lower_bound,
            query.t_upper_bound,
        ),
        QueryType::BothConstraints => query.v_categorical is Some && categorical_match(
            c_attr,
            query.v_categorical->0,
        ) && timestamp_match(t_attr, query.t_lower_bound, query.t_upper_bound),
    }
}

/// Computes the whole number that a category is as a single-precision value.
pub fn nearest_whole(v: i32) -> (m: i64)
    ensures
        m == nearest_single(v as int),
        -0x8000_0000 <= m <= 0x8000_0000,
{
    let a: i64 = if v < 0 {
        -(v as i64)
    } else {
        v as i64
    };
    let s: i64 = if a < 0x100_0000 {
        1
    } else if a < 0x200_0000 {
        2
    } else if a < 0x400_0000 {
        4
    } else if a < 0x800_0000 {
        8
    } else if a < 0x1000_0000 {
        16
    } else if a < 0x2000_0000 {
        32
    } else if a < 0x4000_0000 {
        64
    } else {
        128
    };
    let q: i64 = a / s;
    let r: i64 = a % s;
    assert(q * s + r == a && 0 <= q <= a && 0 <= r < s) by (nonlinear_arith)
        requires
            q == a / s,
            r == a % s,
            s > 0,
            a >= 0,
    ;
    assert((q + 1) * s == q * s + s) by (nonlinear_arith);
    assert(a < 0x8000_0000 ==> (q + 1) * s <= 0x8000_0000) by {
        if a < 0x8000_0000 && s == 128 {
            assert(q * s == q * 128);
        }
    }
    let m: i64 = if 2 * r > s || (2 * r == s && q % 2 == 1) {
        (q + 1) * s
    } else {
        q * s
    };
    if v < 0 {
        -m
    } else {
        m
    }
}

/// Decides whether a node's category matches the category asked for.
pub fn category_matches(c_attr: u32, v: i32) -> (r: bool)
    ensures
        r == categorical_match(c_attr, v),
{
    let mag: u32 = c_attr % 0x8000_0000;
    let target: i64 = nearest_whole(v);
    proof {
        lemma_truncated_magnitude_range(c_attr);
        lemma_matching_patterns_are_close(c_attr, v);
    }
    if whole(c_attr) {
        if mag / 0x80_0000 >= 158 {
            (c_attr == LOWEST_CATEGORY_BITS && target == -0x8000_0000) || (c_attr
                == BEYOND_CATEGORY_BITS && target == 0x8000_0000)
        } else {
            truncate_to_i32(c_attr) as i64 == target
        }
    } else {
        (v == 0 && mag < EPSILON_BITS) || (v == 1 && c_attr == BELOW_ONE_BITS) || (v == -1
            && c_attr == ABOVE_MINUS_ONE_BITS)
    }
}

/// Decides whether a node's timestamp lies in the range asked for.
pub fn timestamp_in_range(t_attr: u32, lower: Option<u32>, upper: Option<u32>) -> (r: bool)
    ensures
        r == timestamp_match(t_attr, lower, upper),
{
    match (lower, upper) {
        (Some(l_bound), Some(r_bound)) => le(l_bound, t_attr) && le(t_attr, r_bound),
        _ => false,
    }
}

/// Decides whether a node passes a query's filter.
pub fn passes_filter(query: &ParsedQuery, node: &ParsedNode) -> (r: bool)
    ensures
        r == passes(*query, node.c_attr, node.t_attr),
{
    match query.query_type {
        QueryType::VectorOnly => true,
        QueryType::CategoricalConstraint => match query.v_categorical {
            Some(v_cat) => category_matches(node.c_attr, v_cat),
            None => false,
        },
        QueryType::TimestampConstraint => timestamp_in_range(
            node.t_attr,
            query.t_lower_bound,
            query.t_upper_bound,
        ),
        QueryType::BothConstraints => {
            let cat_match = match query.v_categorical {
                Some(v_cat) => category_matches(node.c_attr, v_cat),
                None => false,
            };
            let time_match = timestamp_in_range(
                node.t_attr,
                query.t_lower_bound,
                query.t_upper_bound,
            );
            cat_match && time_match
        },
    }
}

proof fn lemma_multiple_within(d: int, p: int, e: int)
    requires
        0 < e <= p,
    ensures
        (-e < d * p < e) <==> d == 0,
{
    assert((-e < d * p < e) <==> d == 0) by (nonlinear_arith)
        requires
            0 < e <= p,
    ;
}

/// A category up to magnitude 2^24 is a single-precision value as it is; a
/// larger one stays beyond one in magnitude, on its side of zero.
pub proof fn lemma_nearest_single_small(v: int)
    requires
        -0x8000_0000 <= v <= 0x7fff_ffff,
    ensures
        -0x100_0000 <= v <= 0x100_0000 ==> nearest_single(v) == v,
        v > 0x100_0000 ==> nearest_single(v) >= 2,
        v < -0x100_0000 ==> nearest_single(v) <= -2,
{
    let a = if v < 0 {
        -v
    } else {
        v
    };
    let s = spacing(a);
    let q = a / s;
    let r = a % s;
    assert(q * s + r == a && 0 <= r < s) by (nonlinear_arith)
        requires
            q == a / s,
            r == a % s,
            s > 0,
    ;
    assert((q + 1) * s == q * s + s) by (nonlinear_arith);
    if a == 0x100_0000 {
        assert(s == 2 && r == 0);
    }
}

/// The single-precision value of a category is a multiple of the spacing
/// around it, and no further from the category than half the spacing.
pub proof fn lemma_nearest_single_is_near(v: int)
    requires
        -0x8000_0000 <= v <= 0x7fff_ffff,
    ensures
        nearest_single(v) % spacing(if v < 0 { -v } else { v }) == 0,
        -spacing(if v < 0 { -v } else { v }) <= 2 * (nearest_single(v) - v) <= spacing(
            if v < 0 { -v } else { v },
        ),
{
    let a = if v < 0 {
        -v
    } else {
        v
    };
    let s = spacing(a);
    let q = a / s;
    let r = a % s;
    assert(q * s + r == a && 0 <= r < s) by (nonlinear_arith)
        requires
            q == a / s,
            r == a % s,
            s > 0,
    ;
    assert((q + 1) * s == q * s + s) by (nonlinear_arith);
    lemma_mod_multiples_basic(q, s);
    lemma_mod_multiples_basic(q + 1, s);
    lemma_mod_multiples_basic(-q, s);
    lemma_mod_multiples_basic(-(q + 1), s);
    assert((-q) * s == -(q * s) && (-(q + 1)) * s == -((q + 1) * s)) by (nonlinear_arith);
}

/// The patterns that match a category are exactly those of the finite
/// values that lie less than 2^-23 from it.
pub proof fn lemma_matching_patterns_are_close(c_attr: u32, v: i32)
    ensures
        matches_by_pattern(c_attr, v) <==> categorical_match(c_attr, v),
{
    let e = exponent(c_attr);
    let m = significand(c_attr);
    let t = nearest_single(v as int);
    let unit = pow2(149) as int;
    let eps = pow2(126) as int;
    let mag = scaled_magnitude(c_attr);
    let sign: int = if is_negative(c_attr) {
        -1
    } else {
        1
    };
    lemma2_to64();
    lemma_pow2_pos(126);
    lemma_pow2_adds(126, 23);
    assert(unit == eps * 0x80_0000);
    lemma_nearest_single_small(v as int);
    lemma_scaled_magnitude_bounds(c_attr);
    lemma_truncation_is_whole_part(c_attr);
    lemma_truncated_magnitude_range(c_attr);
    assert(scaled_value(c_attr) == sign * mag) by (nonlinear_arith)
        requires
            scaled_value(c_attr) == if sign == 1 {
                mag
            } else {
                -mag
            },
            sign == 1 || sign == -1,
    ;
    if e == 255 {
    } else if e >= 150 {
        let w = truncated_magnitude(c_attr);
        let q = pow2((e - 150) as nat) as int;
        lemma_pow2_adds((e - 150) as nat, 149);
        assert(mag == w * unit) by (nonlinear_arith)
            requires
                mag == m * (q * unit),
                w == m * q,
        ;
        let d = sign * w - t;
        assert(sign * mag - t * unit == d * unit) by (nonlinear_arith)
            requires
                mag == w * unit,
                d == sign * w - t,
        ;
        lemma_multiple_within(d, unit, eps);
        assert(whole_value(c_attr) == sign * w);
    } else if e >= 127 {
        let p = pow2((e - 1) as nat) as int;
        let q = pow2((150 - e) as nat) as int;
        lemma_pow2_adds((e - 1) as nat, (150 - e) as nat);
        lemma_pow2_pos((150 - e) as nat);
        if e - 1 > 126 {
            lemma_pow2_strictly_increases(126, (e - 1) as nat);
        }
        let d = sign * m - t * q;
        assert(sign * mag - t * unit == d * p) by (nonlinear_arith)
            requires
                mag == m * p,
                unit == p * q,
                d == sign * m - t * q,
        ;
        lemma_multiple_within(d, p, eps);
        lemma_fundamental_div_mod(m, q);
        if d == 0 {
            assert(m == (sign * t) * q) by (nonlinear_arith)
                requires
                    sign * m == t * q,
                    sign == 1 || sign == -1,
            ;
            lemma_fundamental_div_mod_converse(m, q, sign * t, 0);
            assert(t == sign * (m / q)) by (nonlinear_arith)
                requires
                    m / q == sign * t,
                    sign == 1 || sign == -1,
            ;
        }
        if m % q == 0 && sign * (m / q) == t {
            assert(sign * m == t * q) by (nonlinear_arith)
                requires
                    m == q * (m / q),
                    sign * (m / q) == t,
            ;
        }
        assert(whole_value(c_attr) == sign * (m / q));
    } else {
        if e + 23 < 149 {
            lemma_pow2_strictly_increases((e + 23) as nat, 149);
        }
        lemma_magnitude_orders_values(c_attr, EPSILON_BITS);
        lemma_magnitude_orders_values(EPSILON_BITS, c_attr);
        lemma_magnitude_orders_values(c_attr, 0x3f7f_fffe);
        lemma_magnitude_orders_values(0x3f7f_fffe, c_attr);
        lemma_magnitude_orders_values(c_attr, 0);
        assert(exponent(EPSILON_BITS) == 104 && fraction(EPSILON_BITS) == 0);
        lemma_pow2_adds(23, 103);
        assert(scaled_magnitude(EPSILON_BITS) == eps);
        assert(exponent(0x3f7f_fffe) == 126 && fraction(0x3f7f_fffe) == 0x7f_fffe);
        lemma_pow2_adds(1, 125);
        assert(scaled_magnitude(0x3f7f_fffe) == unit - eps) by (nonlinear_arith)
            requires
                scaled_magnitude(0x3f7f_fffe) == 0xff_fffe * pow2(125),
                eps == 2 * pow2(125),
                unit == eps * 0x80_0000,
        ;
        assert(magnitude(0) == 0 && scaled_magnitude(0) == 0);
        assert(t >= 2 ==> t * unit - eps >= unit) by (nonlinear_arith)
            requires
                unit == eps * 0x80_0000,
                eps > 0,
        ;
        assert(t <= -2 ==> t * unit + eps <= -unit) by (nonlinear_arith)
            requires
                unit == eps * 0x80_0000,
                eps > 0,
        ;
        assert(t == 1 ==> t * unit == unit) by (nonlinear_arith);
        assert(t == -1 ==> t * unit == -unit) by (nonlinear_arith);
        assert(t == 0 ==> t * unit == 0) by (nonlinear_arith);
    }
}

} // verus!
