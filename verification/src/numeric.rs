//! Numeric capabilities of the element types: zero and one, symmetric bounds,
//! absolute value, and quantization of a value onto a bounded signed target.

use vstd::prelude::*;

verus! {

/// Zero of a numeric type.
pub trait Zero: Sized {
    spec fn zero_spec() -> Self;

    fn zero() -> (r: Self)
        ensures
            r == Self::zero_spec(),
    ;
}

/// One of a numeric type.
pub trait One: Sized {
    spec fn one_spec() -> Self;

    fn one() -> (r: Self)
        ensures
            r == Self::one_spec(),
    ;
}

impl Zero for i8 {
    open spec fn zero_spec() -> i8 {
        0
    }

    fn zero() -> i8 {
        0
    }
}

impl Zero for i16 {
    open spec fn zero_spec() -> i16 {
        0
    }

    fn zero() -> i16 {
        0
    }
}

impl Zero for i32 {
    open spec fn zero_spec() -> i32 {
        0
    }

    fn zero() -> i32 {
        0
    }
}

impl Zero for i64 {
    open spec fn zero_spec() -> i64 {
        0
    }

    fn zero() -> i64 {
        0
    }
}

impl Zero for i128 {
    open spec fn zero_spec() -> i128 {
        0
    }

    fn zero() -> i128 {
        0
    }
}

impl Zero for u64 {
    open spec fn zero_spec() -> u64 {
        0
    }

    fn zero() -> u64 {
        0
    }
}

impl Zero for usize {
    open spec fn zero_spec() -> usize {
        0
    }

    fn zero() -> usize {
        0
    }
}

impl One for i8 {
    open spec fn one_spec() -> i8 {
        1
    }

    fn one() -> i8 {
        1
    }
}

impl One for i16 {
    open spec fn one_spec() -> i16 {
        1
    }

    fn one() -> i16 {
        1
    }
}

impl One for i32 {
    open spec fn one_spec() -> i32 {
        1
    }

    fn one() -> i32 {
        1
    }
}

impl One for i64 {
    open spec fn one_spec() -> i64 {
        1
    }

    fn one() -> i64 {
        1
    }
}

impl One for i128 {
    open spec fn one_spec() -> i128 {
        1
    }

    fn one() -> i128 {
        1
    }
}

impl One for u64 {
    open spec fn one_spec() -> u64 {
        1
    }

    fn one() -> u64 {
        1
    }
}

impl One for usize {
    open spec fn one_spec() -> usize {
        1
    }

    fn one() -> usize {
        1
    }
}

/// Symmetric bounds of a quantization target.  The lower bound of the signed
/// types is `MIN + 1`, not `MIN`, so that the range is symmetric and the
/// absolute value is defined everywhere inside it.
pub trait Bounded: Sized {
    spec fn upper_bound_spec() -> Self;

    spec fn lower_bound_spec() -> Self;

    fn upper_bound() -> (r: Self)
        ensures
            r == Self::upper_bound_spec(),
    ;

    fn lower_bound() -> (r: Self)
        ensures
            r == Self::lower_bound_spec(),
    ;
}

impl Bounded for i8 {
    open spec fn upper_bound_spec() -> i8 {
        i8::MAX
    }

    open spec fn lower_bound_spec() -> i8 {
        (i8::MIN + 1) as i8
    }

    fn upper_bound() -> i8 {
        i8::MAX
    }

    fn lower_bound() -> i8 {
        i8::MIN + 1
    }
}

impl Bounded for i16 {
    open spec fn upper_bound_spec() -> i16 {
        i16::MAX
    }

    open spec fn lower_bound_spec() -> i16 {
        (i16::MIN + 1) as i16
    }

    fn upper_bound() -> i16 {
        i16::MAX
    }

    fn lower_bound() -> i16 {
        i16::MIN + 1
    }
}

impl Bounded for i32 {
    open spec fn upper_bound_spec() -> i32 {
        i32::MAX
    }

    open spec fn lower_bound_spec() -> i32 {
        (i32::MIN + 1) as i32
    }

    fn upper_bound() -> i32 {
        i32::MAX
    }

    fn lower_bound() -> i32 {
        i32::MIN + 1
    }
}

impl Bounded for i64 {
    open spec fn upper_bound_spec() -> i64 {
        i64::MAX
    }

    open spec fn lower_bound_spec() -> i64 {
        (i64::MIN + 1) as i64
    }

    fn upper_bound() -> i64 {
        i64::MAX
    }

    fn lower_bound() -> i64 {
        i64::MIN + 1
    }
}

impl Bounded for i128 {
    open spec fn upper_bound_spec() -> i128 {
        i128::MAX
    }

    open spec fn lower_bound_spec() -> i128 {
        (i128::MIN + 1) as i128
    }

    fn upper_bound() -> i128 {
        i128::MAX
    }

    fn lower_bound() -> i128 {
        i128::MIN + 1
    }
}

/// Sign-magnitude absolute value.  For the signed integer types the minimum
/// value has no absolute value of the same type, so it is excluded by the
/// precondition; every other input is accepted.
pub trait Abs: Sized {
    type Output;

    spec fn abs_req(self) -> bool;

    spec fn abs_spec(self) -> Self::Output;

    fn abs(self) -> (r: Self::Output)
        requires
            self.abs_req(),
        ensures
            r == self.abs_spec(),
    ;
}

impl Abs for i8 {
    type Output = i8;

    open spec fn abs_req(self) -> bool {
        self != i8::MIN
    }

    open spec fn abs_spec(self) -> i8 {
        if self >= 0 {
            self
        } else {
            (-(self as int)) as i8
        }
    }

    fn abs(self) -> i8 {
        if self >= 0 {
            self
        } else {
            -self
        }
    }
}

impl Abs for i16 {
    type Output = i16;

    open spec fn abs_req(self) -> bool {
        self != i16::MIN
    }

    open spec fn abs_spec(self) -> i16 {
        if self >= 0 {
            self
        } else {
            (-(self as int)) as i16
        }
    }

    fn abs(self) -> i16 {
        if self >= 0 {
            self
        } else {
            -self
        }
    }
}

impl Abs for i32 {
    type Output = i32;

    open spec fn abs_req(self) -> bool {
        self != i32::MIN
    }

    open spec fn abs_spec(self) -> i32 {
        if self >= 0 {
            self
        } else {
            (-(self as int)) as i32
        }
    }

    fn abs(self) -> i32 {
        if self >= 0 {
            self
        } else {
            -self
        }
    }
}

impl Abs for i64 {
    type Output = i64;

    open spec fn abs_req(self) -> bool {
        self != i64::MIN
    }

    open spec fn abs_spec(self) -> i64 {
        if self >= 0 {
            self
        } else {
            (-(self as int)) as i64
        }
    }

    fn abs(self) -> i64 {
        if self >= 0 {
            self
        } else {
            -self
        }
    }
}

/// Integer division that truncates toward zero, the rounding that quantization
/// uses.  Equal to Euclidean division for a non-negative dividend.
pub open spec fn div_toward_zero(a: int, b: int) -> int {
    if a >= 0 {
        a / b
    } else {
        -((-a) / b)
    }
}

/// Quantization of a value in `[-factor, factor]` onto the symmetric range of
/// a bounded signed target: `q = round_toward_zero((value / factor) * upper)`.
/// Zero always quantizes to zero.
pub trait Quantize<T>: Sized {
    spec fn quantize_req(value: T, factor: T) -> bool;

    spec fn quantize_spec(value: T, factor: T) -> Self;

    fn quantize(value: T, factor: T) -> (r: Self)
        requires
            Self::quantize_req(value, factor),
        ensures
            r == Self::quantize_spec(value, factor),
    ;
}

impl Quantize<i64> for i8 {
    open spec fn quantize_req(value: i64, factor: i64) -> bool {
        factor > 0 && -factor <= value <= factor
    }

    open spec fn quantize_spec(value: i64, factor: i64) -> i8 {
        div_toward_zero(value * i8::MAX, factor as int) as i8
    }

    fn quantize(value: i64, factor: i64) -> (r: i8) {
        let magnitude = if value >= 0 {
            value as u64
        } else {
            (-(value as i128)) as u64
        };
        let scaled = (magnitude as u128 * i8::MAX as u128 / factor as u128) as u64;
        proof {
            lemma_quantize_magnitude(value as int, factor as int, i8::MAX as int);
        }
        if value >= 0 {
            scaled as i8
        } else {
            -(scaled as i8)
        }
    }
}

impl Quantize<i64> for i16 {
    open spec fn quantize_req(value: i64, factor: i64) -> bool {
        factor > 0 && -factor <= value <= factor
    }

    open spec fn quantize_spec(value: i64, factor: i64) -> i16 {
        div_toward_zero(value * i16::MAX, factor as int) as i16
    }

    fn quantize(value: i64, factor: i64) -> (r: i16) {
        let magnitude = if value >= 0 {
            value as u64
        } else {
            (-(value as i128)) as u64
        };
        let scaled = (magnitude as u128 * i16::MAX as u128 / factor as u128) as u64;
        proof {
            lemma_quantize_magnitude(value as int, factor as int, i16::MAX as int);
        }
        if value >= 0 {
            scaled as i16
        } else {
            -(scaled as i16)
        }
    }
}

impl Quantize<i64> for i32 {
    open spec fn quantize_req(value: i64, factor: i64) -> bool {
        factor > 0 && -factor <= value <= factor
    }

    open spec fn quantize_spec(value: i64, factor: i64) -> i32 {
        div_toward_zero(value * i32::MAX, factor as int) as i32
    }

    fn quantize(value: i64, factor: i64) -> (r: i32) {
        let magnitude = if value >= 0 {
            value as u64
        } else {
            (-(value as i128)) as u64
        };
        let scaled = (magnitude as u128 * i32::MAX as u128 / factor as u128) as u64;
        proof {
            lemma_quantize_magnitude(value as int, factor as int, i32::MAX as int);
        }
        if value >= 0 {
            scaled as i32
        } else {
            -(scaled as i32)
        }
    }
}

/// The quantized value of an in-range argument lies within the symmetric
/// range of `i32`, so its magnitude and negation are always representable.
pub proof fn lemma_quantize_i32_bounds(value: i64, factor: i64)
    requires
        factor > 0,
        -factor <= value <= factor,
    ensures
        -i32::MAX <= <i32 as Quantize<i64>>::quantize_spec(value, factor) as int <= i32::MAX,
        <i32 as Quantize<i64>>::quantize_spec(value, factor) as int == div_toward_zero(
            value * i32::MAX,
            factor as int,
        ),
{
    lemma_quantize_magnitude(value as int, factor as int, i32::MAX as int);
}

/// Quantization with margin: magnitudes separated by at least
/// `2 * factor / upper` quantize to values at least two apart, and a
/// magnitude of at least `2 * factor / upper` quantizes away from zero.
pub proof fn lemma_quantize_gap(v1: int, v2: int, factor: int, upper: int)
    requires
        0 < factor,
        0 < upper,
        0 <= v1 < v2 <= factor,
        (v2 - v1) * upper >= 2 * factor,
    ensures
        (v1 * upper) / factor + 2 <= (v2 * upper) / factor,
{
    let a = v1 * upper;
    let b = v2 * upper;
    assert((v2 - v1) * upper == v2 * upper - v1 * upper) by (nonlinear_arith);
    assert(v1 * upper >= 0) by (nonlinear_arith)
        requires
            v1 >= 0,
            upper > 0,
    ;
    vstd::arithmetic::div_mod::lemma_fundamental_div_mod(a, factor);
    vstd::arithmetic::div_mod::lemma_mod_bound(a, factor);
    assert(a + 2 * factor == (a / factor + 2) * factor + a % factor) by (nonlinear_arith)
        requires
            a == factor * (a / factor) + a % factor,
    ;
    vstd::arithmetic::div_mod::lemma_fundamental_div_mod_converse(
        a + 2 * factor,
        factor,
        a / factor + 2,
        a % factor,
    );
    vstd::arithmetic::div_mod::lemma_div_is_ordered(a + 2 * factor, b, factor);
}

/// A magnitude of at least `2 * factor / upper` quantizes to at least two.
pub proof fn lemma_quantize_nonzero(v: int, factor: int, upper: int)
    requires
        0 < factor,
        0 < upper,
        0 <= v <= factor,
        v * upper >= 2 * factor,
    ensures
        (v * upper) / factor >= 2,
{
    vstd::arithmetic::div_mod::lemma_div_multiples_vanish(2, factor);
    vstd::arithmetic::div_mod::lemma_div_is_ordered(2 * factor, v * upper, factor);
    assert(factor * 2 == 2 * factor) by (nonlinear_arith);
}

/// The scaled magnitude stays within the target's upper bound, and division of
/// the magnitude agrees with truncating division of the signed value.
proof fn lemma_quantize_magnitude(value: int, factor: int, upper: int)
    requires
        factor > 0,
        -factor <= value <= factor,
        upper > 0,
    ensures
        value >= 0 ==> div_toward_zero(value * upper, factor) == (value * upper) / factor,
        value < 0 ==> div_toward_zero(value * upper, factor) == -(((-value) * upper) / factor),
        ((if value >= 0 {
            value
        } else {
            -value
        }) * upper) / factor <= upper,
        ((if value >= 0 {
            value
        } else {
            -value
        }) * upper) / factor >= 0,
{
    let mag = if value >= 0 {
        value
    } else {
        -value
    };
    assert(mag * upper <= factor * upper) by (nonlinear_arith)
        requires
            0 <= mag <= factor,
            upper > 0,
    ;
    assert((mag * upper) / factor <= (factor * upper) / factor) by {
        vstd::arithmetic::div_mod::lemma_div_is_ordered(mag * upper, factor * upper, factor);
    }
    assert((factor * upper) / factor == upper) by {
        vstd::arithmetic::div_mod::lemma_div_multiples_vanish(upper, factor);
    }
    assert(mag * upper >= 0) by (nonlinear_arith)
        requires
            mag >= 0,
            upper > 0,
    ;
    assert((mag * upper) / factor >= 0) by {
        vstd::arithmetic::div_mod::lemma_div_pos_is_pos(mag * upper, factor);
    }
    if value < 0 {
        assert(value * upper == -((-value) * upper)) by (nonlinear_arith);
        assert(value * upper < 0 ==> div_toward_zero(value * upper, factor) == -((-(value * upper))
            / factor));
        if value * upper == 0 {
            assert(value * upper == 0 ==> (-value) * upper == 0) by (nonlinear_arith);
        }
    }
}

} // verus!
