use vstd::arithmetic::power2::{
    lemma2_to64, lemma_pow2_pos, lemma_pow2_strictly_increases, lemma_pow2_unfold, pow2,
};
use vstd::prelude::*;

use crate::store::{f32_order_key, is_nan_bits};

verus! {

/// The sign bit of an IEEE-754 single-precision bit pattern is set.
pub open spec fn f32_negative(b: u32) -> bool {
    b >= 0x8000_0000u32
}

/// The bits of `b` other than the sign: exponent and fraction.
pub open spec fn f32_magnitude_bits(b: u32) -> nat {
    (b % 0x8000_0000u32) as nat
}

/// The biased exponent field of magnitude bits `m`.
pub open spec fn exponent_of(m: nat) -> nat {
    m / 0x80_0000
}

/// The fraction field of magnitude bits `m`.
pub open spec fn fraction_of(m: nat) -> nat {
    m % 0x80_0000
}

/// `b` is a NaN: all exponent bits set and a fraction that is not zero.
pub open spec fn f32_is_nan(b: u32) -> bool {
    exponent_of(f32_magnitude_bits(b)) == 255 && fraction_of(f32_magnitude_bits(b)) != 0
}

/// `b` is an infinity: all exponent bits set and a zero fraction.
pub open spec fn f32_is_infinite(b: u32) -> bool {
    exponent_of(f32_magnitude_bits(b)) == 255 && fraction_of(f32_magnitude_bits(b)) == 0
}

/// The absolute value of the finite number with magnitude bits `m`, times 2^149 (every finite
/// single-precision number is a whole multiple of 2^-149): the fraction for a subnormal
/// number, the fraction with its hidden leading bit shifted by the exponent otherwise.
pub open spec fn scaled_magnitude(m: nat) -> nat {
    if exponent_of(m) == 0 {
        fraction_of(m)
    } else {
        (fraction_of(m) + 0x80_0000) * pow2((exponent_of(m) - 1) as nat)
    }
}

/// The value of the finite number `b`, times 2^149.
pub open spec fn f32_scaled_value(b: u32) -> int {
    if f32_negative(b) {
        -scaled_magnitude(f32_magnitude_bits(b))
    } else {
        scaled_magnitude(f32_magnitude_bits(b)) as int
    }
}

/// `a` is smaller than `b` as numbers, for bit patterns that are not NaN: negative infinity
/// is below every other value, positive infinity above every other value, and finite values
/// compare by their value.
pub open spec fn f32_lt(a: u32, b: u32) -> bool {
    if f32_is_infinite(a) && !f32_negative(a) {
        false
    } else if f32_is_infinite(b) && !f32_negative(b) {
        true
    } else if f32_is_infinite(a) {
        !f32_is_infinite(b)
    } else if f32_is_infinite(b) {
        false
    } else {
        f32_scaled_value(a) < f32_scaled_value(b)
    }
}

/// The magnitude bits, signed by the sign bit.
spec fn signed_magnitude(b: u32) -> int {
    if f32_negative(b) {
        -f32_magnitude_bits(b)
    } else {
        f32_magnitude_bits(b) as int
    }
}

proof fn lemma_order_key_shape(b: u32)
    ensures
        b < 0x8000_0000u32 ==> f32_order_key(b) == b + 0x8000_0000u32,
        b == 0x8000_0000u32 ==> f32_order_key(b) == 0x8000_0000u32,
        b > 0x8000_0000u32 ==> f32_order_key(b) == 0xffff_ffffu32 - b,
{
    assert(b < 0x8000_0000u32 ==> (b & 0x8000_0000u32 == 0 && (b | 0x8000_0000u32) == b + 0x8000_0000u32)) by (bit_vector);
    assert(b >= 0x8000_0000u32 ==> b & 0x8000_0000u32 != 0) by (bit_vector);
    assert(b > 0x8000_0000u32 ==> !b == 0xffff_ffffu32 - b) by (bit_vector);
}

proof fn lemma_order_key_signed(a: u32, b: u32)
    ensures
        (f32_order_key(a) < f32_order_key(b)) == (signed_magnitude(a) < signed_magnitude(b)),
{
    lemma_order_key_shape(a);
    lemma_order_key_shape(b);
}

proof fn lemma_magnitude_strictly_increases(m1: nat, m2: nat)
    requires
        m1 < m2,
    ensures
        scaled_magnitude(m1) < scaled_magnitude(m2),
{
    let e1 = exponent_of(m1);
    let e2 = exponent_of(m2);
    let f1 = fraction_of(m1);
    let f2 = fraction_of(m2);
    assert(e1 <= e2);
    lemma2_to64();
    if e1 == e2 {
        assert(f1 < f2);
        if e1 > 0 {
            let p = pow2((e1 - 1) as nat);
            lemma_pow2_pos((e1 - 1) as nat);
            assert((f1 + 0x80_0000) * p < (f2 + 0x80_0000) * p) by (nonlinear_arith)
                requires
                    f1 < f2,
                    p > 0,
            ;
        }
    } else {
        let q = pow2((e2 - 1) as nat);
        lemma_pow2_pos((e2 - 1) as nat);
        assert(scaled_magnitude(m2) >= 0x80_0000 * q) by (nonlinear_arith)
            requires
                scaled_magnitude(m2) == (f2 + 0x80_0000) * q,
                q > 0,
        ;
        if e1 == 0 {
            assert(pow2(0) == 1);
            if e2 - 1 > 0 {
                lemma_pow2_strictly_increases(0, (e2 - 1) as nat);
            }
            assert(0x80_0000 * 1 <= 0x80_0000 * q) by (nonlinear_arith)
                requires
                    q >= 1,
            ;
        } else {
            let p = pow2((e1 - 1) as nat);
            lemma_pow2_pos((e1 - 1) as nat);
            lemma_pow2_unfold(e1);
            if e1 < e2 - 1 {
                lemma_pow2_strictly_increases(e1, (e2 - 1) as nat);
            }
            assert(pow2(e1) <= q);
            assert((f1 + 0x80_0000) * p < 0x100_0000 * p) by (nonlinear_arith)
                requires
                    f1 < 0x80_0000,
                    p > 0,
            ;
            assert(0x100_0000 * p == 0x80_0000 * pow2(e1));
            assert(0x80_0000 * pow2(e1) <= 0x80_0000 * q) by (nonlinear_arith)
                requires
                    pow2(e1) <= q,
            ;
        }
    }
}

proof fn lemma_magnitude_order(m1: nat, m2: nat)
    ensures
        (scaled_magnitude(m1) < scaled_magnitude(m2)) == (m1 < m2),
        scaled_magnitude(m1) == 0 <==> m1 == 0,
{
    if m1 < m2 {
        lemma_magnitude_strictly_increases(m1, m2);
    } else if m2 < m1 {
        lemma_magnitude_strictly_increases(m2, m1);
    }
    if m1 > 0 {
        lemma_magnitude_strictly_increases(0, m1);
    }
    assert(scaled_magnitude(0) == 0);
}

/// The NaN test on bit masks is the IEEE-754 definition of NaN.
pub proof fn law_nan_bits(b: u32)
    ensures
        is_nan_bits(b) == f32_is_nan(b),
        f32_is_nan(b) == (f32_magnitude_bits(b) > 0x7f80_0000),
        f32_is_infinite(b) == (f32_magnitude_bits(b) == 0x7f80_0000),
{
    assert(((b & 0x7f80_0000u32) == 0x7f80_0000u32 && (b & 0x007f_ffffu32) != 0) == ((b & 0x7fff_ffffu32) > 0x7f80_0000u32)) by (bit_vector);
    assert((b & 0x7fff_ffffu32) == b % 0x8000_0000u32) by (bit_vector);
}

/// The order key orders single-precision values as numbers: for bit patterns that are not
/// NaN, the key of `a` is below the key of `b` exactly when `a` is the smaller number. (So
/// equal numbers, such as `0.0` and `-0.0`, have equal keys.)
pub proof fn law_order_key_orders_values(a: u32, b: u32)
    requires
        !f32_is_nan(a),
        !f32_is_nan(b),
    ensures
        (f32_order_key(a) < f32_order_key(b)) == f32_lt(a, b),
{
    law_nan_bits(a);
    law_nan_bits(b);
    lemma_order_key_signed(a, b);
    let ma = f32_magnitude_bits(a);
    let mb = f32_magnitude_bits(b);
    lemma_magnitude_order(ma, mb);
    lemma_magnitude_order(mb, ma);
}

} // verus!
