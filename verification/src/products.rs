//! Products: the product of two confidences is the number nearest to it, ties to
//! even.

use vstd::prelude::*;
use vstd::arithmetic::power2::{lemma2_to64, lemma2_to64_rest, lemma_pow2_adds, lemma_pow2_pos, pow2};
use crate::confidence::{
    bit_length, conf_times, lemma_bit_length_bounds, lemma_product_bounds, product, product_shift, round_shift, scale, significand,
    FRACTIONS, INF_BITS, ONE_BITS,
};
use crate::decimal::{above, is_nearest, midway, pow10};
use crate::notation::rounded;

verus! {

/// The value of a pattern, as a multiple of the least positive number.
pub open spec fn amount(b: u64) -> nat {
    significand(b) * pow2(scale(b))
}

/// How a product lies to the midpoint above a pattern.
proof fn lemma_above(n: nat, l: nat, k: nat, x: u64, d: nat)
    requires
        d <= 2,
        scale(x) + 1073 + d == l + k,
    ensures
        ({
            let m = 2 * significand(x) + 1;
            let far = pow2((2 - d) as nat) * pow2(k);
            above(n * pow2(l), pow2(2148), x) <==> 4 * n > m * far || (4 * n == m * far && x % 2 == 1)
        }),
{
    let m = 2 * significand(x) + 1;
    let s = scale(x);
    let t = pow2(l + 1073);
    let far = pow2((2 - d) as nat) * pow2(k);
    lemma2_to64();
    lemma_pow2_pos(l + 1073);
    lemma_pow2_adds(l, 1075);
    lemma_pow2_adds(2, l + 1073);
    lemma_pow2_adds(s, 2148);
    lemma_pow2_adds((2 - d) as nat, k);
    lemma_pow2_adds((2 - d + k) as nat, l + 1073);
    assert(l + 1075 == 2 + (l + 1073));
    assert(s + 2148 == (2 - d + k) + (l + 1073));
    let left = (n * pow2(l)) * pow2(1075);
    let right = (m * pow2(s)) * pow2(2148);
    assert(left == (4 * n) * t) by (nonlinear_arith)
        requires
            left == (n * pow2(l)) * pow2(1075),
            pow2(l) * pow2(1075) == 4 * t,
    ;
    assert(right == (m * far) * t) by (nonlinear_arith)
        requires
            right == (m * pow2(s)) * pow2(2148),
            pow2(s) * pow2(2148) == far * t,
    ;
    assert(((4 * n) * t > (m * far) * t) == (4 * n > m * far)) by (nonlinear_arith)
        requires
            t > 0,
    ;
    assert(((4 * n) * t == (m * far) * t) == (4 * n == m * far)) by (nonlinear_arith)
        requires
            t > 0,
    ;
    assert(midway(x) == m * pow2(s));
}

/// A quotient and its remainder, rounded.
proof fn lemma_rounds(n: nat, k: nat)
    ensures
        ({
            let q = round_shift(n, k);
            let p = pow2(k);
            &&& 2 * n <= (2 * q + 1) * p
            &&& 2 * n == (2 * q + 1) * p ==> q % 2 == 0
            &&& q > 0 ==> 2 * n >= (2 * q - 1) * p
            &&& q > 0 && 2 * n == (2 * q - 1) * p ==> q % 2 == 0
        }),
{
    let p = pow2(k);
    lemma_pow2_pos(k);
    let a = n / p;
    let r = n % p;
    vstd::arithmetic::div_mod::lemma_fundamental_div_mod(n as int, p as int);
    let q = round_shift(n, k);
    assert(n == p * a + r);
    assert(0 <= r < p);
    assert((2 * a + 1) * p == 2 * (p * a) + p) by (nonlinear_arith);
    assert((2 * a - 1) * p == 2 * (p * a) - p) by (nonlinear_arith);
    assert((2 * (a + 1) + 1) * p == 2 * (p * a) + 3 * p) by (nonlinear_arith);
    assert((2 * (a + 1) - 1) * p == 2 * (p * a) + p) by (nonlinear_arith);
}

/// Law: the product of two confidences is the number nearest to the product of
/// their values, the even one of two that are as near.
pub proof fn product_is_nearest(a: u64, b: u64)
    requires
        a <= ONE_BITS,
        b <= ONE_BITS,
    ensures
        is_nearest(amount(a) * amount(b), pow2(2148), conf_times(a, b)),
{
    let n = significand(a) * significand(b);
    let l = scale(a) + scale(b);
    let r = product(a, b);
    lemma_pow2_adds(scale(a), scale(b));
    lemma_pow2_pos(2148);
    assert(amount(a) * amount(b) == n * pow2(l)) by (nonlinear_arith)
        requires
            amount(a) == significand(a) * pow2(scale(a)),
            amount(b) == significand(b) * pow2(scale(b)),
            n == significand(a) * significand(b),
            pow2(l) == pow2(scale(a)) * pow2(scale(b)),
    ;
    if n == 0 {
        assert(n * pow2(l) == 0) by (nonlinear_arith)
            requires
                n == 0,
        ;
        lemma2_to64();
        assert(significand(0) == 0 && scale(0) == 0);
        assert(midway(0) > 0) by (nonlinear_arith)
            requires
                midway(0) == (2 * significand(0) + 1) * pow2(0),
                pow2(0) == 1,
        ;
        assert(midway(0) * pow2(2148) > 0) by (nonlinear_arith)
            requires
                midway(0) > 0,
                pow2(2148) > 0,
        ;
        assert(0 * pow2(1075) == 0);
    } else {
        lemma_product_bounds(a, b);
        let k = product_shift(a, b);
        let q = round_shift(n, k);
        let e = (l + k - 1074) as nat;
        let p = pow2(k);
        lemma2_to64();
        lemma_rounds(n, k);
        lemma_pow2_pos(k);
        assert(r == e * FRACTIONS + q);
        if e > 0 {
            lemma_wide(n, k);
        }
        // Above the product.
        if q < 2 * FRACTIONS {
            lemma_pattern(e, q, r);
            lemma_above(n, l, k, r, 1);
            assert((2 * q + 1) * (2 * p) == 2 * ((2 * q + 1) * p)) by (nonlinear_arith);
        } else {
            lemma_pattern_full(e, r);
            lemma_above(n, l, k, r, 0);
            assert((2 * FRACTIONS + 1) * (4 * p) == 2 * ((2 * q + 1) * p) + 2 * p) by (nonlinear_arith)
                requires
                    q == 2 * FRACTIONS,
            ;
        }
        // Below the product.
        if r > 0 {
            let x = (r - 1) as u64;
            if e > 0 && q == FRACTIONS {
                lemma_pattern_under(e, x);
                lemma_above(n, l, k, x, 2);
                assert(4 * n > (4 * FRACTIONS - 1) * (1 * p)) by (nonlinear_arith)
                    requires
                        n >= FRACTIONS * p,
                        p > 0,
                ;
            } else {
                lemma_pattern(e, (q - 1) as nat, x);
                lemma_above(n, l, k, x, 1);
                assert((2 * (q - 1) + 1) * (2 * p) == 2 * ((2 * q - 1) * p)) by (nonlinear_arith);
            }
        }
        assert(r <= INF_BITS) by {
            crate::confidence::product_lowers(a, b);
        }
    }
}

/// Law: a confidence that is shown with some decimal places is shown with those
/// nearest to it: it is no more than half a place away.
pub proof fn rounding_is_nearest(b: u64, p: nat)
    ensures
        2 * (amount(b) * pow10(p)) <= (2 * rounded(b, p) + 1) * pow2(1074),
        2 * (amount(b) * pow10(p)) >= (2 * rounded(b, p) - 1) * pow2(1074),
{
    lemma_rounds(amount(b) * pow10(p), 1074);
    lemma_pow2_pos(1074);
    if rounded(b, p) == 0 {
        assert((2 * 0 - 1) * pow2(1074) <= 0) by (nonlinear_arith)
            requires
                pow2(1074) > 0,
        ;
    }
}

/// A product that loses only what does not fit has a full significand.
proof fn lemma_wide(n: nat, k: nat)
    requires
        n > 0,
        k + 53 == bit_length(n),
    ensures
        n >= FRACTIONS * pow2(k),
        round_shift(n, k) >= FRACTIONS,
{
    lemma2_to64_rest();
    lemma_bit_length_bounds(n);
    lemma_pow2_adds(52, k);
    assert((bit_length(n) - 1) as nat == 52 + k);
    assert(pow2(52) == FRACTIONS);
    lemma_pow2_pos(k);
    let p = pow2(k);
    assert(n / p >= FRACTIONS) by (nonlinear_arith)
        requires
            n >= FRACTIONS * p,
            p > 0,
    ;
}

proof fn lemma_pattern(e: nat, q: nat, r: u64)
    requires
        q < 2 * FRACTIONS,
        e > 0 ==> q >= FRACTIONS,
        r == e * FRACTIONS + q,
    ensures
        significand(r) == q,
        scale(r) == e,
        r % 2 == q % 2,
{
    if q < FRACTIONS {
        assert(r == q);
    } else {
        assert(r as int == FRACTIONS as int * (e + 1) + (q - FRACTIONS)) by (nonlinear_arith)
            requires
                r == e * FRACTIONS + q,
        ;
        vstd::arithmetic::div_mod::lemma_fundamental_div_mod_converse(r as int, FRACTIONS as int, (e + 1) as int, q - FRACTIONS);
    }
    assert(FRACTIONS % 2 == 0);
    assert((e * FRACTIONS) % 2 == 0) by (nonlinear_arith)
        requires
            FRACTIONS == 0x0010_0000_0000_0000,
    ;
}

proof fn lemma_pattern_full(e: nat, r: u64)
    requires
        r == e * FRACTIONS + 2 * FRACTIONS,
    ensures
        significand(r) == FRACTIONS,
        scale(r) == e + 1,
{
    assert(r as int == FRACTIONS as int * (e + 2)) by (nonlinear_arith)
        requires
            r == e * FRACTIONS + 2 * FRACTIONS,
    ;
    vstd::arithmetic::div_mod::lemma_fundamental_div_mod_converse(r as int, FRACTIONS as int, (e + 2) as int, 0);
}

proof fn lemma_pattern_under(e: nat, x: u64)
    requires
        e > 0,
        x + 1 == e * FRACTIONS + FRACTIONS,
    ensures
        significand(x) == 2 * FRACTIONS - 1,
        scale(x) + 1 == e,
{
    assert(x as int == FRACTIONS as int * e + (FRACTIONS - 1)) by (nonlinear_arith)
        requires
            x + 1 == e * FRACTIONS + FRACTIONS,
    ;
    vstd::arithmetic::div_mod::lemma_fundamental_div_mod_converse(x as int, FRACTIONS as int, e as int, FRACTIONS - 1);
}

} // verus!
