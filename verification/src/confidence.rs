//! Confidences: binary64 numbers in the unit interval, held as bit patterns
//! and combined with integer arithmetic.

use vstd::prelude::*;
use vstd::arithmetic::power2::pow2;

verus! {

/// The bit pattern of 1.
pub const ONE_BITS: u64 = 0x3FF0_0000_0000_0000;

/// The bit pattern of positive infinity.
pub const INF_BITS: u64 = 0x7FF0_0000_0000_0000;

/// The bit pattern that stands for every result that is not a number.
pub const NAN_BITS: u64 = 0x7FF8_0000_0000_0000;

/// The sign bit; alone, the bit pattern of negative zero.
pub const SIGN_BIT: u64 = 0x8000_0000_0000_0000;

/// The number of fraction patterns per exponent.
pub const FRACTIONS: u64 = 0x0010_0000_0000_0000;

/// The pattern without its sign.
pub open spec fn magnitude(b: u64) -> u64 {
    if b >= SIGN_BIT {
        (b - SIGN_BIT) as u64
    } else {
        b
    }
}

/// Whether the pattern is not a number.
pub open spec fn is_nan(b: u64) -> bool {
    magnitude(b) > INF_BITS
}

/// The integer significand of a non-negative pattern.
pub open spec fn significand(b: u64) -> nat {
    if b < FRACTIONS {
        b as nat
    } else {
        (FRACTIONS + b % FRACTIONS) as nat
    }
}

/// The number of doublings that the significand stands above the least
/// positive number: the pattern denotes `significand * 2^scale * 2^-1074`.
pub open spec fn scale(b: u64) -> nat {
    if b < FRACTIONS {
        0
    } else {
        (b / FRACTIONS - 1) as nat
    }
}

/// `n / 2^k`, rounded to the nearest integer, ties to even.
pub open spec fn round_shift(n: nat, k: nat) -> nat {
    let q = n / pow2(k);
    let r = n % pow2(k);
    if 2 * r > pow2(k) || (2 * r == pow2(k) && q % 2 == 1) {
        q + 1
    } else {
        q
    }
}

/// The number of binary digits of `n`.
pub open spec fn bit_length(n: nat) -> nat
    decreases n,
{
    if n == 0 {
        0
    } else {
        bit_length(n / 2) + 1
    }
}

/// How many low bits of the product of two significands are rounded away:
/// all but 53, and at least those below the least positive number.
pub open spec fn product_shift(a: u64, b: u64) -> nat {
    let wide = bit_length(significand(a) * significand(b)) - 53;
    let low = 1074 - scale(a) - scale(b);
    if wide >= low {
        wide as nat
    } else {
        low as nat
    }
}

/// The pattern of the rounded product of two patterns in `0..=ONE_BITS`.
pub open spec fn product(a: u64, b: u64) -> u64 {
    let n = significand(a) * significand(b);
    if n == 0 {
        0
    } else {
        let k = product_shift(a, b);
        ((scale(a) + scale(b) + k - 1074) * FRACTIONS + round_shift(n, k)) as u64
    }
}

/// The nearest number in the unit interval; zero for what is not a number.
pub open spec fn clamp(b: u64) -> u64 {
    if is_nan(b) {
        0
    } else if b > SIGN_BIT {
        0
    } else if b == SIGN_BIT {
        SIGN_BIT
    } else if b > ONE_BITS {
        ONE_BITS
    } else {
        b
    }
}

/// A pattern that [`clamp`] leaves as it is.
pub open spec fn unit_bits(b: u64) -> bool {
    b <= ONE_BITS || b == SIGN_BIT
}

/// The product of two confidences.
pub open spec fn conf_times(a: u64, b: u64) -> u64 {
    if a == SIGN_BIT || b == SIGN_BIT {
        if a == b {
            0
        } else {
            SIGN_BIT
        }
    } else {
        product(a, b)
    }
}

/// Whether `a` is a greater number than `b`.
pub open spec fn conf_above(a: u64, b: u64) -> bool {
    &&& a != SIGN_BIT
    &&& if b == SIGN_BIT { a > 0 } else { a > b }
}

/// The greater of two confidences.
pub open spec fn conf_max(a: u64, b: u64) -> u64 {
    if conf_above(b, a) {
        b
    } else {
        a
    }
}

pub proof fn lemma_bit_length_bounds(n: nat)
    requires
        n > 0,
    ensures
        bit_length(n) > 0,
        pow2((bit_length(n) - 1) as nat) <= n < pow2(bit_length(n)),
    decreases n,
{
    vstd::arithmetic::power2::lemma2_to64();
    if n > 1 {
        lemma_bit_length_bounds(n / 2);
        let l = bit_length(n / 2);
        vstd::arithmetic::power2::lemma_pow2_unfold(l);
        vstd::arithmetic::power2::lemma_pow2_unfold(l + 1);
    } else {
        assert(bit_length(1) == bit_length(0) + 1);
    }
}

proof fn lemma_bit_length_le(n: nat, k: nat)
    requires
        n < pow2(k),
    ensures
        bit_length(n) <= k,
{
    if n > 0 {
        lemma_bit_length_bounds(n);
        if bit_length(n) > k {
            let l = (bit_length(n) - 1) as nat;
            if k < l {
                vstd::arithmetic::power2::lemma_pow2_strictly_increases(k, l);
            }
        }
    }
}

fn bit_length_of(n: u128) -> (r: u32)
    ensures
        r == bit_length(n as nat),
        r <= 128,
{
    let mut r: u32 = 0;
    let mut m: u128 = n;
    proof {
        vstd::arithmetic::power2::lemma2_to64_rest();
        vstd::arithmetic::power2::lemma_pow2_adds(64, 64);
        assert(0x1_0000_0000_0000_0000int * 0x1_0000_0000_0000_0000int == 0x1_0000_0000_0000_0000_0000_0000_0000_0000int);
        lemma_bit_length_le(n as nat, 128);
    }
    while m > 0
        invariant
            r + bit_length(m as nat) == bit_length(n as nat),
            bit_length(n as nat) <= 128,
        decreases m,
    {
        m = m / 2;
        r = r + 1;
    }
    r
}

fn power_of_two(k: u32) -> (r: u128)
    requires
        k < 127,
    ensures
        r == pow2(k as nat),
        r > 0,
{
    let mut r: u128 = 1;
    let mut i: u32 = 0;
    proof {
        vstd::arithmetic::power2::lemma2_to64();
        vstd::arithmetic::power2::lemma2_to64_rest();
        vstd::arithmetic::power2::lemma_pow2_adds(63, 64);
        assert(0x8000_0000_0000_0000int * 0x1_0000_0000_0000_0000int == 0x8000_0000_0000_0000_0000_0000_0000_0000int);
    }
    while i < k
        invariant
            i <= k < 127,
            r == pow2(i as nat),
            r > 0,
            pow2(127) == 0x8000_0000_0000_0000_0000_0000_0000_0000int,
        decreases k - i,
    {
        proof {
            vstd::arithmetic::power2::lemma_pow2_unfold((i + 1) as nat);
            vstd::arithmetic::power2::lemma_pow2_strictly_increases(i as nat, 127);
        }
        r = r * 2;
        i = i + 1;
    }
    r
}

proof fn lemma_bit_length_gt(n: nat, k: nat)
    requires
        n >= pow2(k),
    ensures
        bit_length(n) > k,
{
    vstd::arithmetic::power2::lemma_pow2_pos(k);
    lemma_bit_length_bounds(n);
    if bit_length(n) <= k {
        if bit_length(n) < k {
            vstd::arithmetic::power2::lemma_pow2_strictly_increases(bit_length(n), k);
        }
    }
}

/// Bounds on the product of two significands and on the bits it loses.
pub proof fn lemma_product_bounds(a: u64, b: u64)
    requires
        a <= ONE_BITS,
        b <= ONE_BITS,
        significand(a) * significand(b) > 0,
    ensures
        significand(a) * significand(b) < pow2(106),
        bit_length(significand(a) * significand(b)) <= 106,
        scale(a) <= 1022,
        scale(b) <= 1022,
        product_shift(a, b) >= 52,
        product_shift(a, b) >= bit_length(significand(a) * significand(b)) - 53,
        product_shift(a, b) >= 1074 - scale(a) - scale(b),
        product_shift(a, b) == bit_length(significand(a) * significand(b)) - 53 || product_shift(a, b) == 1074 - scale(a) - scale(b),
        round_shift(significand(a) * significand(b), product_shift(a, b)) <= 2 * FRACTIONS,
{
    let ma = significand(a);
    let mb = significand(b);
    let n = ma * mb;
    vstd::arithmetic::power2::lemma2_to64();
    vstd::arithmetic::power2::lemma2_to64_rest();
    vstd::arithmetic::power2::lemma_pow2_adds(53, 53);
    vstd::arithmetic::power2::lemma_pow2_adds(52, 52);
    assert(ma < pow2(53) && mb < pow2(53));
    assert(n < pow2(53) * pow2(53)) by (nonlinear_arith)
        requires
            ma < pow2(53),
            mb < pow2(53),
            n == ma * mb,
    ;
    lemma_bit_length_le(n, 106);
    if a >= FRACTIONS && b >= FRACTIONS {
        assert(n >= pow2(52) * pow2(52)) by (nonlinear_arith)
            requires
                ma >= pow2(52),
                mb >= pow2(52),
                n == ma * mb,
        ;
        lemma_bit_length_gt(n, 104);
    }
    let k = product_shift(a, b);
    lemma_bit_length_bounds(n);
    let l = bit_length(n);
    vstd::arithmetic::power2::lemma_pow2_pos(k);
    vstd::arithmetic::power2::lemma_pow2_adds(k, 53);
    if l < k + 53 {
        vstd::arithmetic::power2::lemma_pow2_strictly_increases(l, k + 53);
    }
    assert(n < pow2(k) * pow2(53));
    assert(n / pow2(k) < pow2(53)) by (nonlinear_arith)
        requires
            n < pow2(k) * pow2(53),
            pow2(k) > 0,
    ;
    assert(pow2(53) == 2 * FRACTIONS);
}

/// The rounded product, computed with integers.
fn product_bits(a: u64, b: u64) -> (r: u64)
    requires
        a <= ONE_BITS,
        b <= ONE_BITS,
    ensures
        r == product(a, b),
{
    let ma: u64 = if a < FRACTIONS { a } else { FRACTIONS + a % FRACTIONS };
    let mb: u64 = if b < FRACTIONS { b } else { FRACTIONS + b % FRACTIONS };
    let sa: u64 = if a < FRACTIONS { 0 } else { a / FRACTIONS - 1 };
    let sb: u64 = if b < FRACTIONS { 0 } else { b / FRACTIONS - 1 };
    assert((ma as u128) * (mb as u128) < 0x1_0000_0000_0000_0000_0000_0000_0000_0000int) by (nonlinear_arith)
        requires
            ma <= 0xffff_ffff_ffff_ffffu64,
            mb <= 0xffff_ffff_ffff_ffffu64,
    ;
    let n: u128 = (ma as u128) * (mb as u128);
    if n == 0 {
        return 0;
    }
    proof {
        assert(n == significand(a) * significand(b));
        lemma_product_bounds(a, b);
    }
    let l: u64 = bit_length_of(n) as u64;
    let lost: u64 = sa + sb;
    let k: u64 = if l + lost >= 1074 + 53 { l - 53 } else { 1074 - lost };
    assert(k == product_shift(a, b));
    let q: u64;
    if k >= 107 {
        proof {
            if k > 107 {
                vstd::arithmetic::power2::lemma_pow2_strictly_increases(107, k as nat);
            }
            vstd::arithmetic::power2::lemma_pow2_unfold(107);
            vstd::arithmetic::power2::lemma_pow2_pos(k as nat);
            vstd::arithmetic::div_mod::lemma_small_mod(n as nat, pow2(k as nat));
            vstd::arithmetic::div_mod::lemma_basic_div(n as int, pow2(k as nat) as int);
        }
        q = 0;
    } else {
        let p: u128 = power_of_two(k as u32);
        let d: u128 = n / p;
        let m: u128 = n % p;
        assert(d <= 2 * FRACTIONS);
        proof {
            vstd::arithmetic::power2::lemma2_to64();
            vstd::arithmetic::power2::lemma2_to64_rest();
            vstd::arithmetic::power2::lemma_pow2_adds(63, 64);
            vstd::arithmetic::power2::lemma_pow2_strictly_increases(k as nat, 127);
        }
        if 2 * m > p || (2 * m == p && d % 2 == 1) {
            q = d as u64 + 1;
        } else {
            q = d as u64;
        }
    }
    assert(q == round_shift(n as nat, k as nat));
    (lost + k - 1074) * FRACTIONS + q
}

/// A confidence: a number in the unit interval.
#[derive(Debug, Clone, Copy)]
pub struct Conf {
    bits: u64,
}

impl View for Conf {
    type V = u64;

    closed spec fn view(&self) -> u64 {
        self.bits
    }
}

impl Conf {
    #[verifier::type_invariant]
    spec fn in_unit_interval(self) -> bool {
        unit_bits(self.bits)
    }

    /// The confidence nearest to the number with the given bit pattern.
    pub fn from_bits(b: u64) -> (r: Conf)
        ensures
            r@ == clamp(b),
    {
        let m: u64 = if b >= SIGN_BIT { b - SIGN_BIT } else { b };
        if m > INF_BITS {
            Conf { bits: 0 }
        } else if b > SIGN_BIT {
            Conf { bits: 0 }
        } else if b == SIGN_BIT {
            Conf { bits: SIGN_BIT }
        } else if b > ONE_BITS {
            Conf { bits: ONE_BITS }
        } else {
            Conf { bits: b }
        }
    }

    /// The bit pattern.
    pub fn bits(&self) -> (r: u64)
        ensures
            r == self@,
            unit_bits(r),
    {
        proof {
            use_type_invariant(self);
        }
        self.bits
    }

    /// Full confidence.
    pub fn one() -> (r: Conf)
        ensures
            r@ == ONE_BITS,
    {
        Conf { bits: ONE_BITS }
    }

    /// The product of two confidences.
    pub fn times(&self, other: &Conf) -> (r: Conf)
        ensures
            r@ == clamp(conf_times(self@, other@)),
    {
        let a = self.bits();
        let b = other.bits();
        if a == SIGN_BIT || b == SIGN_BIT {
            if a == b {
                Conf::from_bits(0)
            } else {
                Conf::from_bits(SIGN_BIT)
            }
        } else {
            Conf::from_bits(product_bits(a, b))
        }
    }

    /// Whether this confidence is greater than the other.
    pub fn is_above(&self, other: &Conf) -> (r: bool)
        ensures
            r == conf_above(self@, other@),
    {
        let a = self.bits();
        let b = other.bits();
        if a == SIGN_BIT {
            false
        } else if b == SIGN_BIT {
            a > 0
        } else {
            a > b
        }
    }

    /// The greater of two confidences.
    pub fn max(&self, other: &Conf) -> (r: Conf)
        ensures
            r@ == conf_max(self@, other@),
    {
        if other.is_above(self) {
            *other
        } else {
            *self
        }
    }
}

// ---------------------------------------------------------------------- laws

/// A pattern holds its scale and its significand side by side.
proof fn lemma_parts(b: u64)
    requires
        b <= ONE_BITS,
    ensures
        b == scale(b) * FRACTIONS + significand(b),
        significand(b) < pow2(53),
        significand(b) * pow2(scale(b)) <= pow2(1074),
        scale(b) <= 1022,
        scale(b) > 0 ==> significand(b) >= FRACTIONS,
        pow2(52) == FRACTIONS,
        pow2(53) == 2 * FRACTIONS,
{
    vstd::arithmetic::power2::lemma2_to64();
    vstd::arithmetic::power2::lemma_pow2_unfold(53);
    assert(FRACTIONS == 0x10_0000_0000_0000u64);
    assert(pow2(52) == FRACTIONS) by {
        vstd::arithmetic::power2::lemma_pow2_adds(32, 20);
        assert(0x1_0000_0000 * 0x10_0000 == 0x10_0000_0000_0000);
    }
    if b >= FRACTIONS {
        let q = b / FRACTIONS;
        let r = b % FRACTIONS;
        assert(b == q * FRACTIONS + r) by (nonlinear_arith)
            requires
                FRACTIONS > 0,
                q == b / FRACTIONS,
                r == b % FRACTIONS,
        ;
        assert(q <= 1023) by (nonlinear_arith)
            requires
                b == q * FRACTIONS + r,
                b <= 1023 * FRACTIONS,
                r >= 0,
                FRACTIONS > 0,
        ;
        assert((q - 1) * FRACTIONS + (FRACTIONS + r) == b) by (nonlinear_arith)
            requires
                b == q * FRACTIONS + r,
        ;
    }
    let s = significand(b);
    let e = scale(b);
    if e == 1022 {
        assert(b % FRACTIONS == 0);
        vstd::arithmetic::power2::lemma_pow2_adds(52, 1022);
    } else {
        vstd::arithmetic::power2::lemma_pow2_adds(53, 1021);
        if e < 1021 {
            vstd::arithmetic::power2::lemma_pow2_strictly_increases(e, 1021);
        }
        assert(s * pow2(e) <= pow2(53) * pow2(1021)) by (nonlinear_arith)
            requires
                s <= pow2(53),
                pow2(e) <= pow2(1021),
                0 <= s,
                0 <= pow2(e),
        ;
    }
}

proof fn lemma_round_at_most(n: nat, k: nat, m: nat)
    requires
        n <= m * pow2(k),
    ensures
        round_shift(n, k) <= m,
{
    vstd::arithmetic::power2::lemma_pow2_pos(k);
    let p = pow2(k);
    let q = n / p;
    let r = n % p;
    assert(n == q * p + r && r < p) by (nonlinear_arith)
        requires
            p > 0,
            q == n / p,
            r == n % p,
    ;
    if q >= m {
        assert(q == m && r == 0) by (nonlinear_arith)
            requires
                q >= m,
                n == q * p + r,
                n <= m * p,
                p > 0,
                r >= 0,
        ;
    }
}

/// The product of two confidences is no greater than the first.
proof fn lemma_product_at_most(a: u64, b: u64)
    requires
        a <= ONE_BITS,
        b <= ONE_BITS,
    ensures
        product(a, b) <= a,
{
    let sa = significand(a);
    let sb = significand(b);
    let n = sa * sb;
    lemma_parts(a);
    lemma_parts(b);
    if n > 0 {
        lemma_product_bounds(a, b);
        let k = product_shift(a, b);
        let top = (1074 - scale(b)) as nat;
        vstd::arithmetic::power2::lemma_pow2_adds(top, scale(b));
        vstd::arithmetic::power2::lemma_pow2_pos(scale(b));
        assert(sb <= pow2(top)) by (nonlinear_arith)
            requires
                sb * pow2(scale(b)) <= pow2(1074),
                pow2(1074) == pow2(top) * pow2(scale(b)),
                pow2(scale(b)) > 0,
        ;
        assert(n <= sa * pow2(top)) by (nonlinear_arith)
            requires
                n == sa * sb,
                sb <= pow2(top),
        ;
        assert(k <= top) by {
            vstd::arithmetic::power2::lemma_pow2_adds(53, top);
            vstd::arithmetic::power2::lemma_pow2_pos(top);
            assert(n < pow2(53 + top)) by (nonlinear_arith)
                requires
                    n <= sa * pow2(top),
                    sa < pow2(53),
                    pow2(top) > 0,
                    pow2(53 + top) == pow2(53) * pow2(top),
            ;
            lemma_bit_length_le(n, 53 + top);
        }
        let t = (scale(a) + scale(b) + k - 1074) as nat;
        let q = round_shift(n, k);
        assert(q <= pow2(53)) by {
            lemma_bit_length_bounds(n);
            let l = bit_length(n);
            vstd::arithmetic::power2::lemma_pow2_adds(53, k);
            if l < 53 + k {
                vstd::arithmetic::power2::lemma_pow2_strictly_increases(l, 53 + k);
            }
            lemma_round_at_most(n, k, pow2(53));
        }
        if k == top {
            lemma_round_at_most(n, k, sa);
            assert(t == scale(a));
            assert(t * FRACTIONS + q <= a);
        } else {
            assert(t < scale(a));
            assert(t * FRACTIONS + q <= a) by (nonlinear_arith)
                requires
                    t + 1 <= scale(a),
                    q <= 2 * FRACTIONS,
                    sa >= FRACTIONS,
                    a == scale(a) * FRACTIONS + sa,
            ;
        }
        assert(product(a, b) == (t * FRACTIONS + q) as u64);
    }
}

/// Law: joining confidences lowers them. For confidences between 0 and 1 the
/// product is no greater than either, the order does not matter, and
/// certainty changes nothing.
pub proof fn product_lowers(a: u64, b: u64)
    requires
        a <= ONE_BITS,
        b <= ONE_BITS,
    ensures
        conf_times(a, b) <= a,
        conf_times(a, b) <= b,
        conf_times(a, b) == conf_times(b, a),
        conf_times(a, ONE_BITS) == a,
{
    lemma_product_at_most(a, b);
    lemma_product_at_most(b, a);
    assert(significand(a) * significand(b) == significand(b) * significand(a)) by (nonlinear_arith);
    lemma_product_one(a);
}

proof fn lemma_product_one(a: u64)
    requires
        a <= ONE_BITS,
    ensures
        product(a, ONE_BITS) == a,
{
    let sa = significand(a);
    lemma_parts(a);
    lemma_parts(ONE_BITS);
    assert(scale(ONE_BITS) == 1022 && significand(ONE_BITS) == FRACTIONS);
    let n = sa * significand(ONE_BITS);
    assert(n == sa * pow2(52));
    vstd::arithmetic::power2::lemma_pow2_pos(52);
    if sa > 0 {
        assert(n > 0) by (nonlinear_arith)
            requires
                n == sa * pow2(52),
                sa > 0,
                pow2(52) > 0,
        ;
        lemma_product_bounds(a, ONE_BITS);
        let k = product_shift(a, ONE_BITS);
        vstd::arithmetic::power2::lemma_pow2_adds(53, 52);
        assert(n < pow2(105)) by (nonlinear_arith)
            requires
                n == sa * pow2(52),
                sa < pow2(53),
                pow2(52) > 0,
                pow2(105) == pow2(53) * pow2(52),
        ;
        lemma_bit_length_le(n, 105);
        assert(k == 52);
        lemma_round_at_most(n, 52, sa);
        assert(n / pow2(52) == sa && n % pow2(52) == 0) by {
            vstd::arithmetic::div_mod::lemma_fundamental_div_mod_converse(n as int, pow2(52) as int, sa as int, 0);
        }
        assert(round_shift(n, 52) == sa);
        assert(product(a, ONE_BITS) == (scale(a) * FRACTIONS + sa) as u64);
    } else {
        assert(n == 0) by (nonlinear_arith)
            requires
                n == sa * pow2(52),
                sa == 0,
        ;
        assert(a == 0) by {
            if scale(a) > 0 {
                assert(sa >= FRACTIONS);
            }
        }
    }
}

/// Law: merging confidences takes the greater. For confidences between 0 and
/// 1 the order does not matter, and a confidence merged with itself stays.
pub proof fn merge_raises(a: u64, b: u64, c: u64)
    requires
        a <= ONE_BITS,
        b <= ONE_BITS,
        c <= ONE_BITS,
    ensures
        conf_max(a, b) >= a,
        conf_max(a, b) >= b,
        conf_max(a, b) == a || conf_max(a, b) == b,
        conf_max(a, b) == conf_max(b, a),
        conf_max(a, a) == a,
        conf_max(conf_max(a, b), c) == conf_max(a, conf_max(b, c)),
{
}

} // verus!
