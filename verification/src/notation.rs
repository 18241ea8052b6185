//! Writing confidences in decimal notation.

use vstd::prelude::*;
use vstd::arithmetic::power2::{lemma_pow2_pos, lemma_pow2_strictly_increases, pow2};
use vstd::string::StringExecFns;
use crate::bignum::Big;
use crate::confidence::{round_shift, scale, significand, unit_bits, Conf, FRACTIONS, ONE_BITS, SIGN_BIT};
use crate::decimal::{
    above, decimal_places, digits_to_big, is_nearest, lemma_pow10_pos, lower_ascii, mantissa, midway, nearest,
    nearest_unique, number_shape, parsed_float, pow10, power_of_ten, is_rounded,
};
use crate::lexer::digits_end;
use crate::text::{all_digits, digit, digits_value, is_digit, nat_text};

verus! {

/// The number in units of the least positive number.
pub open spec fn units(b: u64) -> nat {
    significand(b) * pow2(scale(b))
}

/// The number times `10^p`, rounded to the nearest integer, ties to even.
pub open spec fn rounded(b: u64, p: nat) -> nat {
    round_shift(units(b) * pow10(p), 1074)
}

/// The last `p` decimal digits of a number.
pub open spec fn last_digits(n: nat, p: nat) -> Seq<char>
    decreases p,
{
    if p == 0 {
        Seq::empty()
    } else {
        last_digits(n / 10, (p - 1) as nat).push(digit(n % 10))
    }
}

/// A number of `10^p`ths in decimal notation.
pub open spec fn point_text(q: nat, p: nat) -> Seq<char> {
    if p == 0 {
        nat_text(q)
    } else {
        nat_text(q / pow10(p)) + "."@ + last_digits(q % pow10(p), p)
    }
}

/// A confidence with `p` decimal places.
pub open spec fn fixed_text(b: u64, p: nat) -> Seq<char> {
    if b == SIGN_BIT {
        "-"@ + point_text(0, p)
    } else {
        point_text(rounded(b, p), p)
    }
}

/// The number rounded to `p` decimal places reads as the number.
pub open spec fn reads_back(b: u64, p: nat) -> bool {
    nearest(rounded(b, p), pow10(p)) == b
}

/// The fewest decimal places, from `p` on, that tell the number from every
/// other.
pub open spec fn enough_places(b: u64, p: nat) -> nat
    decreases 1074 - p,
{
    if p >= 1074 || reads_back(b, p) {
        p
    } else {
        enough_places(b, p + 1)
    }
}

/// The shortest notation of a confidence.
pub open spec fn shortest_text(b: u64) -> Seq<char> {
    if b == SIGN_BIT {
        "-0"@
    } else {
        point_text(rounded(b, enough_places(b, 0)), enough_places(b, 0))
    }
}

// ------------------------------------------------------------------ digits

proof fn lemma_value_bound(d: Seq<char>)
    requires
        all_digits(d),
    ensures
        digits_value(d) < pow10(d.len()),
    decreases d.len(),
{
    if d.len() > 0 {
        let e = d.drop_last();
        assert forall|i: int| 0 <= i < e.len() implies is_digit(#[trigger] e[i]) by {
            assert(d[i] == e[i]);
        }
        lemma_value_bound(e);
        assert(is_digit(d[d.len() - 1]));
    }
}

/// The last digits of the number that some digits denote are those digits.
proof fn lemma_last_digits(d: Seq<char>)
    requires
        all_digits(d),
    ensures
        last_digits(digits_value(d), d.len()) == d,
    decreases d.len(),
{
    if d.len() > 0 {
        let e = d.drop_last();
        assert forall|i: int| 0 <= i < e.len() implies is_digit(#[trigger] e[i]) by {
            assert(d[i] == e[i]);
        }
        lemma_last_digits(e);
        let c = d.last();
        assert(is_digit(d[d.len() - 1]));
        let n = digits_value(d);
        assert(n / 10 == digits_value(e));
        assert(n % 10 == c as int - 48);
        assert(digit(n % 10) == c);
        assert(d =~= e.push(c));
    } else {
        assert(d =~= Seq::empty());
    }
}

/// Adds one to the number that the first `n` digits denote; tells whether it
/// became zero by a carry.
fn increment(d: &mut Vec<char>, n: usize) -> (r: bool)
    requires
        all_digits(old(d)@),
        n <= old(d)@.len(),
    ensures
        all_digits(final(d)@),
        final(d)@.len() == old(d)@.len(),
        forall|j: int| n <= j < old(d)@.len() ==> #[trigger] final(d)@[j] == old(d)@[j],
        digits_value(final(d)@.take(n as int)) + (if r {
            pow10(n as nat)
        } else {
            0
        }) == digits_value(old(d)@.take(n as int)) + 1,
    decreases n,
{
    let ghost d0 = d@;
    if n == 0 {
        assert(d@.take(0) =~= Seq::empty());
        return true;
    }
    let c = d[n - 1];
    assert(is_digit(d@[n - 1]));
    assert(d0.take(n as int).drop_last() =~= d0.take(n - 1));
    assert(d0.take(n as int).last() == c);
    if c != '9' {
        let next: u8 = c as u8 + 1;
        let x = next as char;
        d[n - 1] = x;
        proof {
            assert(x as int == c as int + 1);
            assert(d@.take(n as int).drop_last() =~= d0.take(n - 1));
            assert(d@.take(n as int).last() == x);
            assert forall|i: int| 0 <= i < d@.len() implies is_digit(#[trigger] d@[i]) by {
                if i != n - 1 {
                    assert(d@[i] == d0[i]);
                }
            }
        }
        false
    } else {
        d[n - 1] = '0';
        let ghost d1 = d@;
        proof {
            assert forall|i: int| 0 <= i < d@.len() implies is_digit(#[trigger] d@[i]) by {
                if i != n - 1 {
                    assert(d@[i] == d0[i]);
                }
            }
            assert(d1.take(n - 1) =~= d0.take(n - 1));
        }
        let carry = increment(d, n - 1);
        proof {
            assert(d@.take(n as int).drop_last() =~= d@.take(n - 1));
            assert(d@[n - 1] == d1[n - 1]);
            assert(d@.take(n as int).last() == '0');
        }
        carry
    }
}

/// The whole part of a rounded number and its decimal places.
fn expand(b: u64, p: usize) -> (r: (bool, Vec<char>))
    requires
        b <= ONE_BITS,
    ensures
        all_digits(r.1@),
        r.1@.len() == p,
        digits_value(r.1@) + (if r.0 {
            pow10(p as nat)
        } else {
            0
        }) == rounded(b, p as nat),
{
    let m: u64 = if b < FRACTIONS {
        b
    } else {
        FRACTIONS + b % FRACTIONS
    };
    let s: u64 = if b < FRACTIONS {
        0
    } else {
        b / FRACTIONS - 1
    };
    let mut rest = Big::from_u64(m);
    rest.shift(s as u32);
    let mut unit = Big::from_u64(1);
    unit.shift(1074);
    let ghost k = pow2(1074);
    let ghost n0 = units(b);
    proof {
        lemma_pow2_pos(1074);
        assert(1 * k == k);
        lemma_units_bound(b);
    }
    let mut whole = false;
    let (less, _) = rest.against(&unit);
    if !less {
        rest.minus(&unit);
        whole = true;
    }
    let ghost w: nat = if whole {
        1
    } else {
        0
    };
    let mut d: Vec<char> = Vec::new();
    let mut i: usize = 0;
    proof {
        assert(d@ =~= Seq::empty());
        let z = pow10(0);
        assert(n0 * z == (w * z + 0) * k + rest@) by (nonlinear_arith)
            requires
                z == 1,
                n0 == w * k + rest@,
        ;
    }
    while i < p
        invariant
            i <= p,
            d@.len() == i,
            all_digits(d@),
            k == pow2(1074),
            unit@ == k,
            rest@ < k,
            n0 * pow10(i as nat) == (w * pow10(i as nat) + digits_value(d@)) * k + rest@,
        decreases p - i,
    {
        let ghost r0 = rest@;
        let ghost v0 = digits_value(d@);
        let ghost d0 = d@;
        rest.mul_add(10, 0);
        let mut x: u8 = 0;
        loop
            invariant_except_break
                true,
            invariant
                unit@ == k,
                x <= 9,
                r0 < k,
                rest@ + x * k == 10 * r0,
            ensures
                rest@ < k,
                x <= 9,
                rest@ + x * k == 10 * r0,
            decreases 10 - x,
        {
            let (less, _) = rest.against(&unit);
            if less {
                break;
            }
            proof {
                if x == 9 {
                    assert(rest@ + 9 * k >= 10 * k);
                }
                assert((x + 1) * k == x * k + k) by (nonlinear_arith);
            }
            rest.minus(&unit);
            x = x + 1;
        }
        let c = (48 + x) as char;
        d.push(c);
        proof {
            assert(d@.drop_last() =~= d0);
            assert(d@.last() == c);
            assert forall|j: int| 0 <= j < d@.len() implies is_digit(#[trigger] d@[j]) by {
                if j < d0.len() {
                    assert(d@[j] == d0[j]);
                }
            }
            let z = pow10(i as nat);
            assert(pow10((i + 1) as nat) == 10 * z);
            assert(digits_value(d@) == 10 * v0 + x);
            assert(n0 * (10 * z) == (w * (10 * z) + (10 * v0 + x)) * k + rest@) by (nonlinear_arith)
                requires
                    n0 * z == (w * z + v0) * k + r0,
                    rest@ + x * k == 10 * r0,
            ;
        }
        i += 1;
    }
    let ghost q = w * pow10(p as nat) + digits_value(d@);
    let ghost n = n0 * pow10(p as nat);
    proof {
        vstd::arithmetic::div_mod::lemma_fundamental_div_mod_converse(n as int, k as int, q as int, rest@ as int);
        assert(n / k == q);
        assert(n % k == rest@);
    }
    let mut twice = rest.duplicate();
    twice.mul_add(2, 0);
    let (below, half) = twice.against(&unit);
    let odd = if p > 0 {
        (d[p - 1] as u8) % 2 == 1
    } else {
        whole
    };
    proof {
        if p > 0 {
            let c = d@[p - 1];
            assert(is_digit(d@[p - 1]));
            assert(d@.last() == c);
            let y = pow10((p - 1) as nat);
            assert(pow10(p as nat) == 10 * y);
            assert(w * (10 * y) == 10 * (w * y)) by (nonlinear_arith);
            assert(q % 2 == (c as int - 48) % 2);
            assert((c as int) % 2 == (c as int - 48) % 2);
        } else {
            assert(d@ =~= Seq::empty());
            let z = pow10(0);
            assert(w * z == w) by (nonlinear_arith)
                requires
                    z == 1,
            ;
        }
    }
    let up = (!below && !half) || (half && odd);
    let ghost d0 = d@;
    assert(d@.take(p as int) =~= d@);
    proof {
        let z = pow10(p as nat);
        if whole {
            assert(w * z == z) by (nonlinear_arith)
                requires
                    w == 1,
            ;
        } else {
            assert(w * z == 0) by (nonlinear_arith)
                requires
                    w == 0,
            ;
        }
        if whole {
            lemma_whole_exact(b, p as nat, q, rest@);
        }
    }
    if up {
        let carry = increment(&mut d, p);
        assert(d@.take(p as int) =~= d@);
        (whole || carry, d)
    } else {
        (whole, d)
    }
}

/// A confidence is no more than one.
proof fn lemma_units_bound(b: u64)
    requires
        b <= ONE_BITS,
    ensures
        units(b) <= pow2(1074),
        units(b) == pow2(1074) ==> b == ONE_BITS,
{
    vstd::arithmetic::power2::lemma2_to64();
    vstd::arithmetic::power2::lemma2_to64_rest();
    vstd::arithmetic::power2::lemma_pow2_adds(52, 1022);
    if b == ONE_BITS {
        assert(significand(b) == pow2(52));
        assert(scale(b) == 1022);
    } else {
        assert(scale(b) <= 1021);
        vstd::arithmetic::power2::lemma_pow2_adds(53, 1021);
        if scale(b) < 1021 {
            lemma_pow2_strictly_increases(scale(b), 1021);
        }
        let x = significand(b);
        let y = pow2(scale(b));
        let z = pow2(1021);
        lemma_pow2_pos(1021);
        assert(x * y < pow2(53) * z) by (nonlinear_arith)
            requires
                x < pow2(53),
                y <= z,
                z > 0,
                y >= 0,
        ;
    }
}

/// One is exact in any number of decimal places.
proof fn lemma_whole_exact(b: u64, p: nat, q: nat, rest: nat)
    requires
        b <= ONE_BITS,
        units(b) >= pow2(1074),
        units(b) * pow10(p) == q * pow2(1074) + rest,
        rest < pow2(1074),
    ensures
        rest == 0,
{
    lemma_units_bound(b);
    let k = pow2(1074);
    let z = pow10(p);
    lemma_pow2_pos(1074);
    assert(rest == 0) by (nonlinear_arith)
        requires
            k * z == q * k + rest,
            rest < k,
            k > 0,
            rest >= 0,
            z >= 0,
            q >= 0,
    ;
}

fn point_to_text(whole: bool, d: &Vec<char>, Ghost(q): Ghost<nat>) -> (r: String)
    requires
        all_digits(d@),
        digits_value(d@) + (if whole {
            pow10(d@.len())
        } else {
            0
        }) == q,
    ensures
        r@ == point_text(q, d@.len()),
{
    let mut out = String::new();
    let ghost p = d@.len();
    proof {
        lemma_value_bound(d@);
        lemma_last_digits(d@);
        lemma_pow10_pos(p);
        let k = pow10(p);
        let v = digits_value(d@);
        let w: int = if whole {
            1
        } else {
            0
        };
        assert(w * k == (if whole { k as int } else { 0 })) by (nonlinear_arith)
            requires
                w == 1 && whole || w == 0 && !whole,
        ;
        vstd::arithmetic::div_mod::lemma_fundamental_div_mod_converse(q as int, k as int, w, v as int);
        assert(nat_text(0) =~= seq!['0']);
        assert(nat_text(1) =~= seq!['1']);
        if p == 0 {
            assert(d@ =~= Seq::empty());
        }
    }
    if whole {
        out.push('1');
    } else {
        out.push('0');
    }
    if d.len() == 0 {
        assert(out@ =~= nat_text(q));
        return out;
    }
    out.append(".");
    let ghost head = out@;
    let mut i: usize = 0;
    while i < d.len()
        invariant
            i <= d@.len(),
            out@ == head + d@.take(i as int),
        decreases d@.len() - i,
    {
        out.push(d[i]);
        assert(head + d@.take(i + 1) =~= (head + d@.take(i as int)).push(d@[i as int]));
        i += 1;
    }
    assert(d@.take(d@.len() as int) =~= d@);
    assert(out@ =~= point_text(q, p));
    out
}

/// A confidence with a number of decimal places.
pub fn fixed_to_text(c: &Conf, p: usize) -> (r: String)
    ensures
        r@ == fixed_text(c@, p as nat),
{
    let b = c.bits();
    if b == SIGN_BIT {
        let (whole, d) = expand(0, p);
        assert(rounded(0, p as nat) == 0) by {
            lemma_rounded_zero(p as nat);
        }
        let t = point_to_text(whole, &d, Ghost(0));
        let mut out = "-".to_owned();
        out.append(t.as_str());
        return out;
    }
    let (whole, d) = expand(b, p);
    point_to_text(whole, &d, Ghost(rounded(b, p as nat)))
}

proof fn lemma_rounded_zero(p: nat)
    ensures
        rounded(0, p) == 0,
{
    let x = pow2(scale(0));
    let u = units(0);
    assert(u == 0) by (nonlinear_arith)
        requires
            u == significand(0) * x,
            significand(0) == 0,
    ;
    let z = pow10(p);
    assert(u * z == 0) by (nonlinear_arith)
        requires
            u == 0,
    ;
    lemma_pow2_pos(1074);
    let k = pow2(1074);
    vstd::arithmetic::div_mod::lemma_fundamental_div_mod_converse(0, k as int, 0, 0);
}

/// A confidence in the shortest notation that tells it from every other.
pub fn shortest_to_text(c: &Conf) -> (r: String)
    ensures
        r@ == shortest_text(c@),
{
    let b = c.bits();
    if b == SIGN_BIT {
        return "-0".to_owned();
    }
    let mut p: usize = 0;
    loop
        invariant
            b == c@,
            b <= ONE_BITS,
            p <= 1074,
            enough_places(b, 0) == enough_places(b, p as nat),
        decreases 1074 - p,
    {
        let (whole, d) = expand(b, p);
        let ghost q = rounded(b, p as nat);
        let (n, _) = digits_to_big(&d);
        let den = power_of_ten(p);
        let num = if whole {
            n.plus(&den)
        } else {
            n
        };
        if p >= 1074 || is_rounded(&num, &den, b) {
            return point_to_text(whole, &d, Ghost(q));
        }
        p += 1;
    }
}

// --------------------------------------------------------- reading it back

proof fn lemma_units_step(b: u64)
    requires
        0 < b <= ONE_BITS,
    ensures
        midway((b - 1) as u64) < 2 * units(b),
{
    let a = (b - 1) as u64;
    let p = pow2(scale(a));
    lemma_pow2_pos(scale(a));
    assert(units(b) == (significand(a) + 1) * p) by {
        if b < FRACTIONS {
            assert(scale(b) == scale(a));
        } else if b % FRACTIONS != 0 {
            assert(b / FRACTIONS == a / FRACTIONS);
            assert(b % FRACTIONS == a % FRACTIONS + 1);
        } else {
            assert(significand(b) == FRACTIONS);
            if b == FRACTIONS {
                assert(scale(b) == 0 && scale(a) == 0);
            } else {
                assert(b / FRACTIONS == a / FRACTIONS + 1);
                assert(scale(b) == scale(a) + 1);
                vstd::arithmetic::power2::lemma_pow2_unfold(scale(b));
                assert(significand(a) == 2 * FRACTIONS - 1);
                assert(FRACTIONS * (2 * p) == (2 * FRACTIONS) * p) by (nonlinear_arith);
            }
        }
    }
    let s = significand(a);
    assert((2 * s + 1) * p < 2 * ((s + 1) * p)) by (nonlinear_arith)
        requires
            p > 0,
    ;
}

/// With 1074 decimal places a confidence is exact.
proof fn lemma_exact_places(b: u64)
    requires
        b <= ONE_BITS,
    ensures
        reads_back(b, 1074),
{
    let u = units(b);
    let den = pow10(1074);
    let k = pow2(1074);
    lemma_pow2_pos(1074);
    lemma_pow10_pos(1074);
    lemma_pow10_split(1074);
    let f = pow5(1074);
    let q = u * f;
    assert(u * den == q * k) by (nonlinear_arith)
        requires
            den == f * k,
            q == u * f,
    ;
    vstd::arithmetic::div_mod::lemma_fundamental_div_mod_converse((u * den) as int, k as int, q as int, 0);
    assert(rounded(b, 1074) == q);
    vstd::arithmetic::power2::lemma_pow2_unfold(1075);
    let l = pow2(1075);
    assert(q * l == 2 * u * den) by (nonlinear_arith)
        requires
            l == 2 * k,
            u * den == q * k,
    ;
    let p = pow2(scale(b));
    lemma_pow2_pos(scale(b));
    let s = significand(b);
    assert(midway(b) > 2 * u) by (nonlinear_arith)
        requires
            midway(b) == (2 * s + 1) * p,
            u == s * p,
            p > 0,
    ;
    let mb = midway(b);
    assert(mb * den > 2 * u * den) by (nonlinear_arith)
        requires
            mb > 2 * u,
            den > 0,
    ;
    assert(!above(q, den, b));
    if b > 0 {
        lemma_units_step(b);
        let ma = midway((b - 1) as u64);
        assert(ma * den < 2 * u * den) by (nonlinear_arith)
            requires
                ma < 2 * u,
                den > 0,
        ;
        assert(above(q, den, (b - 1) as u64));
    }
    assert(is_nearest(q, den, b));
    nearest_unique(q, den, b);
}

spec fn pow5(n: nat) -> nat
    decreases n,
{
    if n == 0 {
        1
    } else {
        5 * pow5((n - 1) as nat)
    }
}

proof fn lemma_pow10_split(n: nat)
    ensures
        pow10(n) == pow5(n) * pow2(n),
    decreases n,
{
    vstd::arithmetic::power2::lemma2_to64();
    if n > 0 {
        lemma_pow10_split((n - 1) as nat);
        vstd::arithmetic::power2::lemma_pow2_unfold(n);
        let a = pow5((n - 1) as nat);
        let b = pow2((n - 1) as nat);
        assert(10 * (a * b) == (5 * a) * (2 * b)) by (nonlinear_arith);
    } else {
        let a = pow5(0);
        let b = pow2(0);
        assert(a * b == 1) by (nonlinear_arith)
            requires
                a == 1,
                b == 1,
        ;
    }
}

proof fn lemma_digits_end_all(s: Seq<char>, i: int)
    requires
        0 <= i <= s.len(),
        forall|k: int| i <= k < s.len() ==> is_digit(#[trigger] s[k]),
    ensures
        digits_end(s, i) == s.len(),
    decreases s.len() - i,
{
    if i < s.len() {
        lemma_digits_end_all(s, i + 1);
    }
}

proof fn lemma_value_join(a: Seq<char>, d: Seq<char>)
    ensures
        digits_value(a + d) == digits_value(a) * pow10(d.len()) + digits_value(d),
    decreases d.len(),
{
    if d.len() == 0 {
        assert(a + d =~= a);
        let z = pow10(0);
        let v = digits_value(a);
        assert(v * z == v) by (nonlinear_arith)
            requires
                z == 1,
        ;
    } else {
        let e = d.drop_last();
        lemma_value_join(a, e);
        assert((a + d).drop_last() =~= a + e);
        assert((a + d).last() == d.last());
        let v = digits_value(a);
        let z = pow10(e.len());
        assert(pow10(d.len()) == 10 * z);
        assert(10 * (v * z) == v * (10 * z)) by (nonlinear_arith);
    }
}

proof fn lemma_last_digits_shape(n: nat, p: nat)
    ensures
        last_digits(n, p).len() == p,
        all_digits(last_digits(n, p)),
        n < pow10(p) ==> digits_value(last_digits(n, p)) == n,
    decreases p,
{
    if p > 0 {
        lemma_last_digits_shape(n / 10, (p - 1) as nat);
        let d = last_digits(n, p);
        let e = last_digits(n / 10, (p - 1) as nat);
        let c = digit(n % 10);
        assert(d.drop_last() =~= e);
        assert(c as int == 48 + n % 10);
        assert forall|i: int| 0 <= i < d.len() implies is_digit(#[trigger] d[i]) by {
            if i < e.len() {
                assert(d[i] == e[i]);
            }
        }
    }
}

/// The shortest notation of a confidence reads as that confidence.
pub proof fn shortest_reads_back(b: u64)
    requires
        b <= ONE_BITS,
    ensures
        parsed_float(shortest_text(b)) == Some(b),
{
    lemma_enough_places(b, 0);
    let p = enough_places(b, 0);
    if p >= 1074 {
        assert(p == 1074);
        lemma_exact_places(b);
    }
    assert(reads_back(b, p));
    let q = rounded(b, p);
    let k = pow10(p);
    lemma_pow10_pos(p);
    lemma_rounded_bound(b, p);
    let w = q / k;
    let f = q % k;
    assert(w <= 1 && q == w * k + f) by (nonlinear_arith)
        requires
            q <= k,
            k > 0,
            w == q / k,
            f == q % k,
    ;
    assert(nat_text(0) =~= seq!['0']);
    assert(nat_text(1) =~= seq!['1']);
    let a = nat_text(w);
    let c = a[0];
    assert(a =~= seq![c] && is_digit(c) && c as int == 48 + w);
    assert(digits_value(a) == w) by {
        assert(a.drop_last() =~= Seq::empty());
        assert(digits_value(a.drop_last()) == 0);
    }
    let s = shortest_text(b);
    reveal_strlit(".");
    reveal_strlit("inf");
    reveal_strlit("infinity");
    reveal_strlit("nan");
    let d = last_digits(f, p);
    lemma_last_digits_shape(f, p);
    if p == 0 {
        assert(k == 1);
        assert(f == 0);
        assert(w * k == w) by (nonlinear_arith)
            requires
                k == 1,
        ;
        assert(s =~= a);
        lemma_digits_end_all(s, 0);
        assert(mantissa(s) =~= a);
        assert(decimal_places(s) == 0);
        assert(number_shape(s) == Some((a, 0int)));
        let one = pow10(0);
        assert(q * one == q) by (nonlinear_arith)
            requires
                one == 1,
        ;
    } else {
        assert(s =~= a + seq!['.'] + d);
        assert(s[0] == c && s[1] == '.');
        assert(digits_end(s, 1) == 1);
        assert(digits_end(s, 0) == 1);
        assert forall|i: int| 2 <= i < s.len() implies is_digit(#[trigger] s[i]) by {
            assert(s[i] == d[i - 2]);
        }
        lemma_digits_end_all(s, 2);
        assert(s.subrange(0, 1) =~= a);
        assert(s.subrange(2, s.len() as int) =~= d);
        assert(mantissa(s) == a + d);
        lemma_value_join(a, d);
        assert(number_shape(s) == Some((a + d, -(p as int))));
    }
    assert(crate::text::unsigned_part(s) == s);
    assert(lower_ascii(s[0]) == s[0]);
    if q == 0 {
        lemma_nearest_zero(k);
    }
}

/// The characters of the shortest notation.
pub proof fn lemma_shortest_chars(b: u64)
    requires
        unit_bits(b),
    ensures
        forall|i: int| 0 <= i < shortest_text(b).len() ==> {
            let c = #[trigger] shortest_text(b)[i];
            is_digit(c) || c == '.' || (c == '-' && b == SIGN_BIT)
        },
{
    let t = shortest_text(b);
    reveal_strlit("-0");
    reveal_strlit(".");
    if b != SIGN_BIT {
        let p = enough_places(b, 0);
        let q = rounded(b, p);
        lemma_nat_chars(q);
        lemma_nat_chars(q / pow10(p));
        lemma_last_digits_shape(q % pow10(p), p);
        let a = nat_text(q / pow10(p));
        let d = last_digits(q % pow10(p), p);
        if p > 0 {
            assert(t == a + "."@ + d);
            assert forall|i: int| 0 <= i < t.len() implies is_digit(#[trigger] t[i]) || t[i] == '.' by {
                if i < a.len() {
                    assert(t[i] == a[i]);
                } else if i > a.len() {
                    assert(t[i] == d[i - a.len() - 1]);
                }
            }
        }
    }
}

/// Law: every confidence reads back from its shortest notation.
pub proof fn confidence_reads_back(b: u64)
    requires
        unit_bits(b),
    ensures
        parsed_float(shortest_text(b)) == Some(b),
{
    if b == SIGN_BIT {
        reveal_strlit("-0");
        reveal_strlit("nan");
        reveal_strlit("inf");
        reveal_strlit("infinity");
        let z = seq!['0'];
        assert(crate::text::unsigned_part("-0"@) =~= z);
        shortest_reads_back(0);
        lemma_zero_text();
    } else {
        shortest_reads_back(b);
    }
}

proof fn lemma_zero_text()
    ensures
        shortest_text(0) == seq!['0'],
{
    lemma_rounded_zero(0);
    let z = pow10(0);
    lemma_nearest_zero(z);
    assert(reads_back(0, 0));
    assert(enough_places(0, 0) == 0);
    assert(nat_text(0) =~= seq!['0']);
}

proof fn lemma_nat_chars(n: nat)
    ensures
        all_digits(nat_text(n)),
    decreases n,
{
    if n >= 10 {
        lemma_nat_chars(n / 10);
        let t = nat_text(n);
        assert forall|i: int| 0 <= i < t.len() implies is_digit(#[trigger] t[i]) by {
            if i < nat_text(n / 10).len() {
                assert(t[i] == nat_text(n / 10)[i]);
            }
        }
    }
}

proof fn lemma_enough_places(b: u64, p: nat)
    requires
        p <= 1074,
    ensures
        enough_places(b, p) <= 1074,
        enough_places(b, p) < 1074 ==> reads_back(b, enough_places(b, p)),
    decreases 1074 - p,
{
    if p < 1074 && !reads_back(b, p) {
        lemma_enough_places(b, p + 1);
    }
}

proof fn lemma_nearest_zero(den: nat)
    requires
        den > 0,
    ensures
        nearest(0, den) == 0,
{
    let l = pow2(1075);
    assert(0 * l == 0);
    let m = midway(0);
    let one = pow2(scale(0));
    vstd::arithmetic::power2::lemma2_to64();
    assert(m == 1) by (nonlinear_arith)
        requires
            m == (2 * significand(0) + 1) * one,
            one == 1,
            significand(0) == 0,
    ;
    assert(m * den > 0) by (nonlinear_arith)
        requires
            m == 1,
            den > 0,
    ;
    assert(is_nearest(0, den, 0));
    nearest_unique(0, den, 0);
}

/// A rounded confidence is no more than one.
proof fn lemma_rounded_bound(b: u64, p: nat)
    requires
        b <= ONE_BITS,
    ensures
        rounded(b, p) <= pow10(p),
{
    lemma_units_bound(b);
    let u = units(b);
    let z = pow10(p);
    let k = pow2(1074);
    lemma_pow2_pos(1074);
    let n = u * z;
    let q = n / k;
    let r = n % k;
    assert(n == q * k + r && r < k) by (nonlinear_arith)
        requires
            q == n / k,
            r == n % k,
            k > 0,
    ;
    assert(q < z || (q == z && r == 0)) by (nonlinear_arith)
        requires
            n == q * k + r,
            n == u * z,
            u <= k,
            r >= 0,
            k > 0,
    ;
}

} // verus!
