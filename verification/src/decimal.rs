//! Decimal notation of binary64 numbers, held as bit patterns.

use vstd::prelude::*;
use vstd::arithmetic::power2::{lemma_pow2_adds, lemma_pow2_pos, lemma_pow2_strictly_increases, lemma_pow2_unfold, pow2};
use crate::bignum::Big;
use crate::confidence::{significand, scale, FRACTIONS, INF_BITS, NAN_BITS, SIGN_BIT};
use crate::lexer::digits_end;
use crate::text::{all_digits, digits_value, is_digit, to_chars};

verus! {

/// Powers of ten.
pub open spec fn pow10(n: nat) -> nat
    decreases n,
{
    if n == 0 {
        1
    } else {
        10 * pow10((n - 1) as nat)
    }
}

pub proof fn lemma_pow10_pos(n: nat)
    ensures
        pow10(n) > 0,
    decreases n,
{
    if n > 0 {
        lemma_pow10_pos((n - 1) as nat);
    }
}

pub proof fn lemma_pow10_adds(a: nat, b: nat)
    ensures
        pow10(a + b) == pow10(a) * pow10(b),
    decreases a,
{
    if a > 0 {
        lemma_pow10_adds((a - 1) as nat, b);
        let x = pow10((a - 1) as nat);
        let y = pow10(b);
        assert(pow10(a + b) == 10 * pow10((a + b - 1) as nat));
        assert(10 * (x * y) == (10 * x) * y) by (nonlinear_arith);
    } else {
        let y = pow10(b);
        let z = pow10(0);
        assert(z * y == y) by (nonlinear_arith)
            requires
                z == 1,
        ;
    }
}

/// A power of ten exceeds the power of eight.
proof fn lemma_pow10_pow2(n: nat)
    ensures
        pow10(n) >= pow2((3 * n) as nat),
    decreases n,
{
    vstd::arithmetic::power2::lemma2_to64();
    if n > 0 {
        lemma_pow10_pow2((n - 1) as nat);
        lemma_pow2_adds(3, (3 * (n - 1)) as nat);
        assert(3 + 3 * (n - 1) == 3 * n);
    }
}

// ------------------------------------------------------ rounding to nearest

/// Twice the number midway between a pattern and the next, in units of the
/// least positive number.
pub open spec fn midway(b: u64) -> nat {
    (2 * significand(b) + 1) * pow2(scale(b))
}

/// The number `num / den` lies above the midpoint between a pattern and the
/// next, or on it and rounds up to the even pattern.
pub open spec fn above(num: nat, den: nat, b: u64) -> bool {
    num * pow2(1075) > midway(b) * den || (num * pow2(1075) == midway(b) * den && b % 2 == 1)
}

/// The pattern is the nearest to `num / den`, ties to even.
pub open spec fn is_nearest(num: nat, den: nat, b: u64) -> bool {
    &&& b <= INF_BITS
    &&& b < INF_BITS ==> !above(num, den, b)
    &&& b > 0 ==> above(num, den, (b - 1) as u64)
}

/// The pattern nearest to `num / den`.
pub open spec fn nearest(num: nat, den: nat) -> u64 {
    choose|b: u64| is_nearest(num, den, b)
}

proof fn lemma_midway_step(b: u64)
    requires
        b < INF_BITS,
    ensures
        midway(b) < midway((b + 1) as u64),
{
    let c = (b + 1) as u64;
    lemma_pow2_pos(scale(b));
    let p = pow2(scale(b));
    if b + 1 < FRACTIONS {
        assert((2 * significand(b) + 1) * p < (2 * significand(c) + 1) * p) by (nonlinear_arith)
            requires
                significand(c) == significand(b) + 1,
                p > 0,
        ;
    } else if (b + 1) % FRACTIONS as int != 0 {
        assert(c / FRACTIONS == b / FRACTIONS);
        assert(c % FRACTIONS == b % FRACTIONS + 1);
        assert((2 * significand(b) + 1) * p < (2 * significand(c) + 1) * p) by (nonlinear_arith)
            requires
                significand(c) == significand(b) + 1,
                p > 0,
        ;
    } else {
        assert(c % FRACTIONS == 0);
        assert(significand(c) == FRACTIONS);
        if b < FRACTIONS {
            assert(c == FRACTIONS);
            assert(scale(c) == 0);
            assert((2 * significand(b) + 1) * p < (2 * significand(c) + 1) * p) by (nonlinear_arith)
                requires
                    significand(c) == significand(b) + 1,
                    p > 0,
            ;
        } else {
            assert(c / FRACTIONS == b / FRACTIONS + 1);
            assert(scale(c) == scale(b) + 1);
            lemma_pow2_unfold(scale(c));
            assert(significand(b) == 2 * FRACTIONS - 1);
            assert((2 * significand(b) + 1) * p < (2 * significand(c) + 1) * (2 * p)) by (nonlinear_arith)
                requires
                    significand(b) == 2 * FRACTIONS - 1,
                    significand(c) == FRACTIONS,
                    p > 0,
            ;
        }
    }
}

proof fn lemma_midway_mono(a: u64, b: u64)
    requires
        a < b <= INF_BITS,
    ensures
        midway(a) < midway(b),
    decreases b - a,
{
    lemma_midway_step((b - 1) as u64);
    if a < b - 1 {
        lemma_midway_mono(a, (b - 1) as u64);
    }
}

/// The nearest pattern is unique.
pub proof fn nearest_unique(num: nat, den: nat, b: u64)
    requires
        den > 0,
        is_nearest(num, den, b),
    ensures
        nearest(num, den) == b,
{
    let c = nearest(num, den);
    if c < b {
        lemma_above_down(num, den, c, (b - 1) as u64);
    } else if b < c {
        lemma_above_down(num, den, b, (c - 1) as u64);
    }
}

proof fn lemma_above_down(num: nat, den: nat, a: u64, b: u64)
    requires
        den > 0,
        a <= b < INF_BITS,
        above(num, den, b),
    ensures
        above(num, den, a),
{
    if a < b {
        lemma_midway_mono(a, b);
        assert(midway(a) * den < midway(b) * den) by (nonlinear_arith)
            requires
                midway(a) < midway(b),
                den > 0,
        ;
    }
}

fn is_above(num: &Big, den: &Big, b: u64) -> (r: bool)
    requires
        b < INF_BITS,
    ensures
        r == above(num@, den@, b),
{
    let m: u64 = if b < FRACTIONS {
        b
    } else {
        FRACTIONS + b % FRACTIONS
    };
    let s: u64 = if b < FRACTIONS {
        0
    } else {
        b / FRACTIONS - 1
    };
    let mut left = num.duplicate();
    left.shift(1075);
    let odd: u64 = 2 * m + 1;
    let lo: u32 = (odd % 0x1000_0000) as u32;
    let hi: u32 = (odd / 0x1000_0000) as u32;
    let right = scaled(den, hi, lo, s as u32);
    proof {
        assert(odd == hi * 0x1000_0000 + lo);
        let p = pow2(s as nat);
        let d = den@;
        assert(d * (hi * 0x1000_0000 + lo) * p == (odd * p) * d) by (nonlinear_arith)
            requires
                odd == hi * 0x1000_0000 + lo,
        ;
    }
    let (less, same) = right.against(&left);
    less || (same && b % 2 == 1)
}

/// The number times `(hi * 2^28 + lo) * 2^k`.
fn scaled(n: &Big, hi: u32, lo: u32, k: u32) -> (r: Big)
    ensures
        r@ == n@ * (hi * 0x1000_0000 + lo) * pow2(k as nat),
{
    let mut a = n.duplicate();
    a.mul_add(hi, 0);
    a.mul_add(0x1000_0000, 0);
    let mut b = n.duplicate();
    b.mul_add(lo, 0);
    let mut c = a.plus(&b);
    proof {
        let x = n@;
        assert((x * hi + 0) * 0x1000_0000 + 0 + (x * lo + 0) == x * (hi * 0x1000_0000 + lo)) by (nonlinear_arith);
    }
    c.shift(k);
    c
}

/// The pattern nearest to `num / den`.
pub fn round_nearest(num: &Big, den: &Big) -> (r: u64)
    requires
        den@ > 0,
    ensures
        r == nearest(num@, den@),
        is_nearest(num@, den@, r),
{
    let mut lo: u64 = 0;
    let mut hi: u64 = INF_BITS;
    while lo < hi
        invariant
            lo <= hi <= INF_BITS,
            lo > 0 ==> above(num@, den@, (lo - 1) as u64),
            hi < INF_BITS ==> !above(num@, den@, hi),
        decreases hi - lo,
    {
        let mid: u64 = lo + (hi - lo) / 2;
        if is_above(num, den, mid) {
            lo = mid + 1;
        } else {
            hi = mid;
        }
    }
    proof {
        nearest_unique(num@, den@, lo);
    }
    lo
}

/// Whether a finite pattern is the nearest to `num / den`.
pub fn is_rounded(num: &Big, den: &Big, b: u64) -> (r: bool)
    requires
        den@ > 0,
        b < INF_BITS,
    ensures
        r == (nearest(num@, den@) == b),
{
    proof {
        let _ = lemma_nearest_exists(num@, den@, INF_BITS);
        if is_nearest(num@, den@, b) {
            nearest_unique(num@, den@, b);
        }
    }
    (b == 0 || is_above(num, den, b - 1)) && !is_above(num, den, b)
}

// ------------------------------------------------------------ reading text

/// A letter from `A` to `Z` in its small form; any other character as it is.
pub open spec fn lower_ascii(c: char) -> char {
    if 'A' <= c && c <= 'Z' {
        ((c as u32) + 32) as char
    } else {
        c
    }
}

/// The text is the word, in capital or small letters.
pub open spec fn same_word(s: Seq<char>, w: Seq<char>) -> bool {
    s.len() == w.len() && forall|i: int| 0 <= i < s.len() ==> lower_ascii(#[trigger] s[i]) == w[i]
}

/// Where the digits of a decimal number end: digits with an optional point
/// among them.
pub open spec fn mantissa_end(s: Seq<char>) -> int {
    let i = digits_end(s, 0);
    if i < s.len() && s[i] == '.' {
        digits_end(s, i + 1)
    } else {
        i
    }
}

/// How many of the digits stand after the point.
pub open spec fn decimal_places(s: Seq<char>) -> int {
    let i = digits_end(s, 0);
    if i < s.len() && s[i] == '.' {
        mantissa_end(s) - (i + 1)
    } else {
        0
    }
}

/// The digits of a decimal number, without the point.
pub open spec fn mantissa(s: Seq<char>) -> Seq<char> {
    let i = digits_end(s, 0);
    if i < s.len() && s[i] == '.' {
        s.subrange(0, i) + s.subrange(i + 1, mantissa_end(s))
    } else {
        s.subrange(0, i)
    }
}

/// The exponent that a text denotes: an optional sign and at least one digit.
pub open spec fn exponent(x: Seq<char>) -> Option<int> {
    let u = crate::text::unsigned_part(x);
    if u.len() == 0 || !all_digits(u) {
        None
    } else if x[0] == '-' {
        Some(-digits_value(u))
    } else {
        Some(digits_value(u) as int)
    }
}

/// The digits of a decimal number and the power of ten that they are to be
/// multiplied by: digits with an optional point and an optional exponent.
pub open spec fn number_shape(s: Seq<char>) -> Option<(Seq<char>, int)> {
    let i = mantissa_end(s);
    if mantissa(s).len() == 0 {
        None
    } else if i >= s.len() {
        Some((mantissa(s), -decimal_places(s)))
    } else if s[i] == 'e' || s[i] == 'E' {
        match exponent(s.subrange(i + 1, s.len() as int)) {
            Some(x) => Some((mantissa(s), x - decimal_places(s))),
            None => None,
        }
    } else {
        None
    }
}

/// The pattern nearest to `digits * 10^e`.
pub open spec fn decimal_bits(d: Seq<char>, e: int) -> u64 {
    let m = digits_value(d);
    if m == 0 {
        0
    } else if e >= 0 {
        nearest(m * pow10(e as nat), 1)
    } else {
        nearest(m, pow10((-e) as nat))
    }
}

/// The number that a text without sign denotes.
pub open spec fn unsigned_float(s: Seq<char>) -> Option<u64> {
    if same_word(s, "inf"@) || same_word(s, "infinity"@) {
        Some(INF_BITS)
    } else if same_word(s, "nan"@) {
        Some(NAN_BITS)
    } else {
        match number_shape(s) {
            Some(n) => Some(decimal_bits(n.0, n.1)),
            None => None,
        }
    }
}

/// The binary64 number that a text denotes.
pub open spec fn parsed_float(s: Seq<char>) -> Option<u64> {
    match unsigned_float(crate::text::unsigned_part(s)) {
        Some(b) => if s.len() > 0 && s[0] == '-' {
            Some((b + SIGN_BIT) as u64)
        } else {
            Some(b)
        },
        None => None,
    }
}

proof fn lemma_digits_value_bound(d: Seq<char>)
    requires
        all_digits(d),
    ensures
        digits_value(d) < pow10(d.len()),
    decreases d.len(),
{
    if d.len() > 0 {
        let e = d.drop_last();
        assert forall|i: int| 0 <= i < e.len() implies is_digit(#[trigger] e[i]) by {
            assert(d[i] == e[i]);
        }
        lemma_digits_value_bound(e);
        assert(is_digit(d[d.len() - 1]));
    }
}

/// A number of at least 10^400 lies above every finite midpoint.
proof fn lemma_huge(m: nat, e: nat)
    requires
        m >= 1,
        e >= 400,
    ensures
        nearest(m * pow10(e), 1) == INF_BITS,
{
    let num = m * pow10(e);
    lemma_pow10_pow2(400);
    lemma_pow10_adds(400, (e - 400) as nat);
    lemma_pow10_pos((e - 400) as nat);
    let a = pow10(400);
    let z = pow10((e - 400) as nat);
    assert(m * (a * z) >= a) by (nonlinear_arith)
        requires
            m >= 1,
            z >= 1,
            a >= 0,
    ;
    let b = (INF_BITS - 1) as u64;
    assert(scale(b) == 2045);
    lemma_pow2_adds(54, 2045);
    vstd::arithmetic::power2::lemma2_to64();
    vstd::arithmetic::power2::lemma2_to64_rest();
    let p = pow2(2045);
    assert(midway(b) <= pow2(54) * p) by (nonlinear_arith)
        requires
            midway(b) == (2 * significand(b) + 1) * p,
            2 * significand(b) + 1 <= pow2(54),
            p >= 0,
    ;
    lemma_pow2_adds(1200, 1075);
    lemma_pow2_pos(1075);
    let q = pow2(1075);
    assert(num * q >= pow2(1200) * q) by (nonlinear_arith)
        requires
            num >= pow2(1200),
            q >= 0,
    ;
    lemma_pow2_strictly_increases(2099, 2275);
    assert(midway(b) * 1 == midway(b));
    assert(above(num, 1, b));
    assert(is_nearest(num, 1, INF_BITS));
    nearest_unique(num, 1, INF_BITS);
}

/// A number below 10^-400 lies below every midpoint.
proof fn lemma_tiny(m: nat, n: nat, e: nat)
    requires
        m < pow10(n),
        e > 400 + n,
    ensures
        nearest(m, pow10(e)) == 0,
{
    let den = pow10(e);
    lemma_pow10_pow2(400);
    lemma_pow10_adds(400, n);
    lemma_pow10_adds(400 + n, (e - 400 - n) as nat);
    lemma_pow10_pos((e - 400 - n) as nat);
    lemma_pow10_pos(400 + n);
    lemma_pow2_strictly_increases(1075, 1200);
    lemma_pow2_pos(1075);
    let q = pow2(1075);
    let a = pow10(400);
    let c = pow10(n);
    assert(m * q < a * c) by (nonlinear_arith)
        requires
            m < c,
            q < a,
            q > 0,
    ;
    let z = pow10((e - 400 - n) as nat);
    let y = pow10(400 + n);
    assert(y <= y * z) by (nonlinear_arith)
        requires
            z >= 1,
            y >= 0,
    ;
    vstd::arithmetic::power2::lemma2_to64();
    let one = pow2(scale(0));
    assert((2 * significand(0) + 1) * one == 1) by (nonlinear_arith)
        requires
            one == 1,
            significand(0) == 0,
    ;
    assert(midway(0) * den == den) by (nonlinear_arith)
        requires
            midway(0) == 1,
    ;
    assert(!above(m, den, 0));
    assert(is_nearest(m, den, 0));
    lemma_pow10_pos(e);
    nearest_unique(m, den, 0);
}

/// The number that the digits from `a` up to `b` denote, 10^30 at most, and
/// whether it is more.
fn capped_digits(v: &Vec<char>, a: usize, b: usize) -> (r: (u128, bool))
    requires
        a <= b <= v@.len(),
        all_digits(v@.subrange(a as int, b as int)),
    ensures
        r.1 ==> digits_value(v@.subrange(a as int, b as int)) > 1_000_000_000_000_000_000_000_000_000_000,
        !r.1 ==> r.0 == digits_value(v@.subrange(a as int, b as int)),
        r.0 <= 1_000_000_000_000_000_000_000_000_000_000,
{
    let ghost d = v@.subrange(a as int, b as int);
    let limit: u128 = 1_000_000_000_000_000_000_000_000_000_000;
    let mut n: u128 = 0;
    let mut huge = false;
    let mut i: usize = a;
    assert(d.take(0) =~= Seq::empty());
    while i < b
        invariant
            a <= i <= b <= v@.len(),
            d == v@.subrange(a as int, b as int),
            all_digits(d),
            limit == 1_000_000_000_000_000_000_000_000_000_000,
            n <= limit,
            !huge ==> n == digits_value(d.take(i - a)),
            huge ==> digits_value(d.take(i - a)) > limit,
        decreases b - i,
    {
        let c = v[i];
        assert(d[i - a] == c);
        assert(is_digit(d[i - a]));
        assert(d.take(i + 1 - a).drop_last() =~= d.take(i - a));
        assert(d.take(i + 1 - a).last() == c);
        let x: u128 = c as u128 - 48;
        if !huge {
            let m: u128 = n * 10 + x;
            if m > limit {
                huge = true;
            } else {
                n = m;
            }
        }
        i += 1;
    }
    assert(d.take(b - a) =~= d);
    (n, huge)
}

/// The number that a sequence of digits denotes.
pub fn digits_to_big(d: &Vec<char>) -> (r: (Big, bool))
    requires
        all_digits(d@),
    ensures
        r.0@ == digits_value(d@),
        r.1 == (digits_value(d@) == 0),
{
    let mut n = Big::from_u64(0);
    let mut zero = true;
    let mut i: usize = 0;
    assert(d@.take(0) =~= Seq::empty());
    while i < d.len()
        invariant
            i <= d@.len(),
            all_digits(d@),
            n@ == digits_value(d@.take(i as int)),
            zero == (n@ == 0),
        decreases d@.len() - i,
    {
        let c = d[i];
        assert(is_digit(d@[i as int]));
        assert(d@.take(i + 1).drop_last() =~= d@.take(i as int));
        assert(d@.take(i + 1).last() == c);
        let x: u32 = c as u32 - 48;
        n.mul_add(10, x);
        if x != 0 {
            zero = false;
        }
        i += 1;
    }
    assert(d@.take(d@.len() as int) =~= d@);
    (n, zero)
}

/// A power of ten.
pub fn power_of_ten(n: usize) -> (r: Big)
    ensures
        r@ == pow10(n as nat),
        r@ > 0,
{
    let mut p = Big::from_u64(1);
    let mut i: usize = 0;
    while i < n
        invariant
            i <= n,
            p@ == pow10(i as nat),
        decreases n - i,
    {
        p.mul_add(10, 0);
        i += 1;
    }
    proof {
        lemma_pow10_pos(n as nat);
    }
    p
}

/// The pattern nearest to `digits * 10^e`; `past` tells that the true
/// exponent lies beyond the given one, away from zero.
fn decimal_to_bits(d: &Vec<char>, e: i128, past: bool, Ghost(exact): Ghost<int>) -> (r: u64)
    requires
        all_digits(d@),
        !past ==> exact == e,
        past ==> (e > 0 && exact >= e && e > 500) || (e < 0 && exact <= e && -e > 500 + d@.len()),
        -0x1_0000_0000_0000_0000_0000_0000_0000 <= e <= 0x1_0000_0000_0000_0000_0000_0000_0000,
    ensures
        r == decimal_bits(d@, exact),
{
    let (m, zero) = digits_to_big(d);
    if zero {
        return 0;
    }
    let n: i128 = d.len() as i128;
    proof {
        lemma_digits_value_bound(d@);
    }
    if e > 400 {
        proof {
            lemma_huge(digits_value(d@), exact as nat);
        }
        return INF_BITS;
    }
    if e < -(400 + n) {
        proof {
            lemma_tiny(digits_value(d@), d@.len(), (-exact) as nat);
        }
        return 0;
    }
    if e >= 0 {
        let mut num = m;
        let mut i: i128 = 0;
        let ghost base = m@;
        assert(base * pow10(0) == base) by {
            let z = pow10(0);
            assert(base * z == base) by (nonlinear_arith)
                requires
                    z == 1,
            ;
        }
        while i < e
            invariant
                0 <= i <= e,
                num@ == base * pow10(i as nat),
            decreases e - i,
        {
            proof {
                let p = pow10(i as nat);
                assert(base * p * 10 + 0 == base * (10 * p)) by (nonlinear_arith);
                assert(pow10((i + 1) as nat) == 10 * p);
            }
            num.mul_add(10, 0);
            i += 1;
        }
        let one = Big::from_u64(1);
        round_nearest(&num, &one)
    } else {
        assert(-e <= 400 + d@.len());
        let k: i128 = -e;
        let mut den = Big::from_u64(1);
        let mut i: i128 = 0;
        while i < k
            invariant
                0 <= i <= k,
                den@ == pow10(i as nat),
            decreases k - i,
        {
            den.mul_add(10, 0);
            i += 1;
        }
        proof {
            lemma_pow10_pos(k as nat);
        }
        round_nearest(&m, &den)
    }
}

pub fn lower(c: char) -> (r: char)
    ensures
        r == lower_ascii(c),
{
    if 'A' <= c && c <= 'Z' {
        let n: u8 = c as u8;
        (n + 32) as char
    } else {
        c
    }
}

fn is_word(v: &Vec<char>, a: usize, w: &str) -> (r: bool)
    requires
        a <= v@.len(),
    ensures
        r == same_word(v@.subrange(a as int, v@.len() as int), w@),
{
    let ghost s = v@.subrange(a as int, v@.len() as int);
    let n: usize = v.len();
    let ws = to_chars(w);
    if n - a != ws.len() {
        return false;
    }
    let mut i: usize = 0;
    while i < ws.len()
        invariant
            i <= ws@.len(),
            ws@ == w@,
            a <= n,
            n == v@.len(),
            n - a == ws@.len(),
            s == v@.subrange(a as int, v@.len() as int),
            forall|j: int| 0 <= j < i ==> lower_ascii(#[trigger] s[j]) == w@[j],
        decreases ws@.len() - i,
    {
        assert(s[i as int] == v@[a + i]);
        if lower(v[a + i]) != ws[i] {
            return false;
        }
        i += 1;
    }
    true
}

/// The position after the digits from `i` on.
fn end_of_digits(v: &Vec<char>, a: usize, i: usize) -> (r: usize)
    requires
        a <= i <= v@.len(),
    ensures
        i <= r <= v@.len(),
        r - a == digits_end(v@.subrange(a as int, v@.len() as int), i - a),
        forall|k: int| i <= k < r ==> is_digit(#[trigger] v@[k]),
        r < v@.len() ==> !is_digit(v@[r as int]),
{
    let ghost s = v@.subrange(a as int, v@.len() as int);
    let mut j: usize = i;
    while j < v.len() && '0' <= v[j] && v[j] <= '9'
        invariant
            a <= i <= j <= v@.len(),
            s == v@.subrange(a as int, v@.len() as int),
            digits_end(s, i - a) == digits_end(s, j - a),
            forall|k: int| i <= k < j ==> is_digit(#[trigger] v@[k]),
        decreases v@.len() - j,
    {
        assert(s[j - a] == v@[j as int]);
        j += 1;
    }
    proof {
        if j < v@.len() {
            assert(s[j - a] == v@[j as int]);
        }
    }
    j
}

/// The binary64 number that a text denotes.
pub fn parse_float(v: &Vec<char>) -> (r: Option<u64>)
    ensures
        r == parsed_float(v@),
{
    let n: usize = v.len();
    let signed = n > 0 && (v[0] == '-' || v[0] == '+');
    let negative = n > 0 && v[0] == '-';
    let a: usize = if signed {
        1
    } else {
        0
    };
    let ghost s = crate::text::unsigned_part(v@);
    assert(s =~= v@.subrange(a as int, n as int));
    let bits = if is_word(v, a, "inf") || is_word(v, a, "infinity") {
        INF_BITS
    } else if is_word(v, a, "nan") {
        NAN_BITS
    } else {
        match parse_number(v, a) {
            Some(b) => b,
            None => {
                return None;
            },
        }
    };
    if negative {
        Some(bits + SIGN_BIT)
    } else {
        Some(bits)
    }
}

/// The digits of a decimal number, where they end, and how many stand after
/// the point.
fn read_mantissa(v: &Vec<char>, a: usize) -> (r: (Vec<char>, usize, usize))
    requires
        a <= v@.len(),
    ensures
        r.0@ == mantissa(v@.subrange(a as int, v@.len() as int)),
        all_digits(r.0@),
        a <= r.1 <= v@.len(),
        r.1 - a == mantissa_end(v@.subrange(a as int, v@.len() as int)),
        r.2 == decimal_places(v@.subrange(a as int, v@.len() as int)),
{
    let n: usize = v.len();
    let ghost s = v@.subrange(a as int, n as int);
    let i1 = end_of_digits(v, a, a);
    let dot = i1 < n && v[i1] == '.';
    assert(i1 < n ==> s[i1 - a] == v@[i1 as int]);
    let mut d: Vec<char> = Vec::new();
    let mut k: usize = a;
    while k < i1
        invariant
            a <= k <= i1 <= v@.len(),
            d@.len() == k - a,
            forall|j: int| 0 <= j < k - a ==> #[trigger] d@[j] == v@[a + j],
        decreases i1 - k,
    {
        d.push(v[k]);
        k += 1;
    }
    if !dot {
        proof {
            assert(d@ =~= s.subrange(0, i1 - a));
            assert forall|q: int| 0 <= q < d@.len() implies is_digit(#[trigger] d@[q]) by {
                assert(is_digit(v@[a + q]));
            }
        }
        return (d, i1, 0);
    }
    let i2 = end_of_digits(v, a, i1 + 1);
    let whole: usize = d.len();
    let mut j: usize = i1 + 1;
    while j < i2
        invariant
            i1 + 1 <= j <= i2 <= v@.len(),
            whole == i1 - a,
            d@.len() == whole + (j - (i1 + 1)),
            forall|q: int| 0 <= q < whole ==> #[trigger] d@[q] == v@[a + q],
            forall|q: int| whole <= q < d@.len() ==> #[trigger] d@[q] == v@[i1 + 1 + (q - whole)],
        decreases i2 - j,
    {
        d.push(v[j]);
        j += 1;
    }
    proof {
        assert(d@ =~= s.subrange(0, i1 - a) + s.subrange(i1 + 1 - a, i2 - a));
        assert forall|q: int| 0 <= q < d@.len() implies is_digit(#[trigger] d@[q]) by {
            if q < whole {
                assert(is_digit(v@[a + q]));
            } else {
                assert(is_digit(v@[i1 + 1 + (q - whole)]));
            }
        }
    }
    (d, i2, i2 - (i1 + 1))
}

/// The exponent from `x0` on: its sign, its size up to 10^30, and whether it
/// is more.
fn read_exponent(v: &Vec<char>, x0: usize) -> (r: Option<(bool, u128, bool)>)
    requires
        x0 <= v@.len(),
    ensures
        match r {
            Some(x) => exponent(v@.subrange(x0 as int, v@.len() as int)) is Some && ({
                let e = exponent(v@.subrange(x0 as int, v@.len() as int)).unwrap();
                let size = if x.0 {
                    -e
                } else {
                    e
                };
                &&& x.1 <= 1_000_000_000_000_000_000_000_000_000_000
                &&& x.2 ==> size > 1_000_000_000_000_000_000_000_000_000_000
                &&& !x.2 ==> size == x.1
            }),
            None => exponent(v@.subrange(x0 as int, v@.len() as int)) is None,
        },
{
    let n: usize = v.len();
    let ghost x = v@.subrange(x0 as int, n as int);
    let signed = x0 < n && (v[x0] == '-' || v[x0] == '+');
    let negative = x0 < n && v[x0] == '-';
    let x1: usize = if signed {
        x0 + 1
    } else {
        x0
    };
    let ghost u = crate::text::unsigned_part(x);
    assert(u =~= v@.subrange(x1 as int, n as int));
    if x1 == n {
        return None;
    }
    let x2 = end_of_digits(v, x1, x1);
    if x2 < n {
        assert(u[x2 - x1] == v@[x2 as int]);
        return None;
    }
    proof {
        assert forall|q: int| 0 <= q < u.len() implies is_digit(#[trigger] u[q]) by {
            assert(is_digit(v@[x1 + q]));
        }
        assert(x[0] == v@[x0 as int]);
    }
    let (size, huge) = capped_digits(v, x1, n);
    Some((negative, size, huge))
}

fn parse_number(v: &Vec<char>, a: usize) -> (r: Option<u64>)
    requires
        a <= v@.len(),
    ensures
        match r {
            Some(b) => number_shape(v@.subrange(a as int, v@.len() as int)) is Some && ({
                let m = number_shape(v@.subrange(a as int, v@.len() as int)).unwrap();
                b == decimal_bits(m.0, m.1)
            }) && b <= INF_BITS,
            None => number_shape(v@.subrange(a as int, v@.len() as int)) is None,
        },
{
    let n: usize = v.len();
    let ghost s = v@.subrange(a as int, n as int);
    let (d, i, places) = read_mantissa(v, a);
    if d.len() == 0 {
        return None;
    }
    if i >= n {
        let e: i128 = -(places as i128);
        let b = decimal_to_bits(&d, e, false, Ghost(e as int));
        proof {
            lemma_decimal_finite(d@, e as int);
        }
        return Some(b);
    }
    assert(s[i - a] == v@[i as int]);
    if v[i] != 'e' && v[i] != 'E' {
        return None;
    }
    assert(s.subrange(i - a + 1, s.len() as int) =~= v@.subrange(i + 1, n as int));
    let (negative, size, huge) = match read_exponent(v, i + 1) {
        Some(x) => x,
        None => {
            return None;
        },
    };
    let ghost exact = exponent(v@.subrange(i + 1, n as int)).unwrap() - places;
    let far: i128 = if negative {
        -900_000_000_000_000_000_000_000_000_000
    } else {
        900_000_000_000_000_000_000_000_000_000
    };
    let e: i128 = if huge {
        far
    } else if negative {
        -(size as i128) - places as i128
    } else {
        size as i128 - places as i128
    };
    let b = decimal_to_bits(&d, e, huge, Ghost(exact));
    proof {
        lemma_decimal_finite(d@, exact);
    }
    Some(b)
}

proof fn lemma_nearest_exists(num: nat, den: nat, hi: u64) -> (b: u64)
    requires
        hi <= INF_BITS,
        hi < INF_BITS ==> !above(num, den, hi),
    ensures
        is_nearest(num, den, b),
    decreases hi,
{
    if hi == 0 || above(num, den, (hi - 1) as u64) {
        hi
    } else {
        lemma_nearest_exists(num, den, (hi - 1) as u64)
    }
}

proof fn lemma_decimal_finite(d: Seq<char>, e: int)
    ensures
        decimal_bits(d, e) <= INF_BITS,
{
    let m = digits_value(d);
    if e >= 0 {
        let b = lemma_nearest_exists(m * pow10(e as nat), 1, INF_BITS);
        nearest_unique(m * pow10(e as nat), 1, b);
    } else {
        lemma_pow10_pos((-e) as nat);
        let b = lemma_nearest_exists(m, pow10((-e) as nat), INF_BITS);
        nearest_unique(m, pow10((-e) as nat), b);
    }
}

} // verus!
