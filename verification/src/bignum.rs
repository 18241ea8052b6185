//! Natural numbers of any size.

use vstd::prelude::*;
use vstd::arithmetic::power2::{lemma_pow2_adds, lemma_pow2_unfold, pow2};

verus! {

/// A natural number, as digits to the base 2^32 from the lowest up.
#[derive(Debug)]
pub struct Big {
    limbs: Vec<u32>,
}

/// The digit at a position, 0 past the end.
spec fn limb(s: Seq<u32>, i: int) -> nat {
    if 0 <= i < s.len() {
        s[i] as nat
    } else {
        0
    }
}

/// The number that the first `n` digits denote.
spec fn low(s: Seq<u32>, n: int) -> nat
    decreases n,
{
    if n <= 0 {
        0
    } else {
        low(s, n - 1) + limb(s, n - 1) * pow2((32 * (n - 1)) as nat)
    }
}

impl View for Big {
    type V = nat;

    closed spec fn view(&self) -> nat {
        low(self.limbs@, self.limbs@.len() as int)
    }
}

proof fn lemma_base(i: int)
    requires
        i >= 0,
    ensures
        pow2((32 * (i + 1)) as nat) == 0x1_0000_0000 * pow2((32 * i) as nat),
{
    vstd::arithmetic::power2::lemma2_to64();
    lemma_pow2_adds(32, (32 * i) as nat);
    assert(32 + 32 * i == 32 * (i + 1));
}

proof fn lemma_low_bound(s: Seq<u32>, n: int)
    requires
        n >= 0,
    ensures
        low(s, n) < pow2((32 * n) as nat),
    decreases n,
{
    if n == 0 {
        vstd::arithmetic::power2::lemma2_to64();
    } else {
        lemma_low_bound(s, n - 1);
        lemma_base(n - 1);
        let p = pow2((32 * (n - 1)) as nat);
        let d = limb(s, n - 1);
        assert(d * p <= 0xFFFF_FFFF * p) by (nonlinear_arith)
            requires
                d <= 0xFFFF_FFFF,
                p >= 0,
        ;
    }
}

proof fn lemma_low_same(s: Seq<u32>, t: Seq<u32>, n: int)
    requires
        forall|i: int| 0 <= i < n ==> limb(s, i) == limb(t, i),
    ensures
        low(s, n) == low(t, n),
    decreases n,
{
    if n > 0 {
        lemma_low_same(s, t, n - 1);
    }
}

proof fn lemma_low_past(s: Seq<u32>, n: int)
    requires
        n >= s.len(),
    ensures
        low(s, n) == low(s, s.len() as int),
    decreases n,
{
    if n > s.len() {
        lemma_low_past(s, n - 1);
        assert(limb(s, n - 1) * pow2((32 * (n - 1)) as nat) == 0) by (nonlinear_arith)
            requires
                limb(s, n - 1) == 0,
        ;
    }
}

impl Big {
    /// The number with the given value.
    pub fn from_u64(n: u64) -> (r: Big)
        ensures
            r@ == n,
    {
        let lo: u32 = (n % 0x1_0000_0000) as u32;
        let hi: u32 = (n / 0x1_0000_0000) as u32;
        let mut limbs: Vec<u32> = Vec::new();
        limbs.push(lo);
        limbs.push(hi);
        proof {
            let s = limbs@;
            vstd::arithmetic::power2::lemma2_to64();
            assert(low(s, 0) == 0);
            assert(low(s, 1) == low(s, 0) + limb(s, 0) * pow2(0));
            assert(low(s, 2) == low(s, 1) + limb(s, 1) * pow2(32));
        }
        Big { limbs }
    }

    /// A copy.
    pub fn duplicate(&self) -> (r: Big)
        ensures
            r@ == self@,
    {
        let mut limbs: Vec<u32> = Vec::new();
        let mut i: usize = 0;
        while i < self.limbs.len()
            invariant
                i <= self.limbs@.len(),
                limbs@.len() == i,
                forall|j: int| 0 <= j < i ==> #[trigger] limbs@[j] == self.limbs@[j],
            decreases self.limbs@.len() - i,
        {
            limbs.push(self.limbs[i]);
            i += 1;
        }
        assert(limbs@ =~= self.limbs@);
        Big { limbs }
    }

    /// Multiplies by one number and adds another.
    pub fn mul_add(&mut self, m: u32, a: u32)
        ensures
            final(self)@ == old(self)@ * m + a,
    {
        let ghost s = self.limbs@;
        let mut c: u32 = a;
        let mut i: usize = 0;
        let n: usize = self.limbs.len();
        proof {
            vstd::arithmetic::power2::lemma2_to64();
            assert(low(s, 0) * m == 0) by (nonlinear_arith)
                requires
                    low(s, 0) == 0,
            ;
            let p = pow2((32 * i) as nat);
            assert(c * p == c) by (nonlinear_arith)
                requires
                    p == 1,
            ;
        }
        while i < n
            invariant
                i <= n,
                n == self.limbs@.len(),
                n == s.len(),
                forall|j: int| i <= j < n ==> #[trigger] self.limbs@[j] == s[j],
                low(self.limbs@, i as int) + c * pow2((32 * i) as nat) == low(s, i as int) * m + a,
            decreases n - i,
        {
            let d = self.limbs[i];
            assert(d as u64 * m as u64 + c as u64 <= 0xFFFF_FFFF_FFFF_FFFF) by (nonlinear_arith)
                requires
                    d <= 0xFFFF_FFFF,
                    m <= 0xFFFF_FFFF,
                    c <= 0xFFFF_FFFF,
            ;
            assert(d as u64 * m as u64 <= 0xFFFF_FFFF_FFFF_FFFF) by (nonlinear_arith)
                requires
                    d <= 0xFFFF_FFFF,
                    m <= 0xFFFF_FFFF,
            ;
            let t: u64 = d as u64 * m as u64 + c as u64;
            let lo: u32 = (t % 0x1_0000_0000) as u32;
            let hi: u32 = (t / 0x1_0000_0000) as u32;
            let ghost before = self.limbs@;
            self.limbs[i] = lo;
            proof {
                let now = self.limbs@;
                lemma_low_same(before, now, i as int);
                lemma_base(i as int);
                let p = pow2((32 * i) as nat);
                let li = low(before, i as int);
                let si = low(s, i as int);
                assert(low(now, i + 1) == li + lo * p);
                assert(low(s, i + 1) == si + d * p);
                assert(t == lo + 0x1_0000_0000 * hi);
                assert(li + lo * p + hi * (0x1_0000_0000 * p) == (si + d * p) * m + a) by (nonlinear_arith)
                    requires
                        li + c * p == si * m + a,
                        t == d * m + c,
                        t == lo + 0x1_0000_0000 * hi,
                ;
            }
            c = hi;
            i += 1;
        }
        let ghost mid = self.limbs@;
        self.limbs.push(c);
        proof {
            lemma_low_same(mid, self.limbs@, n as int);
        }
    }

    /// The sum.
    pub fn plus(&self, other: &Big) -> (r: Big)
        ensures
            r@ == self@ + other@,
    {
        let ghost s = self.limbs@;
        let ghost t = other.limbs@;
        let n: usize = if self.limbs.len() < other.limbs.len() {
            other.limbs.len()
        } else {
            self.limbs.len()
        };
        let mut limbs: Vec<u32> = Vec::new();
        let mut c: u32 = 0;
        let mut i: usize = 0;
        while i < n
            invariant
                i <= n,
                s == self.limbs@,
                t == other.limbs@,
                limbs@.len() == i,
                c <= 1,
                low(limbs@, i as int) + c * pow2((32 * i) as nat) == low(s, i as int) + low(t, i as int),
            decreases n - i,
        {
            let a: u32 = if i < self.limbs.len() {
                self.limbs[i]
            } else {
                0
            };
            let b: u32 = if i < other.limbs.len() {
                other.limbs[i]
            } else {
                0
            };
            let x: u64 = a as u64 + b as u64 + c as u64;
            let lo: u32 = (x % 0x1_0000_0000) as u32;
            let hi: u32 = (x / 0x1_0000_0000) as u32;
            let ghost before = limbs@;
            limbs.push(lo);
            proof {
                lemma_low_same(before, limbs@, i as int);
                lemma_base(i as int);
                let p = pow2((32 * i) as nat);
                let li = low(before, i as int);
                let si = low(s, i as int);
                let ti = low(t, i as int);
                assert(li + lo * p + hi * (0x1_0000_0000 * p) == si + a * p + (ti + b * p)) by (nonlinear_arith)
                    requires
                        li + c * p == si + ti,
                        x == a + b + c,
                        x == lo + 0x1_0000_0000 * hi,
                ;
            }
            c = hi;
            i += 1;
        }
        let ghost mid = limbs@;
        limbs.push(c);
        proof {
            lemma_low_same(mid, limbs@, n as int);
            lemma_low_past(s, n as int);
            lemma_low_past(t, n as int);
        }
        Big { limbs }
    }

    /// Takes off a number that is no greater.
    pub fn minus(&mut self, other: &Big)
        requires
            other@ <= old(self)@,
        ensures
            final(self)@ == old(self)@ - other@,
    {
        let ghost s = self.limbs@;
        let ghost t = other.limbs@;
        let n: usize = if self.limbs.len() < other.limbs.len() {
            other.limbs.len()
        } else {
            self.limbs.len()
        };
        let mut limbs: Vec<u32> = Vec::new();
        let mut c: u32 = 0;
        let mut i: usize = 0;
        while i < n
            invariant
                i <= n,
                s == self.limbs@,
                t == other.limbs@,
                limbs@.len() == i,
                c <= 1,
                low(limbs@, i as int) + low(t, i as int) == low(s, i as int) + c * pow2((32 * i) as nat),
            decreases n - i,
        {
            let a: u32 = if i < self.limbs.len() {
                self.limbs[i]
            } else {
                0
            };
            let b: u32 = if i < other.limbs.len() {
                other.limbs[i]
            } else {
                0
            };
            let x: u64 = 0x1_0000_0000 + a as u64 - b as u64 - c as u64;
            let lo: u32 = (x % 0x1_0000_0000) as u32;
            let hi: u32 = 1 - (x / 0x1_0000_0000) as u32;
            let ghost before = limbs@;
            limbs.push(lo);
            proof {
                lemma_low_same(before, limbs@, i as int);
                lemma_base(i as int);
                let p = pow2((32 * i) as nat);
                let li = low(before, i as int);
                let si = low(s, i as int);
                let ti = low(t, i as int);
                assert(li + lo * p + (ti + b * p) == si + a * p + hi * (0x1_0000_0000 * p)) by (nonlinear_arith)
                    requires
                        li + ti == si + c * p,
                        lo == a - b - c + 0x1_0000_0000 * hi,
                ;
            }
            c = hi;
            i += 1;
        }
        proof {
            lemma_low_past(s, n as int);
            lemma_low_past(t, n as int);
            lemma_low_bound(limbs@, n as int);
            let p = pow2((32 * n) as nat);
            if c == 1 {
                assert(c * p == p) by (nonlinear_arith)
                    requires
                        c == 1,
                ;
            } else {
                assert(c * p == 0) by (nonlinear_arith)
                    requires
                        c == 0,
                ;
            }
        }
        self.limbs = limbs;
    }

    /// Multiplies by a power of two.
    pub fn shift(&mut self, k: u32)
        ensures
            final(self)@ == old(self)@ * pow2(k as nat),
    {
        let mut i: u32 = 0;
        proof {
            vstd::arithmetic::power2::lemma2_to64();
            assert(self@ * pow2(0) == self@);
        }
        while k - i >= 16
            invariant
                i <= k,
                self@ == old(self)@ * pow2(i as nat),
            decreases k - i,
        {
            proof {
                vstd::arithmetic::power2::lemma2_to64();
                vstd::arithmetic::power2::lemma_pow2_adds(i as nat, 16);
                let p = pow2(i as nat);
                let n = old(self)@;
                let q = pow2((i + 16) as nat);
                assert(n * p * 0x1_0000 + 0 == n * q) by (nonlinear_arith)
                    requires
                        q == p * 0x1_0000,
                ;
            }
            self.mul_add(0x1_0000, 0);
            i += 16;
        }
        while i < k
            invariant
                i <= k,
                self@ == old(self)@ * pow2(i as nat),
            decreases k - i,
        {
            proof {
                lemma_pow2_unfold((i + 1) as nat);
                let p = pow2(i as nat);
                let n = old(self)@;
                assert(n * p * 2 + 0 == n * (2 * p)) by (nonlinear_arith);
            }
            self.mul_add(2, 0);
            i += 1;
        }
    }

    /// Whether the number is smaller, and whether it is the same.
    pub fn against(&self, other: &Big) -> (r: (bool, bool))
        ensures
            r.0 == (self@ < other@),
            r.1 == (self@ == other@),
    {
        let ghost s = self.limbs@;
        let ghost t = other.limbs@;
        let n: usize = if self.limbs.len() < other.limbs.len() {
            other.limbs.len()
        } else {
            self.limbs.len()
        };
        let mut less = false;
        let mut same = true;
        let mut i: usize = 0;
        while i < n
            invariant
                i <= n,
                s == self.limbs@,
                t == other.limbs@,
                less == (low(s, i as int) < low(t, i as int)),
                same == (low(s, i as int) == low(t, i as int)),
            decreases n - i,
        {
            let a: u32 = if i < self.limbs.len() {
                self.limbs[i]
            } else {
                0
            };
            let b: u32 = if i < other.limbs.len() {
                other.limbs[i]
            } else {
                0
            };
            proof {
                lemma_low_bound(s, i as int);
                lemma_low_bound(t, i as int);
                let p = pow2((32 * i) as nat);
                let x = low(s, i as int);
                let y = low(t, i as int);
                if a < b {
                    assert(x + a * p < y + b * p) by (nonlinear_arith)
                        requires
                            a < b,
                            x < p,
                            y >= 0,
                    ;
                } else if b < a {
                    assert(y + b * p < x + a * p) by (nonlinear_arith)
                        requires
                            b < a,
                            y < p,
                            x >= 0,
                    ;
                }
            }
            if a != b {
                less = a < b;
                same = false;
            }
            i += 1;
        }
        proof {
            lemma_low_past(s, n as int);
            lemma_low_past(t, n as int);
        }
        (less, same)
    }
}

} // verus!
