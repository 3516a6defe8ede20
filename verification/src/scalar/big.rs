//! Natural numbers of any size, for exact decimal conversion.

use vstd::arithmetic::power2::pow2;
use vstd::prelude::*;

verus! {

/// Limb `i`, zero past the end.
pub open spec fn limb(s: Seq<u32>, i: int) -> nat {
    if 0 <= i < s.len() {
        s[i] as nat
    } else {
        0
    }
}

/// Value of the lowest `n` limbs.
pub open spec fn low(s: Seq<u32>, n: nat) -> nat
    decreases n,
{
    if n == 0 {
        0
    } else {
        low(s, (n - 1) as nat) + limb(s, n - 1) * pow2((32 * (n - 1)) as nat)
    }
}

/// A natural number in little-endian limbs.
pub struct Big {
    limbs: Vec<u32>,
}

impl View for Big {
    type V = nat;

    closed spec fn view(&self) -> nat {
        low(self.limbs@, self.limbs@.len())
    }
}

proof fn lemma_low_bound(s: Seq<u32>, n: nat)
    ensures
        low(s, n) < pow2(32 * n),
    decreases n,
{
    vstd::arithmetic::power2::lemma2_to64();
    if n > 0 {
        let m = (n - 1) as nat;
        lemma_low_bound(s, m);
        vstd::arithmetic::power2::lemma_pow2_adds(32 * m, 32);
        let w = pow2(32 * m);
        let l = limb(s, n - 1);
        assert(low(s, m) + l * w < w * 0x1_0000_0000) by (nonlinear_arith)
            requires
                low(s, m) < w,
                l < 0x1_0000_0000,
        ;
    }
}

proof fn lemma_low_extend(s: Seq<u32>, n: nat)
    requires
        n >= s.len(),
    ensures
        low(s, n) == low(s, s.len()),
    decreases n - s.len(),
{
    if n > s.len() {
        lemma_low_extend(s, (n - 1) as nat);
        assert(limb(s, n - 1) * pow2((32 * (n - 1)) as nat) == 0) by (nonlinear_arith)
            requires
                limb(s, n - 1) == 0,
        ;
    }
}

proof fn lemma_low_same(a: Seq<u32>, b: Seq<u32>, n: nat)
    requires
        forall|i: int| 0 <= i < n ==> limb(a, i) == limb(b, i),
    ensures
        low(a, n) == low(b, n),
    decreases n,
{
    if n > 0 {
        assert forall|i: int| 0 <= i < n - 1 implies limb(a, i) == limb(b, i) by {}
        lemma_low_same(a, b, (n - 1) as nat);
        assert(limb(a, n - 1) == limb(b, n - 1));
    }
}

impl Big {
    pub fn from_u32(v: u32) -> (r: Big)
        ensures
            r@ == v,
    {
        let mut limbs: Vec<u32> = Vec::new();
        limbs.push(v);
        proof {
            vstd::arithmetic::power2::lemma2_to64();
            assert(low(limbs@, 1) == low(limbs@, 0) + limb(limbs@, 0) * pow2(0));
        }
        Big { limbs }
    }

    /// Multiplies by `m`, then adds `a`.
    pub fn mul_add(&mut self, m: u32, a: u32)
        ensures
            final(self)@ == old(self)@ * m + a,
    {
        let n: usize = self.limbs.len();
        let ghost start = self.limbs@;
        let mut carry: u64 = a as u64;
        let mut i: usize = 0;
        proof {
            vstd::arithmetic::power2::lemma2_to64();
            assert(carry * pow2(0) == a);
            assert(low(start, 0) * m == 0) by (nonlinear_arith)
                requires
                    low(start, 0) == 0,
            ;
        }
        while i < n
            invariant
                i <= n,
                n == start.len(),
                self.limbs@.len() == n,
                carry < 0x1_0000_0000,
                forall|k: int| i <= k < n ==> self.limbs@[k] == start[k],
                low(self.limbs@, i as nat) + carry * pow2((32 * i) as nat) == low(start, i as nat)
                    * m + a,
            decreases n - i,
        {
            let x: u32 = self.limbs[i];
            proof {
                assert(x * m + carry < 0x1_0000_0000 * 0x1_0000_0000) by (nonlinear_arith)
                    requires
                        x < 0x1_0000_0000,
                        m < 0x1_0000_0000,
                        carry < 0x1_0000_0000,
                ;
                assert(x * m <= 0xFFFF_FFFF * 0xFFFF_FFFF) by (nonlinear_arith)
                    requires
                        x <= 0xFFFF_FFFF,
                        m <= 0xFFFF_FFFF,
                ;
            }
            let t: u64 = (x as u64) * (m as u64) + carry;
            let lo: u32 = (t % 0x1_0000_0000) as u32;
            let hi: u64 = t / 0x1_0000_0000;
            let ghost before = self.limbs@;
            self.limbs.set(i, lo);
            proof {
                lemma_low_same(before, self.limbs@, i as nat);
                let w = pow2((32 * i) as nat);
                vstd::arithmetic::power2::lemma_pow2_adds((32 * i) as nat, 32);
                vstd::arithmetic::power2::lemma2_to64();
                assert(pow2((32 * (i + 1)) as nat) == w * 0x1_0000_0000);
                assert(low(self.limbs@, (i + 1) as nat) == low(self.limbs@, i as nat) + lo * w);
                assert(low(start, (i + 1) as nat) == low(start, i as nat) + x * w);
                let l0 = low(before, i as nat);
                let s0 = low(start, i as nat);
                assert(l0 + lo * w + hi * (w * 0x1_0000_0000) == (s0 + x * w) * m + a)
                    by (nonlinear_arith)
                    requires
                        l0 + carry * w == s0 * m + a,
                        lo + hi * 0x1_0000_0000 == x * m + carry,
                ;
            }
            carry = hi;
            i = i + 1;
        }
        if carry > 0 {
            let ghost before = self.limbs@;
            self.limbs.push(carry as u32);
            proof {
                lemma_low_same(before, self.limbs@, n as nat);
                assert(low(self.limbs@, (n + 1) as nat) == low(self.limbs@, n as nat) + carry
                    * pow2((32 * n) as nat));
            }
        } else {
            assert(carry * pow2((32 * n) as nat) == 0) by (nonlinear_arith)
                requires
                    carry == 0,
            ;
        }
    }

    /// Divides by `d`, and gives what is left over.
    pub fn divide(&mut self, d: u32) -> (left: u32)
        requires
            d > 0,
        ensures
            final(self)@ == old(self)@ / (d as nat),
            left == old(self)@ % (d as nat),
    {
        let n: usize = self.limbs.len();
        let ghost start = self.limbs@;
        let mut left: u64 = 0;
        let mut i: usize = n;
        assert(0 * pow2((32 * i) as nat) == 0);
        assert(d * 0 == 0);
        while i > 0
            invariant
                i <= n,
                n == start.len(),
                self.limbs@.len() == n,
                left < d,
                forall|k: int| 0 <= k < i ==> self.limbs@[k] == start[k],
                low(start, n as nat) == low(start, i as nat) + left * pow2((32 * i) as nat) + d * (
                low(self.limbs@, n as nat) - low(self.limbs@, i as nat)),
            decreases i,
        {
            i = i - 1;
            let ghost before = self.limbs@;
            let ghost left0 = left;
            let cur: u64 = left * 0x1_0000_0000 + self.limbs[i] as u64;
            let q: u64 = cur / (d as u64);
            assert(q < 0x1_0000_0000) by (nonlinear_arith)
                requires
                    q == cur / (d as u64),
                    cur == left0 * 0x1_0000_0000 + start[i as int],
                    left0 <= d - 1,
                    start[i as int] < 0x1_0000_0000,
                    d > 0,
            ;
            left = cur % (d as u64);
            self.limbs.set(i, q as u32);
            proof {
                let w = pow2((32 * i) as nat);
                vstd::arithmetic::power2::lemma_pow2_adds((32 * i) as nat, 32);
                vstd::arithmetic::power2::lemma2_to64();
                assert(32 * (i + 1) == 32 * i + 32);
                let now = self.limbs@;
                lemma_high_same(before, now, (i + 1) as nat, n as nat);
                assert(low(now, (i + 1) as nat) == low(now, i as nat) + q * w);
                assert(low(start, (i + 1) as nat) == low(start, i as nat) + start[i as int] * w);
                let hi = low(before, n as nat) - low(before, (i + 1) as nat);
                assert(cur == q * d + left) by {
                    vstd::arithmetic::div_mod::lemma_fundamental_div_mod(cur as int, d as int);
                    assert(d * q == q * d) by (nonlinear_arith);
                }
                assert(start[i as int] * w + left0 * (w * 0x1_0000_0000) + d * hi == left * w + d
                    * (hi + q * w)) by (nonlinear_arith)
                    requires
                        left0 * 0x1_0000_0000 + start[i as int] == q * d + left,
                ;
            }
        }
        proof {
            vstd::arithmetic::power2::lemma2_to64();
            assert(left * pow2(0) == left);
            let q = low(self.limbs@, n as nat);
            assert(d * (q - 0) == q * d) by (nonlinear_arith);
            vstd::arithmetic::div_mod::lemma_fundamental_div_mod_converse(
                low(start, n as nat) as int,
                d as int,
                q as int,
                left as int,
            );
        }
        left as u32
    }

    fn at(&self, i: usize) -> (r: u32)
        ensures
            r == limb(self.limbs@, i as int),
    {
        if i < self.limbs.len() {
            self.limbs[i]
        } else {
            0
        }
    }

    /// Whether `self < other`, and whether they are equal.
    pub fn compare(&self, other: &Big) -> (r: (bool, bool))
        ensures
            r.0 == (self@ < other@),
            r.1 == (self@ == other@),
    {
        let n: usize = if self.limbs.len() > other.limbs.len() {
            self.limbs.len()
        } else {
            other.limbs.len()
        };
        let mut less: bool = false;
        let mut equal: bool = true;
        let mut i: usize = 0;
        while i < n
            invariant
                i <= n,
                less == (low(self.limbs@, i as nat) < low(other.limbs@, i as nat)),
                equal == (low(self.limbs@, i as nat) == low(other.limbs@, i as nat)),
            decreases n - i,
        {
            let a = self.at(i);
            let b = other.at(i);
            proof {
                lemma_low_bound(self.limbs@, i as nat);
                lemma_low_bound(other.limbs@, i as nat);
                let w = pow2((32 * i) as nat);
                let la = low(self.limbs@, i as nat);
                let lb = low(other.limbs@, i as nat);
                if a < b {
                    assert(la + a * w < lb + b * w) by (nonlinear_arith)
                        requires
                            la < w,
                            a + 1 <= b,
                            lb >= 0,
                    ;
                } else if b < a {
                    assert(lb + b * w < la + a * w) by (nonlinear_arith)
                        requires
                            lb < w,
                            b + 1 <= a,
                            la >= 0,
                    ;
                }
            }
            if a < b {
                less = true;
                equal = false;
            } else if b < a {
                less = false;
                equal = false;
            }
            i = i + 1;
        }
        proof {
            lemma_low_extend(self.limbs@, n as nat);
            lemma_low_extend(other.limbs@, n as nat);
        }
        (less, equal)
    }

    /// Takes `other` away.
    pub fn subtract(&mut self, other: &Big)
        requires
            other@ <= old(self)@,
        ensures
            final(self)@ == old(self)@ - other@,
    {
        let ghost start = self.limbs@;
        let n: usize = self.limbs.len();
        let mut borrow: u64 = 0;
        let mut i: usize = 0;
        proof {
            vstd::arithmetic::power2::lemma2_to64();
            assert(borrow * pow2(0) == 0);
        }
        while i < n
            invariant
                i <= n,
                n == start.len(),
                self.limbs@.len() == n,
                borrow <= 1,
                forall|k: int| i <= k < n ==> self.limbs@[k] == start[k],
                low(self.limbs@, i as nat) + low(other.limbs@, i as nat) == low(start, i as nat)
                    + borrow * pow2((32 * i) as nat),
            decreases n - i,
        {
            let x: u64 = self.limbs[i] as u64;
            let y: u64 = other.at(i) as u64 + borrow;
            let (d, b): (u64, u64) = if x >= y {
                (x - y, 0)
            } else {
                (x + 0x1_0000_0000 - y, 1)
            };
            let ghost before = self.limbs@;
            let ghost bw = borrow;
            self.limbs.set(i, d as u32);
            proof {
                lemma_low_same(before, self.limbs@, i as nat);
                let w = pow2((32 * i) as nat);
                vstd::arithmetic::power2::lemma_pow2_adds((32 * i) as nat, 32);
                vstd::arithmetic::power2::lemma2_to64();
                assert(pow2((32 * (i + 1)) as nat) == w * 0x1_0000_0000);
                let o = limb(other.limbs@, i as int);
                assert(low(self.limbs@, (i + 1) as nat) == low(self.limbs@, i as nat) + d * w);
                assert(low(start, (i + 1) as nat) == low(start, i as nat) + x * w);
                let l0 = low(before, i as nat);
                let o0 = low(other.limbs@, i as nat);
                let s0 = low(start, i as nat);
                assert(l0 + d * w + (o0 + o * w) == s0 + x * w + b * (w * 0x1_0000_0000))
                    by (nonlinear_arith)
                    requires
                        l0 + o0 == s0 + bw * w,
                        d + o + bw == x + b * 0x1_0000_0000,
                ;
            }
            borrow = b;
            i = i + 1;
        }
        proof {
            lemma_low_bound(self.limbs@, n as nat);
            let w = pow2((32 * n) as nat);
            let m = if other.limbs@.len() > n {
                other.limbs@.len()
            } else {
                n as nat
            };
            lemma_low_extend(other.limbs@, m);
            lemma_low_monotone(other.limbs@, n as nat, m);
            if borrow == 1 {
                assert(borrow * w == w);
            } else {
                assert(borrow * w == 0) by (nonlinear_arith)
                    requires
                        borrow == 0,
                ;
            }
            lemma_low_bound(start, n as nat);
            lemma_high_zero(other.limbs@, n as nat, m, low(start, n as nat));
        }
    }
}

/// Limbs that agree from `i` on hold the same there.
proof fn lemma_high_same(a: Seq<u32>, b: Seq<u32>, i: nat, n: nat)
    requires
        i <= n,
        a.len() == b.len(),
        forall|k: int| i <= k < n ==> a[k] == #[trigger] b[k],
    ensures
        low(a, n) - low(a, i) == low(b, n) - low(b, i),
    decreases n,
{
    if i < n {
        lemma_high_same(a, b, i, (n - 1) as nat);
    }
}

proof fn lemma_low_monotone(s: Seq<u32>, a: nat, b: nat)
    requires
        a <= b,
    ensures
        low(s, a) <= low(s, b),
    decreases b - a,
{
    if a < b {
        lemma_low_monotone(s, a, (b - 1) as nat);
        let l = limb(s, b - 1);
        let w = pow2((32 * (b - 1)) as nat);
        assert(l * w >= 0) by (nonlinear_arith);
    }
}

/// A number below `2^(32 n)` has no limbs from `n` on.
proof fn lemma_high_zero(s: Seq<u32>, n: nat, m: nat, bound: nat)
    requires
        n <= m,
        low(s, m) <= bound,
        bound < pow2(32 * n),
    ensures
        low(s, n) == low(s, m),
    decreases m - n,
{
    if n < m {
        let k = (m - 1) as nat;
        lemma_low_monotone(s, k, m);
        lemma_high_zero(s, n, k, bound);
        let l = limb(s, k as int);
        let w = pow2(32 * k);
        crate::scalar::shift::lemma_pow2_monotone(32 * n, 32 * k);
        if l > 0 {
            assert(l * w >= w) by (nonlinear_arith)
                requires
                    l >= 1,
            ;
        } else {
            assert(l * w == 0) by (nonlinear_arith)
                requires
                    l == 0,
            ;
        }
    }
}

} // verus!
