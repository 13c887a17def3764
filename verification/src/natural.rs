//! Natural numbers of any size, in the few operations that printing a number takes.
use vstd::arithmetic::power2::{
    lemma2_to64, lemma_pow2_adds, lemma_pow2_strictly_increases, lemma_pow2_unfold, pow2,
};
use vstd::prelude::*;

verus! {

/// One more than the greatest limb.
pub const LIMB_BASE: u64 = 0x1_0000_0000;

/// How many factors of two fit into one limb.
pub const STEP: u32 = 31;

/// What the limb at place `i` counts for.
pub open spec fn limb_weight(i: nat) -> nat
    decreases i,
{
    if i == 0 {
        1
    } else {
        LIMB_BASE as nat * limb_weight((i - 1) as nat)
    }
}

/// The limb at place `i`, or zero beyond the last one.
pub open spec fn limb_at(limbs: Seq<u32>, i: int) -> nat {
    if 0 <= i < limbs.len() {
        limbs[i] as nat
    } else {
        0
    }
}

/// The number that the first `n` limbs stand for, the least significant one first.
pub open spec fn limbs_value(limbs: Seq<u32>, n: nat) -> nat
    decreases n,
{
    if n == 0 {
        0
    } else {
        limbs_value(limbs, (n - 1) as nat) + limb_at(limbs, n - 1) * limb_weight((n - 1) as nat)
    }
}

/// A natural number.
pub struct Natural {
    pub limbs: Vec<u32>,
}

impl View for Natural {
    type V = nat;

    open spec fn view(&self) -> nat {
        limbs_value(self.limbs@, self.limbs@.len())
    }
}

/// The first `n` limbs stand for less than what the next one counts for.
proof fn lemma_limbs_bound(limbs: Seq<u32>, n: nat)
    ensures
        limbs_value(limbs, n) < limb_weight(n),
    decreases n,
{
    if n > 0 {
        let k = (n - 1) as nat;
        lemma_limbs_bound(limbs, k);
        let (d, w) = (limb_at(limbs, n - 1), limb_weight(k));
        assert(d * w + w <= LIMB_BASE as nat * w) by (nonlinear_arith)
            requires
                d + 1 <= LIMB_BASE,
        ;
    }
}

/// Places beyond the last limb do not count.
proof fn lemma_limbs_beyond(limbs: Seq<u32>, n: nat)
    requires
        n >= limbs.len(),
    ensures
        limbs_value(limbs, n) == limbs_value(limbs, limbs.len()),
    decreases n,
{
    if n > limbs.len() {
        lemma_limbs_beyond(limbs, (n - 1) as nat);
        let w = limb_weight((n - 1) as nat);
        assert(0 * w == 0) by (nonlinear_arith);
    }
}

/// The value of some limbs depends on those limbs only.
proof fn lemma_limbs_same(a: Seq<u32>, b: Seq<u32>, n: nat)
    requires
        forall|i: int| 0 <= i < n ==> limb_at(a, i) == limb_at(b, i),
    ensures
        limbs_value(a, n) == limbs_value(b, n),
    decreases n,
{
    if n > 0 {
        lemma_limbs_same(a, b, (n - 1) as nat);
    }
}

/// The larger of two lengths.
fn longer(a: usize, b: usize) -> (r: usize)
    ensures
        r == if a < b {
            b
        } else {
            a
        },
{
    if a < b {
        b
    } else {
        a
    }
}

impl Natural {
    /// The number `n`.
    pub fn from_u64(n: u64) -> (r: Natural)
        ensures
            r@ == n,
    {
        let mut limbs: Vec<u32> = Vec::new();
        limbs.push((n % LIMB_BASE) as u32);
        limbs.push((n / LIMB_BASE) as u32);
        proof {
            reveal_with_fuel(limbs_value, 3);
            reveal_with_fuel(limb_weight, 3);
            assert(limb_weight(1) == LIMB_BASE);
            let (l, h) = (n as nat % LIMB_BASE as nat, n as nat / LIMB_BASE as nat);
            assert(l * 1 == l) by (nonlinear_arith);
            assert(h * (LIMB_BASE as nat) + l == n);
        }
        Natural { limbs }
    }

    /// The limb at place `i`.
    fn limb(&self, i: usize) -> (r: u32)
        ensures
            r == limb_at(self.limbs@, i as int),
    {
        if i < self.limbs.len() {
            self.limbs[i]
        } else {
            0
        }
    }

    /// The product with a small number.
    pub fn times(&self, k: u32) -> (r: Natural)
        ensures
            r@ == self@ * k,
    {
        let n: usize = self.limbs.len();
        let mut out: Vec<u32> = Vec::with_capacity(n);
        let mut carry: u64 = 0;
        let mut i: usize = 0;
        proof {
            assert(0 * limb_weight(0) == 0 && 0 * k == 0) by (nonlinear_arith);
        }
        while i < n
            invariant
                i <= n,
                n == self.limbs@.len(),
                out@.len() == i,
                carry < LIMB_BASE,
                limbs_value(out@, i as nat) + carry * limb_weight(i as nat) == limbs_value(
                    self.limbs@,
                    i as nat,
                ) * k,
            decreases n - i,
        {
            let d: u64 = self.limbs[i] as u64;
            proof {
                assert(d * k + carry <= 0xffff_ffff_0000_0000 && 0 <= d * k) by (nonlinear_arith)
                    requires
                        d <= 0xffff_ffff,
                        k <= 0xffff_ffff,
                        carry <= 0xffff_ffff,
                        d >= 0,
                        k >= 0,
                ;
            }
            let t: u64 = d * (k as u64) + carry;
            let low: u32 = (t % LIMB_BASE) as u32;
            let ghost before = out@;
            out.push(low);
            proof {
                let w = limb_weight(i as nat);
                let b = LIMB_BASE as nat;
                lemma_limbs_same(before, out@, i as nat);
                let (c, v) = (carry as nat, limbs_value(self.limbs@, i as nat));
                let (h, l) = (t as nat / b, t as nat % b);
                assert(l * w + h * (b * w) == (d * k + c) * w) by (nonlinear_arith)
                    requires
                        h * b + l == d * k + c,
                ;
                assert((d * k + c) * w == (d * w) * k + c * w) by (nonlinear_arith);
                assert((v + d * w) * k == v * k + (d * w) * k) by (nonlinear_arith);
            }
            carry = t / LIMB_BASE;
            i = i + 1;
        }
        if carry > 0 {
            let ghost before = out@;
            out.push(carry as u32);
            proof {
                lemma_limbs_same(before, out@, n as nat);
            }
        } else {
            assert(0 * limb_weight(n as nat) == 0) by (nonlinear_arith);
        }
        Natural { limbs: out }
    }

    /// Whether the number is less than another.
    pub fn less_than(&self, other: &Natural) -> (r: bool)
        ensures
            r == (self@ < other@),
    {
        let n: usize = longer(self.limbs.len(), other.limbs.len());
        let ghost (x, y) = (self.limbs@, other.limbs@);
        proof {
            lemma_limbs_beyond(x, n as nat);
            lemma_limbs_beyond(y, n as nat);
        }
        let mut i: usize = n;
        while i > 0
            invariant
                i <= n,
                x == self.limbs@,
                y == other.limbs@,
                self@ - other@ == limbs_value(x, i as nat) - limbs_value(y, i as nat),
            decreases i,
        {
            i = i - 1;
            let (a, b): (u32, u32) = (self.limb(i), other.limb(i));
            proof {
                lemma_limbs_bound(x, i as nat);
                lemma_limbs_bound(y, i as nat);
                let w = limb_weight(i as nat);
                if a < b {
                    assert(a * w + w <= b * w) by (nonlinear_arith)
                        requires
                            a + 1 <= b,
                    ;
                } else if b < a {
                    assert(b * w + w <= a * w) by (nonlinear_arith)
                        requires
                            b + 1 <= a,
                    ;
                }
            }
            if a != b {
                return a < b;
            }
        }
        false
    }

    /// The difference from a number that is not greater.
    pub fn minus(&self, other: &Natural) -> (r: Natural)
        requires
            other@ <= self@,
        ensures
            r@ == self@ - other@,
    {
        let n: usize = longer(self.limbs.len(), other.limbs.len());
        let mut out: Vec<u32> = Vec::with_capacity(n);
        let mut borrow: u64 = 0;
        let mut i: usize = 0;
        proof {
            assert(0 * limb_weight(0) == 0) by (nonlinear_arith);
        }
        while i < n
            invariant
                i <= n,
                out@.len() == i,
                borrow <= 1,
                limbs_value(out@, i as nat) + limbs_value(other.limbs@, i as nat) == limbs_value(
                    self.limbs@,
                    i as nat,
                ) + borrow * limb_weight(i as nat),
            decreases n - i,
        {
            let a: u64 = self.limb(i) as u64;
            let b: u64 = other.limb(i) as u64 + borrow;
            let t: u64 = if a < b {
                a + LIMB_BASE - b
            } else {
                a - b
            };
            let next: u64 = if a < b {
                1
            } else {
                0
            };
            let ghost before = out@;
            out.push(t as u32);
            proof {
                let w = limb_weight(i as nat);
                let base = LIMB_BASE as nat;
                lemma_limbs_same(before, out@, i as nat);
                let (d, c, e) = (b - borrow, borrow as int, next as int);
                assert(t * w + d * w == a * w - c * w + e * (base * w)) by (nonlinear_arith)
                    requires
                        t + d + c == a + e * base,
                ;
            }
            borrow = next;
            i = i + 1;
        }
        proof {
            lemma_limbs_beyond(self.limbs@, n as nat);
            lemma_limbs_beyond(other.limbs@, n as nat);
            lemma_limbs_bound(out@, n as nat);
            if borrow == 1 {
                assert(1 * limb_weight(n as nat) == limb_weight(n as nat)) by (nonlinear_arith);
            }
            assert(0 * limb_weight(n as nat) == 0) by (nonlinear_arith);
        }
        Natural { limbs: out }
    }

    /// The product with `2^k`.
    pub fn times_power_of_two(self, k: u32) -> (r: Natural)
        ensures
            r@ == self@ * pow2(k as nat),
    {
        let mut r: Natural = self;
        let mut i: u32 = 0;
        proof {
            lemma2_to64();
            assert(self@ * 1 == self@) by (nonlinear_arith);
        }
        while k - i >= STEP
            invariant
                i <= k,
                r@ == self@ * pow2(i as nat),
            decreases k - i,
        {
            proof {
                lemma2_to64();
                lemma_pow2_adds(i as nat, STEP as nat);
                let (v, p) = (self@, pow2(i as nat));
                assert((v * p) * 0x8000_0000 == v * (p * 0x8000_0000)) by (nonlinear_arith);
            }
            r = r.times(0x8000_0000);
            i = i + STEP;
        }
        let left: u32 = k - i;
        let mut factor: u32 = 1;
        let mut j: u32 = 0;
        while j < left
            invariant
                j <= left < STEP,
                factor == pow2(j as nat),
            decreases left - j,
        {
            proof {
                lemma2_to64();
                lemma_pow2_unfold((j + 1) as nat);
                lemma_pow2_strictly_increases((j + 1) as nat, STEP as nat + 1);
            }
            factor = 2 * factor;
            j = j + 1;
        }
        proof {
            lemma_pow2_adds(i as nat, left as nat);
            let (v, p, q) = (self@, pow2(i as nat), pow2(left as nat));
            assert((v * p) * q == v * (p * q)) by (nonlinear_arith);
        }
        r.times(factor)
    }

    /// The number `2^k`.
    pub fn power_of_two(k: u32) -> (r: Natural)
        ensures
            r@ == pow2(k as nat),
    {
        let unit: Natural = Natural::from_u64(1);
        proof {
            let (u, p) = (unit@, pow2(k as nat));
            assert(u * p == p) by (nonlinear_arith)
                requires
                    u == 1,
            ;
        }
        unit.times_power_of_two(k)
    }
}

} // verus!
