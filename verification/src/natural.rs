//! Natural numbers of any size, held in base 2^32 with the least significant limb first.

use vstd::arithmetic::power2::{lemma_pow2_unfold, pow2};
use vstd::prelude::*;

verus! {

/// The base of the limb representation.
pub open spec fn base() -> nat {
    0x1_0000_0000
}

/// The number that a sequence of limbs stands for.
pub open spec fn limbs_value(limbs: Seq<u32>) -> nat
    decreases limbs.len(),
{
    if limbs.len() == 0 {
        0
    } else {
        limbs[0] as nat + base() * limbs_value(limbs.skip(1))
    }
}

/// The power of the base that belongs to the limb at `i`.
pub open spec fn weight(i: nat) -> nat
    decreases i,
{
    if i == 0 {
        1
    } else {
        base() * weight((i - 1) as nat)
    }
}

/// Appending one more significant limb adds that limb times its weight.
proof fn lemma_push(limbs: Seq<u32>, d: u32)
    ensures
        limbs_value(limbs.push(d)) == limbs_value(limbs) + d * weight(limbs.len()),
    decreases limbs.len(),
{
    let all = limbs.push(d);
    if limbs.len() == 0 {
        assert(all.skip(1) =~= Seq::<u32>::empty());
        assert(limbs_value(all.skip(1)) == 0);
        assert(weight(0) == 1);
    } else {
        let tail = limbs.skip(1);
        assert(all.skip(1) =~= tail.push(d));
        lemma_push(tail, d);
        let w = weight(tail.len());
        assert(weight(limbs.len()) == base() * w);
        let v = limbs_value(tail);
        assert(base() * (v + d * w) == base() * v + d * (base() * w)) by (nonlinear_arith);
        assert(limbs_value(all) == all[0] as nat + base() * limbs_value(all.skip(1)));
    }
}

/// A natural number of any size.
pub struct Natural {
    pub limbs: Vec<u32>,
}

impl View for Natural {
    type V = nat;

    open spec fn view(&self) -> nat {
        limbs_value(self.limbs@)
    }
}

impl Natural {
    /// The number zero.
    pub fn zero() -> (r: Natural)
        ensures
            r@ == 0,
    {
        Natural { limbs: Vec::new() }
    }

    /// The number `n`.
    pub fn from_u64(n: u64) -> (r: Natural)
        ensures
            r@ == n,
    {
        let mut r = Natural::zero();
        r.mul_add(0, n);
        r
    }

    /// An equal number in storage of its own.
    pub fn duplicate(&self) -> (r: Natural)
        ensures
            r@ == self@,
    {
        let mut limbs: Vec<u32> = Vec::new();
        let mut i: usize = 0;
        while i < self.limbs.len()
            invariant
                i <= self.limbs.len(),
                limbs@ == self.limbs@.take(i as int),
            decreases self.limbs.len() - i,
        {
            limbs.push(self.limbs[i]);
            i = i + 1;
            assert(limbs@ =~= self.limbs@.take(i as int));
        }
        assert(limbs@ =~= self.limbs@);
        Natural { limbs }
    }

    /// Multiplies by `m` and adds `a`.
    pub fn mul_add(&mut self, m: u64, a: u64)
        ensures
            final(self)@ == old(self)@ * m + a,
    {
        let ghost whole = self.limbs@;
        let mut out: Vec<u32> = Vec::new();
        let mut carry: u64 = a;
        let mut i: usize = 0;
        proof {
            assert(whole.skip(0) =~= whole);
            assert(limbs_value(Seq::<u32>::empty()) == 0);
            assert(out@ =~= Seq::<u32>::empty());
            assert(weight(0) == 1);
            let v = limbs_value(whole);
            assert(1 * (a + m * v) == v * m + a) by (nonlinear_arith);
        }
        while i < self.limbs.len()
            invariant
                self.limbs@ == whole,
                i <= whole.len(),
                out@.len() == i,
                limbs_value(out@) + weight(i as nat) * (carry + m * limbs_value(whole.skip(i as int)))
                    == limbs_value(whole) * m + a,
            decreases whole.len() - i,
        {
            let d: u32 = self.limbs[i];
            assert((d as int) * (m as int) + carry <= 0xffff_ffff * 0xffff_ffff_ffff_ffff
                + 0xffff_ffff_ffff_ffff) by (nonlinear_arith)
                requires
                    d <= 0xffff_ffff,
                    m <= 0xffff_ffff_ffff_ffff,
                    carry <= 0xffff_ffff_ffff_ffff,
            ;
            assert(0 <= (d as int) * (m as int)) by (nonlinear_arith);
            let t: u128 = (d as u128) * (m as u128) + (carry as u128);
            let low: u32 = (t % 0x1_0000_0000) as u32;
            let next: u64 = (t / 0x1_0000_0000) as u64;
            proof {
                let rest = whole.skip(i as int);
                let tail = whole.skip(i + 1);
                assert(rest.skip(1) =~= tail);
                assert(limbs_value(rest) == d as nat + base() * limbs_value(tail));
                lemma_push(out@, low);
                let w = weight(i as nat);
                let v = limbs_value(tail);
                assert(weight((i + 1) as nat) == base() * w);
                assert(t == low + base() * next);
                assert(m * (d + base() * v) == d * m + base() * (m * v)) by (nonlinear_arith);
                assert(carry + m * limbs_value(rest) == t + base() * (m * v));
                assert(w * (low + base() * next + base() * (m * v)) == low * w + (base() * w) * (next + m
                    * v)) by (nonlinear_arith);
            }
            out.push(low);
            carry = next;
            i = i + 1;
        }
        proof {
            assert(whole.skip(i as int) =~= Seq::<u32>::empty());
            assert(limbs_value(whole.skip(i as int)) == 0);
            assert(m * 0 == 0) by (nonlinear_arith);
        }
        while carry > 0
            invariant
                limbs_value(out@) + weight(out@.len()) * carry == limbs_value(whole) * m + a,
            decreases carry,
        {
            let low: u32 = (carry % 0x1_0000_0000) as u32;
            let next: u64 = carry / 0x1_0000_0000;
            proof {
                lemma_push(out@, low);
                let w = weight(out@.len());
                assert(weight(out@.len() + 1) == base() * w);
                assert(carry == low + base() * next);
                assert(w * (low + base() * next) == low * w + (base() * w) * next) by (nonlinear_arith);
            }
            out.push(low);
            carry = next;
        }
        proof {
            let w = weight(out@.len());
            assert(w * 0 == 0) by (nonlinear_arith);
        }
        self.limbs = out;
    }

    /// Multiplies by the `k`-th power of two.
    pub fn shift_left(&mut self, k: usize)
        ensures
            final(self)@ == old(self)@ * pow2(k as nat),
    {
        let bits: usize = k % 32;
        let words: usize = k / 32;
        let mut factor: u64 = 1;
        let mut j: usize = 0;
        assert(pow2(0) == 1) by {
            vstd::arithmetic::power2::lemma2_to64();
        }
        while j < bits
            invariant
                j <= bits < 32,
                factor == pow2(j as nat),
                factor <= 0x1_0000_0000,
            decreases bits - j,
        {
            proof {
                lemma_pow2_unfold((j + 1) as nat);
                vstd::arithmetic::power2::lemma2_to64();
                if j < 31 {
                    vstd::arithmetic::power2::lemma_pow2_strictly_increases((j + 1) as nat, 32);
                }
                assert(pow2((j + 1) as nat) <= pow2(32)) by {
                    if j + 1 < 32 {
                        vstd::arithmetic::power2::lemma_pow2_strictly_increases((j + 1) as nat, 32);
                    }
                }
            }
            factor = factor * 2;
            j = j + 1;
        }
        let ghost v0 = self@;
        self.mul_add(factor, 0);
        let mut out: Vec<u32> = Vec::new();
        let mut i: usize = 0;
        let ghost mid = self.limbs@;
        while i < words
            invariant
                i <= words,
                out@ == Seq::new(i as nat, |z: int| 0u32),
            decreases words - i,
        {
            out.push(0);
            i = i + 1;
            assert(out@ =~= Seq::new(i as nat, |z: int| 0u32));
        }
        let mut n: usize = 0;
        while n < self.limbs.len()
            invariant
                self.limbs@ == mid,
                n <= mid.len(),
                out@ == Seq::new(words as nat, |z: int| 0u32) + mid.take(n as int),
            decreases mid.len() - n,
        {
            out.push(self.limbs[n]);
            n = n + 1;
            assert(out@ =~= Seq::new(words as nat, |z: int| 0u32) + mid.take(n as int));
        }
        proof {
            assert(mid.take(n as int) =~= mid);
            lemma_zeros(words as nat, mid);
            lemma_weight(words as nat);
            vstd::arithmetic::power2::lemma_pow2_adds(bits as nat, (32 * words) as nat);
            let p = pow2(bits as nat);
            let w = pow2((32 * words) as nat);
            assert((v0 * p) * w == v0 * (p * w)) by (nonlinear_arith);
        }
        self.limbs = out;
    }

    /// How `self` compares with `other`.
    pub fn compare(&self, other: &Natural) -> (r: Relation)
        ensures
            r == relation(self@, other@),
    {
        let n: usize = if self.limbs.len() < other.limbs.len() {
            other.limbs.len()
        } else {
            self.limbs.len()
        };
        let ghost a = self.limbs@;
        let ghost b = other.limbs@;
        let mut i: usize = n;
        let mut r = Relation::Same;
        proof {
            assert(tail_value(a, n as int) == 0);
            assert(tail_value(b, n as int) == 0);
        }
        while i > 0
            invariant
                a == self.limbs@,
                b == other.limbs@,
                i <= n,
                r == relation(tail_value(a, i as int), tail_value(b, i as int)),
            decreases i,
        {
            i = i - 1;
            let x: u32 = if i < self.limbs.len() {
                self.limbs[i]
            } else {
                0
            };
            let y: u32 = if i < other.limbs.len() {
                other.limbs[i]
            } else {
                0
            };
            proof {
                lemma_tail(a, i as int, x);
                lemma_tail(b, i as int, y);
                let ta = tail_value(a, i + 1);
                let tb = tail_value(b, i + 1);
                if ta < tb {
                    assert(base() * ta + base() <= base() * tb) by (nonlinear_arith)
                        requires
                            ta + 1 <= tb,
                    ;
                }
                if tb < ta {
                    assert(base() * tb + base() <= base() * ta) by (nonlinear_arith)
                        requires
                            tb + 1 <= ta,
                    ;
                }
            }
            match r {
                Relation::Same => {
                    if x < y {
                        r = Relation::Below;
                    } else if y < x {
                        r = Relation::Above;
                    }
                },
                _ => {},
            }
        }
        assert(a.skip(0) =~= a);
        assert(b.skip(0) =~= b);
        r
    }

    /// Divides by `d` and returns the remainder.
    pub fn div_rem(&mut self, d: u32) -> (rem: u32)
        requires
            d > 0,
        ensures
            final(self)@ == old(self)@ / (d as nat),
            rem == old(self)@ % (d as nat),
    {
        let ghost whole = self.limbs@;
        let mut rem: u32 = 0;
        let mut i: usize = self.limbs.len();
        proof {
            assert(whole.skip(i as int) =~= Seq::<u32>::empty());
            assert(self.limbs@.skip(i as int) =~= Seq::<u32>::empty());
            assert(limbs_value(Seq::<u32>::empty()) == 0);
            assert(d * 0 == 0) by (nonlinear_arith);
        }
        while i > 0
            invariant
                i <= whole.len(),
                d > 0,
                rem < d,
                self.limbs@.len() == whole.len(),
                self.limbs@.take(i as int) == whole.take(i as int),
                limbs_value(whole.skip(i as int)) == d * limbs_value(self.limbs@.skip(i as int)) + rem,
            decreases i,
        {
            i = i - 1;
            let x: u32 = self.limbs[i];
            let ghost before = self.limbs@;
            let t: u64 = (rem as u64) * 0x1_0000_0000 + (x as u64);
            assert(t / (d as u64) < 0x1_0000_0000) by (nonlinear_arith)
                requires
                    t == rem * 0x1_0000_0000 + x,
                    rem < d,
                    x < 0x1_0000_0000,
                    d > 0,
            ;
            let q: u32 = (t / (d as u64)) as u32;
            let nr: u32 = (t % (d as u64)) as u32;
            proof {
                assert(x == whole.take(i + 1)[i as int]);
                assert(whole.skip(i as int).skip(1) =~= whole.skip(i + 1));
            }
            self.limbs.set(i, q);
            proof {
                let after = self.limbs@;
                assert(after.skip(i as int).skip(1) =~= before.skip(i + 1));
                assert(after.skip(i as int)[0] == q);
                assert(after.take(i as int) =~= whole.take(i as int)) by {
                    assert(before.take(i + 1).take(i as int) =~= before.take(i as int));
                    assert(whole.take(i + 1).take(i as int) =~= whole.take(i as int));
                }
                let v = limbs_value(before.skip(i + 1));
                assert(t == (d as int) * (q as int) + nr) by {
                    vstd::arithmetic::div_mod::lemma_fundamental_div_mod(t as int, d as int);
                }
                assert(x + base() * (d * v + rem) == d * (q + base() * v) + nr) by (nonlinear_arith)
                    requires
                        t == rem * base() + x,
                        t == (d as int) * (q as int) + nr,
                ;
            }
            rem = nr;
        }
        proof {
            assert(whole.skip(0) =~= whole);
            assert(self.limbs@.skip(0) =~= self.limbs@);
            let v = limbs_value(self.limbs@);
            assert(d * v == v * d) by (nonlinear_arith);
            vstd::arithmetic::div_mod::lemma_fundamental_div_mod_converse(
                limbs_value(whole) as int,
                d as int,
                v as int,
                rem as int,
            );
        }
        rem
    }

    /// Whether the number is zero.
    pub fn is_zero(&self) -> (r: bool)
        ensures
            r == (self@ == 0),
    {
        match self.compare(&Natural::zero()) {
            Relation::Same => true,
            _ => false,
        }
    }
}

/// The outcome of comparing two numbers.
#[derive(Clone, Copy, PartialEq, Eq, Structural, Debug)]
pub enum Relation {
    Below,
    Same,
    Above,
}

/// How `a` compares with `b`.
pub open spec fn relation(a: nat, b: nat) -> Relation {
    if a < b {
        Relation::Below
    } else if a == b {
        Relation::Same
    } else {
        Relation::Above
    }
}

/// The value of the limbs from `i` on, zero past the end.
spec fn tail_value(limbs: Seq<u32>, i: int) -> nat {
    if i < limbs.len() {
        limbs_value(limbs.skip(i))
    } else {
        0
    }
}

proof fn lemma_tail(limbs: Seq<u32>, i: int, x: u32)
    requires
        0 <= i,
        x == (if i < limbs.len() {
            limbs[i]
        } else {
            0
        }),
    ensures
        tail_value(limbs, i) == x + base() * tail_value(limbs, i + 1),
{
    if i < limbs.len() {
        let rest = limbs.skip(i);
        assert(rest.skip(1) =~= limbs.skip(i + 1));
        if i + 1 == limbs.len() {
            assert(limbs_value(limbs.skip(i + 1)) == 0);
        }
    }
}

/// Putting `k` zero limbs below a number multiplies it by the weight of `k`.
proof fn lemma_zeros(k: nat, limbs: Seq<u32>)
    ensures
        limbs_value(Seq::new(k, |z: int| 0u32) + limbs) == limbs_value(limbs) * weight(k),
    decreases k,
{
    let all = Seq::new(k, |z: int| 0u32) + limbs;
    if k == 0 {
        assert(all =~= limbs);
        assert(weight(0) == 1);
    } else {
        lemma_zeros((k - 1) as nat, limbs);
        assert(all.skip(1) =~= Seq::new((k - 1) as nat, |z: int| 0u32) + limbs);
        let v = limbs_value(limbs);
        let w = weight((k - 1) as nat);
        assert(base() * (v * w) == v * (base() * w)) by (nonlinear_arith);
    }
}

proof fn lemma_weight(i: nat)
    ensures
        weight(i) == pow2(32 * i),
    decreases i,
{
    vstd::arithmetic::power2::lemma2_to64();
    if i > 0 {
        lemma_weight((i - 1) as nat);
        vstd::arithmetic::power2::lemma_pow2_adds(32, (32 * (i - 1)) as nat);
    }
}

} // verus!
