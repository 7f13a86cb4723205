//! Natural numbers of any size, as far as rounding a decimal fraction needs them.

use vstd::arithmetic::power2::{lemma2_to64, lemma_pow2_unfold, pow2};
use vstd::prelude::*;

verus! {

/// What one limb more is worth.
pub open spec fn base() -> nat {
    0x1_0000_0000
}

/// What a limb at position `i` is worth.
pub open spec fn weight(i: nat) -> nat
    decreases i,
{
    if i == 0 {
        1
    } else {
        base() * weight((i - 1) as nat)
    }
}

/// The number that limbs stand for, least significant limb first.
pub open spec fn value(s: Seq<u32>) -> nat
    decreases s.len(),
{
    if s.len() == 0 {
        0
    } else {
        value(s.drop_last()) + s.last() as nat * weight((s.len() - 1) as nat)
    }
}

/// How two numbers compare.
#[derive(Debug, Clone, Copy, PartialEq, Eq, Structural)]
pub enum Relation {
    Less,
    Same,
    More,
}

/// How `a` compares with `b`.
pub open spec fn relation(a: int, b: int) -> Relation {
    if a < b {
        Relation::Less
    } else if a == b {
        Relation::Same
    } else {
        Relation::More
    }
}

proof fn lemma_push(s: Seq<u32>, x: u32)
    ensures
        value(s.push(x)) == value(s) + x as nat * weight(s.len()),
{
    assert(s.push(x).drop_last() =~= s);
}

proof fn lemma_take(s: Seq<u32>, i: int)
    requires
        0 <= i < s.len(),
    ensures
        value(s.take(i + 1)) == value(s.take(i)) + s[i] as nat * weight(i as nat),
{
    assert(s.take(i + 1).drop_last() =~= s.take(i));
}

proof fn lemma_weight(i: nat)
    ensures
        weight(i) >= 1,
        weight(i + 1) == base() * weight(i),
    decreases i,
{
    if i > 0 {
        lemma_weight((i - 1) as nat);
        assert(base() * weight((i - 1) as nat) >= 1) by (nonlinear_arith)
            requires
                base() == 0x1_0000_0000,
                weight((i - 1) as nat) >= 1,
        ;
    }
}

proof fn lemma_bound(s: Seq<u32>)
    ensures
        value(s) < weight(s.len()),
    decreases s.len(),
{
    if s.len() > 0 {
        let n = (s.len() - 1) as nat;
        lemma_bound(s.drop_last());
        lemma_weight(n);
        let w = weight(n);
        let x = s.last() as nat;
        assert(w + x * w <= base() * w) by (nonlinear_arith)
            requires
                x < base(),
                w >= 1,
        ;
    }
}

proof fn lemma_zero_tail(s: Seq<u32>, i: int)
    requires
        0 <= i <= s.len(),
        forall|j: int| i <= j < s.len() ==> s[j] == 0,
    ensures
        value(s) == value(s.take(i)),
    decreases s.len() - i,
{
    if i == s.len() {
        assert(s.take(i) =~= s);
    } else {
        lemma_zero_tail(s.drop_last(), i);
        assert(s.drop_last().take(i) =~= s.take(i));
        assert(s.last() as nat * weight((s.len() - 1) as nat) == 0) by (nonlinear_arith)
            requires
                s.last() == 0,
        ;
    }
}

/// A natural number.
pub struct Natural {
    limbs: Vec<u32>,
}

impl View for Natural {
    type V = nat;

    closed spec fn view(&self) -> nat {
        value(self.limbs@)
    }
}

impl Natural {
    pub fn zero() -> (r: Self)
        ensures
            r@ == 0,
    {
        Natural { limbs: Vec::new() }
    }

    pub fn copy(&self) -> (r: Self)
        ensures
            r@ == self@,
    {
        let mut limbs: Vec<u32> = Vec::new();
        let mut i: usize = 0;
        while i < self.limbs.len()
            invariant
                i <= self.limbs@.len(),
                limbs@ == self.limbs@.take(i as int),
            decreases self.limbs@.len() - i,
        {
            limbs.push(self.limbs[i]);
            i += 1;
        }
        assert(self.limbs@.take(i as int) =~= self.limbs@);
        Natural { limbs }
    }

    pub fn from_u64(n: u64) -> (r: Self)
        ensures
            r@ == n,
    {
        let low: u32 = (n % 0x1_0000_0000) as u32;
        let high: u32 = (n / 0x1_0000_0000) as u32;
        let mut limbs: Vec<u32> = Vec::new();
        let ghost none = limbs@;
        limbs.push(low);
        let ghost one = limbs@;
        limbs.push(high);
        proof {
            lemma_push(none, low);
            lemma_push(one, high);
            assert(weight(0) == 1);
            reveal_with_fuel(weight, 2);
            assert(weight(1) == 0x1_0000_0000);
            assert(low as nat * weight(0) == low as nat) by (nonlinear_arith)
                requires
                    weight(0) == 1,
            ;
            assert(high as nat * weight(1) == high as nat * 0x1_0000_0000) by (nonlinear_arith)
                requires
                    weight(1) == 0x1_0000_0000,
            ;
        }
        Natural { limbs }
    }

    /// Multiplies by `factor` and adds `addend`.
    pub fn mul_add(&mut self, factor: u32, addend: u32)
        ensures
            final(self)@ == old(self)@ * factor + addend,
    {
        let mut out: Vec<u32> = Vec::new();
        let mut carry: u64 = addend as u64;
        let mut i: usize = 0;
        let ghost before = self.limbs@;
        assert(before.take(0) =~= Seq::<u32>::empty());
        proof {
            assert(carry as nat * weight(0) == carry as nat) by (nonlinear_arith)
                requires
                    weight(0) == 1,
            ;
            assert(0 * factor as nat == 0) by (nonlinear_arith);
        }
        while i < self.limbs.len()
            invariant
                before == self.limbs@,
                i <= before.len(),
                out@.len() == i,
                carry < 0x1_0000_0000,
                value(out@) + carry as nat * weight(i as nat) == value(before.take(i as int))
                    * factor as nat + addend as nat,
            decreases before.len() - i,
        {
            let limb: u32 = self.limbs[i];
            assert(limb as u64 * factor as u64 + carry <= 0xFFFF_FFFF * 0xFFFF_FFFF + 0xFFFF_FFFF)
                by (nonlinear_arith)
                requires
                    limb <= 0xFFFF_FFFFu32,
                    factor <= 0xFFFF_FFFFu32,
                    carry <= 0xFFFF_FFFFu64,
            ;
            let sum: u64 = limb as u64 * factor as u64 + carry;
            let low: u32 = (sum % 0x1_0000_0000) as u32;
            let next: u64 = sum / 0x1_0000_0000;
            let ghost prior = out@;
            out.push(low);
            proof {
                lemma_push(prior, low);
                lemma_take(before, i as int);
                lemma_weight(i as nat);
                let w = weight(i as nat) as int;
                let c = carry as int;
                let l = limb as int;
                let f = factor as int;
                let lo = low as int;
                let hi = next as int;
                let b = base() as int;
                let prefix = value(before.take(i as int)) as int;
                assert(lo * w + hi * (b * w) == l * f * w + c * w) by (nonlinear_arith)
                    requires
                        lo + hi * b == l * f + c,
                ;
                assert((prefix + l * w) * f == prefix * f + l * f * w) by (nonlinear_arith);
            }
            carry = next;
            i += 1;
        }
        assert(before.take(i as int) =~= before);
        let ghost prior = out@;
        out.push(carry as u32);
        proof {
            lemma_push(prior, carry as u32);
        }
        self.limbs = out;
    }

    pub fn double(&mut self)
        ensures
            final(self)@ == 2 * old(self)@,
    {
        self.mul_add(2, 0);
    }

    fn limb(&self, i: usize) -> (r: u32)
        ensures
            r == (if i < self.limbs@.len() {
                self.limbs@[i as int]
            } else {
                0
            }),
    {
        if i < self.limbs.len() {
            self.limbs[i]
        } else {
            0
        }
    }

    pub fn compare(&self, other: &Natural) -> (r: Relation)
        ensures
            r == relation(self@ as int, other@ as int),
    {
        let ghost a = self.limbs@;
        let ghost b = other.limbs@;
        let mut n: usize = self.limbs.len();
        if other.limbs.len() > n {
            n = other.limbs.len();
        }
        let ghost top = n as int;
        let ghost wide_a = a + Seq::new((top - a.len()) as nat, |i: int| 0u32);
        let ghost wide_b = b + Seq::new((top - b.len()) as nat, |i: int| 0u32);
        proof {
            lemma_zero_tail(wide_a, a.len() as int);
            lemma_zero_tail(wide_b, b.len() as int);
            assert(wide_a.take(a.len() as int) =~= a);
            assert(wide_b.take(b.len() as int) =~= b);
            assert(wide_a.take(top) =~= wide_a);
            assert(wide_b.take(top) =~= wide_b);
        }
        while n > 0
            invariant
                a == self.limbs@,
                b == other.limbs@,
                n <= top,
                wide_a.len() == top,
                wide_b.len() == top,
                forall|i: int|
                    0 <= i < top ==> #[trigger] wide_a[i] == (if i < a.len() {
                        a[i]
                    } else {
                        0
                    }),
                forall|i: int|
                    0 <= i < top ==> #[trigger] wide_b[i] == (if i < b.len() {
                        b[i]
                    } else {
                        0
                    }),
                relation(self@ as int, other@ as int) == relation(
                    value(wide_a.take(n as int)) as int,
                    value(wide_b.take(n as int)) as int,
                ),
            decreases n,
        {
            let x: u32 = self.limb(n - 1);
            let y: u32 = other.limb(n - 1);
            proof {
                let m = n - 1;
                assert(wide_a[m] == x);
                assert(wide_b[m] == y);
                lemma_take(wide_a, m);
                lemma_take(wide_b, m);
                lemma_bound(wide_a.take(m));
                lemma_bound(wide_b.take(m));
                let w = weight(m as nat) as int;
                let low_a = value(wide_a.take(m)) as int;
                let low_b = value(wide_b.take(m)) as int;
                let xi = x as int;
                let yi = y as int;
                if x < y {
                    assert(low_a + xi * w < low_b + yi * w) by (nonlinear_arith)
                        requires
                            xi + 1 <= yi,
                            low_a < w,
                            low_b >= 0,
                            w >= 0,
                    ;
                }
                if x > y {
                    assert(low_a + xi * w > low_b + yi * w) by (nonlinear_arith)
                        requires
                            yi + 1 <= xi,
                            low_b < w,
                            low_a >= 0,
                            w >= 0,
                    ;
                }
            }
            if x < y {
                return Relation::Less;
            }
            if x > y {
                return Relation::More;
            }
            n -= 1;
        }
        Relation::Same
    }

    /// Adds `other`.
    pub fn increase(&mut self, other: &Natural)
        ensures
            final(self)@ == old(self)@ + other@,
    {
        let ghost a = self.limbs@;
        let ghost b = other.limbs@;
        let mut n: usize = self.limbs.len();
        if other.limbs.len() > n {
            n = other.limbs.len();
        }
        let ghost top = n as int;
        let ghost wide_a = a + Seq::new((top - a.len()) as nat, |i: int| 0u32);
        let ghost wide_b = b + Seq::new((top - b.len()) as nat, |i: int| 0u32);
        proof {
            lemma_zero_tail(wide_a, a.len() as int);
            lemma_zero_tail(wide_b, b.len() as int);
            assert(wide_a.take(a.len() as int) =~= a);
            assert(wide_b.take(b.len() as int) =~= b);
            assert(wide_a.take(0) =~= Seq::<u32>::empty());
            assert(wide_b.take(0) =~= Seq::<u32>::empty());
        }
        let mut out: Vec<u32> = Vec::new();
        let mut carry: u64 = 0;
        let mut i: usize = 0;
        while i < n
            invariant
                a == self.limbs@,
                b == other.limbs@,
                n == top,
                i <= n,
                out@.len() == i,
                carry <= 1,
                wide_a.len() == top,
                wide_b.len() == top,
                forall|k: int|
                    0 <= k < top ==> #[trigger] wide_a[k] == (if k < a.len() {
                        a[k]
                    } else {
                        0
                    }),
                forall|k: int|
                    0 <= k < top ==> #[trigger] wide_b[k] == (if k < b.len() {
                        b[k]
                    } else {
                        0
                    }),
                value(out@) + carry as nat * weight(i as nat) == value(wide_a.take(i as int))
                    + value(wide_b.take(i as int)),
            decreases n - i,
        {
            let x: u64 = self.limb(i) as u64;
            let y: u64 = other.limb(i) as u64;
            let sum: u64 = x + y + carry;
            let low: u32 = (sum % 0x1_0000_0000) as u32;
            let next: u64 = sum / 0x1_0000_0000;
            let ghost prior = out@;
            out.push(low);
            proof {
                assert(wide_a[i as int] == x);
                assert(wide_b[i as int] == y);
                lemma_push(prior, low);
                lemma_take(wide_a, i as int);
                lemma_take(wide_b, i as int);
                lemma_weight(i as nat);
                let w = weight(i as nat) as int;
                let bs = base() as int;
                let lo = low as int;
                let nx = next as int;
                let xa = x as int;
                let yb = y as int;
                let ca = carry as int;
                assert(lo * w + nx * (bs * w) == xa * w + yb * w + ca * w) by (nonlinear_arith)
                    requires
                        lo + nx * bs == xa + yb + ca,
                ;
            }
            carry = next;
            i += 1;
        }
        proof {
            assert(wide_a.take(top) =~= wide_a);
            assert(wide_b.take(top) =~= wide_b);
        }
        let ghost prior = out@;
        out.push(carry as u32);
        proof {
            lemma_push(prior, carry as u32);
        }
        self.limbs = out;
    }

    /// Doubles `times` times.
    pub fn shift(&mut self, times: u32)
        ensures
            final(self)@ == old(self)@ * pow2(times as nat),
    {
        let ghost start = self@;
        let mut i: u32 = 0;
        proof {
            lemma2_to64();
            assert(start * 1 == start) by (nonlinear_arith);
        }
        while i < times
            invariant
                i <= times,
                self@ == start * pow2(i as nat),
            decreases times - i,
        {
            self.double();
            proof {
                lemma_pow2_unfold((i + 1) as nat);
                let w = pow2(i as nat);
                assert(2 * (start * w) == start * (2 * w)) by (nonlinear_arith);
            }
            i += 1;
        }
    }

    /// Takes `other` away.
    pub fn subtract(&mut self, other: &Natural)
        requires
            other@ <= old(self)@,
        ensures
            final(self)@ == old(self)@ - other@,
    {
        let ghost a = self.limbs@;
        let ghost b = other.limbs@;
        let mut n: usize = self.limbs.len();
        if other.limbs.len() > n {
            n = other.limbs.len();
        }
        let ghost top = n as int;
        let ghost wide_a = a + Seq::new((top - a.len()) as nat, |i: int| 0u32);
        let ghost wide_b = b + Seq::new((top - b.len()) as nat, |i: int| 0u32);
        proof {
            lemma_zero_tail(wide_a, a.len() as int);
            lemma_zero_tail(wide_b, b.len() as int);
            assert(wide_a.take(a.len() as int) =~= a);
            assert(wide_b.take(b.len() as int) =~= b);
            assert(wide_a.take(0) =~= Seq::<u32>::empty());
            assert(wide_b.take(0) =~= Seq::<u32>::empty());
        }
        let mut out: Vec<u32> = Vec::new();
        let mut borrow: u64 = 0;
        let mut i: usize = 0;
        while i < n
            invariant
                a == self.limbs@,
                b == other.limbs@,
                n == top,
                i <= n,
                out@.len() == i,
                borrow <= 1,
                wide_a.len() == top,
                wide_b.len() == top,
                forall|k: int|
                    0 <= k < top ==> #[trigger] wide_a[k] == (if k < a.len() {
                        a[k]
                    } else {
                        0
                    }),
                forall|k: int|
                    0 <= k < top ==> #[trigger] wide_b[k] == (if k < b.len() {
                        b[k]
                    } else {
                        0
                    }),
                value(out@) as int == value(wide_a.take(i as int)) - value(wide_b.take(i as int))
                    + borrow as int * weight(i as nat),
            decreases n - i,
        {
            let x: u64 = self.limb(i) as u64;
            let y: u64 = other.limb(i) as u64 + borrow;
            let (digit, next): (u64, u64) = if x >= y {
                (x - y, 0)
            } else {
                (x + 0x1_0000_0000 - y, 1)
            };
            let ghost prior = out@;
            out.push(digit as u32);
            proof {
                assert(wide_a[i as int] == x);
                lemma_push(prior, digit as u32);
                lemma_take(wide_a, i as int);
                lemma_take(wide_b, i as int);
                lemma_weight(i as nat);
                let w = weight(i as nat) as int;
                let bs = base() as int;
                let d = digit as int;
                let nx = next as int;
                let xa = x as int;
                let yb = wide_b[i as int] as int;
                let bo = borrow as int;
                assert(d * w == xa * w - yb * w - bo * w + nx * (bs * w)) by (nonlinear_arith)
                    requires
                        d == xa - yb - bo + nx * bs,
                ;
            }
            borrow = next;
            i += 1;
        }
        proof {
            assert(wide_a.take(top) =~= wide_a);
            assert(wide_b.take(top) =~= wide_b);
            lemma_bound(out@);
            lemma_weight(n as nat);
            if borrow == 1 {
                assert(borrow as int * weight(n as nat) == weight(n as nat)) by (nonlinear_arith)
                    requires
                        borrow == 1,
                ;
            } else {
                assert(borrow as int * weight(n as nat) == 0) by (nonlinear_arith)
                    requires
                        borrow == 0,
                ;
            }
        }
        self.limbs = out;
    }
}

} // verus!
