//! Lengths of time, counted in nanoseconds.

use vstd::arithmetic::power2::{
    lemma2_to64, lemma_pow2_adds, lemma_pow2_pos, lemma_pow2_strictly_increases, pow2,
};
use vstd::prelude::*;

use crate::number::{
    lemma_near, lemma_near_is_rounded, lemma_near_whole, lemma_rounded_at_least, lemma_rounded_at_most,
    lemma_rounded_exact, near, Number,
};
use crate::text::{decimal, push_decimal, push_wide_decimal};

verus! {

/// A length of time.
#[derive(Debug, Clone, Copy, PartialEq, Eq, Structural)]
pub struct Duration {
    pub nanos: u128,
}

impl Duration {
    pub fn zero() -> (r: Duration)
        ensures
            r.nanos == 0,
    {
        Duration { nanos: 0 }
    }

    pub fn from_secs(secs: u64) -> (r: Duration)
        ensures
            r.nanos == secs * 1_000_000_000,
    {
        Duration { nanos: secs as u128 * 1_000_000_000 }
    }

    pub fn from_millis(millis: u64) -> (r: Duration)
        ensures
            r.nanos == millis * 1_000_000,
    {
        Duration { nanos: millis as u128 * 1_000_000 }
    }

    pub fn from_micros(micros: u64) -> (r: Duration)
        ensures
            r.nanos == micros * 1_000,
    {
        Duration { nanos: micros as u128 * 1_000 }
    }

    /// Whole seconds, as many as fit.
    pub fn as_secs(self) -> (r: u64)
        ensures
            r == (if self.nanos / 1_000_000_000 <= u64::MAX {
                (self.nanos / 1_000_000_000) as int
            } else {
                u64::MAX as int
            }),
    {
        let secs: u128 = self.nanos / 1_000_000_000;
        if secs <= u64::MAX as u128 {
            secs as u64
        } else {
            u64::MAX
        }
    }

    /// What is left of `self` when `other` has passed.
    pub fn saturating_sub(self, other: Duration) -> (r: Duration)
        ensures
            r == self.since(other),
    {
        if self.nanos >= other.nanos {
            Duration { nanos: self.nanos - other.nanos }
        } else {
            Duration { nanos: 0 }
        }
    }

    /// The two lengths together, as far as they can be counted.
    pub open spec fn and(self, other: Duration) -> Duration {
        if self.nanos + other.nanos <= u128::MAX {
            Duration { nanos: (self.nanos + other.nanos) as u128 }
        } else {
            Duration { nanos: u128::MAX }
        }
    }

    pub fn saturating_add(self, other: Duration) -> (r: Duration)
        ensures
            r == self.and(other),
    {
        if self.nanos <= u128::MAX - other.nanos {
            Duration { nanos: self.nanos + other.nanos }
        } else {
            Duration { nanos: u128::MAX }
        }
    }

    /// What has passed since an earlier moment.
    pub open spec fn since(self, earlier: Duration) -> Duration {
        if self.nanos >= earlier.nanos {
            Duration { nanos: (self.nanos - earlier.nanos) as u128 }
        } else {
            Duration { nanos: 0 }
        }
    }

    pub fn min(self, other: Duration) -> (r: Duration)
        ensures
            r.nanos == (if self.nanos <= other.nanos {
                self.nanos
            } else {
                other.nanos
            }),
    {
        if self.nanos <= other.nanos {
            self
        } else {
            other
        }
    }

    pub fn max(self, other: Duration) -> (r: Duration)
        ensures
            r.nanos == (if self.nanos >= other.nanos {
                self.nanos
            } else {
                other.nanos
            }),
    {
        if self.nanos >= other.nanos {
            self
        } else {
            other
        }
    }
}

/// How far a rounded count of up to `bits` bits can go.
proof fn lemma_counted(n: nat, bits: nat)
    requires
        n <= pow2(bits),
    ensures
        crate::number::rounded(n, 1) <= pow2(bits + 150),
{
    let w = pow2(149);
    let b = pow2(bits);
    lemma_pow2_adds(bits, 149);
    assert(n * w <= 1 * (b * w)) by (nonlinear_arith)
        requires
            n <= b,
    ;
    lemma_rounded_at_most(n, 1, bits + 149);
}

/// A length of time as a number of seconds: whole seconds and the rest are each
/// rounded on their own, then their sum.
pub open spec fn seconds_of(nanos: nat) -> Number {
    let whole = near(false, nanos / 1_000_000_000, 1);
    let rest = near(false, nanos % 1_000_000_000, 1).quotient(near(false, 1_000_000_000, 1));
    near(false, whole.units() + rest.units(), pow2(149))
}

impl Duration {
    /// The length of time as a number of seconds.
    pub fn as_number(self) -> (r: Number)
        requires
            self.nanos <= u64::MAX * 1_000_000_000,
        ensures
            r == seconds_of(self.nanos as nat),
            r.wf(),
            r is Finite,
            !r.is_negative(),
    {
        let whole = Number::ratio((self.nanos / 1_000_000_000) as u64, 1);
        let rest = Number::ratio((self.nanos % 1_000_000_000) as u64, 1);
        let second = Number::ratio(1_000_000_000, 1);
        proof {
            lemma2_to64();
            lemma_pow2_strictly_increases(214, 277);
            lemma_pow2_strictly_increases(180, 277);
            lemma_pow2_pos(178);
            lemma_counted((self.nanos / 1_000_000_000) as nat, 64);
            lemma_counted((self.nanos % 1_000_000_000) as nat, 30);
            lemma_counted(1_000_000_000, 30);
            lemma2_to64();
            lemma_pow2_adds(29, 149);
            let w = pow2(149);
            assert(1_000_000_000 * w >= 1 * (0x2000_0000 * w)) by (nonlinear_arith);
            lemma_rounded_at_least(1_000_000_000, 1, 178);
            assert(second->mantissa > 0) by {
                let m = second->mantissa as nat;
                let e = pow2((second->exponent + 149) as nat);
                assert(m == 0 ==> m * e == 0) by (nonlinear_arith);
            }
        }
        let part = rest.over(second);
        proof {
            let p = rest.units();
            let q = second.units();
            lemma_pow2_adds(180, 149);
            lemma_pow2_adds(178, 151);
            let w = pow2(149);
            let a = pow2(180);
            let b = pow2(178);
            let c = pow2(151);
            assert(p * w <= q * c) by (nonlinear_arith)
                requires
                    p <= a,
                    q >= b,
                    a * w == b * c,
            ;
            lemma_rounded_at_most(p, q, 151);
            lemma_pow2_strictly_increases(152, 277);
            let sum = whole.units() + part.units();
            lemma_pow2_strictly_increases(152, 214);
            lemma_pow2_adds(214, 1);
            lemma2_to64();
            assert(sum <= pow2(215));
            let d = pow2(215);
            assert(sum * w <= w * d) by (nonlinear_arith)
                requires
                    sum <= d,
            ;
            lemma_pow2_pos(149);
            lemma_rounded_at_most(sum, w, 215);
            lemma_pow2_strictly_increases(216, 277);
        }
        whole.plus(part)
    }
}

// ---------------------------------------------------------------------------
// As text
// ---------------------------------------------------------------------------

/// `n` in exactly `width` decimal digits.
pub open spec fn padded(n: nat, width: nat) -> Seq<char>
    decreases width,
{
    if width == 0 {
        Seq::empty()
    } else {
        padded(n / 10, (width - 1) as nat).push(crate::text::digit(n))
    }
}

/// The decimals behind the point: `n` of `width` digits without the zeros at
/// its end, and nothing at all for zero.
pub open spec fn fraction(n: nat, width: nat) -> Seq<char>
    decreases width,
{
    if n == 0 || width == 0 {
        Seq::empty()
    } else if n % 10 == 0 {
        fraction(n / 10, (width - 1) as nat)
    } else {
        seq!['.'] + padded(n, width)
    }
}

/// A length of time in the largest unit of which it is at least one.
pub open spec fn shown(nanos: nat) -> Seq<char> {
    if nanos >= 1_000_000_000 {
        decimal(nanos / 1_000_000_000) + fraction(nanos % 1_000_000_000, 9) + "s"@
    } else if nanos >= 1_000_000 {
        decimal(nanos / 1_000_000) + fraction(nanos % 1_000_000, 6) + "ms"@
    } else if nanos >= 1_000 {
        decimal(nanos / 1_000) + fraction(nanos % 1_000, 3) + "µs"@
    } else {
        decimal(nanos) + "ns"@
    }
}

fn push_padded(out: &mut String, n: u64, width: u32)
    ensures
        final(out)@ == old(out)@ + padded(n as nat, width as nat),
    decreases width,
{
    if width > 0 {
        push_padded(out, n / 10, width - 1);
        out.push((48 + (n % 10) as u8) as char);
    }
    proof {
        if width == 0 {
            assert(old(out)@ + padded(n as nat, 0) =~= old(out)@);
        } else {
            assert(old(out)@ + padded(n as nat, width as nat) =~= (old(out)@ + padded(
                (n / 10) as nat,
                (width - 1) as nat,
            )).push(crate::text::digit(n as nat)));
        }
    }
}

fn push_fraction(out: &mut String, n: u64, width: u32)
    ensures
        final(out)@ == old(out)@ + fraction(n as nat, width as nat),
    decreases width,
{
    if n == 0 || width == 0 {
        assert(old(out)@ + Seq::<char>::empty() =~= old(out)@);
    } else if n % 10 == 0 {
        push_fraction(out, n / 10, width - 1);
    } else {
        out.push('.');
        push_padded(out, n, width);
        assert(final(out)@ =~= old(out)@ + fraction(n as nat, width as nat));
    }
}

impl Duration {
    /// Whether the whole seconds can be counted.
    pub open spec fn wf(self) -> bool {
        self.nanos <= u64::MAX * 1_000_000_000
    }

    /// Appends the length of time with its unit.
    pub fn push_shown(self, out: &mut String)
        ensures
            final(out)@ == old(out)@ + shown(self.nanos as nat),
    {
        let n: u128 = self.nanos;
        if n >= 1_000_000_000 {
            push_wide_decimal(out, n / 1_000_000_000);
            push_fraction(out, (n % 1_000_000_000) as u64, 9);
            out.append("s");
        } else if n >= 1_000_000 {
            push_decimal(out, (n / 1_000_000) as u64);
            push_fraction(out, (n % 1_000_000) as u64, 6);
            out.append("ms");
        } else if n >= 1_000 {
            push_decimal(out, (n / 1_000) as u64);
            push_fraction(out, (n % 1_000) as u64, 3);
            out.append("µs");
        } else {
            push_decimal(out, n as u64);
            out.append("ns");
        }
        assert(final(out)@ =~= old(out)@ + shown(self.nanos as nat));
    }
}

/// Whole numbers of a unit are shown in that unit, without decimals.
pub proof fn lemma_whole_units_are_shown_whole(n: nat)
    ensures
        n > 0 ==> shown(n * 1_000_000_000) == decimal(n) + "s"@,
        0 < n < 1_000 ==> shown(n * 1_000_000) == decimal(n) + "ms"@,
        n < 1_000 ==> shown(n) == decimal(n) + "ns"@,
{
    assert(fraction(0, 9) == Seq::<char>::empty());
    assert(fraction(0, 6) == Seq::<char>::empty());
    assert((n * 1_000_000_000) / 1_000_000_000 == n && (n * 1_000_000_000) % 1_000_000_000 == 0);
    assert((n * 1_000_000) / 1_000_000 == n && (n * 1_000_000) % 1_000_000 == 0);
    assert(decimal(n) + Seq::<char>::empty() =~= decimal(n));
}

/// Time that was added has passed: from a moment to the same moment and a while later
/// it is that while, and nothing has passed since a moment that is still to come.
pub proof fn lemma_time_passes(moment: Duration, later: Duration)
    ensures
        moment.nanos + later.nanos <= u128::MAX ==> moment.and(later).since(moment) == later,
        moment.and(later) == later.and(moment),
        moment.and(later).nanos >= moment.nanos,
        moment.nanos <= later.nanos ==> moment.since(later).nanos == 0,
        moment.nanos <= later.nanos ==> moment.and(later.since(moment)) == later,
{
}

/// Whole seconds are a whole number of seconds.
pub proof fn lemma_whole_seconds_are_whole(n: nat)
    requires
        n + 1 < 0x100_0000,
    ensures
        seconds_of(n * 1_000_000_000) == near(false, n, 1),
{
    let nanos = n * 1_000_000_000;
    assert(nanos / 1_000_000_000 == n && nanos % 1_000_000_000 == 0);
    let w = pow2(149);
    lemma_pow2_pos(149);
    lemma2_to64();
    lemma_near_whole(false, n);
    lemma_near_whole(false, 0);
    let unit = near(false, 1_000_000_000, 1);
    lemma_near_is_rounded(false, 1_000_000_000, 1);
    lemma_pow2_adds(30, 149);
    assert(1_000_000_000 * w <= 1 * pow2(179)) by (nonlinear_arith)
        requires
            pow2(179) == 1_073_741_824 * w,
    ;
    lemma_rounded_at_most(1_000_000_000, 1, 179);
    assert(1_000_000_000 * w >= 1 * w) by (nonlinear_arith);
    lemma_rounded_at_least(1_000_000_000, 1, 149);
    lemma_pow2_strictly_increases(179, 277);
    lemma_pow2_strictly_increases(180, 277);
    assert(unit is Finite && !unit.is_negative() && unit.units() > 0);
    assert(0 * w == 0) by (nonlinear_arith);
    lemma_near_is_rounded(false, 0, unit.units());
    assert(0 == 0 * unit.units()) by (nonlinear_arith);
    lemma_rounded_exact(0, unit.units(), 0);
    let sum = near(false, n * w, w);
    lemma_near_is_rounded(false, n * w, w);
    lemma_rounded_exact(n * w, w, n);
    lemma_near_is_rounded(false, n, 1);
    assert(n == n * 1) by (nonlinear_arith);
    lemma_rounded_exact(n, 1, n);
    lemma_near(sum, false, n, 1);
}

} // verus!
