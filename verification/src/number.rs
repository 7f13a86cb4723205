//! Setting numbers as the audio path uses them: binary fractions with a
//! mantissa of twenty-four bits, rounded to nearest with ties to even.
//!
//! A number is a sign, a mantissa and a power of two, so every step that rounds
//! is stated over whole numbers: the value of a finite number is a whole
//! multiple of two to the power of minus 149, the smallest step there is.

use vstd::arithmetic::div_mod::{
    lemma_fundamental_div_mod, lemma_fundamental_div_mod_converse,
};
use vstd::arithmetic::power2::{
    lemma2_to64, lemma2_to64_rest, lemma_pow2_adds, lemma_pow2_pos, lemma_pow2_strictly_increases,
    lemma_pow2_unfold,
    pow2,
};
use vstd::prelude::*;

use crate::natural::{relation, Natural, Relation};
use crate::text::{
    chars_of, find_char, first_at, lemma_first_at_is, lower, lower_chars, lower_one, same_chars,
    string_of,
};
use crate::time::Duration;

verus! {

// ---------------------------------------------------------------------------
// Rounding
// ---------------------------------------------------------------------------

/// `n / d` rounded to the nearest whole number, a tie to the even one.
pub open spec fn half_even(n: nat, d: nat) -> nat
    recommends
        d > 0,
{
    let f = n / d;
    let r = n % d;
    if 2 * r < d {
        f
    } else if 2 * r > d {
        f + 1
    } else {
        f + f % 2
    }
}

/// How many times `q` must double before `x / q` fits in twenty-four bits.
pub open spec fn spare_bits(x: nat, q: nat) -> nat
    decreases
            (if x >= q {
                x - q
            } else {
                0
            }),
{
    if q == 0 || x < q * 0x100_0000 {
        0
    } else {
        1 + spare_bits(x, 2 * q)
    }
}

/// `p / q` rounded to twenty-four bits, counted in steps of two to the minus 149.
pub open spec fn rounded(p: nat, q: nat) -> nat
    recommends
        q > 0,
{
    let x = p * pow2(149);
    let s = spare_bits(x, q);
    half_even(x, q * pow2(s)) * pow2(s)
}

proof fn lemma_spare_bits(x: nat, q: nat)
    requires
        q > 0,
    ensures
        x < q * pow2(24 + spare_bits(x, q)),
        spare_bits(x, q) > 0 ==> x >= q * pow2((23 + spare_bits(x, q)) as nat),
    decreases
            (if x >= q {
                x - q
            } else {
                0
            }),
{
    lemma2_to64();
    let s = spare_bits(x, q);
    if x < q * 0x100_0000 {
    } else {
        lemma_spare_bits(x, 2 * q);
        let t = spare_bits(x, 2 * q);
        lemma_pow2_unfold(24 + s);
        let w = pow2(24 + t);
        assert((2 * q) * w == q * (2 * w)) by (nonlinear_arith);
        if t > 0 {
            lemma_pow2_unfold((23 + s) as nat);
            let v = pow2((23 + t) as nat);
            assert((2 * q) * v == q * (2 * v)) by (nonlinear_arith);
        }
    }
}

proof fn lemma_half_even_scaled(n: nat, d: nat, b: nat)
    requires
        d > 0,
        n >= d * b,
    ensures
        half_even(n, d) >= b,
{
    lemma_fundamental_div_mod(n as int, d as int);
    let f = n / d;
    assert(f >= b) by (nonlinear_arith)
        requires
            n >= d * b,
            n == d * f + n % d,
            n % d < d,
            d > 0,
    ;
}

proof fn lemma_half_even_bound(n: nat, d: nat, b: nat)
    requires
        d > 0,
        n < d * b,
    ensures
        half_even(n, d) <= b,
{
    lemma_fundamental_div_mod(n as int, d as int);
    let f = n / d;
    assert(f < b) by (nonlinear_arith)
        requires
            n < d * b,
            n == d * f + n % d,
            n % d >= 0,
            d > 0,
    ;
}

/// A fraction of at least two to the 128th does not fit.
proof fn lemma_too_large(p: nat, q: nat)
    requires
        q > 0,
        p * pow2(149) >= q * pow2(277),
    ensures
        rounded(p, q) >= pow2(277),
{
    let x = p * pow2(149);
    let s = spare_bits(x, q);
    lemma_spare_bits(x, q);
    lemma_pow2_pos(277);
    if s <= 253 {
        if s < 253 {
            lemma_pow2_strictly_increases(24 + s, 277);
        }
        let a = pow2(24 + s);
        let b = pow2(277);
        assert(q * a <= q * b) by (nonlinear_arith)
            requires
                a <= b,
        ;
        assert(false);
    }
    lemma_wide(x, q);
    lemma_pow2_adds(23, s);
    if s > 254 {
        lemma_pow2_strictly_increases(277, (23 + s) as nat);
    }
    let m = half_even(x, q * pow2(s));
    let w = pow2(s);
    lemma2_to64();
    assert(m * w >= 0x80_0000 * w) by (nonlinear_arith)
        requires
            m >= 0x80_0000,
    ;
    lemma_pow2_adds(23, s);
}

/// Rounding takes a fraction no further up than the next power of two.
pub proof fn lemma_rounded_at_most(p: nat, q: nat, k: nat)
    requires
        q > 0,
        k >= 24,
        p * pow2(149) <= q * pow2(k),
    ensures
        rounded(p, q) <= pow2(k + 1),
{
    let x = p * pow2(149);
    let s = spare_bits(x, q);
    lemma_spare_bits(x, q);
    lemma_pow2_pos(s);
    let w = pow2(s);
    let d = q * w;
    assert(d > 0) by (nonlinear_arith)
        requires
            q > 0,
            w > 0,
            d == q * w,
    ;
    lemma2_to64();
    lemma_pow2_adds(s, 24);
    assert(q * (w * 0x100_0000) == d * 0x100_0000) by (nonlinear_arith)
        requires
            d == q * w,
    ;
    lemma_half_even_bound(x, d, 0x100_0000);
    let m = half_even(x, d);
    assert(m * w <= 0x100_0000 * w) by (nonlinear_arith)
        requires
            m <= 0x100_0000,
    ;
    if s > 0 && 23 + s > k {
        lemma_pow2_strictly_increases(k, (23 + s) as nat);
        let a = pow2(k);
        let b = pow2((23 + s) as nat);
        assert(q * a < q * b) by (nonlinear_arith)
            requires
                a < b,
                q > 0,
        ;
    }
    if 24 + s < k + 1 {
        lemma_pow2_strictly_increases(24 + s, k + 1);
    }
}

/// Rounding takes a fraction no further down than a power of two below it.
pub proof fn lemma_rounded_at_least(p: nat, q: nat, k: nat)
    requires
        q > 0,
        p * pow2(149) >= q * pow2(k),
    ensures
        rounded(p, q) >= pow2(k),
{
    let x = p * pow2(149);
    let s = spare_bits(x, q);
    lemma_spare_bits(x, q);
    lemma_pow2_pos(s);
    let w = pow2(s);
    let d = q * w;
    assert(d > 0) by (nonlinear_arith)
        requires
            q > 0,
            w > 0,
            d == q * w,
    ;
    let m = half_even(x, d);
    if k >= s {
        let e = pow2((k - s) as nat);
        lemma_pow2_adds(s, (k - s) as nat);
        assert(q * (w * e) == d * e) by (nonlinear_arith)
            requires
                d == q * w,
        ;
        lemma_half_even_scaled(x, d, e);
        assert(m * w >= w * e) by (nonlinear_arith)
            requires
                m >= e,
        ;
    } else {
        lemma_wide(x, q);
        lemma_pow2_strictly_increases(k, s);
        assert(m * w >= w) by (nonlinear_arith)
            requires
                m >= 1,
        ;
    }
}

/// With spare bits the mantissa has its top bit set.
proof fn lemma_wide(x: nat, q: nat)
    requires
        q > 0,
        spare_bits(x, q) > 0,
    ensures
        q * pow2(spare_bits(x, q)) > 0,
        half_even(x, q * pow2(spare_bits(x, q))) >= 0x80_0000,
{
    let s = spare_bits(x, q);
    lemma_spare_bits(x, q);
    lemma_pow2_pos(s);
    lemma_pow2_adds(s, 23);
    lemma2_to64();
    let w = pow2(s);
    let d = q * w;
    assert(d > 0) by (nonlinear_arith)
        requires
            q > 0,
            w > 0,
            d == q * w,
    ;
    assert(q * (w * 0x80_0000) == d * 0x80_0000) by (nonlinear_arith)
        requires
            d == q * w,
    ;
    lemma_half_even_scaled(x, d, 0x80_0000);
}

/// A fraction below half the smallest step rounds to nothing.
pub proof fn lemma_too_small(p: nat, q: nat)
    requires
        q > 0,
        2 * (p * pow2(149)) < q,
    ensures
        rounded(p, q) == 0,
{
    let x = p * pow2(149);
    lemma2_to64();
    assert(x < q * 0x100_0000) by (nonlinear_arith)
        requires
            2 * x < q,
    ;
    assert(spare_bits(x, q) == 0);
    assert(q * pow2(0) == q) by (nonlinear_arith)
        requires
            pow2(0) == 1,
    ;
    lemma_fundamental_div_mod_converse(x as int, q as int, 0, x as int);
    assert(half_even(x, q) == 0);
    assert(0 * pow2(0) == 0) by (nonlinear_arith);
}

// ---------------------------------------------------------------------------
// Numbers
// ---------------------------------------------------------------------------

/// A setting number.
#[derive(Debug, Clone, Copy, PartialEq, Eq, Structural)]
pub enum Number {
    NotANumber,
    Infinite { negative: bool },
    /// `mantissa` times two to the power of `exponent`.
    Finite { negative: bool, mantissa: u32, exponent: i32 },
}

impl Number {
    /// The one form in which each value is held: the mantissa uses all its
    /// twenty-four bits unless the exponent is already the least one.
    pub open spec fn wf(self) -> bool {
        match self {
            Number::Finite { negative, mantissa, exponent } => {
                &&& mantissa < 0x100_0000
                &&& -149 <= exponent <= 104
                &&& mantissa < 0x80_0000 ==> exponent == -149
            },
            _ => true,
        }
    }

    /// The magnitude of a finite number, in steps of two to the minus 149.
    pub open spec fn units(self) -> nat {
        match self {
            Number::Finite { negative, mantissa, exponent } => mantissa as nat * pow2(
                (exponent + 149) as nat,
            ),
            _ => 0,
        }
    }

    pub open spec fn is_negative(self) -> bool {
        match self {
            Number::Finite { negative, .. } => negative,
            Number::Infinite { negative } => negative,
            Number::NotANumber => false,
        }
    }

    /// Where the number stands among all numbers, infinities outermost.
    pub open spec fn rank(self) -> int {
        let magnitude: int = match self {
            Number::Infinite { .. } => pow2(277) as int,
            _ => self.units() as int,
        };
        if self.is_negative() {
            -magnitude
        } else {
            magnitude
        }
    }

    /// Whether the number is `p / q` rounded, with the sign given.
    pub open spec fn is_rounded(self, negative: bool, p: nat, q: nat) -> bool {
        &&& self.wf()
        &&& if rounded(p, q) >= pow2(277) {
            self == Number::Infinite { negative }
        } else {
            self is Finite && self.is_negative() == negative && self.units() == rounded(p, q)
        }
    }
}

/// The number that `p / q` rounds to, with the sign given.
pub open spec fn near(negative: bool, p: nat, q: nat) -> Number {
    choose|n: Number| n.is_rounded(negative, p, q)
}

/// A rounded fraction is one number.
pub proof fn lemma_near(n: Number, negative: bool, p: nat, q: nat)
    requires
        n.is_rounded(negative, p, q),
    ensures
        n == near(negative, p, q),
{
    let m = near(negative, p, q);
    assert(m.is_rounded(negative, p, q));
    if rounded(p, q) < pow2(277) {
        lemma_one_form(n, m);
    }
}

/// The finite number of a mantissa that may just have reached its twenty-fifth
/// bit, with `s` the exponent counted from the least one.
fn normal(negative: bool, m: u32, s: u32) -> (r: Number)
    requires
        m <= 0x100_0000,
        s <= 253,
        s > 0 ==> m >= 0x80_0000,
    ensures
        r.wf(),
        m as nat * pow2(s as nat) >= pow2(277) ==> r == (Number::Infinite { negative }),
        m as nat * pow2(s as nat) < pow2(277) ==> r is Finite && r.is_negative() == negative
            && r.units() == m as nat * pow2(s as nat),
{
    let ghost w = pow2(s as nat);
    proof {
        lemma2_to64();
        lemma_pow2_unfold((s + 1) as nat);
        lemma_pow2_pos(s as nat);
        lemma_pow2_adds(24, s as nat);
        assert(0x100_0000 * w == 0x80_0000 * (2 * w)) by (nonlinear_arith);
        if s < 253 {
            lemma_pow2_strictly_increases((24 + s) as nat, 277);
        }
        assert(m < 0x100_0000 ==> m as nat * w < 0x100_0000 * w) by (nonlinear_arith)
            requires
                w > 0,
        ;
        assert(m == 0x100_0000 ==> m as nat * w == 0x100_0000 * w) by (nonlinear_arith);
    }
    if m == 0x100_0000 {
        if s == 253 {
            Number::Infinite { negative }
        } else {
            Number::Finite { negative, mantissa: 0x80_0000, exponent: s as i32 - 148 }
        }
    } else {
        Number::Finite { negative, mantissa: m, exponent: s as i32 - 149 }
    }
}

/// Twenty-four bits of `x / d`, and what is left of `x` times two to the 24th.
fn quotient(x: &mut Natural, half: &Natural, Ghost(d): Ghost<nat>) -> (m: u32)
    requires
        d > 0,
        half@ == d * 0x80_0000,
        old(x)@ < d * 0x100_0000,
    ensures
        m as nat == old(x)@ / d,
        final(x)@ == (old(x)@ % d) * 0x100_0000,
        m < 0x100_0000,
{
    let ghost start = x@;
    let mut m: u32 = 0;
    let mut i: u32 = 0;
    proof {
        lemma2_to64();
        assert(start * 1 == start) by (nonlinear_arith);
        assert(0 * (d * 0x100_0000) == 0) by (nonlinear_arith);
    }
    while i < 24
        invariant
            i <= 24,
            m as nat <= pow2(i as nat) - 1,
            half@ == d * 0x80_0000,
            x@ < d * 0x100_0000,
            x@ + m as nat * (d * 0x100_0000) == start * pow2(i as nat),
        decreases 24 - i,
    {
        let ghost was = x@;
        let ghost m0 = m as int;
        let ghost full = (d * 0x100_0000) as int;
        let ghost pi = pow2(i as nat) as int;
        proof {
            lemma_pow2_unfold((i + 1) as nat);
            lemma2_to64();
            if i < 24 {
                lemma_pow2_strictly_increases(i as nat, 24);
            }
        }
        let bit: bool = match x.compare(half) {
            Relation::Less => false,
            _ => true,
        };
        if bit {
            x.subtract(half);
        }
        x.double();
        m = 2 * m + (if bit {
            1
        } else {
            0
        });
        proof {
            let st = start as int;
            assert(2 * (st * pi) == st * (2 * pi)) by (nonlinear_arith);
            if bit {
                assert((2 * m0 + 1) * full == 2 * (m0 * full) + full) by (nonlinear_arith);
            } else {
                assert((2 * m0) * full == 2 * (m0 * full)) by (nonlinear_arith);
            }
        }
        i += 1;
    }
    proof {
        lemma2_to64();
        let mm = m as int;
        let st = start as int;
        let di = d as int;
        let xr = x@ as int;
        let r = st - mm * di;
        assert(xr == r * 0x100_0000) by (nonlinear_arith)
            requires
                xr + mm * (di * 0x100_0000) == st * 0x100_0000,
                r == st - mm * di,
        ;
        assert(0 <= r < di) by (nonlinear_arith)
            requires
                xr == r * 0x100_0000,
                0 <= xr < di * 0x100_0000,
        ;
        lemma_fundamental_div_mod_converse(st, di, mm, r);
    }
    m
}

/// `p / q` rounded.
pub fn nearest(negative: bool, p: Natural, q: Natural) -> (r: Number)
    requires
        q@ > 0,
    ensures
        r == near(negative, p@, q@),
        r.is_rounded(negative, p@, q@),
{
    let r = nearest_of(negative, p, q);
    proof {
        lemma_near(r, negative, p@, q@);
    }
    r
}

fn nearest_of(negative: bool, p: Natural, q: Natural) -> (r: Number)
    requires
        q@ > 0,
    ensures
        r.is_rounded(negative, p@, q@),
{
    let mut x = p;
    x.shift(149);
    let ghost xs = x@;
    let ghost qs = q@;
    let mut half = q.copy();
    half.shift(23);
    let mut top = q;
    top.shift(24);
    let mut s: u32 = 0;
    proof {
        lemma2_to64();
        assert(qs * pow2(0) == qs) by (nonlinear_arith)
            requires
                pow2(0) == 1,
        ;
    }
    loop
        invariant
            qs > 0,
            x@ == xs,
            xs == p@ * pow2(149),
            s <= 253,
            qs * pow2(s as nat) > 0,
            half@ == (qs * pow2(s as nat)) * 0x80_0000,
            top@ == (qs * pow2(s as nat)) * 0x100_0000,
            spare_bits(xs, qs) == s + spare_bits(xs, qs * pow2(s as nat)),
            qs == q@,
        ensures
            xs < top@,
        decreases 254 - s,
    {
        match x.compare(&top) {
            Relation::Less => {
                break ;
            },
            _ => {},
        }
        let ghost d = qs * pow2(s as nat);
        proof {
            lemma_pow2_unfold((s + 1) as nat);
            let w = pow2(s as nat);
            assert(qs * (2 * w) == 2 * (qs * w)) by (nonlinear_arith);
            assert(spare_bits(xs, d) == 1 + spare_bits(xs, 2 * d));
        }
        if s == 253 {
            proof {
                lemma_pow2_adds(253, 24);
                let w = pow2(253);
                lemma2_to64();
                assert((qs * w) * 0x100_0000 == qs * (w * 0x100_0000)) by (nonlinear_arith);
                lemma_too_large(p@, qs);
            }
            return Number::Infinite { negative };
        }
        half.double();
        top.double();
        s += 1;
    }
    let ghost d = qs * pow2(s as nat);
    let m: u32 = quotient(&mut x, &half, Ghost(d));
    let up: bool = match x.compare(&half) {
        Relation::Less => false,
        Relation::More => true,
        Relation::Same => m % 2 == 1,
    };
    let rounded_up: u32 = if up {
        m + 1
    } else {
        m
    };
    proof {
        let r = xs % d;
        assert(r * 0x100_0000 < d * 0x80_0000 <==> 2 * r < d) by (nonlinear_arith);
        assert(r * 0x100_0000 > d * 0x80_0000 <==> 2 * r > d) by (nonlinear_arith);
        assert(rounded_up as nat == half_even(xs, d));
        assert(spare_bits(xs, d) == 0);
        if s > 0 {
            lemma_wide(xs, qs);
        }
    }
    normal(negative, rounded_up, s)
}

// ---------------------------------------------------------------------------
// Numbers as text
// ---------------------------------------------------------------------------

pub open spec fn pow10(n: nat) -> nat
    decreases n,
{
    if n == 0 {
        1
    } else {
        10 * pow10((n - 1) as nat)
    }
}

pub open spec fn is_digit(c: char) -> bool {
    '0' <= c <= '9'
}

pub open spec fn all_digits(s: Seq<char>) -> bool {
    forall|i: int| 0 <= i < s.len() ==> is_digit(#[trigger] s[i])
}

/// The number that a run of decimal digits stands for.
pub open spec fn digits_value(s: Seq<char>) -> nat
    decreases s.len(),
{
    if s.len() == 0 {
        0
    } else {
        10 * digits_value(s.drop_last()) + (s.last() as u32 - 48) as nat
    }
}

/// Whether a text starts with a minus sign, and what follows its sign.
pub open spec fn split_sign(s: Seq<char>) -> (bool, Seq<char>) {
    if s.len() > 0 && s[0] == '-' {
        (true, s.drop_first())
    } else if s.len() > 0 && s[0] == '+' {
        (false, s.drop_first())
    } else {
        (false, s)
    }
}

/// The power of ten that the text behind the `e` asks for.
pub open spec fn exponent_of(s: Seq<char>) -> Option<int> {
    let (negative, body) = split_sign(s);
    if body.len() == 0 || !all_digits(body) {
        None
    } else if negative {
        Some(-(digits_value(body) as int))
    } else {
        Some(digits_value(body) as int)
    }
}

/// The digits and the power of ten of an unsigned decimal fraction.
pub open spec fn decimal_of(s: Seq<char>) -> Option<(nat, int)> {
    let marker = first_at(lower(s), 'e');
    let body = s.take(marker);
    let point = first_at(body, '.');
    let whole = body.take(point);
    let part = body.skip(point + 1);
    let exponent = if marker < s.len() {
        exponent_of(s.skip(marker + 1))
    } else {
        Some(0int)
    };
    if point >= body.len() {
        if all_digits(body) && body.len() > 0 && exponent is Some {
            Some((digits_value(body), exponent->0))
        } else {
            None
        }
    } else if all_digits(whole) && all_digits(part) && whole.len() + part.len() > 0
        && exponent is Some {
        Some((digits_value(whole + part), exponent->0 - part.len()))
    } else {
        None
    }
}

/// What a text says, before any rounding.
pub enum Written {
    NotANumber,
    Infinite { negative: bool },
    Decimal { negative: bool, digits: nat, power: int },
}

/// What `s` says as a number: a sign, and then `inf`, `infinity`, `nan` in any
/// case, or a decimal fraction.
pub open spec fn written(s: Seq<char>) -> Option<Written> {
    let (negative, body) = split_sign(s);
    let small = lower(body);
    if small == "inf"@ || small == "infinity"@ {
        Some(Written::Infinite { negative })
    } else if small == "nan"@ {
        Some(Written::NotANumber)
    } else {
        match decimal_of(body) {
            Some((digits, power)) => Some(Written::Decimal { negative, digits, power }),
            None => None,
        }
    }
}

pub open spec fn numerator(digits: nat, power: int) -> nat {
    if power >= 0 {
        digits * pow10(power as nat)
    } else {
        digits
    }
}

pub open spec fn denominator(power: int) -> nat {
    if power >= 0 {
        1
    } else {
        pow10((-power) as nat)
    }
}

/// What reading `s` as a number gives.
pub open spec fn number_of(s: Seq<char>) -> Option<Number> {
    match written(s) {
        None => None,
        Some(Written::NotANumber) => Some(Number::NotANumber),
        Some(Written::Infinite { negative }) => Some(Number::Infinite { negative }),
        Some(Written::Decimal { negative, digits, power }) => Some(
            near(negative, numerator(digits, power), denominator(power)),
        ),
    }
}

proof fn lemma_pow10_pos(n: nat)
    ensures
        pow10(n) > 0,
    decreases n,
{
    if n > 0 {
        lemma_pow10_pos((n - 1) as nat);
    }
}

proof fn lemma_pow10_adds(a: nat, b: nat)
    ensures
        pow10(a + b) == pow10(a) * pow10(b),
    decreases a,
{
    let pb = pow10(b);
    if a == 0 {
        assert(1 * pb == pb) by (nonlinear_arith);
    } else {
        lemma_pow10_adds((a - 1) as nat, b);
        let pa = pow10((a - 1) as nat);
        assert((10 * pa) * pb == 10 * (pa * pb)) by (nonlinear_arith);
    }
}

proof fn lemma_digits_bound(s: Seq<char>)
    requires
        all_digits(s),
    ensures
        digits_value(s) < pow10(s.len()),
    decreases s.len(),
{
    if s.len() > 0 {
        assert(is_digit(s[s.len() - 1]));
        assert forall|i: int| 0 <= i < s.drop_last().len() implies is_digit(
            #[trigger] s.drop_last()[i],
        ) by {
            assert(s.drop_last()[i] == s[i]);
        }
        lemma_digits_bound(s.drop_last());
    }
}

/// Ten to the 39th is more than two to the 128th, and ten to the 47th more than
/// two to the 150th.
proof fn lemma_ten_against_two()
    ensures
        pow10(39) >= pow2(128),
        pow10(47) > pow2(150),
{
    lemma2_to64();
    lemma_pow2_adds(64, 64);
    lemma_pow2_adds(128, 22);
    reveal_with_fuel(pow10, 48);
    assert(pow10(39) == 1_000_000_000_000_000_000_000_000_000_000_000_000_000nat);
    assert(pow10(47) == 100_000_000_000_000_000_000_000_000_000_000_000_000_000_000_000nat);
    assert(pow2(128) == 0x1_0000_0000_0000_0000nat * 0x1_0000_0000_0000_0000nat);
    assert(pow2(150) == 0x1_0000_0000_0000_0000nat * 0x1_0000_0000_0000_0000nat * 0x40_0000nat);
}

proof fn lemma_large_decimal(digits: nat, power: int)
    requires
        digits > 0,
        power >= 39,
    ensures
        rounded(numerator(digits, power), 1) >= pow2(277),
{
    lemma_ten_against_two();
    lemma_pow10_adds(39, (power - 39) as nat);
    lemma_pow10_pos((power - 39) as nat);
    lemma_pow2_adds(128, 149);
    let a = pow10(39);
    let b = pow10((power - 39) as nat);
    let c = pow2(128);
    let d = pow2(149);
    assert(digits * (a * b) >= c) by (nonlinear_arith)
        requires
            digits >= 1,
            b >= 1,
            a >= c,
    ;
    let n = digits * (a * b);
    assert(n * d >= 1 * (c * d)) by (nonlinear_arith)
        requires
            n >= c,
    ;
    lemma_too_large(numerator(digits, power), 1);
}

proof fn lemma_small_decimal(digits: nat, power: int, len: nat)
    requires
        digits < pow10(len),
        power + len < -46,
    ensures
        rounded(digits, pow10((-power) as nat)) == 0,
{
    let k = (-power) as nat;
    let rest = (k - len) as nat;
    lemma_ten_against_two();
    lemma_pow10_adds(len, rest);
    lemma_pow10_adds(47, (rest - 47) as nat);
    lemma_pow10_pos((rest - 47) as nat);
    lemma_pow10_pos(len);
    lemma_pow10_pos(k);
    lemma_pow2_unfold(150);
    let a = pow10(len);
    let b = pow10(47);
    let c = pow10((rest - 47) as nat);
    let w = pow2(149);
    assert(2 * (digits * w) < a * (b * c)) by (nonlinear_arith)
        requires
            digits < a,
            b > 2 * w,
            c >= 1,
            a > 0,
    ;
    lemma_too_small(digits, pow10(k));
}

fn digit_at(s: &[char], i: usize) -> (r: Option<u32>)
    requires
        i < s@.len(),
    ensures
        r is Some <==> is_digit(s@[i as int]),
        r is Some ==> r->0 == s@[i as int] as u32 - 48 && r->0 < 10,
{
    let c: char = s[i];
    if '0' <= c && c <= '9' {
        Some(c as u32 - 48)
    } else {
        None
    }
}

/// Reads `s[from..to]` as decimal digits behind those already in `n`.
fn read_digits(n: &mut Natural, s: &[char], from: usize, to: usize, Ghost(done): Ghost<Seq<char>>)
    -> (r: bool)
    requires
        from <= to <= s@.len(),
        old(n)@ == digits_value(done),
    ensures
        r == all_digits(s@.subrange(from as int, to as int)),
        r ==> final(n)@ == digits_value(done + s@.subrange(from as int, to as int)),
{
    let ghost part = s@.subrange(from as int, to as int);
    let mut i: usize = from;
    assert(done + part.take(0) =~= done);
    while i < to
        invariant
            from <= i <= to <= s@.len(),
            part == s@.subrange(from as int, to as int),
            forall|j: int| 0 <= j < i - from ==> is_digit(#[trigger] part[j]),
            n@ == digits_value(done + part.take(i - from)),
        decreases to - i,
    {
        assert(part[i - from] == s@[i as int]);
        match digit_at(s, i) {
            None => {
                return false;
            },
            Some(d) => {
                n.mul_add(10, d);
                proof {
                    let longer = done + part.take(i - from + 1);
                    assert(longer.drop_last() =~= done + part.take(i - from));
                    assert(longer.last() == s@[i as int]);
                }
            },
        }
        i += 1;
    }
    assert(part.take(to - from) =~= part);
    true
}

/// More than any exponent that can matter.
pub const EXPONENT_CAP: u128 = 0x10_0000_0000_0000_0000_0000_0000;

/// Reads an exponent: its sign, and its size up to the cap.
fn read_exponent(s: &[char], from: usize) -> (r: Option<(bool, u128)>)
    requires
        from <= s@.len(),
    ensures
        r is Some <==> exponent_of(s@.skip(from as int)) is Some,
        r is Some ==> {
            let e = exponent_of(s@.skip(from as int))->0;
            let (negative, read) = r->0;
            let size = if negative {
                -e
            } else {
                e
            };
            &&& 0 <= read <= EXPONENT_CAP
            &&& size >= read
            &&& read < EXPONENT_CAP ==> size == read
        },
{
    let ghost text = s@.skip(from as int);
    let mut i: usize = from;
    let mut negative: bool = false;
    if from < s.len() {
        assert(text[0] == s@[from as int]);
        if s[from] == '-' {
            negative = true;
            i = from + 1;
        } else if s[from] == '+' {
            i = from + 1;
        }
    }
    let ghost body = s@.skip(i as int);
    assert(body =~= split_sign(text).1);
    if i == s.len() {
        return None;
    }
    let start: usize = i;
    let mut size: u128 = 0;
    assert(body.take(0) =~= Seq::<char>::empty());
    while i < s.len()
        invariant
            start <= i <= s@.len(),
            body == s@.skip(start as int),
            body == split_sign(text).1,
            body.len() > 0,
            text == s@.skip(from as int),
            from <= s@.len(),
            negative == split_sign(text).0,
            forall|j: int| 0 <= j < i - start ==> is_digit(#[trigger] body[j]),
            size <= EXPONENT_CAP,
            digits_value(body.take(i - start)) >= size,
            size < EXPONENT_CAP ==> digits_value(body.take(i - start)) == size,
        decreases s@.len() - i,
    {
        assert(body[i - start] == s@[i as int]);
        match digit_at(s, i) {
            None => {
                return None;
            },
            Some(d) => {
                proof {
                    let longer = body.take(i - start + 1);
                    assert(longer.drop_last() =~= body.take(i - start));
                    assert(longer.last() == s@[i as int]);
                }
                if size < EXPONENT_CAP {
                    let next: u128 = size * 10 + d as u128;
                    size = if next < EXPONENT_CAP {
                        next
                    } else {
                        EXPONENT_CAP
                    };
                }
            },
        }
        i += 1;
    }
    assert(body.take(body.len() as int) =~= body);
    Some((negative, size))
}

/// The number of `digits` times ten to the power of `power`, `digits` being
/// written with `len` digits.
fn scale(negative: bool, digits: Natural, power: i128, len: usize) -> (r: Number)
    requires
        digits@ < pow10(len as nat),
    ensures
        r.is_rounded(negative, numerator(digits@, power as int), denominator(power as int)),
{
    let ghost d = digits@;
    let none = Natural::zero();
    let empty: bool = match digits.compare(&none) {
        Relation::Same => true,
        _ => false,
    };
    if empty || (power < 0 && power < -46 - (len as i128)) {
        proof {
            lemma_pow2_pos(277);
            lemma_pow2_pos(0);
            lemma_pow10_pos((-power) as nat);
            if d == 0 {
                if power >= 0 {
                    let w = pow10(power as nat);
                    assert(0 * w == 0) by (nonlinear_arith);
                }
                let w = pow2(149);
                assert(0 * w == 0) by (nonlinear_arith);
                lemma_too_small(0, denominator(power as int));
            } else {
                lemma_small_decimal(d, power as int, len as nat);
            }
            assert(0 * pow2(0) == 0) by (nonlinear_arith);
        }
        return Number::Finite { negative, mantissa: 0, exponent: -149 };
    }
    if power >= 39 {
        proof {
            lemma_large_decimal(d, power as int);
        }
        return Number::Infinite { negative };
    }
    let mut p = digits;
    let mut q = Natural::from_u64(1);
    let mut i: i128 = 0;
    if power >= 0 {
        assert(d * 1 == d) by (nonlinear_arith);
        while i < power
            invariant
                0 <= i <= power < 39,
                p@ == d * pow10(i as nat),
            decreases power - i,
        {
            p.mul_add(10, 0);
            proof {
                let w = pow10(i as nat);
                assert((d * w) * 10 == d * (10 * w)) by (nonlinear_arith);
            }
            i += 1;
        }
    } else {
        let count: i128 = -power;
        while i < count
            invariant
                0 <= i <= count,
                q@ == pow10(i as nat),
            decreases count - i,
        {
            q.mul_add(10, 0);
            i += 1;
        }
        proof {
            lemma_pow10_pos(count as nat);
        }
    }
    nearest(negative, p, q)
}

proof fn lemma_all_digits_join(a: Seq<char>, b: Seq<char>)
    requires
        all_digits(a),
        all_digits(b),
    ensures
        all_digits(a + b),
{
}

/// Reads an unsigned decimal fraction.
fn read_decimal(negative: bool, s: &[char]) -> (r: Option<Number>)
    ensures
        match decimal_of(s@) {
            None => r is None,
            Some((digits, power)) => r is Some && r->0.is_rounded(
                negative,
                numerator(digits, power),
                denominator(power),
            ),
        },
{
    let marker: usize = find_marker(s);
    let ghost body = s@.take(marker as int);
    let point: usize = find_char(s, '.', 0, marker);
    assert(s@.subrange(0, marker as int) =~= body);
    let mut digits = Natural::zero();
    let ghost whole = s@.subrange(0, point as int);
    assert(whole =~= body.take(point as int));
    assert(Seq::<char>::empty() + whole =~= whole);
    if !read_digits(&mut digits, s, 0, point, Ghost(Seq::empty())) {
        proof {
            if point >= marker {
                assert(whole =~= body);
            }
        }
        return None;
    }
    let mut len: usize = point;
    let mut part_len: usize = 0;
    let ghost all = whole;
    if point < marker {
        let ghost part = s@.subrange(point + 1, marker as int);
        assert(part =~= body.skip(point + 1));
        if !read_digits(&mut digits, s, point + 1, marker, Ghost(whole)) {
            return None;
        }
        part_len = marker - point - 1;
        len = marker - 1;
        proof {
            all = whole + part;
            lemma_all_digits_join(whole, part);
        }
    } else {
        assert(whole =~= body);
    }
    if len == 0 {
        return None;
    }
    proof {
        lemma_digits_bound(all);
    }
    let (exp_negative, size): (bool, u128) = if marker < s.len() {
        match read_exponent(s, marker + 1) {
            None => {
                return None;
            },
            Some(e) => e,
        }
    } else {
        (false, 0)
    };
    let exponent: i128 = if exp_negative {
        -(size as i128)
    } else {
        size as i128
    };
    let power: i128 = exponent - part_len as i128;
    let ghost (shown, meant) = decimal_of(s@)->0;
    let ghost d = digits@;
    let r = scale(negative, digits, power, len);
    proof {
        if size == EXPONENT_CAP {
            let p = power as int;
            if d == 0 {
                lemma_zero_decimal(p);
                lemma_zero_decimal(meant);
            } else if exp_negative {
                lemma_small_decimal(d, p, len as nat);
                lemma_small_decimal(d, meant, len as nat);
            } else {
                lemma_large_decimal(d, p);
                lemma_large_decimal(d, meant);
            }
        }
    }
    Some(r)
}

proof fn lemma_zero_decimal(power: int)
    ensures
        rounded(numerator(0, power), denominator(power)) == 0,
{
    if power >= 0 {
        let w = pow10(power as nat);
        assert(0 * w == 0) by (nonlinear_arith);
    } else {
        lemma_pow10_pos((-power) as nat);
    }
    let w = pow2(149);
    assert(0 * w == 0) by (nonlinear_arith);
    lemma_too_small(0, denominator(power));
}

/// Where the exponent marker stands, or the end.
fn find_marker(s: &[char]) -> (r: usize)
    ensures
        r <= s@.len(),
        r == first_at(lower(s@), 'e'),
{
    let mut i: usize = 0;
    while i < s.len() && lower_one(s[i]) != 'e'
        invariant
            i <= s@.len(),
            forall|j: int| 0 <= j < i ==> lower(s@)[j] != 'e',
        decreases s@.len() - i,
    {
        i += 1;
    }
    proof {
        lemma_first_at_is(lower(s@), 'e', i as int);
    }
    i
}

impl Number {
    /// Reads a number the way the standard library reads a single-precision
    /// one; `None` for text that is no number.
    pub fn parse(text: &str) -> (r: Option<Number>)
        ensures
            r == number_of(text@),
            r is Some ==> r->0.wf(),
    {
        let chars = chars_of(text);
        let mut negative: bool = false;
        let mut from: usize = 0;
        if chars.len() > 0 && chars[0] == '-' {
            negative = true;
            from = 1;
        } else if chars.len() > 0 && chars[0] == '+' {
            from = 1;
        }
        let body_text = string_of(&chars, from, chars.len());
        let body = chars_of(&body_text);
        assert(body@ =~= split_sign(text@).1);
        let small = lower_chars(&body_text);
        if same_chars(&small, &chars_of("inf")) || same_chars(&small, &chars_of("infinity")) {
            return Some(Number::Infinite { negative });
        }
        if same_chars(&small, &chars_of("nan")) {
            return Some(Number::NotANumber);
        }
        let r = read_decimal(negative, &body);
        proof {
            if let Some((digits, power)) = decimal_of(body@) {
                lemma_near(r->0, negative, numerator(digits, power), denominator(power));
            }
        }
        r
    }
}

// ---------------------------------------------------------------------------
// Order and arithmetic
// ---------------------------------------------------------------------------

proof fn lemma_exponent_orders(a: Number, b: Number)
    requires
        a.wf(),
        b.wf(),
        a is Finite,
        b is Finite,
        a->exponent > b->exponent,
    ensures
        a.units() > b.units(),
{
    let i = (a->exponent + 149) as nat;
    let j = (b->exponent + 149) as nat;
    let wa = pow2(i);
    let wb = pow2(j);
    lemma_pow2_unfold((j + 1) as nat);
    lemma_pow2_pos(j);
    if i > j + 1 {
        lemma_pow2_strictly_increases((j + 1) as nat, i);
    }
    let ma = a->mantissa as nat;
    let mb = b->mantissa as nat;
    assert(ma * wa > mb * wb) by (nonlinear_arith)
        requires
            ma >= 0x80_0000,
            mb < 0x100_0000,
            wa >= 2 * wb,
            wb > 0,
    ;
}

proof fn lemma_mantissa_orders(a: Number, b: Number)
    requires
        a is Finite,
        b is Finite,
        a->exponent == b->exponent,
    ensures
        a->mantissa < b->mantissa ==> a.units() < b.units(),
        a->mantissa == b->mantissa ==> a.units() == b.units(),
        a->mantissa > b->mantissa ==> a.units() > b.units(),
{
    let w = pow2((a->exponent + 149) as nat);
    lemma_pow2_pos((a->exponent + 149) as nat);
    let ma = a->mantissa as nat;
    let mb = b->mantissa as nat;
    assert(ma < mb ==> ma * w < mb * w) by (nonlinear_arith)
        requires
            w > 0,
    ;
    assert(ma > mb ==> ma * w > mb * w) by (nonlinear_arith)
        requires
            w > 0,
    ;
}

proof fn lemma_finite_bound(a: Number)
    requires
        a.wf(),
        a is Finite,
    ensures
        a.units() < pow2(277),
{
    let i = (a->exponent + 149) as nat;
    let w = pow2(i);
    lemma_pow2_pos(i);
    lemma2_to64();
    lemma_pow2_adds(24, i);
    if i < 253 {
        lemma_pow2_strictly_increases((24 + i) as nat, 277);
    }
    let m = a->mantissa as nat;
    assert(m * w < 0x100_0000 * w) by (nonlinear_arith)
        requires
            m < 0x100_0000,
            w > 0,
    ;
}

/// Nothing rounds to nothing.
pub proof fn lemma_zero(n: Number)
    requires
        n.is_rounded(false, 0, 1),
    ensures
        n is Finite,
        n.units() == 0,
        n.rank() == 0,
{
    let w = pow2(149);
    assert(0 * w == 0) by (nonlinear_arith);
    lemma_too_small(0, 1);
    lemma_pow2_pos(277);
}

/// A whole number of at most twenty-four bits needs no rounding.
pub proof fn lemma_whole_rounded(p: nat)
    requires
        p < 0x100_0000,
    ensures
        rounded(p, 1) == p * pow2(149),
        rounded(p, 1) < pow2(277),
        p > 0 ==> p * pow2(149) > 0,
{
    let x = p * pow2(149);
    let s = spare_bits(x, 1);
    lemma_spare_bits(x, 1);
    lemma2_to64();
    lemma_pow2_adds(24, 149);
    lemma_pow2_pos(149);
    lemma_pow2_strictly_increases(173, 277);
    let w = pow2(149);
    assert(x < 0x100_0000 * w) by (nonlinear_arith)
        requires
            x == p * w,
            p < 0x100_0000,
            w > 0,
    ;
    if s > 149 {
        if 23 + s > 173 {
            lemma_pow2_strictly_increases(173, (23 + s) as nat);
        }
        assert(false);
    }
    let d = pow2(s);
    lemma_pow2_pos(s);
    lemma_pow2_adds((149 - s) as nat, s);
    let k = p * pow2((149 - s) as nat);
    let e = pow2((149 - s) as nat);
    assert(p * (e * d) == (p * e) * d) by (nonlinear_arith);
    assert(x == k * d);
    assert(1 * d == d);
    lemma_cancel(k, 1, d);
    assert(k % 1 == 0 && k / 1 == k);
    assert(half_even(x, 1 * d) == k);
    if p > 0 {
        assert(p * w > 0) by (nonlinear_arith)
            requires
                p > 0,
                w > 0,
        ;
    }
}

/// A whole number of at most twenty-four bits is held exactly.
pub proof fn lemma_whole(n: Number, negative: bool, p: nat)
    requires
        n.is_rounded(negative, p, 1),
        p < 0x100_0000,
    ensures
        n is Finite,
        n.is_negative() == negative,
        n.units() == p * pow2(149),
        p > 0 ==> n.units() > 0 && n->mantissa > 0,
{
    lemma_whole_rounded(p);
    if p > 0 {
        let m = n->mantissa as nat;
        let u = pow2((n->exponent + 149) as nat);
        assert(m == 0 ==> m * u == 0) by (nonlinear_arith);
    }
}

/// Two well-formed finite numbers of one sign and one size are the same number.
pub proof fn lemma_one_form(a: Number, b: Number)
    requires
        a.wf(),
        b.wf(),
        a is Finite,
        b is Finite,
        a.is_negative() == b.is_negative(),
        a.units() == b.units(),
    ensures
        a == b,
{
    if a->exponent > b->exponent {
        lemma_exponent_orders(a, b);
    } else if b->exponent > a->exponent {
        lemma_exponent_orders(b, a);
    }
    lemma_mantissa_orders(a, b);
}

proof fn lemma_cancel(n: nat, d: nat, c: nat)
    requires
        d > 0,
        c > 0,
    ensures
        d * c > 0,
        (n * c) / (d * c) == n / d,
        half_even(n * c, d * c) == half_even(n, d),
{
    lemma_fundamental_div_mod(n as int, d as int);
    let f = n / d;
    let r = n % d;
    assert(d * c > 0) by (nonlinear_arith)
        requires
            d > 0,
            c > 0,
    ;
    assert(n * c == f * (d * c) + r * c) by (nonlinear_arith)
        requires
            n == d * f + r,
    ;
    assert(r * c < d * c) by (nonlinear_arith)
        requires
            r < d,
            c > 0,
    ;
    lemma_fundamental_div_mod_converse((n * c) as int, (d * c) as int, f as int, (r * c) as int);
    assert(2 * (r * c) < d * c <==> 2 * r < d) by (nonlinear_arith)
        requires
            c > 0,
    ;
    assert(2 * (r * c) > d * c <==> 2 * r > d) by (nonlinear_arith)
        requires
            c > 0,
    ;
}

/// Two to the power of `e`.
fn power_of_two(e: u32) -> (r: u128)
    requires
        e <= 100,
    ensures
        r == pow2(e as nat),
        r > 0,
{
    let mut r: u128 = 1;
    let mut i: u32 = 0;
    proof {
        lemma2_to64();
        lemma2_to64_rest();
        lemma_pow2_adds(64, 36);
    }
    while i < e
        invariant
            i <= e <= 100,
            r == pow2(i as nat),
            r > 0,
            pow2(100) == 0x1_0000_0000_0000_0000nat * 0x10_0000_0000nat,
        decreases e - i,
    {
        proof {
            lemma_pow2_unfold((i + 1) as nat);
            if i + 1 < 100 {
                lemma_pow2_strictly_increases((i + 1) as nat, 100);
            }
        }
        r = 2 * r;
        i += 1;
    }
    r
}

impl Number {
    pub fn is_finite(self) -> (r: bool)
        ensures
            r == (self is Finite),
    {
        match self {
            Number::Finite { .. } => true,
            _ => false,
        }
    }

    /// `p / q` as a number.
    pub fn ratio(p: u64, q: u64) -> (r: Number)
        requires
            q > 0,
        ensures
            r == near(false, p as nat, q as nat),
            r.is_rounded(false, p as nat, q as nat),
            r.wf(),
    {
        nearest(false, Natural::from_u64(p), Natural::from_u64(q))
    }

    /// How the magnitudes of two finite numbers compare.
    fn compare_magnitude(self, other: Number) -> (r: Relation)
        requires
            self.wf(),
            other.wf(),
            self is Finite,
            other is Finite,
        ensures
            r == relation(self.units() as int, other.units() as int),
    {
        proof {
            if self->exponent > other->exponent {
                lemma_exponent_orders(self, other);
            } else if self->exponent < other->exponent {
                lemma_exponent_orders(other, self);
            } else {
                lemma_mantissa_orders(self, other);
            }
        }
        match (self, other) {
            (
                Number::Finite { mantissa: ma, exponent: ea, .. },
                Number::Finite { mantissa: mb, exponent: eb, .. },
            ) => {
                if ea < eb || (ea == eb && ma < mb) {
                    Relation::Less
                } else if ea == eb && ma == mb {
                    Relation::Same
                } else {
                    Relation::More
                }
            },
            _ => Relation::Same,
        }
    }

    /// Whether `self < other`; nothing is less than, or more than, no number.
    pub fn below(self, other: Number) -> (r: bool)
        requires
            self.wf(),
            other.wf(),
        ensures
            r == (self !is NotANumber && other !is NotANumber && self.rank() < other.rank()),
    {
        proof {
            lemma_pow2_pos(277);
            if self is Finite {
                lemma_finite_bound(self);
            }
            if other is Finite {
                lemma_finite_bound(other);
            }
        }
        match (self, other) {
            (Number::NotANumber, _) => false,
            (_, Number::NotANumber) => false,
            (Number::Infinite { negative: a }, Number::Infinite { negative: b }) => a && !b,
            (Number::Infinite { negative }, _) => negative,
            (_, Number::Infinite { negative }) => !negative,
            (
                Number::Finite { negative: na, mantissa: ma, .. },
                Number::Finite { negative: nb, mantissa: mb, .. },
            ) => {
                let relation: Relation = self.compare_magnitude(other);
                proof {
                    let wa = pow2((self->exponent + 149) as nat);
                    let wb = pow2((other->exponent + 149) as nat);
                    lemma_pow2_pos((self->exponent + 149) as nat);
                    lemma_pow2_pos((other->exponent + 149) as nat);
                    assert(ma == 0 ==> ma as nat * wa == 0) by (nonlinear_arith);
                    assert(mb == 0 ==> mb as nat * wb == 0) by (nonlinear_arith);
                    assert(ma > 0 ==> ma as nat * wa > 0) by (nonlinear_arith)
                        requires
                            wa > 0,
                    ;
                    assert(mb > 0 ==> mb as nat * wb > 0) by (nonlinear_arith)
                        requires
                            wb > 0,
                    ;
                }
                if na && !nb {
                    ma > 0 || mb > 0
                } else if !na && nb {
                    false
                } else if na {
                    matches!(relation, Relation::More)
                } else {
                    matches!(relation, Relation::Less)
                }
            },
        }
    }

    /// Whether `self <= other`.
    pub fn at_most(self, other: Number) -> (r: bool)
        requires
            self.wf(),
            other.wf(),
        ensures
            r == (self !is NotANumber && other !is NotANumber && self.rank() <= other.rank()),
    {
        match (self, other) {
            (Number::NotANumber, _) => false,
            (_, Number::NotANumber) => false,
            _ => !other.below(self),
        }
    }

    /// `self` moved into `low..=high`; no number stays no number.
    pub fn clamp(self, low: Number, high: Number) -> (r: Number)
        requires
            self.wf(),
            low.wf(),
            high.wf(),
        ensures
            r == self.clamped(low, high),
            r.wf(),
    {
        if self.below(low) {
            low
        } else if high.below(self) {
            high
        } else {
            self
        }
    }

    pub open spec fn clamped(self, low: Number, high: Number) -> Number {
        if self is NotANumber {
            self
        } else if low !is NotANumber && self.rank() < low.rank() {
            low
        } else if high !is NotANumber && high.rank() < self.rank() {
            high
        } else {
            self
        }
    }

    /// The product, rounded.
    pub fn times(self, other: Number) -> (r: Number)
        requires
            self.wf(),
            other.wf(),
        ensures
            r.wf(),
            r == self.product(other),
            self is Finite && other is Finite ==> r.is_rounded(
                self.is_negative() != other.is_negative(),
                self.units() * other.units(),
                pow2(298),
            ),
    {
        match (self, other) {
            (Number::NotANumber, _) => Number::NotANumber,
            (_, Number::NotANumber) => Number::NotANumber,
            (Number::Infinite { negative: a }, Number::Infinite { negative: b }) => Number::Infinite {
                negative: a != b,
            },
            (Number::Infinite { negative: a }, Number::Finite { negative: b, mantissa, .. }) => {
                if mantissa == 0 {
                    Number::NotANumber
                } else {
                    Number::Infinite { negative: a != b }
                }
            },
            (Number::Finite { negative: a, mantissa, .. }, Number::Infinite { negative: b }) => {
                if mantissa == 0 {
                    Number::NotANumber
                } else {
                    Number::Infinite { negative: a != b }
                }
            },
            (
                Number::Finite { negative: na, mantissa: ma, exponent: ea },
                Number::Finite { negative: nb, mantissa: mb, exponent: eb },
            ) => {
                assert(ma as u64 * mb as u64 <= 0xFF_FFFF * 0xFF_FFFF) by (nonlinear_arith)
                    requires
                        ma <= 0xFF_FFFFu32,
                        mb <= 0xFF_FFFFu32,
                ;
                let mut p = Natural::from_u64(ma as u64 * mb as u64);
                p.shift((ea + 149) as u32);
                p.shift((eb + 149) as u32);
                let mut q = Natural::from_u64(1);
                q.shift(298);
                proof {
                    let wa = pow2((ea + 149) as nat);
                    let wb = pow2((eb + 149) as nat);
                    let a = ma as nat;
                    let b = mb as nat;
                    assert((a * b) * wa * wb == (a * wa) * (b * wb)) by (nonlinear_arith);
                    assert(1 * pow2(298) == pow2(298)) by (nonlinear_arith);
                    lemma_pow2_pos(298);
                }
                nearest(na != nb, p, q)
            },
        }
    }

    /// The rounded product of `self` and `other`.
    pub open spec fn product(self, other: Number) -> Number {
        let negative = self.is_negative() != other.is_negative();
        if self is NotANumber || other is NotANumber {
            Number::NotANumber
        } else if self is Finite && other is Finite {
            near(negative, self.units() * other.units(), pow2(298))
        } else if (self is Finite && self->mantissa == 0) || (other is Finite && other->mantissa
            == 0) {
            Number::NotANumber
        } else {
            Number::Infinite { negative }
        }
    }

    /// The quotient by a finite number other than zero, rounded.
    pub fn over(self, other: Number) -> (r: Number)
        requires
            self.wf(),
            other.wf(),
            other is Finite,
            other->mantissa > 0,
        ensures
            r.wf(),
            r == self.quotient(other),
            self is Finite ==> r.is_rounded(
                self.is_negative() != other.is_negative(),
                self.units(),
                other.units(),
            ),
    {
        match (self, other) {
            (Number::Infinite { negative: a }, Number::Finite { negative: b, .. }) => {
                Number::Infinite { negative: a != b }
            },
            (
                Number::Finite { negative: na, mantissa: ma, exponent: ea },
                Number::Finite { negative: nb, mantissa: mb, exponent: eb },
            ) => {
                let mut p = Natural::from_u64(ma as u64);
                p.shift((ea + 149) as u32);
                let mut q = Natural::from_u64(mb as u64);
                q.shift((eb + 149) as u32);
                proof {
                    let w = pow2((eb + 149) as nat);
                    lemma_pow2_pos((eb + 149) as nat);
                    let m = mb as nat;
                    assert(m * w > 0) by (nonlinear_arith)
                        requires
                            m > 0,
                            w > 0,
                    ;
                }
                nearest(na != nb, p, q)
            },
            _ => Number::NotANumber,
        }
    }

    /// The rounded quotient of `self` by the finite `other`.
    pub open spec fn quotient(self, other: Number) -> Number {
        let negative = self.is_negative() != other.is_negative();
        match self {
            Number::NotANumber => Number::NotANumber,
            Number::Infinite { .. } => Number::Infinite { negative },
            Number::Finite { .. } => near(negative, self.units(), other.units()),
        }
    }

    /// The sum of two finite numbers that are not negative, rounded.
    pub fn plus(self, other: Number) -> (r: Number)
        requires
            self.wf(),
            other.wf(),
            self is Finite && !self.is_negative(),
            other is Finite && !other.is_negative(),
        ensures
            r == near(false, self.units() + other.units(), pow2(149)),
            r.is_rounded(false, self.units() + other.units(), pow2(149)),
            r.wf(),
    {
        match (self, other) {
            (
                Number::Finite { mantissa: ma, exponent: ea, .. },
                Number::Finite { mantissa: mb, exponent: eb, .. },
            ) => {
                let mut p = Natural::from_u64(ma as u64);
                p.shift((ea + 149) as u32);
                let mut more = Natural::from_u64(mb as u64);
                more.shift((eb + 149) as u32);
                p.increase(&more);
                let mut q = Natural::from_u64(1);
                q.shift(149);
                proof {
                    lemma_pow2_pos(149);
                    assert(1 * pow2(149) == pow2(149)) by (nonlinear_arith);
                }
                nearest(false, p, q)
            },
            _ => Number::NotANumber,
        }
    }

    /// The whole part of the magnitude, as far as it goes.
    pub open spec fn whole(self) -> nat {
        self.units() / pow2(149)
    }

    /// The whole part of a finite magnitude, up to `limit`.
    fn whole_up_to(self, limit: u32) -> (r: u32)
        requires
            self.wf(),
            self is Finite,
        ensures
            r == (if self.whole() <= limit {
                self.whole()
            } else {
                limit as nat
            }),
    {
        match self {
            Number::Finite { mantissa, exponent, .. } => {
                let ghost m = mantissa as nat;
                if exponent >= 0 {
                    proof {
                        lemma_pow2_adds(exponent as nat, 149);
                        lemma_pow2_pos(149);
                        let e = pow2(exponent as nat);
                        let w = pow2(149);
                        assert(m * (e * w) == (m * e) * w) by (nonlinear_arith);
                        lemma_cancel(m * e, 1, w);
                        assert(1 * w == w) by (nonlinear_arith);
                    }
                    if exponent > 32 {
                        proof {
                            lemma_pow2_strictly_increases(32, exponent as nat);
                            lemma2_to64();
                            let e = pow2(exponent as nat);
                            assert(m * e > 0xFFFF_FFFF) by (nonlinear_arith)
                                requires
                                    m >= 0x80_0000,
                                    e > 0x1_0000_0000,
                            ;
                        }
                        limit
                    } else {
                        let p: u128 = power_of_two(exponent as u32);
                        proof {
                            lemma2_to64();
                            if exponent < 32 {
                                lemma_pow2_strictly_increases(exponent as nat, 32);
                            }
                            assert(mantissa as u128 * p <= 0xFF_FFFF * 0x1_0000_0000)
                                by (nonlinear_arith)
                                requires
                                    mantissa <= 0xFF_FFFFu32,
                                    p <= 0x1_0000_0000u128,
                            ;
                        }
                        let v: u128 = mantissa as u128 * p;
                        if v <= limit as u128 {
                            v as u32
                        } else {
                            limit
                        }
                    }
                } else {
                    let down: u32 = (-exponent) as u32;
                    proof {
                        let rest = (149 - down) as nat;
                        lemma_pow2_adds(down as nat, rest);
                        lemma_pow2_pos(rest);
                        lemma_pow2_pos(down as nat);
                        lemma_cancel(m, pow2(down as nat), pow2(rest));
                    }
                    if down > 24 {
                        proof {
                            lemma_pow2_strictly_increases(24, down as nat);
                            lemma2_to64();
                            lemma_fundamental_div_mod_converse(
                                m as int,
                                pow2(down as nat) as int,
                                0,
                                m as int,
                            );
                        }
                        0
                    } else {
                        let d: u128 = power_of_two(down);
                        let v: u128 = mantissa as u128 / d;
                        proof {
                            assert(v <= mantissa) by (nonlinear_arith)
                                requires
                                    v == mantissa as u128 / d,
                                    d > 0,
                            ;
                        }
                        if v <= limit as u128 {
                            v as u32
                        } else {
                            limit
                        }
                    }
                }
            },
            _ => 0,
        }
    }

    /// What casting to an unsigned whole number up to `limit` gives.
    pub open spec fn truncated(self, limit: nat) -> nat {
        match self {
            Number::NotANumber => 0,
            Number::Infinite { negative } => if negative {
                0
            } else {
                limit
            },
            Number::Finite { negative, .. } => if negative {
                0
            } else if self.whole() <= limit {
                self.whole()
            } else {
                limit
            },
        }
    }

    /// The whole part, nothing below zero and at most `limit`.
    pub fn truncate(self, limit: u32) -> (r: u32)
        requires
            self.wf(),
        ensures
            r == self.truncated(limit as nat),
            r <= limit,
    {
        match self {
            Number::NotANumber => 0,
            Number::Infinite { negative } => if negative {
                0
            } else {
                limit
            },
            Number::Finite { negative, .. } => if negative {
                0
            } else {
                self.whole_up_to(limit)
            },
        }
    }

    /// The number cut to a whole sample, held within the range of samples.
    pub open spec fn as_sample(self) -> int {
        match self {
            Number::NotANumber => 0,
            Number::Infinite { negative } => if negative {
                -0x8000
            } else {
                0x7FFF
            },
            Number::Finite { negative, .. } => if negative {
                if self.whole() <= 0x8000 {
                    -self.whole()
                } else {
                    -0x8000
                }
            } else if self.whole() <= 0x7FFF {
                self.whole() as int
            } else {
                0x7FFF
            },
        }
    }

    pub fn to_sample(self) -> (r: i16)
        requires
            self.wf(),
        ensures
            r == self.as_sample(),
    {
        match self {
            Number::NotANumber => 0,
            Number::Infinite { negative } => if negative {
                -0x8000
            } else {
                0x7FFF
            },
            Number::Finite { negative, .. } => if negative {
                (-(self.whole_up_to(0x8000) as i32)) as i16
            } else {
                self.whole_up_to(0x7FFF) as i16
            },
        }
    }

    /// A sample as a number, which holds it exactly.
    pub fn of_sample(sample: i16) -> (r: Number)
        ensures
            r == near(sample < 0, abs(sample as int), 1),
            r.wf(),
    {
        let negative: bool = sample < 0;
        let size: u64 = if negative {
            (-(sample as i64)) as u64
        } else {
            sample as u64
        };
        nearest(negative, Natural::from_u64(size), Natural::from_u64(1))
    }

    /// Whether the number is a length of time in seconds that can be held.
    pub open spec fn is_seconds(self) -> bool {
        self is Finite && (!self.is_negative() || self.units() == 0) && self.units() < pow2(213)
    }

    /// Whether the number is a length of time in seconds that can be held.
    pub fn can_be_seconds(self) -> (r: bool)
        requires
            self.wf(),
        ensures
            r == self.is_seconds(),
    {
        match self {
            Number::Finite { negative, mantissa, exponent } => {
                proof {
                    let i = (exponent + 149) as nat;
                    let w = pow2(i);
                    let m = mantissa as nat;
                    lemma_pow2_pos(i);
                    lemma2_to64();
                    lemma_pow2_adds(24, i);
                    lemma_pow2_adds(23, i);
                    assert(m * w < 0x100_0000 * w) by (nonlinear_arith)
                        requires
                            m < 0x100_0000,
                            w > 0,
                    ;
                    assert(m >= 0x80_0000 ==> m * w >= 0x80_0000 * w) by (nonlinear_arith)
                        requires
                            w > 0,
                    ;
                    assert(m == 0 <==> m * w == 0) by (nonlinear_arith)
                        requires
                            w > 0,
                    ;
                    if exponent < 40 {
                        lemma_pow2_strictly_increases((24 + i) as nat, 213);
                    }
                    if exponent > 41 {
                        lemma_pow2_strictly_increases(213, (23 + i) as nat);
                    }
                }
                (!negative || mantissa == 0) && exponent <= 40
            },
            _ => false,
        }
    }

    /// The seconds as nanoseconds, rounded.
    pub fn seconds(self) -> (r: Duration)
        requires
            self.wf(),
            self.is_seconds(),
        ensures
            r.nanos == half_even(self.units() * 1_000_000_000, pow2(149)),
    {
        match self {
            Number::Finite { mantissa, exponent, .. } => {
                let a: u128 = mantissa as u128 * 1_000_000_000;
                let ghost m = mantissa as nat;
                let ghost an = a as nat;
                if exponent >= 0 {
                    proof {
                        lemma_pow2_adds(exponent as nat, 149);
                        lemma_pow2_adds(64, 149);
                        lemma_pow2_pos(149);
                        lemma_pow2_pos(exponent as nat);
                        lemma2_to64();
                        let e = pow2(exponent as nat);
                        let w = pow2(149);
                        assert(m * (e * w) == (m * e) * w) by (nonlinear_arith);
                        assert(m * e < 0x1_0000_0000_0000_0000) by (nonlinear_arith)
                            requires
                                (m * e) * w < 0x1_0000_0000_0000_0000 * w,
                                w > 0,
                        ;
                        assert(e < 0x1_0000_0000_0000_0000) by (nonlinear_arith)
                            requires
                                m * e < 0x1_0000_0000_0000_0000,
                                m >= 1,
                        ;
                        if exponent > 64 {
                            lemma_pow2_strictly_increases(64, exponent as nat);
                        }
                        assert((m * (e * w)) * 1_000_000_000 == ((m * 1_000_000_000) * e) * w)
                            by (nonlinear_arith);
                        lemma_cancel((m * 1_000_000_000) * e, 1, w);
                        assert(1 * w == w) by (nonlinear_arith);
                        let n = (m * 1_000_000_000) * e;
                        assert(n % 1 == 0 && n / 1 == n);
                        assert((m * 1_000_000_000) * e == (m * e) * 1_000_000_000)
                            by (nonlinear_arith);
                    }
                    let p: u128 = power_of_two(exponent as u32);
                    Duration { nanos: a * p }
                } else {
                    let down: u32 = (-exponent) as u32;
                    let ghost d = pow2(down as nat);
                    proof {
                        let rest = (149 - down) as nat;
                        lemma_pow2_adds(down as nat, rest);
                        lemma_pow2_pos(rest);
                        lemma_pow2_pos(down as nat);
                        let w = pow2(rest);
                        assert((m * w) * 1_000_000_000 == an * w) by (nonlinear_arith)
                            requires
                                an == m * 1_000_000_000,
                        ;
                        lemma_cancel(an, d, w);
                    }
                    if down > 64 {
                        proof {
                            lemma_pow2_strictly_increases(64, down as nat);
                            lemma2_to64();
                            lemma_fundamental_div_mod_converse(an as int, d as int, 0, an as int);
                        }
                        Duration { nanos: 0 }
                    } else {
                        let divisor: u128 = power_of_two(down);
                        proof {
                            lemma2_to64();
                            if down < 64 {
                                lemma_pow2_strictly_increases(down as nat, 64);
                            }
                            assert(a / divisor <= a) by (nonlinear_arith)
                                requires
                                    divisor > 0,
                            ;
                        }
                        let f: u128 = a / divisor;
                        let r: u128 = a % divisor;
                        if 2 * r < divisor {
                            Duration { nanos: f }
                        } else if 2 * r > divisor {
                            Duration { nanos: f + 1 }
                        } else {
                            Duration { nanos: f + f % 2 }
                        }
                    }
                }
            },
            _ => Duration { nanos: 0 },
        }
    }
}

pub open spec fn abs(n: int) -> nat {
    if n < 0 {
        (-n) as nat
    } else {
        n as nat
    }
}

// ---------------------------------------------------------------------------
// What rounding gives
// ---------------------------------------------------------------------------

/// Every fraction has a number that it rounds to.
pub proof fn lemma_near_is_rounded(negative: bool, p: nat, q: nat)
    requires
        q > 0,
    ensures
        near(negative, p, q).is_rounded(negative, p, q),
{
    let x = p * pow2(149);
    let s = spare_bits(x, q);
    let w = pow2(s);
    lemma_spare_bits(x, q);
    lemma_pow2_pos(s);
    lemma2_to64();
    lemma_pow2_adds(24, s);
    let d = q * w;
    assert(d > 0) by (nonlinear_arith)
        requires
            q > 0,
            w > 0,
            d == q * w,
    ;
    assert(q * pow2(24 + s) == d * 0x100_0000) by (nonlinear_arith)
        requires
            pow2(24 + s) == 0x100_0000 * w,
            d == q * w,
    ;
    lemma_half_even_bound(x, d, 0x100_0000);
    let m = half_even(x, d);
    if s > 0 {
        lemma_wide(x, q);
    }
    if rounded(p, q) >= pow2(277) {
        assert((Number::Infinite { negative }).is_rounded(negative, p, q));
    } else {
        if s > 253 {
            lemma_pow2_adds(23, s);
            assert(m * w >= 0x80_0000 * w) by (nonlinear_arith)
                requires
                    m >= 0x80_0000,
            ;
            if s > 254 {
                lemma_pow2_strictly_increases(277, 23 + s);
            }
        }
        if m < 0x100_0000 {
            let n = Number::Finite {
                negative,
                mantissa: m as u32,
                exponent: (s - 149) as i32,
            };
            assert(n.units() == m * w);
            assert(n.is_rounded(negative, p, q));
        } else {
            lemma_pow2_unfold(s + 1);
            assert(0x80_0000 * (2 * w) == 0x100_0000 * w) by (nonlinear_arith);
            if s == 253 {
                lemma_pow2_adds(24, 253);
            }
            let n = Number::Finite {
                negative,
                mantissa: 0x80_0000,
                exponent: (s + 1 - 149) as i32,
            };
            assert(n.units() == 0x80_0000 * pow2(s + 1));
            assert(n.is_rounded(negative, p, q));
        }
    }
}

/// A whole number of at most twenty-four bits is a number as it is.
pub proof fn lemma_near_whole(negative: bool, p: nat)
    requires
        p < 0x100_0000,
    ensures
        near(negative, p, 1) is Finite,
        near(negative, p, 1).wf(),
        near(negative, p, 1).is_negative() == negative,
        near(negative, p, 1).units() == p * pow2(149),
        near(negative, p, 1).whole() == p,
{
    lemma_near_is_rounded(negative, p, 1);
    lemma_whole(near(negative, p, 1), negative, p);
    lemma_pow2_pos(149);
    let w = pow2(149);
    assert((p * w) / w == p) by {
        vstd::arithmetic::div_mod::lemma_div_multiples_vanish(p as int, w as int);
        assert(p * w == w * p) by (nonlinear_arith);
    }
}

/// Rounding keeps to whole numbers: what lies between two of them stays there.
pub proof fn lemma_rounded_between(p: nat, q: nat, k: nat)
    requires
        q > 0,
        k * q <= p < (k + 1) * q,
        k + 1 < 0x100_0000,
    ensures
        k * pow2(149) <= rounded(p, q) <= (k + 1) * pow2(149),
        rounded(p, q) < pow2(277),
{
    let u = pow2(149);
    let x = p * u;
    let s = spare_bits(x, q);
    let w = pow2(s);
    lemma_spare_bits(x, q);
    lemma_pow2_pos(s);
    lemma_pow2_pos(149);
    lemma2_to64();
    lemma_pow2_adds(24, 149);
    lemma_pow2_strictly_increases(173, 277);
    if s > 149 {
        lemma_pow2_adds((23 + s - 173) as nat, 173);
        lemma_pow2_pos((23 + s - 173) as nat);
        let big = pow2((23 + s) as nat);
        let e = pow2((23 + s - 173) as nat);
        assert(big >= pow2(173)) by (nonlinear_arith)
            requires
                big == e * pow2(173),
                e >= 1,
        ;
        assert(x < q * pow2(173)) by (nonlinear_arith)
            requires
                p < (k + 1) * q,
                k + 1 < 0x100_0000,
                x == p * u,
                u > 0,
                pow2(173) == 0x100_0000 * u,
                q > 0,
        ;
        assert(q * big >= q * pow2(173)) by (nonlinear_arith)
            requires
                big >= pow2(173),
        ;
        assert(false);
    }
    let v = pow2((149 - s) as nat);
    lemma_pow2_adds((149 - s) as nat, s);
    assert(u == v * w);
    let d = q * w;
    assert(d > 0) by (nonlinear_arith)
        requires
            q > 0,
            w > 0,
            d == q * w,
    ;
    let low = k * v;
    let high = (k + 1) * v;
    assert(x >= d * low) by (nonlinear_arith)
        requires
            k * q <= p,
            x == p * u,
            u == v * w,
            d == q * w,
            low == k * v,
    ;
    assert(x < d * high) by (nonlinear_arith)
        requires
            p < (k + 1) * q,
            x == p * u,
            u == v * w,
            u > 0,
            d == q * w,
            high == (k + 1) * v,
    ;
    lemma_half_even_scaled(x, d, low);
    lemma_half_even_bound(x, d, high);
    let m = half_even(x, d);
    assert(k * u <= m * w <= (k + 1) * u) by (nonlinear_arith)
        requires
            low <= m <= high,
            low == k * v,
            high == (k + 1) * v,
            u == v * w,
    ;
    assert((k + 1) * u < 0x100_0000 * u) by (nonlinear_arith)
        requires
            k + 1 < 0x100_0000,
            u > 0,
    ;
}

/// A fraction that is a whole number needs no rounding.
pub proof fn lemma_rounded_exact(p: nat, q: nat, k: nat)
    requires
        q > 0,
        p == k * q,
        k + 1 < 0x100_0000,
    ensures
        rounded(p, q) == k * pow2(149),
        rounded(p, q) < pow2(277),
{
    let u = pow2(149);
    assert(k * q <= p < (k + 1) * q) by (nonlinear_arith)
        requires
            q > 0,
            p == k * q,
    ;
    lemma_rounded_between(p, q, k);
    let x = p * u;
    let s = spare_bits(x, q);
    let w = pow2(s);
    lemma_pow2_pos(s);
    lemma2_to64();
    assert(p * pow2(0) == p);
    lemma_steps_fit(p, q, k, 0);
    let v = pow2((149 - s) as nat);
    lemma_pow2_adds((149 - s) as nat, s);
    let d = q * w;
    assert(d > 0) by (nonlinear_arith)
        requires
            q > 0,
            w > 0,
            d == q * w,
    ;
    let f = k * v;
    assert(x == d * f) by (nonlinear_arith)
        requires
            x == p * u,
            p == k * q,
            u == v * w,
            d == q * w,
            f == k * v,
    ;
    lemma_fundamental_div_mod_converse(x as int, d as int, f as int, 0);
    assert(half_even(x, d) == f);
    assert(f * w == k * u) by (nonlinear_arith)
        requires
            f == k * v,
            u == v * w,
    ;
}

/// A fraction that fits in twenty-four bits of steps is rounded to no wider ones.
proof fn lemma_steps_fit(p: nat, q: nat, k: nat, e: nat)
    requires
        q > 0,
        e <= 149,
        p * pow2(e) < (k + 1) * q,
        k + 1 < 0x100_0000,
    ensures
        spare_bits(p * pow2(149), q) <= 149 - e,
{
    let v = pow2((149 - e) as nat);
    let u = pow2(149);
    let x = p * u;
    let s = spare_bits(x, q);
    lemma_spare_bits(x, q);
    lemma_pow2_pos((149 - e) as nat);
    lemma2_to64();
    lemma_pow2_adds(e, (149 - e) as nat);
    lemma_pow2_adds(24, (149 - e) as nat);
    if s > 149 - e {
        let big = pow2((23 + s) as nat);
        let small = pow2((24 + (149 - e)) as nat);
        let more = (23 + s - (24 + (149 - e))) as nat;
        lemma_pow2_adds(more, (24 + (149 - e)) as nat);
        lemma_pow2_pos(more);
        let step = pow2(more);
        assert(big >= small) by (nonlinear_arith)
            requires
                big == step * small,
                step >= 1,
        ;
        let pe = p * pow2(e);
        assert(x == pe * v) by (nonlinear_arith)
            requires
                x == p * u,
                pe == p * pow2(e),
                u == pow2(e) * v,
        ;
        assert(x < q * small) by (nonlinear_arith)
            requires
                pe < (k + 1) * q,
                k + 1 < 0x100_0000,
                x == pe * v,
                v > 0,
                small == 0x100_0000 * v,
                q > 0,
        ;
        assert(q * big >= q * small) by (nonlinear_arith)
            requires
                big >= small,
        ;
        assert(false);
    }
}

/// Rounding keeps between neighbouring halves, quarters and so on, too.
pub proof fn lemma_rounded_in_steps(p: nat, q: nat, k: nat, e: nat)
    requires
        q > 0,
        e <= 149,
        k * q <= p * pow2(e) < (k + 1) * q,
        k + 1 < 0x100_0000,
    ensures
        k * pow2((149 - e) as nat) <= rounded(p, q) <= (k + 1) * pow2((149 - e) as nat),
{
    let u = pow2(149);
    let t = pow2((149 - e) as nat);
    let x = p * u;
    let s = spare_bits(x, q);
    let w = pow2(s);
    lemma_spare_bits(x, q);
    lemma_pow2_pos(s);
    lemma_pow2_pos((149 - e) as nat);
    lemma_pow2_adds(e, (149 - e) as nat);
    lemma_steps_fit(p, q, k, e);
    let v = pow2((149 - e - s) as nat);
    lemma_pow2_adds((149 - e - s) as nat, s);
    let d = q * w;
    assert(d > 0) by (nonlinear_arith)
        requires
            q > 0,
            w > 0,
            d == q * w,
    ;
    let pe = p * pow2(e);
    assert(x == pe * t) by (nonlinear_arith)
        requires
            x == p * u,
            pe == p * pow2(e),
            u == pow2(e) * t,
    ;
    let low = k * v;
    let high = (k + 1) * v;
    assert(x >= d * low) by (nonlinear_arith)
        requires
            k * q <= pe,
            x == pe * t,
            t == v * w,
            d == q * w,
            low == k * v,
    ;
    assert(x < d * high) by (nonlinear_arith)
        requires
            pe < (k + 1) * q,
            x == pe * t,
            t == v * w,
            t > 0,
            d == q * w,
            high == (k + 1) * v,
    ;
    lemma_half_even_scaled(x, d, low);
    lemma_half_even_bound(x, d, high);
    let m = half_even(x, d);
    assert(k * t <= m * w <= (k + 1) * t) by (nonlinear_arith)
        requires
            low <= m <= high,
            low == k * v,
            high == (k + 1) * v,
            t == v * w,
    ;
}

// ---------------------------------------------------------------------------
// What a text says
// ---------------------------------------------------------------------------

proof fn lemma_no_letters(s: Seq<char>)
    requires
        s.len() > 0,
        forall|i: int| 0 <= i < s.len() ==> is_digit(#[trigger] s[i]) || s[i] == '.',
    ensures
        split_sign(s) == (false, s),
        lower(s) == s,
        s != "inf"@ && s != "infinity"@ && s != "nan"@,
        first_at(s, 'e') == s.len(),
{
    reveal_strlit("inf");
    reveal_strlit("infinity");
    reveal_strlit("nan");
    assert(is_digit(s[0]) || s[0] == '.');
    assert("inf"@[0] == 'i' && "infinity"@[0] == 'i' && "nan"@[0] == 'n');
    assert(lower(s) =~= s) by {
        assert forall|i: int| 0 <= i < s.len() implies lower(s)[i] == s[i] by {
            assert(is_digit(s[i]) || s[i] == '.');
        }
    }
    assert forall|j: int| 0 <= j < s.len() implies s[j] != 'e' by {
        assert(is_digit(s[j]) || s[j] == '.');
    }
    lemma_first_at_is(s, 'e', s.len() as int);
}

/// Digits stand for the whole number that they spell.
pub proof fn lemma_digits_are_a_number(s: Seq<char>)
    requires
        s.len() > 0,
        all_digits(s),
    ensures
        number_of(s) == Some(near(false, digits_value(s), 1)),
{
    lemma_no_letters(s);
    assert forall|j: int| 0 <= j < s.len() implies s[j] != '.' by {
        assert(is_digit(s[j]));
    }
    lemma_first_at_is(s, '.', s.len() as int);
    assert(s.take(s.len() as int) =~= s);
    let n = digits_value(s);
    assert(decimal_of(s) == Some((n, 0int)));
    assert(pow10(0) == 1);
    assert(n * 1 == n) by (nonlinear_arith);
}

/// A decimal fraction stands for its digits over a power of ten.
pub proof fn lemma_fraction_is_a_number(whole: Seq<char>, part: Seq<char>)
    requires
        whole.len() > 0,
        part.len() > 0,
        all_digits(whole),
        all_digits(part),
    ensures
        number_of(whole + seq!['.'] + part) == Some(
            near(false, digits_value(whole + part), pow10(part.len())),
        ),
{
    let s = whole + seq!['.'] + part;
    assert forall|i: int| 0 <= i < s.len() implies is_digit(#[trigger] s[i]) || s[i] == '.' by {
        if i < whole.len() {
            assert(s[i] == whole[i]);
        } else if i > whole.len() {
            assert(s[i] == part[i - whole.len() - 1]);
        }
    }
    lemma_no_letters(s);
    assert forall|j: int| 0 <= j < whole.len() implies s[j] != '.' by {
        assert(s[j] == whole[j]);
        assert(is_digit(whole[j]));
    }
    lemma_first_at_is(s, '.', whole.len() as int);
    assert(s.take(s.len() as int) =~= s);
    assert(s.take(whole.len() as int) =~= whole);
    assert(s.skip(whole.len() as int + 1) =~= part);
    let n = digits_value(whole + part);
    assert(decimal_of(s) == Some((n, -(part.len() as int))));
}

/// A number in decimal says that number.
pub proof fn lemma_decimal_reads_back(n: nat)
    ensures
        crate::text::decimal(n).len() > 0,
        all_digits(crate::text::decimal(n)),
        digits_value(crate::text::decimal(n)) == n,
        number_of(crate::text::decimal(n)) == Some(near(false, n, 1)),
    decreases n,
{
    let s = crate::text::decimal(n);
    let d = crate::text::digit(n);
    assert(d as u32 == n % 10 + 48);
    if n < 10 {
        assert(s.drop_last() =~= Seq::empty());
        assert(digits_value(s.drop_last()) == 0);
    } else {
        lemma_decimal_reads_back(n / 10);
        let front = crate::text::decimal(n / 10);
        assert(s.drop_last() =~= front);
        assert forall|i: int| 0 <= i < s.len() implies is_digit(#[trigger] s[i]) by {
            if i < front.len() {
                assert(s[i] == front[i]);
            }
        }
    }
    lemma_digits_are_a_number(s);
}

/// A fraction does not change when both of its parts grow alike.
pub proof fn lemma_fraction_grows(p: nat, q: nat, c: nat)
    requires
        q > 0,
        c > 0,
    ensures
        q * c > 0,
        rounded(p * c, q * c) == rounded(p, q),
{
    let u = pow2(149);
    let x = p * u;
    assert(q * c > 0) by (nonlinear_arith)
        requires
            q > 0,
            c > 0,
    ;
    assert((p * c) * u == x * c) by (nonlinear_arith)
        requires
            x == p * u,
    ;
    lemma_spare_bits_grow(x, q, c);
    let s = spare_bits(x, q);
    let w = pow2(s);
    lemma_pow2_pos(s);
    assert(q * w > 0) by (nonlinear_arith)
        requires
            q > 0,
            w > 0,
    ;
    assert((q * c) * w == (q * w) * c) by (nonlinear_arith);
    lemma_cancel(x, q * w, c);
}

proof fn lemma_spare_bits_grow(x: nat, q: nat, c: nat)
    requires
        q > 0,
        c > 0,
    ensures
        spare_bits(x * c, q * c) == spare_bits(x, q),
    decreases
            (if x >= q {
                x - q
            } else {
                0
            }),
{
    assert(q * c > 0) by (nonlinear_arith)
        requires
            q > 0,
            c > 0,
    ;
    assert(x * c < (q * c) * 0x100_0000 <==> x < q * 0x100_0000) by (nonlinear_arith)
        requires
            c > 0,
    ;
    if x >= q * 0x100_0000 {
        lemma_spare_bits_grow(x, 2 * q, c);
        assert((2 * q) * c == 2 * (q * c)) by (nonlinear_arith);
    }
}

} // verus!
