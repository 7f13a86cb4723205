//! Samples: what counts as silence, and how a microphone is mixed in.

use vstd::arithmetic::div_mod::{lemma_fundamental_div_mod, lemma_fundamental_div_mod_converse};
use vstd::arithmetic::power2::{lemma_pow2_adds, lemma_pow2_pos, pow2};
use vstd::prelude::*;

use crate::number::{
    abs, lemma_near_is_rounded, lemma_near_whole, lemma_rounded_between, lemma_too_small, near,
    rounded, Number,
};
use crate::text::{
    contains, lemma_lower_once, lemma_word_is_found, lower, lower_chars, occurs_in,
};

verus! {

/// The loudest sample that still counts as silence, about -66 dBFS.
pub const SILENCE_FLOOR: i16 = 16;

/// True when a frame carries nothing a listener could hear.
pub open spec fn silent(s: Seq<i16>) -> bool {
    forall|i: int| 0 <= i < s.len() ==> abs(#[trigger] s[i] as int) <= SILENCE_FLOOR
}

/// True when a frame carries nothing a listener could hear.
///
/// Not a comparison against zero: a real silent stream from Windows carries
/// dither and the odd stray least significant bit, and treating that as audio
/// means never going idle at all.
pub fn is_silent(samples: &[i16]) -> (r: bool)
    ensures
        r == silent(samples@),
{
    let mut i: usize = 0;
    while i < samples.len()
        invariant
            i <= samples@.len(),
            forall|j: int| 0 <= j < i ==> abs(#[trigger] samples@[j] as int) <= SILENCE_FLOOR,
        decreases samples@.len() - i,
    {
        if samples[i] > SILENCE_FLOOR || samples[i] < -SILENCE_FLOOR {
            assert(abs(samples@[i as int] as int) > SILENCE_FLOOR);
            return false;
        }
        i += 1;
    }
    true
}

/// A sample made louder or softer, by at most twice, and held within the range.
pub open spec fn scaled(sample: i16, gain: Number) -> int {
    near(sample < 0, abs(sample as int), 1).product(
        gain.clamped(near(false, 0, 1), near(false, 2, 1)),
    ).clamped(near(true, 0x8000, 1), near(false, 0x7FFF, 1)).as_sample()
}

pub fn scale(sample: i16, gain: Number) -> (r: i16)
    requires
        gain.wf(),
    ensures
        r == scaled(sample, gain),
{
    let held = gain.clamp(Number::ratio(0, 1), Number::ratio(2, 1));
    Number::of_sample(sample).times(held).clamp(
        Number::of_sample(-0x8000),
        Number::of_sample(0x7FFF),
    ).to_sample()
}

/// How many samples a source becomes at another rate: never none.
pub open spec fn resampled_len(len: nat, source_rate: u32, target_rate: u32) -> nat {
    let n = (len * target_rate as nat) / (source_rate as nat);
    if n == 0 {
        1
    } else {
        n
    }
}

/// A source at another rate, each sample taken from its place in the source.
pub open spec fn resampled(
    source: Seq<i16>,
    source_rate: u32,
    target_rate: u32,
    gain: Number,
) -> Seq<int> {
    if source.len() == 0 || source_rate == 0 || target_rate == 0 {
        Seq::empty()
    } else {
        let n = resampled_len(source.len(), source_rate, target_rate);
        Seq::new(n, |i: int| scaled(source[i * source.len() / n as int], gain))
    }
}

/// Samples as whole numbers.
pub open spec fn values(s: Seq<i16>) -> Seq<int> {
    s.map_values(|x: i16| x as int)
}

/// Whole numbers as samples.
pub open spec fn to_samples(s: Seq<int>) -> Seq<i16> {
    s.map_values(|x: int| x as i16)
}

/// Samples are told by their values.
pub proof fn lemma_samples(s: Seq<i16>)
    ensures
        to_samples(values(s)) == s,
{
    assert(to_samples(values(s)) =~= s);
}

pub fn resample_mono(source: &[i16], source_rate: u32, target_rate: u32, gain: Number) -> (r: Vec<
    i16,
>)
    requires
        gain.wf(),
    ensures
        values(r@) == resampled(source@, source_rate, target_rate, gain),
{
    let mut out: Vec<i16> = Vec::new();
    if source.len() == 0 || source_rate == 0 || target_rate == 0 {
        assert(values(out@) =~= Seq::empty());
        return out;
    }
    let len: u128 = source.len() as u128;
    let ghost l = source@.len() as int;
    proof {
        let t = target_rate as int;
        let d = source_rate as int;
        assert(l * t <= 0xFFFF_FFFF_FFFF_FFFF * 0xFFFF_FFFF) by (nonlinear_arith)
            requires
                0 <= l <= 0xFFFF_FFFF_FFFF_FFFF,
                0 <= t <= 0xFFFF_FFFF,
        ;
        assert(0 <= l * t) by (nonlinear_arith)
            requires
                l >= 0,
                t >= 0,
        ;
        vstd::arithmetic::div_mod::lemma_div_pos_is_pos(l * t, d);
        vstd::arithmetic::div_mod::lemma_div_is_ordered_by_denominator(l * t, 1, d);
    }
    let quotient: u128 = len * target_rate as u128 / source_rate as u128;
    let n: u128 = if quotient == 0 {
        1
    } else {
        quotient
    };
    let ghost goal = resampled(source@, source_rate, target_rate, gain);
    let mut i: u128 = 0;
    let mut place: u128 = 0;
    let mut rest: u128 = 0;
    assert(0 * n == 0 && 0 * l == 0) by (nonlinear_arith);
    while i < n
        invariant
            gain.wf(),
            l == source@.len(),
            len == l,
            l <= 0xFFFF_FFFF_FFFF_FFFF,
            l > 0,
            0 < n <= 0xFFFF_FFFF_FFFF_FFFF * 0xFFFF_FFFF,
            n == resampled_len(source@.len(), source_rate, target_rate),
            goal == resampled(source@, source_rate, target_rate, gain),
            goal.len() == n,
            source_rate != 0,
            target_rate != 0,
            i <= n,
            rest < n,
            place * n + rest == i * l,
            values(out@) == goal.take(i as int),
        decreases n - i,
    {
        proof {
            lemma_fundamental_div_mod_converse(i * l, n as int, place as int, rest as int);
            assert(place < l) by (nonlinear_arith)
                requires
                    place * n + rest == i * l,
                    i < n,
                    rest >= 0,
                    n > 0,
                    l > 0,
            ;
        }
        let ghost was = out@;
        let sample: i16 = scale(source[place as usize], gain);
        out.push(sample);
        proof {
            assert(goal[i as int] == scaled(source@[i * l / (n as int)], gain));
            assert(values(out@) =~= values(was).push(sample as int));
            assert(values(out@) =~= goal.take(i + 1));
        }
        let more: u128 = rest + len;
        let ghost step = (more / n) as int;
        proof {
            lemma_fundamental_div_mod(more as int, n as int);
            assert((place + step) * n + (more as int % (n as int)) == (i + 1) * l) by (
            nonlinear_arith)
                requires
                    place * n + rest == i * l,
                    more == rest + l,
                    more as int == n as int * step + more as int % (n as int),
            ;
            assert(step <= more) by (nonlinear_arith)
                requires
                    more as int == n as int * step + more as int % (n as int),
                    n >= 1,
                    more as int % (n as int) >= 0,
                    step >= 0,
            ;
        }
        place = place + more / n;
        rest = more % n;
        i += 1;
    }
    assert(goal.take(n as int) =~= goal);
    out
}

/// Two cables are of one family when audio put into one comes out of the other.
#[derive(Debug, Clone, Copy, PartialEq, Eq, Structural)]
pub enum Cable {
    A,
    B,
    Plain,
    Voicemeeter,
    Other,
}

/// The family that the name of an audio device belongs to.
pub open spec fn family_of(name: Seq<char>) -> Cable {
    let name = lower(name);
    if occurs_in("cable-a"@, name) {
        Cable::A
    } else if occurs_in("cable-b"@, name) {
        Cable::B
    } else if occurs_in("cable"@, name) || occurs_in("vb-audio"@, name) {
        Cable::Plain
    } else if occurs_in("voicemeeter"@, name) {
        Cable::Voicemeeter
    } else {
        Cable::Other
    }
}

fn holds(hay: &[char], needle: &str) -> (r: bool)
    ensures
        r == occurs_in(needle@, hay@),
{
    let needle = crate::text::chars_of(needle);
    contains(hay, needle.as_slice())
}

fn family(name: &str) -> (r: Cable)
    ensures
        r == family_of(name@),
{
    let lowered = lower_chars(name);
    let name = lowered.as_slice();
    if holds(name, "cable-a") {
        Cable::A
    } else if holds(name, "cable-b") {
        Cable::B
    } else if holds(name, "cable") || holds(name, "vb-audio") {
        Cable::Plain
    } else if holds(name, "voicemeeter") {
        Cable::Voicemeeter
    } else {
        Cable::Other
    }
}

/// Whether what is rendered to one device is captured from the other again.
pub fn same_virtual_cable(capture: &str, render: &str) -> (r: bool)
    ensures
        r == (family_of(capture@) != Cable::Other && family_of(capture@) == family_of(render@)),
{
    let capture_family = family(capture);
    capture_family != Cable::Other && capture_family == family(render)
}

/// A sum of samples, held within their range.
pub open spec fn held_sum(a: i16, b: i16) -> int {
    let sum = a + b;
    if sum < -0x8000 {
        -0x8000
    } else if sum > 0x7FFF {
        0x7FFF
    } else {
        sum
    }
}

/// Stereo samples with a mono source mixed into both ears, or put in their place,
/// as far as the source goes.
pub open spec fn mixed(samples: Seq<i16>, mono: Seq<i16>, replace: bool) -> Seq<int> {
    Seq::new(
        samples.len(),
        |i: int|
            if i / 2 < mono.len() && i / 2 < samples.len() / 2 {
                if replace {
                    mono[i / 2] as int
                } else {
                    held_sum(samples[i], mono[i / 2])
                }
            } else {
                samples[i] as int
            },
    )
}

fn add_held(a: i16, b: i16) -> (r: i16)
    ensures
        r == held_sum(a, b),
{
    let sum: i32 = a as i32 + b as i32;
    if sum < -0x8000 {
        -0x8000
    } else if sum > 0x7FFF {
        0x7FFF
    } else {
        sum as i16
    }
}

/// Mixes a mono source into stereo samples.
pub fn mix(samples: &[i16], mono: &[i16], replace: bool) -> (r: Vec<i16>)
    ensures
        values(r@) == mixed(samples@, mono@, replace),
{
    let ghost goal = mixed(samples@, mono@, replace);
    let mut out: Vec<i16> = Vec::new();
    let mut i: usize = 0;
    assert(values(out@) =~= goal.take(0));
    while i < samples.len()
        invariant
            i <= samples@.len(),
            goal == mixed(samples@, mono@, replace),
            values(out@) == goal.take(i as int),
        decreases samples@.len() - i,
    {
        let ghost was = out@;
        let pair: usize = i / 2;
        let sample: i16 = if pair < mono.len() && pair < samples.len() / 2 {
            if replace {
                mono[pair]
            } else {
                add_held(samples[i], mono[pair])
            }
        } else {
            samples[i]
        };
        out.push(sample);
        proof {
            assert(goal[i as int] == sample as int);
            assert(values(out@) =~= values(was).push(sample as int));
            assert(values(out@) =~= goal.take(i + 1));
        }
        i += 1;
    }
    assert(goal.take(goal.len() as int) =~= goal);
    out
}

/// Every sample made louder or softer.
pub open spec fn all_scaled(s: Seq<i16>, gain: Number) -> Seq<int> {
    Seq::new(s.len(), |i: int| scaled(s[i], gain))
}

pub fn scale_all(samples: &[i16], gain: Number) -> (r: Vec<i16>)
    requires
        gain.wf(),
    ensures
        values(r@) == all_scaled(samples@, gain),
{
    let ghost goal = all_scaled(samples@, gain);
    let mut out: Vec<i16> = Vec::new();
    let mut i: usize = 0;
    assert(values(out@) =~= goal.take(0));
    while i < samples.len()
        invariant
            gain.wf(),
            i <= samples@.len(),
            goal == all_scaled(samples@, gain),
            values(out@) == goal.take(i as int),
        decreases samples@.len() - i,
    {
        let ghost was = out@;
        let sample: i16 = scale(samples[i], gain);
        out.push(sample);
        proof {
            assert(goal[i as int] == sample as int);
            assert(values(out@) =~= values(was).push(sample as int));
            assert(values(out@) =~= goal.take(i + 1));
        }
        i += 1;
    }
    assert(goal.take(goal.len() as int) =~= goal);
    out
}

/// Mixing changes no lengths, and silence mixed in changes nothing.
pub proof fn lemma_mixing_silence(samples: Seq<i16>, mono: Seq<i16>)
    requires
        forall|i: int| 0 <= i < mono.len() ==> #[trigger] mono[i] == 0,
    ensures
        mixed(samples, mono, false) == values(samples),
{
    assert(mixed(samples, mono, false) =~= values(samples));
}

// ---------------------------------------------------------------------------
// What holds of samples
// ---------------------------------------------------------------------------

/// One, in the steps that numbers are counted in.
pub open spec fn unit() -> int {
    pow2(149) as int
}

/// A sample is played at the gain that is asked for: its magnitude is that of the exact
/// product, cut to a whole number, but for the rounding of the product, and its side is
/// that of the sample. Nothing leaves the range of samples.
pub proof fn lemma_gain_scales(sample: i16, gain: Number)
    requires
        gain.wf(),
        gain is Finite,
        0 <= gain.rank() <= 2 * unit(),
    ensures
        ({
            let exact = (abs(sample as int) * gain.units()) as int / unit();
            let r = scaled(sample, gain);
            &&& sample >= 0 ==> if exact > 0x7FFF {
                r == 0x7FFF
            } else {
                exact <= r <= exact + 1
            }
            &&& sample <= 0 ==> if exact > 0x8000 {
                r == -0x8000
            } else {
                -exact - 1 <= r <= -exact
            }
            &&& -0x8000 <= r <= 0x7FFF
        }),
{
    let a = abs(sample as int);
    let u = pow2(149);
    let g = gain.units();
    let x = near(sample < 0, a, 1);
    lemma_pow2_pos(149);
    lemma_pow2_pos(298);
    lemma_pow2_adds(149, 149);
    lemma_near_whole(sample < 0, a);
    lemma_near_whole(false, 0);
    lemma_near_whole(false, 2);
    lemma_near_whole(true, 0x8000);
    lemma_near_whole(false, 0x7FFF);
    assert(0 * u == 0) by (nonlinear_arith);
    let held = gain.clamped(near(false, 0, 1), near(false, 2, 1));
    assert(held == gain);
    let negative = (sample < 0) != gain.is_negative();
    let p = x.units() * g;
    let q = pow2(298);
    let product = near(negative, p, q);
    lemma_near_is_rounded(negative, p, q);
    let exact = (a * g) as int / (u as int);
    lemma_fundamental_div_mod((a * g) as int, u as int);
    assert(0 <= exact) by {
        vstd::arithmetic::div_mod::lemma_div_pos_is_pos((a * g) as int, u as int);
    }
    let k = exact as nat;
    let rest = ((a * g) as int % (u as int)) as nat;
    vstd::arithmetic::div_mod::lemma_mod_bound((a * g) as int, u as int);
    assert(p == (a * g) * u) by (nonlinear_arith)
        requires
            p == (a * u) * g,
    ;
    assert(k * q <= p < (k + 1) * q) by (nonlinear_arith)
        requires
            p == (a * g) * u,
            a * g == u * k + rest,
            rest < u,
            u > 0,
            q == u * u,
    ;
    assert(k <= 65_536) by (nonlinear_arith)
        requires
            a <= 0x8000,
            g <= 2 * u,
            a * g == u * k + rest,
            u > 0,
    ;
    lemma_rounded_between(p, q, k);
    assert(product is Finite);
    let m = product.units();
    assert(k * u <= m <= (k + 1) * u);
    let low = near(true, 0x8000, 1);
    let high = near(false, 0x7FFF, 1);
    let last = product.clamped(low, high);
    lemma_whole_between(m, u, k);
    if gain.is_negative() {
        assert(g == 0);
        assert(a * g == 0) by (nonlinear_arith)
            requires
                g == 0,
        ;
        assert(0nat / u == 0) by {
            vstd::arithmetic::div_mod::lemma_div_basics(u as int);
        }
        assert(p == 0) by (nonlinear_arith)
            requires
                p == (a * g) * u,
                a * g == 0,
        ;
        lemma_rounded_zero(q);
        assert(m == 0);
        assert(last == product);
    } else if sample > 0 {
        if m > 0x7FFF * u {
            assert(last == high);
            if k < 0x7FFF {
                assert((k + 1) * u <= 0x7FFF * u) by (nonlinear_arith)
                    requires
                        k + 1 <= 0x7FFF,
                ;
            }
        } else {
            assert(last == product);
            if k > 0x7FFF {
                assert(m >= k * u && k * u >= 0x8000 * u) by (nonlinear_arith)
                    requires
                        m >= k * u,
                        k >= 0x8000,
                ;
                assert(0x8000 * u > 0x7FFF * u) by (nonlinear_arith)
                    requires
                        u > 0,
                ;
            }
        }
    } else if sample < 0 {
        if m > 0x8000 * u {
            assert(last == low);
            if k < 0x8000 {
                assert((k + 1) * u <= 0x8000 * u) by (nonlinear_arith)
                    requires
                        k + 1 <= 0x8000,
                ;
            }
        } else {
            assert(last == product);
            if k > 0x8000 {
                assert(k * u > 0x8000 * u) by (nonlinear_arith)
                    requires
                        k > 0x8000,
                        u > 0,
                ;
            }
        }
    } else {
        assert(a * g == 0) by (nonlinear_arith)
            requires
                a == 0,
        ;
        assert(0nat / u == 0) by {
            vstd::arithmetic::div_mod::lemma_div_basics(u as int);
        }
        assert(p == 0) by (nonlinear_arith)
            requires
                p == (a * g) * u,
                a * g == 0,
        ;
        lemma_rounded_zero(q);
        assert(m == 0);
        assert(last == product);
    }
}

proof fn lemma_rounded_zero(q: nat)
    requires
        q > 0,
    ensures
        rounded(0, q) == 0,
{
    let w = pow2(149);
    assert(0 * w == 0) by (nonlinear_arith);
    lemma_too_small(0, q);
}

proof fn lemma_whole_between(m: nat, u: nat, k: nat)
    requires
        u > 0,
        k * u <= m <= (k + 1) * u,
    ensures
        k <= m / u <= k + 1,
        m < (k + 1) * u ==> m / u == k,
{
    lemma_fundamental_div_mod(m as int, u as int);
    vstd::arithmetic::div_mod::lemma_mod_bound(m as int, u as int);
    let f = m / u;
    let r = m % u;
    assert(k <= f <= k + 1) by (nonlinear_arith)
        requires
            m == u * f + r,
            0 <= r < u,
            k * u <= m <= (k + 1) * u,
            u > 0,
    ;
    if m < (k + 1) * u {
        assert(f < k + 1) by (nonlinear_arith)
            requires
                m == u * f + r,
                0 <= r < u,
                m < (k + 1) * u,
                u > 0,
        ;
    }
}

/// A gain above two is as two, and one below zero is as none.
pub proof fn lemma_gain_is_held(sample: i16, gain: Number)
    requires
        gain.wf(),
        gain !is NotANumber,
    ensures
        gain.rank() > 2 * unit() ==> scaled(sample, gain) == scaled(sample, near(false, 2, 1)),
        gain.rank() < 0 ==> scaled(sample, gain) == scaled(sample, near(false, 0, 1)),
{
    let u = pow2(149);
    lemma_pow2_pos(149);
    lemma_near_whole(false, 0);
    lemma_near_whole(false, 2);
    assert(0 * u == 0) by (nonlinear_arith);
}

/// A frame counts as silent exactly where no sample is louder than sixteen, on either
/// side: dither and stray bits are not heard.
pub proof fn lemma_silence_is_quiet(s: Seq<i16>)
    ensures
        silent(s) <==> forall|i: int| 0 <= i < s.len() ==> -16 <= #[trigger] s[i] <= 16,
{
    if silent(s) {
        assert forall|i: int| 0 <= i < s.len() implies -16 <= #[trigger] s[i] <= 16 by {
            assert(abs(s[i] as int) <= SILENCE_FLOOR);
        }
    }
}

/// What is listened to is heard in both ears alike: added to the music, held within the
/// range of samples, or in its place; and beyond its end the music goes on as it was.
pub proof fn lemma_both_ears_hear_the_microphone(
    samples: Seq<i16>,
    mono: Seq<i16>,
    replace: bool,
    p: int,
)
    requires
        0 <= p,
        2 * p + 1 < samples.len(),
    ensures
        mixed(samples, mono, replace).len() == samples.len(),
        ({
            let now = mixed(samples, mono, replace);
            let left = samples[2 * p] as int;
            let right = samples[2 * p + 1] as int;
            if p >= mono.len() {
                now[2 * p] == left && now[2 * p + 1] == right
            } else if replace {
                now[2 * p] == mono[p] && now[2 * p + 1] == mono[p]
            } else {
                &&& -0x8000 <= left + mono[p] <= 0x7FFF ==> now[2 * p] == left + mono[p]
                &&& left + mono[p] > 0x7FFF ==> now[2 * p] == 0x7FFF
                &&& left + mono[p] < -0x8000 ==> now[2 * p] == -0x8000
                &&& -0x8000 <= right + mono[p] <= 0x7FFF ==> now[2 * p + 1] == right + mono[p]
                &&& right + mono[p] > 0x7FFF ==> now[2 * p + 1] == 0x7FFF
                &&& right + mono[p] < -0x8000 ==> now[2 * p + 1] == -0x8000
            }
        }),
{
    assert((2 * p) / 2 == p && (2 * p + 1) / 2 == p);
    assert(p < samples.len() / 2);
}

/// Changing the rate changes the length by the ratio of the rates, and a source at its
/// own rate keeps every sample in its place.
pub proof fn lemma_own_rate_keeps_samples(source: Seq<i16>, rate: u32, gain: Number)
    requires
        rate > 0,
    ensures
        resampled(source, rate, rate, gain) == all_scaled(source, gain),
{
    let len = source.len();
    if len > 0 {
        let n = resampled_len(len, rate, rate);
        vstd::arithmetic::div_mod::lemma_div_multiples_vanish(len as int, rate as int);
        assert(len * rate as nat == rate as nat * len) by (nonlinear_arith);
        assert(n == len);
        assert forall|i: int| 0 <= i < len implies #[trigger] (i * len as int / n as int) == i by {
            vstd::arithmetic::div_mod::lemma_div_multiples_vanish(i, len as int);
            assert(i * len as int == len as int * i) by (nonlinear_arith);
        }
        assert(resampled(source, rate, rate, gain) =~= all_scaled(source, gain)) by {
            assert forall|i: int| 0 <= i < len implies resampled(source, rate, rate, gain)[i]
                == all_scaled(source, gain)[i] by {
                assert(i * len as int / n as int == i);
            }
        }
    } else {
        assert(resampled(source, rate, rate, gain) =~= all_scaled(source, gain));
    }
}

/// A source at another rate lasts as long: one sample more would be too long, and
/// no sample is taken from beyond its end or out of order.
pub proof fn lemma_resampling_keeps_the_length_of_time(
    source: Seq<i16>,
    source_rate: u32,
    target_rate: u32,
    gain: Number,
)
    requires
        source.len() > 0,
        source_rate > 0,
        target_rate > 0,
    ensures
        ({
            let n = resampled(source, source_rate, target_rate, gain).len();
            &&& n >= 1
            &&& n > 1 ==> n * source_rate <= source.len() * target_rate
            &&& (n + 1) * source_rate > source.len() * target_rate
        }),
{
    let l = source.len() as int;
    let t = target_rate as int;
    let d = source_rate as int;
    lemma_fundamental_div_mod(l * t, d);
    vstd::arithmetic::div_mod::lemma_mod_bound(l * t, d);
    assert(l * t >= 0) by (nonlinear_arith)
        requires
            l >= 0,
            t >= 0,
    ;
    vstd::arithmetic::div_mod::lemma_div_pos_is_pos(l * t, d);
    let f = l * t / d;
    let r = l * t % d;
    assert(f * d <= l * t < (f + 1) * d) by (nonlinear_arith)
        requires
            l * t == d * f + r,
            0 <= r < d,
    ;
    let n = resampled(source, source_rate, target_rate, gain).len() as int;
    if f == 0 {
        assert((n + 1) * d > l * t) by (nonlinear_arith)
            requires
                n == 1,
                l * t < (f + 1) * d,
                f == 0,
                d > 0,
        ;
    }
}

/// Whatever the gain, a sample stays a sample.
pub proof fn lemma_scaled_is_a_sample(sample: i16, gain: Number)
    ensures
        -0x8000 <= scaled(sample, gain) <= 0x7FFF,
{
}

/// Whatever the gain, silence stays silence.
pub proof fn lemma_silence_stays_silence(gain: Number)
    ensures
        scaled(0, gain) == 0,
{
    let u = pow2(149);
    lemma_pow2_pos(149);
    lemma_pow2_pos(277);
    lemma_pow2_pos(298);
    lemma_near_whole(false, 0);
    lemma_near_whole(false, 2);
    lemma_near_whole(true, 0x8000);
    lemma_near_whole(false, 0x7FFF);
    assert(0 * u == 0) by (nonlinear_arith);
    let held = gain.clamped(near(false, 0, 1), near(false, 2, 1));
    if gain !is NotANumber {
        lemma_two_is_finite();
        assert(held is Finite);
        let x = near(false, 0, 1);
        let g = held.units();
        assert(x.units() * g == 0) by (nonlinear_arith)
            requires
                x.units() == 0,
        ;
        let negative = x.is_negative() != held.is_negative();
        lemma_near_is_rounded(negative, 0, pow2(298));
        lemma_rounded_zero(pow2(298));
        let product = near(negative, 0, pow2(298));
        assert(product is Finite && product.units() == 0);
        assert(0nat / u == 0) by {
            vstd::arithmetic::div_mod::lemma_div_basics(u as int);
        }
        let last = product.clamped(near(true, 0x8000, 1), near(false, 0x7FFF, 1));
        assert(0x8000 * u > 0) by (nonlinear_arith)
            requires
                u > 0,
        ;
        assert(last == product);
    }
}

proof fn lemma_two_is_finite()
    ensures
        2 * pow2(149) < pow2(277),
{
    lemma_pow2_adds(1, 149);
    vstd::arithmetic::power2::lemma2_to64();
    vstd::arithmetic::power2::lemma_pow2_strictly_increases(150, 277);
}

/// Cables are told apart by what stands in their names, wherever it stands and in whatever
/// letters, and a name that holds none of it is no cable.
pub proof fn lemma_cables_are_told_apart(before: Seq<char>, behind: Seq<char>, name: Seq<char>)
    ensures
        family_of(before + "cable-a"@ + behind) == Cable::A,
        family_of(before + "cable-b"@ + behind) == Cable::A || family_of(
            before + "cable-b"@ + behind,
        ) == Cable::B,
        family_of(before + "cable"@ + behind) != Cable::Other,
        family_of(before + "cable"@ + behind) != Cable::Voicemeeter,
        family_of(before + "vb-audio"@ + behind) != Cable::Other,
        family_of(before + "voicemeeter"@ + behind) != Cable::Other,
        family_of(lower(name)) == family_of(name),
        family_of(name) == Cable::A ==> occurs_in("cable-a"@, lower(name)),
        family_of(name) == Cable::B ==> occurs_in("cable-b"@, lower(name)),
        family_of(name) == Cable::Voicemeeter ==> occurs_in("voicemeeter"@, lower(name)),
        family_of(name) != Cable::Other ==> occurs_in("cable"@, lower(name)) || occurs_in(
            "cable-a"@,
            lower(name),
        ) || occurs_in("cable-b"@, lower(name)) || occurs_in("vb-audio"@, lower(name)) || occurs_in(
            "voicemeeter"@,
            lower(name),
        ),
{
    reveal_strlit("cable-a");
    reveal_strlit("cable-b");
    reveal_strlit("cable");
    reveal_strlit("vb-audio");
    reveal_strlit("voicemeeter");
    assert(lower("cable-a"@) =~= "cable-a"@);
    assert(lower("cable-b"@) =~= "cable-b"@);
    assert(lower("cable"@) =~= "cable"@);
    assert(lower("vb-audio"@) =~= "vb-audio"@);
    assert(lower("voicemeeter"@) =~= "voicemeeter"@);
    lemma_word_is_found(before, "cable-a"@, behind);
    lemma_word_is_found(before, "cable-b"@, behind);
    lemma_word_is_found(before, "cable"@, behind);
    lemma_word_is_found(before, "vb-audio"@, behind);
    lemma_word_is_found(before, "voicemeeter"@, behind);
    lemma_lower_once(name);
}

} // verus!
