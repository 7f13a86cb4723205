//! The Volume Control Service: the headphones own the volume.

use vstd::arithmetic::div_mod::lemma_fundamental_div_mod;
use vstd::arithmetic::power2::{
    lemma2_to64, lemma_pow2_adds, lemma_pow2_pos, lemma_pow2_strictly_increases, pow2,
};
use vstd::prelude::*;

use crate::number::{
    lemma_near_is_rounded, lemma_near_whole, lemma_rounded_between, lemma_rounded_exact,
    lemma_rounded_in_steps, lemma_too_small, near, rounded, Number,
};

verus! {

pub const VOLUME_CONTROL_SERVICE: u16 = 0x1844;

pub const VOLUME_STATE: u16 = 0x2B7D;

pub const VOLUME_CONTROL_POINT: u16 = 0x2B7E;

pub const SET_ABSOLUTE_VOLUME: u8 = 0x04;

/// What the headphones say about their volume.
#[derive(Debug, Clone, Copy, PartialEq, Eq, Structural)]
pub struct VolumeState {
    pub setting: u8,
    pub muted: bool,
    pub change_counter: u8,
}

/// The state in a Volume State value.
pub open spec fn volume_in(v: Seq<u8>) -> Option<VolumeState> {
    if v.len() >= 3 {
        Some(VolumeState { setting: v[0], muted: v[1] != 0, change_counter: v[2] })
    } else {
        None
    }
}

pub fn parse_volume_state(v: &[u8]) -> (r: Option<VolumeState>)
    ensures
        r == volume_in(v@),
{
    if v.len() >= 3 {
        Some(VolumeState { setting: v[0], muted: v[1] != 0, change_counter: v[2] })
    } else {
        None
    }
}

/// A level between nothing and full as a setting, to the nearest step: twice the
/// steps are cut to a whole number, and half of that is rounded up.
pub open spec fn setting_of(level: Number) -> nat {
    let doubled = level.clamped(near(false, 0, 1), near(false, 1, 1)).product(near(false, 510, 1));
    (doubled.truncated(510) + 1) / 2
}

impl VolumeState {
    /// The state of a device that has not said anything.
    pub open spec fn unknown() -> Self {
        VolumeState { setting: 0, muted: false, change_counter: 0 }
    }

    /// The setting as a percentage, rounded.
    pub open spec fn percentage(self) -> nat {
        ((self.setting * 100 + 127) / 255) as nat
    }

    pub fn percent(&self) -> (r: u32)
        ensures
            r == self.percentage(),
    {
        (self.setting as u32 * 100 + 127) / 255
    }

    /// The setting for a level from nothing to full.
    pub fn setting_from_scalar(level: Number) -> (r: u8)
        requires
            level.wf(),
        ensures
            r == setting_of(level),
    {
        let held = level.clamp(Number::ratio(0, 1), Number::ratio(1, 1));
        let doubled: u32 = held.times(Number::ratio(510, 1)).truncate(510);
        ((doubled + 1) / 2) as u8
    }

    /// The setting as a fraction of full scale.
    pub fn scalar(&self) -> (r: Number)
        ensures
            r == near(false, self.setting as nat, 255),
            r.wf(),
    {
        Number::ratio(self.setting as u64, 255)
    }
}

/// The write that sets the volume. It carries the change counter, so that a
/// device whose volume moved in the meantime can refuse it.
pub open spec fn absolute_pdu(state: VolumeState, setting: u8) -> Seq<u8> {
    seq![SET_ABSOLUTE_VOLUME, state.change_counter, setting]
}

pub fn set_absolute(state: &VolumeState, setting: u8) -> (r: Vec<u8>)
    ensures
        r@ == absolute_pdu(*state, setting),
{
    let out: Vec<u8> = vec![SET_ABSOLUTE_VOLUME, state.change_counter, setting];
    assert(out@ =~= absolute_pdu(*state, setting));
    out
}

/// What the headphones say of their volume is in the first three bytes, and what is set
/// goes out with the counter that they gave.
pub proof fn lemma_volume_is_read_and_set(v: Seq<u8>, state: VolumeState, setting: u8)
    ensures
        volume_in(v) is Some <==> v.len() >= 3,
        volume_in(v) matches Some(s) ==> s.setting == v[0] && (s.muted <==> v[1] != 0)
            && s.change_counter == v[2],
        absolute_pdu(state, setting) == seq![0x04u8, state.change_counter, setting],
{
}

/// The slider and the headphones show one number: a setting that was mirrored to the
/// slider comes back as the same setting.
pub proof fn lemma_setting_is_mirrored(setting: nat)
    requires
        setting <= 255,
    ensures
        setting_of(near(false, setting, 255)) == setting,
{
    let u = pow2(149);
    let t = pow2(134);
    lemma_pow2_pos(149);
    lemma_pow2_pos(134);
    lemma_pow2_pos(298);
    lemma_pow2_adds(15, 134);
    lemma_pow2_adds(149, 149);
    lemma_pow2_adds(1, 148);
    lemma2_to64();
    assert(u == 32_768 * t);
    let level = near(false, setting, 255);
    lemma_near_is_rounded(false, setting, 255);
    let k = (setting * 32_768) / 255;
    assert(k * 255 <= setting * 32_768 < (k + 1) * 255);
    assert(k <= 32_768);
    lemma_rounded_in_steps(setting, 255, k, 15);
    let x = rounded(setting, 255);
    assert(k * t <= x <= (k + 1) * t);
    lemma_near_whole(false, 0);
    lemma_near_whole(false, 1);
    lemma_near_whole(false, 510);
    assert(0 * u == 0 && 1 * u == u) by (nonlinear_arith);
    if setting < 255 {
        lemma_rounded_between(setting, 255, 0);
    } else {
        lemma_rounded_exact(255, 255, 1);
    }
    assert(x <= u);
    lemma_pow2_strictly_increases(149, 277);
    let held = level.clamped(near(false, 0, 1), near(false, 1, 1));
    assert(held == level);
    let p = x * (510 * u);
    let q = pow2(298);
    lemma_near_is_rounded(false, p, q);
    // Twice the exact product, in units of one: between 4 * setting - 1 and 4 * setting + 1.
    let h = 4 * setting;
    assert(p * 2 == (1020 * x) * u) by (nonlinear_arith)
        requires
            p == x * (510 * u),
    ;
    assert(q == u * u);
    assert(1020 * x <= 1020 * ((k + 1) * t)) by (nonlinear_arith)
        requires
            x <= (k + 1) * t,
    ;
    assert(1020 * x >= 1020 * (k * t)) by (nonlinear_arith)
        requires
            x >= k * t,
    ;
    assert(1020 * (k + 1) < (h + 1) * 32_768);
    assert(1020 * k > (h - 1) * 32_768);
    assert(1020 * x < (h + 1) * u) by (nonlinear_arith)
        requires
            1020 * x <= 1020 * ((k + 1) * t),
            1020 * (k + 1) < (h + 1) * 32_768,
            u == 32_768 * t,
            t > 0,
    ;
    assert(setting > 0 ==> 1020 * x > (h - 1) * u) by {
        if setting > 0 {
            assert(1020 * x > (h - 1) * u) by (nonlinear_arith)
                requires
                    1020 * x >= 1020 * (k * t),
                    1020 * k > (h - 1) * 32_768,
                    u == 32_768 * t,
                    t > 0,
            ;
        }
    }
    let product = near(false, p, q);
    let half = pow2(148);
    assert(u == 2 * half);
    lemma_pow2_pos(148);
    let base: nat = if 1020 * x >= h * u {
        h
    } else {
        (h - 1) as nat
    };
    assert(base * q <= p * 2 < (base + 1) * q) by {
        let y = 1020 * x;
        assert(base * u <= y < (base + 1) * u);
        assert(base * q <= y * u < (base + 1) * q) by (nonlinear_arith)
            requires
                base * u <= y < (base + 1) * u,
                q == u * u,
                u > 0,
        ;
    }
    lemma_rounded_in_steps(p, q, base, 1);
    let r = rounded(p, q);
    assert(base * half <= r <= (base + 1) * half);
    assert(r < pow2(277)) by {
        lemma_pow2_adds(11, 148);
        lemma_pow2_strictly_increases(159, 277);
        assert(r <= 2048 * half) by (nonlinear_arith)
            requires
                r <= (base + 1) * half,
                base + 1 <= 2048,
        ;
    }
    assert(product is Finite && product.units() == r && !product.is_negative());
    let whole = r / u;
    lemma_fundamental_div_mod(r as int, u as int);
    vstd::arithmetic::div_mod::lemma_mod_bound(r as int, u as int);
    if setting > 0 {
        assert(2 * setting - 1 <= whole <= 2 * setting) by (nonlinear_arith)
            requires
                base * half <= r <= (base + 1) * half,
                base == 4 * setting || base == 4 * setting - 1,
                u == 2 * half,
                r == u * whole + r % u,
                0 <= r % u < u,
                half > 0,
        ;
    } else {
        assert(x == 0) by {
            lemma_too_small(0, 255);
            assert(0 * u == 0) by (nonlinear_arith);
        }
        assert(p == 0) by (nonlinear_arith)
            requires
                p == x * (510 * u),
                x == 0,
        ;
        lemma_too_small(0, q);
        assert(whole == 0);
    }
}

/// A percentage is the nearest one: silence is none of it, full is a hundred, and no
/// louder setting shows a smaller number.
pub proof fn lemma_percentage_is_the_nearest(state: VolumeState, louder: VolumeState)
    requires
        state.setting <= louder.setting,
    ensures
        state.setting == 255 ==> state.percentage() == 100,
        state.setting == 0 ==> state.percentage() == 0,
        state.percentage() <= louder.percentage() <= 100,
        -127 <= 255 * state.percentage() - 100 * state.setting <= 127,
{
}

} // verus!
