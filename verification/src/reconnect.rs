//! What the stack does when a connection drops on its own.

use vstd::arithmetic::power2::{
    lemma2_to64, lemma_pow2_adds, lemma_pow2_pos, lemma_pow2_strictly_increases, pow2,
};
use vstd::prelude::*;

use crate::number::{
    lemma_fraction_grows, lemma_near_is_rounded, lemma_near_whole, lemma_rounded_at_least,
    lemma_rounded_at_most, lemma_rounded_between, lemma_rounded_exact, near, rounded, Number,
};
use crate::time::{lemma_whole_seconds_are_whole, seconds_of, Duration};

verus! {

pub const CONNECTION_TIMEOUT: u8 = 0x08;

pub const REMOTE_TERMINATED: u8 = 0x13;

pub const REMOTE_LOW_RESOURCES: u8 = 0x14;

pub const REMOTE_POWER_OFF: u8 = 0x15;

pub const LOCAL_HOST_TERMINATED: u8 = 0x16;

/// What the stack does when a connection drops on its own.
///
/// Out of range is not an error to report and give up on - it is the normal
/// consequence of walking to the kitchen. The interval is deliberately not
/// aggressive: retrying every few hundred milliseconds drains the headphones'
/// battery scanning for a host that is not there.
#[derive(Debug, Clone, Copy, PartialEq, Eq, Structural)]
pub struct ReconnectPolicy {
    pub enabled: bool,
    pub interval: Duration,
    /// How long to keep trying before giving up and waiting to be asked.
    ///
    /// `None` never gives up. A bounded window is the better default: if the
    /// headphones have been out of range for two minutes they were taken off,
    /// not carried into the next room, and a host that keeps calling into an
    /// empty room is just spending battery on both ends.
    pub window: Option<Duration>,
}

/// The larger of two numbers.
pub open spec fn larger(a: Number, b: Number) -> Number {
    if a.rank() < b.rank() {
        b
    } else {
        a
    }
}

impl ReconnectPolicy {
    /// Every five seconds, for two minutes.
    pub open spec fn usual() -> Self {
        ReconnectPolicy {
            enabled: true,
            interval: Duration { nanos: 5_000_000_000 },
            window: Some(Duration { nanos: 120_000_000_000 }),
        }
    }

    /// Whether a link that ended for this reason ended by itself.
    pub open spec fn is_worth(reason: u8) -> bool {
        reason != LOCAL_HOST_TERMINATED && reason != REMOTE_POWER_OFF
    }

    /// Whether another attempt is due, `since_lost` after the drop.
    pub open spec fn retries(self, since_lost: Duration) -> bool {
        self.enabled && match self.window {
            Some(window) => since_lost.nanos < window.nanos,
            None => true,
        }
    }

    /// How often the interval goes into the window, in the precision that a
    /// display needs. No interval counts as less than a thousandth of a second.
    pub open spec fn attempts(self) -> Option<nat> {
        match self.window {
            None => None,
            Some(window) => Some(
                seconds_of(window.nanos as nat).quotient(
                    larger(seconds_of(self.interval.nanos as nat), near(false, 1, 1_000)),
                ).truncated(u32::MAX as nat),
            ),
        }
    }
}

impl Default for ReconnectPolicy {
    fn default() -> (r: Self)
        ensures
            r == ReconnectPolicy::usual(),
    {
        ReconnectPolicy {
            enabled: true,
            interval: Duration::from_secs(5),
            window: Some(Duration::from_secs(120)),
        }
    }
}

/// A thousandth is a number, and more than nothing.
proof fn lemma_thousandth(n: Number)
    requires
        n.is_rounded(false, 1, 1_000),
    ensures
        n is Finite,
        !n.is_negative(),
        n.units() > 0,
{
    lemma2_to64();
    lemma_pow2_adds(139, 10);
    lemma_pow2_pos(139);
    let w = pow2(149);
    let v = pow2(139);
    assert(1 * w >= 1_000 * v) by (nonlinear_arith)
        requires
            w == v * 1_024,
    ;
    lemma_rounded_at_least(1, 1_000, 139);
    assert(1 * w <= 1_000 * w) by (nonlinear_arith);
    lemma_rounded_at_most(1, 1_000, 149);
    lemma_pow2_strictly_increases(150, 277);
}

impl ReconnectPolicy {
    pub fn disabled() -> (r: Self)
        ensures
            r == (ReconnectPolicy { enabled: false, ..ReconnectPolicy::usual() }),
    {
        let usual = Self::default();
        ReconnectPolicy { enabled: false, interval: usual.interval, window: usual.window }
    }

    /// Keeps retrying without an end.
    pub fn forever() -> (r: Self)
        ensures
            r == (ReconnectPolicy { window: None, ..ReconnectPolicy::usual() }),
    {
        let usual = Self::default();
        ReconnectPolicy { enabled: usual.enabled, interval: usual.interval, window: None }
    }

    /// Whether another attempt should be made, `since_lost` after the drop.
    pub fn should_retry(&self, since_lost: Duration) -> (r: bool)
        ensures
            r == self.retries(since_lost),
    {
        if !self.enabled {
            return false;
        }
        match self.window {
            Some(window) => since_lost.nanos < window.nanos,
            None => true,
        }
    }

    /// How many attempts the window allows, for showing to a person.
    pub fn attempts_in_window(&self) -> (r: Option<u32>)
        requires
            self.interval.wf(),
            self.window is Some ==> self.window->0.wf(),
        ensures
            r is Some <==> self.attempts() is Some,
            r is Some ==> r->0 == self.attempts()->0,
    {
        match self.window {
            None => None,
            Some(window) => {
                let interval = self.interval.as_number();
                let least = Number::ratio(1, 1_000);
                proof {
                    lemma_thousandth(least);
                }
                let divisor = if interval.below(least) {
                    least
                } else {
                    interval
                };
                assert(divisor->mantissa > 0) by {
                    let m = divisor->mantissa as nat;
                    let w = pow2((divisor->exponent + 149) as nat);
                    assert(m == 0 ==> m * w == 0) by (nonlinear_arith);
                }
                Some(window.as_number().over(divisor).truncate(u32::MAX))
            },
        }
    }

    /// Whether a reason code means that the link ended by itself rather than by
    /// someone's decision.
    ///
    /// Reconnecting after a local teardown would fight the user, who asked for
    /// the disconnection.
    pub fn worth_reconnecting(reason: u8) -> (r: bool)
        ensures
            r == ReconnectPolicy::is_worth(reason),
    {
        match reason {
            LOCAL_HOST_TERMINATED | REMOTE_POWER_OFF => false,
            CONNECTION_TIMEOUT | REMOTE_TERMINATED | REMOTE_LOW_RESOURCES => true,
            _ => true,
        }
    }
}

/// Giving up is final: once the window has passed, no later moment brings another
/// attempt. A policy that is off never makes one, and one without a window never
/// stops.
pub proof fn lemma_giving_up_is_final(policy: ReconnectPolicy, earlier: Duration, later: Duration)
    requires
        earlier.nanos <= later.nanos,
    ensures
        !policy.retries(earlier) ==> !policy.retries(later),
        !policy.enabled ==> !policy.retries(later),
        policy.enabled && policy.window is None ==> policy.retries(later),
{
}

/// A link is sought again unless somebody meant it to end: the host hung up, or the
/// headphones were switched off. Every other reason, a lost signal before all, is worth
/// another attempt. Attempts go on while the window lasts, and not at its very end.
pub proof fn lemma_lost_links_are_sought(policy: ReconnectPolicy, reason: u8, since: Duration)
    ensures
        ReconnectPolicy::is_worth(reason) <==> reason != 0x16 && reason != 0x15,
        ReconnectPolicy::is_worth(0x08) && ReconnectPolicy::is_worth(0x13)
            && ReconnectPolicy::is_worth(0x14),
        policy.enabled && policy.window is Some ==> (policy.retries(since) <==> since.nanos
            < policy.window->0.nanos),
        ReconnectPolicy::usual().retries(since) <==> since.nanos < 120_000_000_000,
{
}

/// As many attempts are promised as intervals go into the window, to the nearest one that
/// a rounded quotient can tell: never fewer than go into it whole. Without a window no
/// number is promised.
pub proof fn lemma_attempts_fill_the_window(
    policy: ReconnectPolicy,
    interval: nat,
    window: nat,
    times: nat,
)
    requires
        policy.interval == (Duration { nanos: (interval * 1_000_000_000) as u128 }),
        policy.window == Some(Duration { nanos: (window * 1_000_000_000) as u128 }),
        0 < interval,
        interval + 1 < 0x100_0000,
        window + 1 < 0x100_0000,
        times * interval <= window < (times + 1) * interval,
    ensures
        policy.attempts() is Some,
        times <= policy.attempts()->0 <= times + 1,
        window == times * interval ==> policy.attempts() == Some(times),
        (ReconnectPolicy { window: None, ..policy }).attempts() is None,
{
    lemma_whole_seconds_are_whole(interval);
    lemma_whole_seconds_are_whole(window);
    let w = pow2(149);
    lemma_pow2_pos(149);
    lemma2_to64();
    let a = near(false, window, 1);
    let b = near(false, interval, 1);
    lemma_near_whole(false, window);
    lemma_near_whole(false, interval);
    let least = near(false, 1, 1_000);
    lemma_near_is_rounded(false, 1, 1_000);
    lemma_pow2_strictly_increases(149, 277);
    lemma_rounded_between(1, 1_000, 0);
    assert(0 * w == 0 && 1 * w == w) by (nonlinear_arith);
    assert(interval * w >= w) by (nonlinear_arith)
        requires
            interval >= 1,
    ;
    assert(larger(b, least) == b);
    let q = near(false, window * w, interval * w);
    lemma_near_is_rounded(false, window * w, interval * w);
    lemma_fraction_grows(window, interval, w);
    assert(times <= window) by (nonlinear_arith)
        requires
            times * interval <= window,
            interval >= 1,
    ;
    lemma_rounded_between(window, interval, times);
    assert(q.units() == rounded(window, interval));
    assert(times <= q.units() / w <= times + 1) by (nonlinear_arith)
        requires
            times * w <= q.units() <= (times + 1) * w,
            w > 0,
    ;
    if window == times * interval {
        lemma_rounded_exact(window, interval, times);
        assert((times * w) / w == times) by (nonlinear_arith)
            requires
                w > 0,
        ;
    }
}

} // verus!
