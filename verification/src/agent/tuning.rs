//! What the stored settings mean for a session, and how one is changed.

use vstd::prelude::*;

use vstd::arithmetic::power2::{
    lemma2_to64, lemma_pow2_adds, lemma_pow2_pos, lemma_pow2_strictly_increases, pow2,
};

use crate::bap::{
    frequency_of, rate_of, CodecConfiguration, FrameDuration, QosConfiguration, SamplingFrequency,
    LOCATION_FRONT_LEFT,
};
use crate::number::{
    half_even, lemma_decimal_reads_back, lemma_fraction_grows, lemma_near, lemma_near_is_rounded,
    lemma_near_whole, lemma_one_form, lemma_rounded_at_most, lemma_rounded_between,
    lemma_rounded_exact, lemma_rounded_in_steps, lemma_whole, lemma_whole_rounded, near, Number,
};
use crate::reconnect::ReconnectPolicy;
use crate::safety::OutputLimiter;
use crate::session::{Live, LiveAudioConfig, SessionConfig, Wishes};
use crate::settings::{
    flag_in, limit_of, minutes_fit, nanos_of, number_in, sixty_times, value_in, Settings,
};
use crate::text::{decimal, same};
use crate::time::Duration;

verus! {

/// Settings by key.
pub type Values = Map<Seq<char>, Seq<char>>;

/// The switch under a key, off where it says nothing.
pub open spec fn is_on(values: Values, key: Seq<char>) -> bool {
    flag_in(values, key) == Some(true)
}

/// The text under a key, or what stands in for it.
pub open spec fn text_or(values: Values, key: Seq<char>, other: Seq<char>) -> Seq<char> {
    match value_in(values, key) {
        Some(text) => text,
        None => other,
    }
}

/// The number under a key, or what stands in for it.
pub open spec fn number_or(values: Values, key: Seq<char>, other: Number) -> Number {
    match number_in(values, key) {
        Some(n) => n,
        None => other,
    }
}

fn on(settings: &Settings, key: &str) -> (r: bool)
    requires
        settings.wf(),
    ensures
        r == is_on(settings@, key@),
{
    match settings.bool(key) {
        Some(flag) => flag,
        None => false,
    }
}

fn text_of<'a>(settings: &'a Settings, key: &str, other: &'a str) -> (r: &'a str)
    requires
        settings.wf(),
    ensures
        r@ == text_or(settings@, key@, other@),
{
    match settings.get(key) {
        Some(text) => text,
        None => other,
    }
}

fn number_of(settings: &Settings, key: &str, other: Number) -> (r: Number)
    requires
        settings.wf(),
        other.wf(),
    ensures
        r == number_or(settings@, key@, other),
        r.wf(),
{
    match settings.number(key) {
        Some(n) => n,
        None => other,
    }
}

// ---------------------------------------------------------------------------
// Live settings
// ---------------------------------------------------------------------------

/// The balance of the stored settings, which count from -50 to 50.
pub open spec fn balance_of(values: Values) -> Number {
    number_or(values, "balance"@, near(false, 0, 1)).quotient(near(false, 50, 1)).clamped(
        near(true, 1, 1),
        near(false, 1, 1),
    )
}

/// What the stored settings mean for audio that is already running.
pub open spec fn live_in(values: Values) -> Live {
    Live {
        monitor_enabled: is_on(values, "monitor_enabled"@),
        monitor_source: text_or(values, "monitor_source"@, "default"@),
        monitor_replace: text_or(values, "monitor_mode"@, "mix"@) == "replace"@,
        monitor_gain: number_or(values, "monitor_gain"@, near(false, 1, 1)),
        output_gain: number_or(values, "gain"@, near(false, 1, 1)),
        microphone_gain: number_or(values, "microphone_gain"@, near(false, 1, 1)),
        balance: balance_of(values),
    }
}

pub fn sync_live_from_settings(settings: &Settings) -> (r: LiveAudioConfig)
    requires
        settings.wf(),
    ensures
        r@ == live_in(settings@),
        r@.wf(),
{
    let one = Number::ratio(1, 1);
    let fifty = Number::ratio(50, 1);
    proof {
        lemma_whole(fifty, false, 50);
    }
    LiveAudioConfig {
        monitor_enabled: on(settings, "monitor_enabled"),
        monitor_source: text_of(settings, "monitor_source", "default").to_owned(),
        monitor_replace: same(text_of(settings, "monitor_mode", "mix"), "replace"),
        monitor_gain: number_of(settings, "monitor_gain", one),
        output_gain: number_of(settings, "gain", one),
        microphone_gain: number_of(settings, "microphone_gain", one),
        balance: number_of(settings, "balance", Number::ratio(0, 1)).over(fifty).clamp(
            Number::of_sample(-1),
            one,
        ),
    }
}

// ---------------------------------------------------------------------------
// Lengths of time
// ---------------------------------------------------------------------------

/// A number of seconds as a length of time.
pub open spec fn lasting(n: Number) -> Duration {
    Duration { nanos: nanos_of(n) as u128 }
}

/// The limit under a key that counts minutes, or what stands in for it.
pub open spec fn limit_or(values: Values, key: Seq<char>, other: Option<Duration>) -> Option<
    Duration,
> {
    match number_in(values, key) {
        Some(n) => match limit_of(n) {
            Some(nanos) => Some(Duration { nanos: nanos as u128 }),
            None => None,
        },
        None => other,
    }
}

/// Whether a number that says seconds, if there is one, can be a length of time.
pub open spec fn seconds_fit(n: Option<Number>) -> bool {
    n is Some ==> n->0.is_seconds()
}

/// How long the link may go unheard before it counts as lost, in seconds.
pub open spec fn link_timeout_seconds(values: Values) -> Number {
    number_or(values, "link_timeout_s"@, near(false, 10, 1)).clamped(
        near(false, 2, 1),
        near(false, 30, 1),
    )
}

/// How long silence lasts before the headphones are handed back, in seconds: not
/// under two. Yielding after a second would hand the headphones away in the gap
/// between two tracks.
pub open spec fn yield_seconds(values: Values) -> Number {
    let n = number_or(values, "multipoint_yield_s"@, near(false, 5, 1));
    if n is NotANumber || n.rank() < near(false, 2, 1).rank() {
        near(false, 2, 1)
    } else {
        n
    }
}

/// The wait between two attempts to reconnect, in seconds, if it is more than none.
pub open spec fn positive_interval(values: Values) -> Option<Number> {
    match number_in(values, "reconnect_interval_s"@) {
        Some(n) => if n !is NotANumber && n.rank() > 0 {
            Some(n)
        } else {
            None
        },
        None => None,
    }
}

/// Whether every length of time that the settings name can be held.
pub open spec fn can_be_held(values: Values) -> bool {
    &&& minutes_fit(number_in(values, "idle_timeout_min"@))
    &&& minutes_fit(number_in(values, "reconnect_window_min"@))
    &&& seconds_fit(number_in(values, "reconnect_interval_s"@))
    &&& tuning_fits(values)
}

/// Whether the lengths of time that keeping a link takes can be held.
pub open spec fn tuning_fits(values: Values) -> bool {
    &&& link_timeout_seconds(values) !is NotANumber
    &&& is_on(values, "multipoint_yield_enabled"@) ==> yield_seconds(values).is_seconds()
}

/// Whether the settings say how to keep a link.
pub fn can_tune(settings: &Settings) -> (r: bool)
    requires
        settings.wf(),
    ensures
        r == tuning_fits(settings@),
{
    let timeout = number_of(settings, "link_timeout_s", Number::ratio(10, 1)).clamp(
        Number::ratio(2, 1),
        Number::ratio(30, 1),
    );
    let heard: bool = match timeout {
        Number::NotANumber => false,
        _ => true,
    };
    heard && (!on(settings, "multipoint_yield_enabled") || yield_after(settings).can_be_seconds())
}

/// Whether the settings can become the configuration of a session.
pub fn can_configure(settings: &Settings) -> (r: bool)
    requires
        settings.wf(),
    ensures
        r == can_be_held(settings@),
{
    let interval: bool = match settings.number("reconnect_interval_s") {
        Some(n) => n.can_be_seconds(),
        None => true,
    };
    settings.has_minutes("idle_timeout_min") && settings.has_minutes("reconnect_window_min")
        && interval && can_tune(settings)
}

fn yield_after(settings: &Settings) -> (r: Number)
    requires
        settings.wf(),
    ensures
        r == yield_seconds(settings@),
        r.wf(),
{
    let n = number_of(settings, "multipoint_yield_s", Number::ratio(5, 1));
    let two = Number::ratio(2, 1);
    proof {
        lemma_whole(two, false, 2);
    }
    match n {
        Number::NotANumber => two,
        _ => {
            if n.below(two) {
                two
            } else {
                n
            }
        },
    }
}

fn limit(settings: &Settings, key: &str, other: Option<Duration>) -> (r: Option<Duration>)
    requires
        settings.wf(),
        minutes_fit(number_in(settings@, key@)),
    ensures
        r == limit_or(settings@, key@, other),
{
    match settings.minutes(key) {
        Some(limit) => limit,
        None => other,
    }
}

/// How long the link may go unheard before it counts as lost.
///
/// Held to what the specification allows rather than trusted: the file is
/// editable by hand, and a controller answers an impossible value with "invalid
/// HCI parameters" from a command that names nothing.
pub fn link_timeout(settings: &Settings) -> (r: Duration)
    requires
        settings.wf(),
        link_timeout_seconds(settings@) !is NotANumber,
    ensures
        r == lasting(link_timeout_seconds(settings@)),
{
    let low = Number::ratio(2, 1);
    let high = Number::ratio(30, 1);
    let n = number_of(settings, "link_timeout_s", Number::ratio(10, 1)).clamp(low, high);
    proof {
        lemma_whole(low, false, 2);
        lemma_whole(high, false, 30);
        lemma_held_seconds(n, 30);
    }
    n.seconds()
}

/// A number between nothing and some seconds is a length of time.
proof fn lemma_held_seconds(n: Number, most: nat)
    requires
        n.wf(),
        n !is NotANumber,
        0 <= n.rank() <= most * pow2(149),
        most <= 0x8000,
    ensures
        n.is_seconds(),
        n is Finite,
        n.units() == n.rank(),
{
    lemma2_to64();
    lemma_pow2_adds(15, 149);
    lemma_pow2_adds(64, 149);
    lemma_pow2_pos(149);
    lemma_pow2_pos(277);
    lemma_pow2_strictly_increases(164, 277);
    lemma_pow2_strictly_increases(164, 213);
    let w = pow2(149);
    assert(most * w <= 0x8000 * w) by (nonlinear_arith)
        requires
            most <= 0x8000,
    ;
}

/// How often to ask for the battery level: `None` for never.
pub open spec fn battery_minutes(values: Values) -> Option<Number> {
    let n = number_or(values, "battery_poll_min"@, near(false, 15, 1));
    if n !is NotANumber && near(false, 1, 1).rank() <= n.rank() {
        Some(n.clamped(near(false, 1, 1), near(false, 120, 1)))
    } else {
        None
    }
}

pub fn battery_poll(settings: &Settings) -> (r: Option<Duration>)
    requires
        settings.wf(),
    ensures
        match battery_minutes(settings@) {
            Some(n) => r == Some(lasting(sixty_times(n))),
            None => r is None,
        },
{
    let one = Number::ratio(1, 1);
    let most = Number::ratio(120, 1);
    let sixty = Number::ratio(60, 1);
    let n = number_of(settings, "battery_poll_min", Number::ratio(15, 1));
    proof {
        lemma_whole(one, false, 1);
        lemma_whole(most, false, 120);
        lemma_whole(sixty, false, 60);
    }
    if !one.at_most(n) {
        return None;
    }
    let minutes = n.clamp(one, most);
    let seconds = minutes.times(sixty);
    proof {
        lemma_pow2_pos(149);
        lemma_held_seconds(minutes, 120);
        let w = pow2(149);
        let u = minutes.units();
        lemma_pow2_adds(149, 149);
        lemma2_to64();
        lemma_pow2_adds(13, 149);
        let q = pow2(298);
        lemma_pow2_pos(298);
        assert((u * (60 * w)) * w <= q * (0x2000 * w)) by (nonlinear_arith)
            requires
                u <= 120 * w,
                q == w * w,
        ;
        lemma_rounded_at_most(u * sixty.units(), q, 162);
        lemma_pow2_strictly_increases(163, 213);
        lemma_pow2_strictly_increases(163, 277);
    }
    Some(seconds.seconds())
}

/// How many control-channel wake-ups the headphones may skip while playing.
pub fn idle_link_latency(settings: &Settings) -> (r: u16)
    requires
        settings.wf(),
    ensures
        r == number_or(settings@, "idle_link_latency"@, near(false, 0, 1)).clamped(
            near(false, 0, 1),
            near(false, 30, 1),
        ).truncated(0xFFFF),
{
    let zero = Number::ratio(0, 1);
    number_of(settings, "idle_link_latency", zero).clamp(zero, Number::ratio(30, 1)).truncate(
        0xFFFF,
    ) as u16
}

/// How long silence lasts before the headphones are handed back, if ever.
pub fn multipoint_yield(settings: &Settings) -> (r: Option<Duration>)
    requires
        settings.wf(),
        is_on(settings@, "multipoint_yield_enabled"@) ==> yield_seconds(settings@).is_seconds(),
    ensures
        r == if is_on(settings@, "multipoint_yield_enabled"@) {
            Some(lasting(yield_seconds(settings@)))
        } else {
            None
        },
{
    if on(settings, "multipoint_yield_enabled") {
        Some(yield_after(settings).seconds())
    } else {
        None
    }
}

// ---------------------------------------------------------------------------
// When to reconnect
// ---------------------------------------------------------------------------

/// The policy that the stored settings ask for. An interval of nothing or less is
/// no interval.
pub open spec fn policy_in(values: Values) -> ReconnectPolicy {
    let usual = ReconnectPolicy::usual();
    ReconnectPolicy {
        enabled: flag_in(values, "reconnect_enabled"@) != Some(false),
        interval: match positive_interval(values) {
            Some(n) => lasting(n),
            None => usual.interval,
        },
        window: limit_or(values, "reconnect_window_min"@, usual.window),
    }
}

/// Whether the lengths of time of the policy can be held.
pub open spec fn policy_fits(values: Values) -> bool {
    seconds_fit(positive_interval(values)) && minutes_fit(
        number_in(values, "reconnect_window_min"@),
    )
}

fn stored_interval(settings: &Settings) -> (r: Option<Number>)
    requires
        settings.wf(),
    ensures
        r == positive_interval(settings@),
        r is Some ==> r->0.wf(),
{
    match settings.number("reconnect_interval_s") {
        Some(n) => {
            let zero = Number::ratio(0, 1);
            proof {
                crate::number::lemma_zero(zero);
            }
            if zero.below(n) {
                Some(n)
            } else {
                None
            }
        },
        None => None,
    }
}

/// Whether the stored settings hold a policy.
pub fn has_policy(settings: &Settings) -> (r: bool)
    requires
        settings.wf(),
    ensures
        r == policy_fits(settings@),
{
    let interval: bool = match stored_interval(settings) {
        Some(n) => n.can_be_seconds(),
        None => true,
    };
    interval && settings.has_minutes("reconnect_window_min")
}

/// The reconnect policy as it is stored right now.
///
/// Read rather than remembered because the worker is occupied for the whole life
/// of a connection: settings are stored by the reader, and this is the only way a
/// change to them can reach a loop that is already running.
pub fn reconnect_policy(settings: &Settings) -> (r: ReconnectPolicy)
    requires
        settings.wf(),
        policy_fits(settings@),
    ensures
        r == policy_in(settings@),
{
    let usual = ReconnectPolicy::default();
    ReconnectPolicy {
        enabled: match settings.bool("reconnect_enabled") {
            Some(flag) => flag,
            None => usual.enabled,
        },
        interval: match stored_interval(settings) {
            Some(n) => n.seconds(),
            None => usual.interval,
        },
        window: limit(settings, "reconnect_window_min", usual.window),
    }
}

// ---------------------------------------------------------------------------
// The configuration of a session
// ---------------------------------------------------------------------------

/// The render endpoint that a microphone target stands for.
pub open spec fn endpoint_of(values: Values) -> Option<Seq<char>> {
    let target = value_in(values, "microphone_target"@);
    if target == Some("vb-cable"@) {
        Some("CABLE Input"@)
    } else if target == Some("vb-cable-a"@) {
        Some("CABLE-A Input"@)
    } else if target == Some("vb-cable-b"@) {
        Some("CABLE-B Input"@)
    } else {
        None
    }
}

/// What the settings say for the next connection, on top of what was wanted.
pub open spec fn refreshed(wishes: Wishes, values: Values) -> Wishes {
    let usual = ReconnectPolicy::usual();
    Wishes {
        audio_device: value_in(values, "playback_source"@),
        microphone_target: endpoint_of(values),
        microphone_gain: number_or(values, "microphone_gain"@, near(false, 1, 1)),
        monitor_source: if is_on(values, "monitor_enabled"@) {
            Some(text_or(values, "monitor_source"@, "default"@))
        } else {
            None
        },
        monitor_replace: text_or(values, "monitor_mode"@, "mix"@) == "replace"@,
        monitor_gain: number_or(values, "monitor_gain"@, near(false, 1, 1)),
        limiter: OutputLimiter { level: number_or(values, "gain"@, near(false, 1, 1)) },
        idle_timeout: limit_or(values, "idle_timeout_min"@, Wishes::usual().idle_timeout),
        reconnect: ReconnectPolicy {
            enabled: flag_in(values, "reconnect_enabled"@) != Some(false),
            interval: match number_in(values, "reconnect_interval_s"@) {
                Some(n) => lasting(n),
                None => usual.interval,
            },
            window: limit_or(values, "reconnect_window_min"@, usual.window),
        },
        ..wishes
    }
}

fn endpoint(settings: &Settings) -> (r: Option<String>)
    requires
        settings.wf(),
    ensures
        crate::device::text_of(r) == endpoint_of(settings@),
{
    match settings.get("microphone_target") {
        Some(target) => {
            proof {
                assert(value_in(settings@, "microphone_target"@) == Some(target@));
            }
            if same(target, "vb-cable") {
                Some("CABLE Input".to_owned())
            } else if same(target, "vb-cable-a") {
                Some("CABLE-A Input".to_owned())
            } else if same(target, "vb-cable-b") {
                Some("CABLE-B Input".to_owned())
            } else {
                None
            }
        },
        None => None,
    }
}

/// Applies the settings whose documented scope is the next connection.
pub fn refresh_connection_config(config: &mut SessionConfig, settings: &Settings)
    requires
        settings.wf(),
        can_be_held(settings@),
    ensures
        final(config)@ == refreshed(old(config)@, settings@),
{
    let one = Number::ratio(1, 1);
    let usual = ReconnectPolicy::default();
    // `device` is the preferred headset. It must never select the audio source.
    config.audio_device = match settings.get("playback_source") {
        Some(source) => Some(source.to_owned()),
        None => None,
    };
    config.microphone_target = endpoint(settings);
    config.microphone_gain = number_of(settings, "microphone_gain", one);
    config.monitor_source = if on(settings, "monitor_enabled") {
        Some(text_of(settings, "monitor_source", "default").to_owned())
    } else {
        None
    };
    config.monitor_replace = same(text_of(settings, "monitor_mode", "mix"), "replace");
    config.monitor_gain = number_of(settings, "monitor_gain", one);
    config.limiter = OutputLimiter::with_gain(number_of(settings, "gain", one));
    config.idle_timeout = limit(settings, "idle_timeout_min", Some(Duration::from_secs(300)));
    config.reconnect = ReconnectPolicy {
        enabled: match settings.bool("reconnect_enabled") {
            Some(flag) => flag,
            None => true,
        },
        interval: match settings.number("reconnect_interval_s") {
            Some(n) => n.seconds(),
            None => usual.interval,
        },
        window: limit(settings, "reconnect_window_min", usual.window),
    };
}

/// The configuration for a fresh session. The stored command style counts where
/// the transport knows it.
pub fn session_config(settings: &Settings, style_known: bool) -> (r: SessionConfig)
    requires
        settings.wf(),
        can_be_held(settings@),
    ensures
        r@ == refreshed(
            Wishes {
                prefer_single_cis: false,
                command_style: if style_known {
                    value_in(settings@, "command_style"@)
                } else {
                    None
                },
                ..Wishes::usual()
            },
            settings@,
        ),
{
    let mut config = SessionConfig::default();
    config.prefer_single_cis = false;
    config.command_style = match settings.get("command_style") {
        Some(style) => if style_known {
            Some(style.to_owned())
        } else {
            None
        },
        None => None,
    };
    refresh_connection_config(&mut config, settings);
    config
}

/// How the link is kept while it stands.
#[derive(Debug)]
pub struct LinkTuning {
    /// How closely the radio is watched, by the name of the level; `None` for the
    /// usual one.
    pub metrics: Option<String>,
    pub multipoint_yield: Option<Duration>,
    pub link_timeout: Duration,
    pub battery_poll: Option<Duration>,
    pub idle_link_latency: u16,
}

/// What the settings say about keeping the link. The stored level of metrics
/// counts where it is a known one.
pub fn link_tuning(settings: &Settings, level_known: bool) -> (r: LinkTuning)
    requires
        settings.wf(),
        tuning_fits(settings@),
    ensures
        crate::device::text_of(r.metrics) == if level_known {
            value_in(settings@, "link_metrics"@)
        } else {
            None
        },
        r.multipoint_yield == if is_on(settings@, "multipoint_yield_enabled"@) {
            Some(lasting(yield_seconds(settings@)))
        } else {
            None
        },
        r.link_timeout == lasting(link_timeout_seconds(settings@)),
        r.battery_poll == match battery_minutes(settings@) {
            Some(n) => Some(lasting(sixty_times(n))),
            None => None,
        },
        r.idle_link_latency == number_or(
            settings@,
            "idle_link_latency"@,
            near(false, 0, 1),
        ).clamped(near(false, 0, 1), near(false, 30, 1)).truncated(0xFFFF),
{
    LinkTuning {
        metrics: match settings.get("link_metrics") {
            Some(level) => if level_known {
                Some(level.to_owned())
            } else {
                None
            },
            None => None,
        },
        multipoint_yield: multipoint_yield(settings),
        link_timeout: link_timeout(settings),
        battery_poll: battery_poll(settings),
        idle_link_latency: idle_link_latency(settings),
    }
}

// ---------------------------------------------------------------------------
// A codec of one's own
// ---------------------------------------------------------------------------

/// The codec that the settings spell out, with what is missing filled in.
pub open spec fn codec_in(values: Values) -> CodecConfiguration {
    let hz = number_or(values, "rate_hz"@, near(false, 48_000, 1)).truncated(u32::MAX as nat);
    let frame = number_or(values, "frame_ms"@, near(false, 10, 1));
    CodecConfiguration {
        sampling_frequency: match frequency_of(hz as u32) {
            Some(f) => f,
            None => SamplingFrequency { code: 8 },
        },
        frame_duration: if frame !is NotANumber && frame.rank() < near(false, 35, 4).rank() {
            FrameDuration::Ms7_5
        } else {
            FrameDuration::Ms10
        },
        channel_allocation: LOCATION_FRONT_LEFT,
        octets_per_frame: number_or(values, "octets"@, near(false, 100, 1)).truncated(
            0xFFFF,
        ) as u16,
        frames_per_sdu: 1,
    }
}

/// The radio settings that go with it.
pub open spec fn qos_in(values: Values) -> QosConfiguration {
    let codec = codec_in(values);
    QosConfiguration {
        sdu_interval_us: codec.frame_duration.micros(),
        framing: 0,
        phy: if value_in(values, "phy"@) == Some("1M"@) {
            0x01
        } else {
            0x02
        },
        max_sdu: codec.octets_per_frame,
        retransmission_number: number_or(values, "retransmissions"@, near(false, 2, 1)).truncated(
            0xFF,
        ) as u8,
        max_transport_latency_ms: number_or(
            values,
            "max_latency_ms"@,
            near(false, 20, 1),
        ).truncated(0xFFFF) as u16,
        presentation_delay_us: number_or(
            values,
            "presentation_delay_ms"@,
            near(false, 40, 1),
        ).product(near(false, 1000, 1)).truncated(u32::MAX as nat) as u32,
    }
}

/// The codec configuration the user typed in, with the defaults filled in.
pub fn custom_codec(settings: &Settings) -> (r: CodecConfiguration)
    requires
        settings.wf(),
    ensures
        r == codec_in(settings@),
{
    let rate: u32 = number_of(settings, "rate_hz", Number::ratio(48_000, 1)).truncate(u32::MAX);
    let frame = number_of(settings, "frame_ms", Number::ratio(10, 1));
    let middle = Number::ratio(35, 4);
    proof {
        lemma_pow2_strictly_increases(152, 277);
        lemma_pow2_adds(2, 149);
        lemma_pow2_adds(4, 149);
        lemma_pow2_adds(151, 1);
        lemma_pow2_pos(149);
        lemma2_to64();
        let w = pow2(149);
        assert(35 * w <= 4 * (16 * w)) by (nonlinear_arith);
        lemma_rounded_at_most(35, 4, 153);
        lemma_pow2_strictly_increases(154, 277);
    }
    CodecConfiguration {
        sampling_frequency: match SamplingFrequency::from_hz(rate) {
            Some(f) => f,
            None => SamplingFrequency { code: 8 },
        },
        frame_duration: if frame.below(middle) {
            FrameDuration::Ms7_5
        } else {
            FrameDuration::Ms10
        },
        channel_allocation: LOCATION_FRONT_LEFT,
        octets_per_frame: number_of(settings, "octets", Number::ratio(100, 1)).truncate(
            0xFFFF,
        ) as u16,
        frames_per_sdu: 1,
    }
}

pub fn custom_qos(settings: &Settings) -> (r: QosConfiguration)
    requires
        settings.wf(),
    ensures
        r == qos_in(settings@),
{
    let codec = custom_codec(settings);
    // 1M reaches further and shrugs off interference; 2M spends less time on air,
    // which matters when two channels share the interval.
    let slow: bool = match settings.get("phy") {
        Some(phy) => same(phy, "1M"),
        None => false,
    };
    QosConfiguration {
        sdu_interval_us: codec.frame_duration.microseconds(),
        framing: 0,
        phy: if slow {
            0x01
        } else {
            0x02
        },
        max_sdu: codec.octets_per_frame,
        retransmission_number: number_of(
            settings,
            "retransmissions",
            Number::ratio(2, 1),
        ).truncate(0xFF) as u8,
        max_transport_latency_ms: number_of(
            settings,
            "max_latency_ms",
            Number::ratio(20, 1),
        ).truncate(0xFFFF) as u16,
        presentation_delay_us: number_of(
            settings,
            "presentation_delay_ms",
            Number::ratio(40, 1),
        ).times(Number::ratio(1000, 1)).truncate(u32::MAX),
    }
}

// ---------------------------------------------------------------------------
// Laws
// ---------------------------------------------------------------------------

/// Whatever number the file holds, the link may go unheard for two seconds at
/// least and thirty at most.
pub proof fn lemma_link_timeout_is_held(values: Values)
    requires
        link_timeout_seconds(values) !is NotANumber,
    ensures
        2_000_000_000 <= nanos_of(link_timeout_seconds(values)) <= 30_000_000_000,
        lasting(link_timeout_seconds(values)).nanos == nanos_of(link_timeout_seconds(values)),
{
    let n = link_timeout_seconds(values);
    let low = near(false, 2, 1);
    let high = near(false, 30, 1);
    let two = Number::Finite { negative: false, mantissa: 0x80_0000, exponent: (-22) as i32 };
    let thirty = Number::Finite { negative: false, mantissa: 0xF0_0000, exponent: (-19) as i32 };
    lemma_whole_rounded(2);
    lemma_whole_rounded(30);
    lemma2_to64();
    lemma_pow2_adds(22, 127);
    lemma_pow2_adds(19, 130);
    assert(0x80_0000 * pow2(127) == 2 * (0x40_0000 * pow2(127))) by (nonlinear_arith);
    assert(0xF0_0000 * pow2(130) == 30 * (0x8_0000 * pow2(130))) by (nonlinear_arith);
    assert(two.is_rounded(false, 2, 1));
    assert(thirty.is_rounded(false, 30, 1));
    lemma_whole(low, false, 2);
    lemma_whole(high, false, 30);
    let w = pow2(149);
    lemma_pow2_pos(149);
    lemma_pow2_pos(277);
    lemma2_to64();
    lemma_pow2_adds(5, 149);
    lemma_pow2_strictly_increases(154, 277);
    assert(2 * w <= n.rank() <= 30 * w);
    assert(n.units() == n.rank());
    lemma_held_part(n.units(), w, 2, 30);
}

/// Rounding keeps a count between two whole counts.
proof fn lemma_held_part(u: nat, w: nat, low: nat, high: nat)
    requires
        w > 0,
        low * w <= u <= high * w,
    ensures
        low * 1_000_000_000 <= half_even(u * 1_000_000_000, w) <= high * 1_000_000_000,
{
    let x = u * 1_000_000_000;
    let q = x / w;
    let r = x % w;
    vstd::arithmetic::div_mod::lemma_fundamental_div_mod(x as int, w as int);
    assert(q >= low * 1_000_000_000) by (nonlinear_arith)
        requires
            x == w * q + r,
            r < w,
            x >= (low * w) * 1_000_000_000,
            w > 0,
    ;
    assert(q <= high * 1_000_000_000 && (r > 0 ==> q < high * 1_000_000_000)) by (nonlinear_arith)
        requires
            x == w * q + r,
            0 <= r,
            x <= (high * w) * 1_000_000_000,
            w > 0,
    ;
}

/// Whether a setting holds a whole number, typed in decimal.
pub open spec fn typed(values: Values, key: Seq<char>, n: nat) -> bool {
    value_in(values, key) == Some(decimal(n))
}

proof fn lemma_typed(values: Values, key: Seq<char>, n: nat)
    requires
        typed(values, key, n),
        n < 0x100_0000,
    ensures
        number_in(values, key) == Some(near(false, n, 1)),
        near(false, n, 1) is Finite,
        near(false, n, 1).wf(),
        !near(false, n, 1).is_negative(),
        near(false, n, 1).units() == n * pow2(149),
        near(false, n, 1).rank() == n * pow2(149),
        near(false, n, 1).whole() == n,
{
    lemma_decimal_reads_back(n);
    lemma_near_whole(false, n);
}

/// A whole number of seconds lasts that many seconds.
pub proof fn lemma_seconds_last(n: nat)
    requires
        n < 0x100_0000,
    ensures
        nanos_of(near(false, n, 1)) == n * 1_000_000_000,
        lasting(near(false, n, 1)) == (Duration { nanos: (n * 1_000_000_000) as u128 }),
{
    lemma_near_whole(false, n);
    lemma_pow2_pos(149);
    let w = pow2(149);
    let x = (n * w) * 1_000_000_000;
    let f = n * 1_000_000_000;
    assert(x == w * f) by (nonlinear_arith)
        requires
            x == (n * w) * 1_000_000_000,
            f == n * 1_000_000_000,
    ;
    vstd::arithmetic::div_mod::lemma_fundamental_div_mod_converse(x as int, w as int, f as int, 0);
}

/// A whole number of minutes is sixty times as many seconds.
pub proof fn lemma_minutes_last(n: nat)
    requires
        60 * n + 1 < 0x100_0000,
    ensures
        sixty_times(near(false, n, 1)) == near(false, 60 * n, 1),
        nanos_of(sixty_times(near(false, n, 1))) == n * 60_000_000_000,
        limit_of(near(false, n, 1)) == if n == 0 {
            None
        } else {
            Some(n * 60_000_000_000)
        },
{
    let w = pow2(149);
    lemma_pow2_pos(149);
    lemma_pow2_pos(298);
    lemma_pow2_adds(149, 149);
    lemma_near_whole(false, n);
    lemma_near_whole(false, 60);
    lemma_near_whole(false, 60 * n);
    let p = (n * w) * (60 * w);
    let q = pow2(298);
    let k = 60 * n;
    assert(p == k * q) by (nonlinear_arith)
        requires
            p == (n * w) * (60 * w),
            q == w * w,
            k == 60 * n,
    ;
    lemma_rounded_exact(p, q, k);
    lemma_near_is_rounded(false, p, q);
    lemma_one_form(near(false, p, q), near(false, k, 1));
    lemma_seconds_last(k);
    if n > 0 {
        assert(n * w > 0) by (nonlinear_arith)
            requires
                n > 0,
                w > 0,
        ;
    } else {
        assert(n * w == 0) by (nonlinear_arith)
            requires
                n == 0,
        ;
    }
}

/// The policy is what the settings say: seconds between two attempts and minutes for all
/// of them, each under its own key, with no limit at zero; off exactly where it was
/// switched off. A fresh configuration says the same.
pub proof fn lemma_policy_says_what_was_typed(
    values: Values,
    wishes: Wishes,
    seconds: nat,
    minutes: nat,
)
    requires
        typed(values, "reconnect_interval_s"@, seconds),
        typed(values, "reconnect_window_min"@, minutes),
        0 < seconds < 0x100_0000,
        60 * minutes + 1 < 0x100_0000,
    ensures
        policy_in(values) == (ReconnectPolicy {
            enabled: flag_in(values, "reconnect_enabled"@) != Some(false),
            interval: Duration { nanos: (seconds * 1_000_000_000) as u128 },
            window: if minutes == 0 {
                None
            } else {
                Some(Duration { nanos: (minutes * 60_000_000_000) as u128 })
            },
        }),
        refreshed(wishes, values).reconnect == policy_in(values),
{
    lemma_typed(values, "reconnect_interval_s"@, seconds);
    lemma_typed(values, "reconnect_window_min"@, minutes);
    lemma_seconds_last(seconds);
    lemma_minutes_last(minutes);
    let w = pow2(149);
    lemma_pow2_pos(149);
    assert(seconds * w > 0) by (nonlinear_arith)
        requires
            seconds > 0,
            w > 0,
    ;
}

/// A connection that nothing was stored for retries every five seconds for two minutes,
/// and so does one whose interval is none.
pub proof fn lemma_policy_without_settings(values: Values)
    requires
        value_in(values, "reconnect_window_min"@) is None,
        value_in(values, "reconnect_enabled"@) is None,
        value_in(values, "reconnect_interval_s"@) is None || typed(
            values,
            "reconnect_interval_s"@,
            0,
        ),
    ensures
        policy_in(values).enabled,
        policy_in(values).interval.nanos == 5_000_000_000,
        policy_in(values).window == Some(Duration { nanos: 120_000_000_000 }),
{
    if typed(values, "reconnect_interval_s"@, 0) {
        lemma_typed(values, "reconnect_interval_s"@, 0);
        let w = pow2(149);
        assert(0 * w == 0) by (nonlinear_arith);
    }
}

/// What the user typed in is the codec: the rate, where it is one that exists, the frame
/// that is nearer, and the octets as they are.
pub proof fn lemma_custom_codec_is_what_was_typed(
    values: Values,
    rate: SamplingFrequency,
    octets: nat,
)
    requires
        rate.rate() is Some,
        typed(values, "rate_hz"@, rate.rate()->0 as nat),
        typed(values, "octets"@, octets),
        octets <= 0xFFFF,
    ensures
        codec_in(values).sampling_frequency == rate,
        codec_in(values).octets_per_frame == octets,
        codec_in(values).channel_allocation == 1,
        codec_in(values).frames_per_sdu == 1,
        typed(values, "frame_ms"@, 10) ==> codec_in(values).frame_duration == FrameDuration::Ms10,
        typed(values, "frame_ms"@, 8) || typed(values, "frame_ms"@, 7) ==> codec_in(
            values,
        ).frame_duration == FrameDuration::Ms7_5,
        qos_in(values).sdu_interval_us == codec_in(values).frame_duration.micros(),
        qos_in(values).max_sdu == octets,
{
    let hz = rate.rate()->0;
    assert(hz < 0x100_0000);
    lemma_typed(values, "rate_hz"@, hz as nat);
    lemma_typed(values, "octets"@, octets);
    assert(rate_of(rate.code) == rate.rate());
    let code = choose|code: u8| rate_of(code) == rate.rate();
    assert(code == rate.code);
    lemma_pow2_pos(147);
    lemma_pow2_adds(2, 147);
    lemma2_to64();
    lemma_pow2_adds(6, 147);
    lemma_pow2_strictly_increases(153, 277);
    let v = pow2(147);
    lemma_rounded_in_steps(35, 4, 35, 2);
    lemma_near_is_rounded(false, 35, 4);
    assert(36 * v < 64 * v && 36 * v <= 40 * v && 32 * v < 35 * v && 28 * v < 35 * v)
        by (nonlinear_arith)
        requires
            v > 0,
    ;
    if typed(values, "frame_ms"@, 10) {
        lemma_typed(values, "frame_ms"@, 10);
        assert(10 * pow2(149) == 40 * v);
    }
    if typed(values, "frame_ms"@, 8) {
        lemma_typed(values, "frame_ms"@, 8);
        assert(8 * pow2(149) == 32 * v);
    }
    if typed(values, "frame_ms"@, 7) {
        lemma_typed(values, "frame_ms"@, 7);
        assert(7 * pow2(149) == 28 * v);
    }
}

/// What the user typed in is what the radio is asked for: retransmissions, latency and
/// delay, each from its own key, and the radio by its name.
pub proof fn lemma_custom_radio_is_what_was_typed(
    values: Values,
    rtn: nat,
    latency: nat,
    delay: nat,
)
    requires
        typed(values, "retransmissions"@, rtn),
        typed(values, "max_latency_ms"@, latency),
        typed(values, "presentation_delay_ms"@, delay),
        rtn <= 255,
        latency <= 0xFFFF,
        1000 * delay + 1 < 0x100_0000,
    ensures
        qos_in(values).retransmission_number == rtn,
        qos_in(values).max_transport_latency_ms == latency,
        qos_in(values).presentation_delay_us == 1000 * delay,
        qos_in(values).framing == 0,
        value_in(values, "phy"@) == Some("1M"@) <==> qos_in(values).phy == 1,
        value_in(values, "phy"@) != Some("1M"@) <==> qos_in(values).phy == 2,
{
    lemma_typed(values, "retransmissions"@, rtn);
    lemma_typed(values, "max_latency_ms"@, latency);
    lemma_typed(values, "presentation_delay_ms"@, delay);
    let w = pow2(149);
    lemma_pow2_pos(149);
    lemma_pow2_pos(298);
    lemma_pow2_adds(149, 149);
    lemma_near_whole(false, 1000);
    let p = (delay * w) * (1000 * w);
    let q = pow2(298);
    let k = 1000 * delay;
    assert(p == k * q) by (nonlinear_arith)
        requires
            p == (delay * w) * (1000 * w),
            q == w * w,
            k == 1000 * delay,
    ;
    lemma_rounded_exact(p, q, k);
    lemma_near_is_rounded(false, p, q);
    assert((k * w) / w == k) by {
        vstd::arithmetic::div_mod::lemma_div_multiples_vanish(k as int, w as int);
        assert(k * w == w * k) by (nonlinear_arith);
    }
}

/// What is heard follows the settings, each from its own key: the gains as they are
/// typed, silence at zero; what is listened to only where that is switched on; in place
/// of the music only where it says "replace".
pub proof fn lemma_live_settings_say_what_was_typed(values: Values, text: Seq<char>)
    requires
        number_of_text(text) is Some,
    ensures
        value_in(values, "gain"@) == Some(text) ==> live_in(values).output_gain == number_of_text(
            text,
        )->0,
        value_in(values, "microphone_gain"@) == Some(text) ==> live_in(values).microphone_gain
            == number_of_text(text)->0,
        value_in(values, "monitor_gain"@) == Some(text) ==> live_in(values).monitor_gain
            == number_of_text(text)->0,
        value_in(values, "gain"@) is None ==> live_in(values).output_gain == near(false, 1, 1),
        value_in(values, "microphone_gain"@) is None ==> live_in(values).microphone_gain == near(
            false,
            1,
            1,
        ),
        value_in(values, "monitor_gain"@) is None ==> live_in(values).monitor_gain == near(
            false,
            1,
            1,
        ),
        live_in(values).monitor_enabled <==> flag_in(values, "monitor_enabled"@) == Some(true),
        live_in(values).monitor_replace <==> value_in(values, "monitor_mode"@) == Some(
            "replace"@,
        ),
        value_in(values, "monitor_source"@) is Some ==> live_in(values).monitor_source == value_in(
            values,
            "monitor_source"@,
        )->0,
        value_in(values, "monitor_source"@) is None ==> live_in(values).monitor_source
            == "default"@,
{
    reveal_strlit("mix");
    reveal_strlit("replace");
    assert("mix"@.len() == 3 && "replace"@.len() == 7);
}

/// What a text says as a number.
pub open spec fn number_of_text(text: Seq<char>) -> Option<Number> {
    crate::number::number_of(text)
}

/// The balance counts to fifty on either side: what is typed is that many fiftieths, and
/// never more than all.
pub proof fn lemma_balance_is_in_fiftieths(values: Values, n: nat)
    requires
        typed(values, "balance"@, n),
        n < 0x100_0000,
    ensures
        n < 50 ==> live_in(values).balance == near(false, n, 50),
        n >= 50 ==> live_in(values).balance == near(false, 1, 1),
{
    lemma_typed(values, "balance"@, n);
    let w = pow2(149);
    lemma_pow2_pos(149);
    lemma_near_whole(false, 50);
    lemma_near_whole(false, 1);
    lemma_near_whole(true, 1);
    lemma_near_is_rounded(false, n * w, 50 * w);
    lemma_near_is_rounded(false, n, 50);
    assert(50 * w > 0) by (nonlinear_arith)
        requires
            w > 0,
    ;
    lemma_fraction_grows(n, 50, w);
    let share = near(false, n * w, 50 * w);
    assert(share == near(false, n, 50)) by {
        lemma_near(share, false, n, 50);
    }
    lemma_pow2_strictly_increases(149, 277);
    if n < 50 {
        lemma_rounded_between(n, 50, 0);
        assert(0 * w == 0) by (nonlinear_arith);
        assert(1 * w == w) by (nonlinear_arith);
    } else {
        let k = n / 50;
        lemma_rounded_between(n, 50, k);
        assert(k * w >= w) by (nonlinear_arith)
            requires
                k >= 1,
        ;
        assert(1 * w == w) by (nonlinear_arith);
        if share.units() == w {
            lemma_one_form(share, near(false, 1, 1));
        }
    }
}

/// The rest of what a session is configured with, each from its own key: where music is
/// captured, where the microphone goes, how long silence lasts before it idles. The gain
/// is the one that holds while it plays.
pub proof fn lemma_session_is_configured_by_the_settings(
    wishes: Wishes,
    values: Values,
    minutes: nat,
)
    requires
        60 * minutes + 1 < 0x100_0000,
    ensures
        ({
            let now = refreshed(wishes, values);
            let target = value_in(values, "microphone_target"@);
            &&& now.audio_device == value_in(values, "playback_source"@)
            &&& now.limiter.level == live_in(values).output_gain
            &&& now.microphone_gain == live_in(values).microphone_gain
            &&& now.monitor_gain == live_in(values).monitor_gain
            &&& now.monitor_replace == live_in(values).monitor_replace
            &&& live_in(values).monitor_enabled ==> now.monitor_source == Some(
                live_in(values).monitor_source,
            )
            &&& !live_in(values).monitor_enabled ==> now.monitor_source is None
            &&& target == Some("vb-cable"@) <==> now.microphone_target == Some("CABLE Input"@)
            &&& target == Some("vb-cable-a"@) <==> now.microphone_target == Some("CABLE-A Input"@)
            &&& target == Some("vb-cable-b"@) <==> now.microphone_target == Some("CABLE-B Input"@)
            &&& typed(values, "idle_timeout_min"@, minutes) ==> now.idle_timeout == (if minutes
                == 0 {
                None
            } else {
                Some(Duration { nanos: (minutes * 60_000_000_000) as u128 })
            })
            &&& value_in(values, "idle_timeout_min"@) is None ==> now.idle_timeout == Some(
                Duration { nanos: 300_000_000_000 },
            )
            &&& now.scan_duration == wishes.scan_duration
            &&& now.prefer_single_cis == wishes.prefer_single_cis
            &&& now.preset == wishes.preset
            &&& now.command_style == wishes.command_style
        }),
{
    reveal_strlit("CABLE Input");
    reveal_strlit("CABLE-A Input");
    reveal_strlit("CABLE-B Input");
    reveal_strlit("vb-cable");
    reveal_strlit("vb-cable-a");
    reveal_strlit("vb-cable-b");
    assert("CABLE Input"@.len() == 11 && "CABLE-A Input"@.len() == 13);
    assert("CABLE-A Input"@[6] == 'A' && "CABLE-B Input"@[6] == 'B');
    assert("vb-cable"@.len() == 8 && "vb-cable-a"@.len() == 10 && "vb-cable-b"@.len() == 10);
    assert("vb-cable-a"@[9] == 'a' && "vb-cable-b"@[9] == 'b');
    if typed(values, "idle_timeout_min"@, minutes) {
        lemma_typed(values, "idle_timeout_min"@, minutes);
        lemma_minutes_last(minutes);
    }
}

/// How a link is kept is what was typed: the time-out between two and thirty seconds, the
/// hand-back after no less than two, the battery between every minute and every other
/// hour and never at zero.
pub proof fn lemma_link_is_kept_as_typed(values: Values, n: nat)
    requires
        n < 200_000,
    ensures
        typed(values, "link_timeout_s"@, n) ==> lasting(link_timeout_seconds(values)).nanos == (
        if n < 2 {
            2
        } else if n > 30 {
            30
        } else {
            n
        }) * 1_000_000_000,
        typed(values, "multipoint_yield_s"@, n) ==> lasting(yield_seconds(values)).nanos == (if n
            < 2 {
            2
        } else {
            n
        }) * 1_000_000_000,
        typed(values, "battery_poll_min"@, n) ==> (battery_minutes(values) is None <==> n == 0),
        typed(values, "battery_poll_min"@, n) && n > 0 ==> lasting(
            sixty_times(battery_minutes(values)->0),
        ).nanos == (if n > 120 {
            120
        } else {
            n
        }) * 60_000_000_000,
        value_in(values, "link_timeout_s"@) is None ==> lasting(link_timeout_seconds(values)).nanos
            == 10_000_000_000,
        value_in(values, "multipoint_yield_s"@) is None ==> lasting(yield_seconds(values)).nanos
            == 5_000_000_000,
        value_in(values, "battery_poll_min"@) is None ==> battery_minutes(values) is Some
            && lasting(sixty_times(battery_minutes(values)->0)).nanos == 900_000_000_000,
{
    let w = pow2(149);
    lemma_pow2_pos(149);
    lemma_near_whole(false, 1);
    lemma_near_whole(false, 2);
    lemma_near_whole(false, 5);
    lemma_near_whole(false, 10);
    lemma_near_whole(false, 15);
    lemma_near_whole(false, 30);
    lemma_near_whole(false, 120);
    lemma_near_whole(false, n);
    lemma_seconds_last(2);
    lemma_seconds_last(5);
    lemma_seconds_last(10);
    lemma_seconds_last(30);
    lemma_seconds_last(n);
    lemma_minutes_last(15);
    lemma_minutes_last(120);
    lemma_minutes_last(n);
    lemma_ranks(n, 1, w);
    lemma_ranks(n, 2, w);
    lemma_ranks(n, 30, w);
    lemma_ranks(n, 120, w);
    lemma_ranks(10, 2, w);
    lemma_ranks(10, 30, w);
    lemma_ranks(5, 2, w);
    lemma_ranks(15, 1, w);
    lemma_ranks(15, 120, w);
    if typed(values, "link_timeout_s"@, n) {
        lemma_typed(values, "link_timeout_s"@, n);
    }
    if typed(values, "multipoint_yield_s"@, n) {
        lemma_typed(values, "multipoint_yield_s"@, n);
    }
    if typed(values, "battery_poll_min"@, n) {
        lemma_typed(values, "battery_poll_min"@, n);
    }
}

proof fn lemma_ranks(a: nat, b: nat, w: nat)
    requires
        w > 0,
    ensures
        a < b <==> a * w < b * w,
{
    if a < b {
        assert(a * w < b * w) by (nonlinear_arith)
            requires
                a < b,
                w > 0,
        ;
    } else {
        assert(a * w >= b * w) by (nonlinear_arith)
            requires
                a >= b,
        ;
    }
}

} // verus!
