//! Changing a setting, and showing all of them.

use vstd::arithmetic::power2::{
    lemma2_to64, lemma_pow2_adds, lemma_pow2_pos, lemma_pow2_strictly_increases, pow2,
};
use vstd::prelude::*;

use crate::agent::message::{choices, controls, Choice, Control, Shown};
use crate::agent::tuning::{codec_in, qos_in, text_or, Values};
use crate::bap::{
    bits_set, frequency_of, rate_of, Preset, SamplingFrequency, LOCATION_FRONT_LEFT,
    LOCATION_STEREO,
};
use crate::number::{
    all_digits, digits_value, is_digit, lemma_decimal_reads_back, lemma_digits_are_a_number,
    lemma_fraction_is_a_number, lemma_near_is_rounded, lemma_near_whole, lemma_rounded_exact,
    lemma_rounded_in_steps, lemma_whole, near, number_of, pow10, Number,
};
use crate::settings::{by_key, knob_table, knobs, touched, value_in, Knob, Settings};
use crate::text::{decimal, decimal_text, same};

verus! {

// ---------------------------------------------------------------------------
// Presets
// ---------------------------------------------------------------------------

/// The preset of a name.
pub open spec fn preset_of(name: Seq<char>) -> Option<Preset> {
    if name == "windows"@ {
        Some(Preset::WindowsDefault)
    } else if name == "low-latency"@ {
        Some(Preset::LowLatency)
    } else if name == "high-quality"@ {
        Some(Preset::HighQuality)
    } else if name == "robust"@ {
        Some(Preset::Robust)
    } else {
        None
    }
}

pub fn parse_preset(name: &str) -> (r: Option<Preset>)
    ensures
        r == preset_of(name@),
{
    if same(name, "windows") {
        Some(Preset::WindowsDefault)
    } else if same(name, "low-latency") {
        Some(Preset::LowLatency)
    } else if same(name, "high-quality") {
        Some(Preset::HighQuality)
    } else if same(name, "robust") {
        Some(Preset::Robust)
    } else {
        None
    }
}

// ---------------------------------------------------------------------------
// One change
// ---------------------------------------------------------------------------

/// Whether a gain lies between nothing and twice.
pub open spec fn is_gain(n: Number) -> bool {
    n !is NotANumber && 0 <= n.rank() <= near(false, 2, 1).rank()
}

/// Why a value is refused for a key before anything is changed. Levels of metrics
/// and command styles are known elsewhere.
pub open spec fn refusal(key: Seq<char>, value: Seq<char>, recognised: bool) -> Option<Seq<char>> {
    if key == "microphone_mode"@ && value != "off"@ && value != "on"@ {
        Some("unknown microphone mode"@)
    } else if key == "microphone_quality"@ && value != "voice"@ && value != "balanced"@ && value
        != "high"@ {
        Some("unknown microphone quality"@)
    } else if key == "microphone_target"@ && value != "vb-cable"@ && value != "vb-cable-a"@ && value
        != "vb-cable-b"@ && value != "none"@ {
        Some("unknown microphone target"@)
    } else if key == "monitor_mode"@ && value != "mix"@ && value != "replace"@ {
        Some("unknown monitoring mode"@)
    } else if key == "link_metrics"@ && !recognised {
        Some("unknown radio monitoring level"@)
    } else if key == "command_style"@ && !recognised {
        Some("unknown HCI command addressing mode"@)
    } else if key == "gain"@ || key == "microphone_gain"@ || key == "monitor_gain"@ {
        match number_of(value) {
            None => Some("gain must be a number from 0 to 2"@),
            Some(n) => if is_gain(n) {
                None
            } else {
                Some("gain must be in the range from 0 to 2"@)
            },
        }
    } else {
        None
    }
}

/// The values that a preset spells out.
pub open spec fn with_preset(values: Values, preset: Preset) -> Values {
    let codec = preset.codec_of(false);
    let qos = preset.qos_of(codec);
    values.insert(
        "rate_hz"@,
        decimal(
            match codec.sampling_frequency.rate() {
                Some(hz) => hz as nat,
                None => 48_000,
            },
        ),
    ).insert(
        "frame_ms"@,
        if codec.frame_duration.micros() == 7_500 {
            "7.5"@
        } else {
            "10"@
        },
    ).insert("octets"@, decimal(codec.octets_per_frame as nat)).insert(
        "phy"@,
        if qos.phy == 0x01 {
            "1M"@
        } else {
            "2M"@
        },
    ).insert("retransmissions"@, decimal(qos.retransmission_number as nat)).insert(
        "max_latency_ms"@,
        decimal(qos.max_transport_latency_ms as nat),
    ).insert("presentation_delay_ms"@, decimal((qos.presentation_delay_us / 1000) as nat))
}

/// The settings after a value that was not refused: a microphone that is switched
/// off cannot be listened to.
pub open spec fn with_value(values: Values, key: Seq<char>, value: Seq<char>) -> Values {
    let set = values.insert(key, value);
    if key == "microphone_mode"@ && value == "off"@ && value_in(set, "monitor_source"@) == Some(
        "headset"@,
    ) {
        set.insert("monitor_source"@, "default"@)
    } else {
        set
    }
}

/// The settings after a change, and why it failed, if it did. An unknown preset
/// is found out late: its name is stored and nothing else.
pub open spec fn changed(values: Values, key: Seq<char>, value: Seq<char>, recognised: bool) -> (
    Values,
    Option<Seq<char>>,
) {
    match refusal(key, value, recognised) {
        Some(text) => (values, Some(text)),
        None => {
            let set = with_value(values, key, value);
            if key == "preset"@ && value != "custom"@ {
                match preset_of(value) {
                    Some(preset) => (with_preset(set, preset), None),
                    None => (set, Some("unknown LC3 preset"@)),
                }
            } else {
                (set, None)
            }
        },
    }
}

fn refuse(key: &str, value: &str, recognised: bool) -> (r: Option<&'static str>)
    ensures
        r is Some <==> refusal(key@, value@, recognised) is Some,
        r is Some ==> r->0@ == refusal(key@, value@, recognised)->0,
{
    if same(key, "microphone_mode") && !same(value, "off") && !same(value, "on") {
        return Some("unknown microphone mode");
    }
    if same(key, "microphone_quality") && !same(value, "voice") && !same(value, "balanced")
        && !same(value, "high") {
        return Some("unknown microphone quality");
    }
    if same(key, "microphone_target") && !same(value, "vb-cable") && !same(value, "vb-cable-a")
        && !same(value, "vb-cable-b") && !same(value, "none") {
        return Some("unknown microphone target");
    }
    if same(key, "monitor_mode") && !same(value, "mix") && !same(value, "replace") {
        return Some("unknown monitoring mode");
    }
    if same(key, "link_metrics") && !recognised {
        return Some("unknown radio monitoring level");
    }
    if same(key, "command_style") && !recognised {
        return Some("unknown HCI command addressing mode");
    }
    if same(key, "gain") || same(key, "microphone_gain") || same(key, "monitor_gain") {
        let zero = Number::ratio(0, 1);
        let two = Number::ratio(2, 1);
        proof {
            crate::number::lemma_zero(zero);
            lemma_whole(two, false, 2);
        }
        match Number::parse(value) {
            None => {
                return Some("gain must be a number from 0 to 2");
            },
            Some(gain) => {
                if !(zero.at_most(gain) && gain.at_most(two)) {
                    return Some("gain must be in the range from 0 to 2");
                }
            },
        }
    }
    None
}

fn spell_out(settings: &mut Settings, preset: Preset)
    requires
        old(settings).wf(),
    ensures
        final(settings).wf(),
        final(settings)@ == with_preset(old(settings)@, preset),
{
    let codec = preset.codec(false);
    let qos = preset.qos(&codec);
    settings.set(
        "rate_hz",
        decimal_text(codec.sampling_frequency.hz_or_48000() as u64).as_str(),
    );
    settings.set(
        "frame_ms",
        if codec.frame_duration.microseconds() == 7_500 {
            "7.5"
        } else {
            "10"
        },
    );
    settings.set("octets", decimal_text(codec.octets_per_frame as u64).as_str());
    settings.set(
        "phy",
        if qos.phy == 0x01 {
            "1M"
        } else {
            "2M"
        },
    );
    settings.set("retransmissions", decimal_text(qos.retransmission_number as u64).as_str());
    settings.set("max_latency_ms", decimal_text(qos.max_transport_latency_ms as u64).as_str());
    settings.set(
        "presentation_delay_ms",
        decimal_text((qos.presentation_delay_us / 1000) as u64).as_str(),
    );
}

/// Changes one setting, and says which of the changes need more than a moment.
///
/// `recognised` says whether the value is one that the part of the stack that uses
/// it knows; it counts for levels of metrics and command styles.
pub fn apply_setting_change(
    settings: &mut Settings,
    key: &str,
    value: &str,
    recognised: bool,
) -> (r: Result<Vec<Knob>, String>)
    requires
        old(settings).wf(),
    ensures
        final(settings).wf(),
        final(settings)@ == changed(old(settings)@, key@, value@, recognised).0,
        match changed(old(settings)@, key@, value@, recognised).1 {
            Some(text) => r is Err && r->Err_0@ == text,
            None => r is Ok && by_key(r->Ok_0@) && r->Ok_0@.to_multiset() == touched(
                final(settings)@,
                old(settings)@,
            ).to_multiset(),
        },
{
    let before = settings.clone();
    proof {
        assert(before.wf());
    }
    if let Some(text) = refuse(key, value, recognised) {
        return Err(text.to_owned());
    }
    settings.set(key, value);
    if same(key, "microphone_mode") && same(value, "off") {
        let headset: bool = match settings.get("monitor_source") {
            Some(source) => same(source, "headset"),
            None => false,
        };
        if headset {
            settings.set("monitor_source", "default");
        }
    }
    if same(key, "preset") && !same(value, "custom") {
        match parse_preset(value) {
            Some(preset) => spell_out(settings, preset),
            None => {
                return Err("unknown LC3 preset".to_owned());
            },
        }
    }
    Ok(settings.scopes_touched_by(&before))
}

// ---------------------------------------------------------------------------
// All settings
// ---------------------------------------------------------------------------

/// A device that sound can be captured from.
#[derive(Debug)]
pub struct CaptureDevice {
    pub id: String,
    pub name: String,
    pub virtual_cable: bool,
}

/// What is said of a device that sound can be captured from.
pub struct Source {
    pub id: Seq<char>,
    pub name: Seq<char>,
    pub virtual_cable: bool,
}

impl View for CaptureDevice {
    type V = Source;

    open spec fn view(&self) -> Source {
        Source { id: self.id@, name: self.name@, virtual_cable: self.virtual_cable }
    }
}

/// What is said of devices.
pub open spec fn sources(s: Seq<CaptureDevice>) -> Seq<Source> {
    Seq::new(s.len(), |i: int| s[i]@)
}

/// Every source, to play from.
pub open spec fn playback_choices(list: Seq<Source>) -> Seq<(Seq<char>, Seq<char>)> {
    Seq::new(list.len(), |i: int| (list[i].id, list[i].name))
}

/// The sources behind which there is a microphone.
pub open spec fn microphone_choices(list: Seq<Source>) -> Seq<(Seq<char>, Seq<char>)>
    decreases list.len(),
{
    if list.len() == 0 {
        Seq::empty()
    } else {
        let front = microphone_choices(list.drop_last());
        if list.last().virtual_cable {
            front
        } else {
            front.push((list.last().id, list.last().name))
        }
    }
}

/// What can be listened to: the default microphone, every other that is no
/// virtual cable, and that of the headset where it is on.
pub open spec fn monitor_choices(list: Seq<Source>, headset: bool) -> Seq<(Seq<char>, Seq<char>)> {
    let all = seq![("default"@, "Windows default microphone"@)] + microphone_choices(list);
    if headset {
        all.push(("headset"@, "Headset microphone (LE Audio)"@))
    } else {
        all
    }
}

/// One setting, as it is shown.
pub open spec fn control_of(knob: Knob, values: Values, list: Seq<Source>) -> Shown {
    Shown {
        knob,
        value: text_or(values, knob.key@, ""@),
        options: if knob.key@ == "playback_source"@ {
            Some(playback_choices(list))
        } else if knob.key@ == "monitor_source"@ {
            Some(monitor_choices(list, text_or(values, "microphone_mode"@, "off"@) == "on"@))
        } else {
            None
        },
    }
}

/// Every setting, as it is shown.
pub open spec fn snapshot_of(values: Values, list: Seq<Source>) -> Seq<Shown> {
    knob_table().map_values(|knob: Knob| control_of(knob, values, list))
}

fn choice(value: &str, label: &str) -> (r: Choice)
    ensures
        r@ == (value@, label@),
{
    Choice { value: value.to_owned(), label: label.to_owned() }
}

fn playback_options(list: &[CaptureDevice]) -> (r: Vec<Choice>)
    ensures
        choices(r@) == playback_choices(sources(list@)),
{
    let mut out: Vec<Choice> = Vec::new();
    let mut i: usize = 0;
    while i < list.len()
        invariant
            i <= list@.len(),
            out@.len() == i,
            choices(out@) == playback_choices(sources(list@)).take(i as int),
        decreases list@.len() - i,
    {
        out.push(choice(list[i].id.as_str(), list[i].name.as_str()));
        assert(choices(out@) =~= playback_choices(sources(list@)).take(i + 1));
        i += 1;
    }
    assert(choices(out@) =~= playback_choices(sources(list@)));
    out
}

fn monitor_options(list: &[CaptureDevice], headset: bool) -> (r: Vec<Choice>)
    ensures
        choices(r@) == monitor_choices(sources(list@), headset),
{
    let ghost all = sources(list@);
    let mut out: Vec<Choice> = Vec::new();
    out.push(choice("default", "Windows default microphone"));
    let ghost first = seq![("default"@, "Windows default microphone"@)];
    let mut i: usize = 0;
    assert(all.take(0) =~= Seq::empty());
    assert(choices(out@) =~= first + microphone_choices(all.take(0)));
    while i < list.len()
        invariant
            i <= list@.len(),
            all == sources(list@),
            choices(out@) == first + microphone_choices(all.take(i as int)),
        decreases list@.len() - i,
    {
        let ghost was = out@;
        proof {
            assert(all.take(i + 1).drop_last() =~= all.take(i as int));
            assert(all.take(i + 1).last() == list@[i as int]@);
        }
        if !list[i].virtual_cable {
            out.push(choice(list[i].id.as_str(), list[i].name.as_str()));
            assert(choices(out@) =~= choices(was).push((list@[i as int].id@, list@[i as int].name@)));
            assert(choices(out@) =~= first + microphone_choices(all.take(i + 1)));
        }
        i += 1;
    }
    assert(all.take(all.len() as int) =~= all);
    if headset {
        let ghost was = out@;
        out.push(choice("headset", "Headset microphone (LE Audio)"));
        assert(choices(out@) =~= choices(was).push(("headset"@, "Headset microphone (LE Audio)"@)));
    }
    out
}

/// Every setting with its value, what it does and what changing it costs, and the
/// choices where there are some.
pub fn settings_snapshot(settings: &Settings, list: &[CaptureDevice]) -> (r: Vec<Control>)
    requires
        settings.wf(),
    ensures
        controls(r@) == snapshot_of(settings@, sources(list@)),
{
    let headset: bool = match settings.get("microphone_mode") {
        Some(mode) => same(mode, "on"),
        None => same("off", "on"),
    };
    let table = knobs();
    let ghost goal = snapshot_of(settings@, sources(list@));
    let mut out: Vec<Control> = Vec::new();
    let mut i: usize = 0;
    while i < table.len()
        invariant
            i <= table@.len(),
            table@ == knob_table(),
            settings.wf(),
            goal == snapshot_of(settings@, sources(list@)),
            headset == (text_or(settings@, "microphone_mode"@, "off"@) == "on"@),
            out@.len() == i,
            controls(out@) == goal.take(i as int),
        decreases table@.len() - i,
    {
        let knob: Knob = table[i];
        let value: String = match settings.get(knob.key) {
            Some(value) => value.to_owned(),
            None => "".to_owned(),
        };
        let options: Option<Vec<Choice>> = if same(knob.key, "playback_source") {
            Some(playback_options(list))
        } else if same(knob.key, "monitor_source") {
            Some(monitor_options(list, headset))
        } else {
            None
        };
        let control = Control { knob, value, options };
        proof {
            assert(goal[i as int] == control_of(knob, settings@, sources(list@)));
            assert(control@ == goal[i as int]);
        }
        let ghost was = out@;
        out.push(control);
        assert(controls(out@) =~= controls(was).push(control@));
        assert(controls(out@) =~= goal.take(i + 1));
        i += 1;
    }
    assert(goal.len() == knob_table().len());
    assert(controls(out@) =~= goal);
    out
}

// ---------------------------------------------------------------------------
// Laws
// ---------------------------------------------------------------------------

/// A change that is refused leaves the settings as they were, unless it named an
/// unknown preset: then only the name is stored.
pub proof fn lemma_refused_change_is_no_change(
    values: Values,
    key: Seq<char>,
    value: Seq<char>,
    recognised: bool,
)
    requires
        changed(values, key, value, recognised).1 is Some,
    ensures
        changed(values, key, value, recognised).0 == if refusal(key, value, recognised) is Some {
            values
        } else {
            values.insert("preset"@, value)
        },
{
    reveal_strlit("preset");
    reveal_strlit("microphone_mode");
    assert("preset"@.len() == 6);
    assert("microphone_mode"@.len() == 15);
}

/// A gain that was accepted lies between nothing and twice.
pub proof fn lemma_accepted_gain_is_in_range(values: Values, value: Seq<char>, recognised: bool)
    requires
        changed(values, "gain"@, value, recognised).1 is None,
    ensures
        number_of(value) is Some,
        is_gain(number_of(value)->0),
{
    reveal_strlit("gain");
    reveal_strlit("microphone_mode");
    reveal_strlit("microphone_quality");
    reveal_strlit("microphone_target");
    reveal_strlit("monitor_mode");
    reveal_strlit("link_metrics");
    reveal_strlit("command_style");
}

/// A microphone that was switched off is not what is listened to.
pub proof fn lemma_switched_off_microphone_is_not_heard(
    values: Values,
    value: Seq<char>,
    recognised: bool,
)
    requires
        value == "off"@,
        changed(values, "microphone_mode"@, value, recognised).1 is None,
    ensures
        value_in(changed(values, "microphone_mode"@, value, recognised).0, "monitor_source"@)
            != Some("headset"@),
{
    reveal_strlit("default");
    reveal_strlit("headset");
    reveal_strlit("preset");
    reveal_strlit("microphone_mode");
    assert("preset"@.len() == 6);
    assert("microphone_mode"@.len() == 15);
    assert("default"@[0] == 'd');
    assert("headset"@[0] == 'h');
}

/// Names and presets belong to each other one to one.
pub proof fn lemma_names_and_presets_belong_together(preset: Preset, name: Seq<char>)
    ensures
        preset_of(preset.name()) == Some(preset),
        preset_of(name) == Some(preset) <==> name == preset.name(),
{
    lemma_preset_names();
}

proof fn lemma_preset_names()
    ensures
        "windows"@.len() == 7,
        "low-latency"@.len() == 11,
        "high-quality"@.len() == 12,
        "robust"@.len() == 6,
        "custom"@.len() == 6,
        "robust"@ != "custom"@,
{
    reveal_strlit("windows");
    reveal_strlit("low-latency");
    reveal_strlit("high-quality");
    reveal_strlit("robust");
    reveal_strlit("custom");
    assert("robust"@[0] == 'r' && "custom"@[0] == 'c');
}

/// How many bits a preset sends in a second and a channel, times 1000.
pub open spec fn bit_rate(preset: Preset) -> int {
    let codec = preset.codec_of(false);
    8 * codec.octets_per_frame * 1_000_000_000 / (codec.frame_duration.micros() as int)
}

/// Presets are what they are called: under "high-quality" stands the one that sends the
/// most, under "low-latency" the one that waits the least, and under "robust" the one
/// that asks the least of the radio; each of them alone. All of them can be built.
pub proof fn lemma_presets_are_what_they_are_called(other: Seq<char>, p: Preset)
    requires
        preset_of(other) == Some(p),
    ensures
        preset_of("high-quality"@) matches Some(q) && (other != "high-quality"@ ==> bit_rate(q)
            > bit_rate(p)),
        preset_of("low-latency"@) matches Some(q) && (other != "low-latency"@ ==> q.qos_of(
            q.codec_of(false),
        ).max_transport_latency_ms < p.qos_of(p.codec_of(false)).max_transport_latency_ms),
        preset_of("robust"@) matches Some(q) && (other != "robust"@ ==> bit_rate(q) < bit_rate(p)),
        p.codec_of(false).sampling_frequency.rate() is Some,
        p.codec_of(false).channels() == 1,
        p.codec_of(true).channels() == 2,
        p.codec_of(true).octets_per_frame == p.codec_of(false).octets_per_frame,
        p.codec_of(true).frame_duration == p.codec_of(false).frame_duration,
        p.codec_of(true).sampling_frequency == p.codec_of(false).sampling_frequency,
        p.qos_of(p.codec_of(false)).sdu_interval_us == p.codec_of(false).frame_duration.micros(),
        p.qos_of(p.codec_of(false)).max_sdu == p.codec_of(false).octets_per_frame,
{
    lemma_preset_names();
    assert(bit_rate(Preset::WindowsDefault) == 96_000_000);
    assert(bit_rate(Preset::LowLatency) == 80_000_000);
    assert(bit_rate(Preset::HighQuality) == 124_000_000);
    let sturdy = Preset::Robust.codec_of(false);
    assert(sturdy.octets_per_frame == 60 && sturdy.frame_duration.micros() == 10_000);
    assert(480_000_000_000int / 10_000 == 48_000_000);
    assert(bit_rate(Preset::Robust) == 48_000_000);
    assert(bits_set(LOCATION_FRONT_LEFT, 32) == 1 && bits_set(LOCATION_STEREO, 32) == 2) by {
        reveal_with_fuel(bits_set, 33);
        lemma_bits_of_ears();
    }
}

proof fn lemma_bits_of_ears()
    ensures
        forall|i: u32| 1 <= i < 32 ==> (1u32 >> i) & 1u32 == 0u32,
        forall|i: u32| 2 <= i < 32 ==> (3u32 >> i) & 1u32 == 0u32,
        (1u32 >> 0u32) & 1u32 == 1u32,
        (3u32 >> 0u32) & 1u32 == 1u32,
        (3u32 >> 1u32) & 1u32 == 1u32,
{
    assert forall|i: u32| 1 <= i < 32 implies (1u32 >> i) & 1u32 == 0u32 by {
        assert((1u32 >> i) & 1u32 == 0u32) by (bit_vector)
            requires
                1 <= i < 32,
        ;
    }
    assert forall|i: u32| 2 <= i < 32 implies (3u32 >> i) & 1u32 == 0u32 by {
        assert((3u32 >> i) & 1u32 == 0u32) by (bit_vector)
            requires
                2 <= i < 32,
        ;
    }
    assert((1u32 >> 0u32) & 1u32 == 1u32) by (bit_vector);
    assert((3u32 >> 0u32) & 1u32 == 1u32) by (bit_vector);
    assert((3u32 >> 1u32) & 1u32 == 1u32) by (bit_vector);
}

proof fn lemma_preset_keys()
    ensures
        "rate_hz"@ != "frame_ms"@,
        "rate_hz"@ != "octets"@,
        "rate_hz"@ != "phy"@,
        "rate_hz"@ != "retransmissions"@,
        "rate_hz"@ != "max_latency_ms"@,
        "rate_hz"@ != "presentation_delay_ms"@,
        "frame_ms"@ != "octets"@,
        "frame_ms"@ != "phy"@,
        "frame_ms"@ != "retransmissions"@,
        "frame_ms"@ != "max_latency_ms"@,
        "frame_ms"@ != "presentation_delay_ms"@,
        "octets"@ != "phy"@,
        "octets"@ != "retransmissions"@,
        "octets"@ != "max_latency_ms"@,
        "octets"@ != "presentation_delay_ms"@,
        "phy"@ != "retransmissions"@,
        "phy"@ != "max_latency_ms"@,
        "phy"@ != "presentation_delay_ms"@,
        "retransmissions"@ != "max_latency_ms"@,
        "retransmissions"@ != "presentation_delay_ms"@,
        "max_latency_ms"@ != "presentation_delay_ms"@,
        "preset"@ != "octets"@,
        "preset"@.len() == 6,
        "rate_hz"@.len() == 7,
        "frame_ms"@.len() == 8,
        "phy"@.len() == 3,
        "retransmissions"@.len() == 15,
        "max_latency_ms"@.len() == 14,
        "presentation_delay_ms"@.len() == 21,
        "1M"@ != "2M"@,
{
    reveal_strlit("rate_hz");
    reveal_strlit("frame_ms");
    reveal_strlit("octets");
    reveal_strlit("phy");
    reveal_strlit("retransmissions");
    reveal_strlit("max_latency_ms");
    reveal_strlit("presentation_delay_ms");
    reveal_strlit("preset");
    reveal_strlit("1M");
    reveal_strlit("2M");
    assert("rate_hz"@.len() == 7 && "frame_ms"@.len() == 8 && "octets"@.len() == 6);
    assert("phy"@.len() == 3 && "retransmissions"@.len() == 15);
    assert("max_latency_ms"@.len() == 14 && "presentation_delay_ms"@.len() == 21);
    assert("preset"@[0] == 'p' && "octets"@[0] == 'o');
    assert("1M"@[0] == '1' && "2M"@[0] == '2');
}

proof fn lemma_whole_is_cut_to_itself(n: nat, limit: nat)
    requires
        n < 0x100_0000,
        n <= limit,
    ensures
        near(false, n, 1).truncated(limit) == n,
{
    lemma_near_whole(false, n);
}

/// A preset spells itself out: once it was chosen, the settings say the very codec and
/// the very radio settings of that preset, as if the user had typed them in. Nothing
/// else changes.
#[verifier::rlimit(60)]
#[verifier::spinoff_prover]
pub proof fn lemma_preset_is_spelled_out(
    values: Values,
    preset: Preset,
    recognised: bool,
    other: Seq<char>,
)
    ensures
        ({
            let (now, error) = changed(values, "preset"@, preset.name(), recognised);
            &&& error is None
            &&& value_in(now, "preset"@) == Some(preset.name())
            &&& codec_in(now) == preset.codec_of(false)
            &&& qos_in(now) == preset.qos_of(preset.codec_of(false))
            &&& other != "preset"@ && other != "rate_hz"@ && other != "frame_ms"@ && other
                != "octets"@ && other != "phy"@ && other != "retransmissions"@ && other
                != "max_latency_ms"@ && other != "presentation_delay_ms"@ ==> value_in(now, other)
                == value_in(values, other)
        }),
{
    lemma_preset_names();
    lemma_preset_keys();
    lemma_names_and_presets_belong_together(preset, preset.name());
    reveal_strlit("microphone_mode");
    reveal_strlit("microphone_quality");
    reveal_strlit("microphone_target");
    reveal_strlit("monitor_mode");
    reveal_strlit("link_metrics");
    reveal_strlit("command_style");
    reveal_strlit("gain");
    reveal_strlit("microphone_gain");
    reveal_strlit("monitor_gain");
    assert(refusal("preset"@, preset.name(), recognised) is None);
    let set = values.insert("preset"@, preset.name());
    assert(with_value(values, "preset"@, preset.name()) == set);
    let now = with_preset(set, preset);
    let codec = preset.codec_of(false);
    let qos = preset.qos_of(codec);
    let hz = codec.sampling_frequency.rate()->0;
    assert(changed(values, "preset"@, preset.name(), recognised).0 == now);
    assert(now["rate_hz"@] == decimal(hz as nat));
    lemma_decimal_reads_back(hz as nat);
    lemma_whole_is_cut_to_itself(hz as nat, u32::MAX as nat);
    lemma_decimal_reads_back(codec.octets_per_frame as nat);
    lemma_whole_is_cut_to_itself(codec.octets_per_frame as nat, 0xFFFF);
    lemma_decimal_reads_back(qos.retransmission_number as nat);
    lemma_whole_is_cut_to_itself(qos.retransmission_number as nat, 0xFF);
    lemma_decimal_reads_back(qos.max_transport_latency_ms as nat);
    lemma_whole_is_cut_to_itself(qos.max_transport_latency_ms as nat, 0xFFFF);
    lemma_decimal_reads_back((qos.presentation_delay_us / 1000) as nat);
    lemma_frame_reads_back();
    lemma_frequency_reads_back(codec.sampling_frequency);
    assert(codec_in(now).sampling_frequency == codec.sampling_frequency);
    assert(codec_in(now).frame_duration == codec.frame_duration);
    assert(codec_in(now).octets_per_frame == codec.octets_per_frame);
    assert(codec_in(now) == codec);
    lemma_delay_reads_back((qos.presentation_delay_us / 1000) as nat);
    assert(qos_in(now).phy == qos.phy);
    assert(qos_in(now).retransmission_number == qos.retransmission_number);
    assert(qos_in(now).max_transport_latency_ms == qos.max_transport_latency_ms);
    assert(qos_in(now).presentation_delay_us == qos.presentation_delay_us);
    assert(qos_in(now) == qos);
}

proof fn lemma_frequency_reads_back(f: SamplingFrequency)
    requires
        f.rate() is Some,
    ensures
        frequency_of(f.rate()->0) == Some(f),
{
    assert(rate_of(f.code) == f.rate());
    let code = choose|code: u8| rate_of(code) == f.rate();
    assert(code == f.code);
}

proof fn lemma_frame_reads_back()
    ensures
        number_of("7.5"@) is Some,
        number_of("7.5"@)->0 !is NotANumber,
        (number_of("7.5"@)->0).rank() < near(false, 35, 4).rank(),
        number_of("10"@) is Some,
        number_of("10"@)->0 !is NotANumber,
        (number_of("10"@)->0).rank() >= near(false, 35, 4).rank(),
{
    reveal_strlit("7.5");
    reveal_strlit("10");
    let seven = seq!['7'];
    let five = seq!['5'];
    assert("7.5"@ =~= seven + seq!['.'] + five);
    lemma_fraction_is_a_number(seven, five);
    let both = seven + five;
    assert(both.drop_last() =~= seven);
    assert(seven.drop_last() =~= Seq::empty());
    assert(digits_value(seven.drop_last()) == 0);
    assert(digits_value(seven) == 7);
    assert(both.last() == '5');
    assert(digits_value(both) == 75);
    assert(pow10(1) == 10) by {
        assert(pow10(0) == 1);
    }
    let ten = "10"@;
    assert(all_digits(ten)) by {
        assert(is_digit(ten[0]) && is_digit(ten[1]));
    }
    lemma_digits_are_a_number(ten);
    assert(ten.drop_last() =~= seq!['1']);
    assert(seq!['1'].drop_last() =~= Seq::empty());
    assert(digits_value(seq!['1'].drop_last()) == 0);
    assert(digits_value(seq!['1']) == 1);
    assert(digits_value(ten) == 10);
    lemma2_to64();
    lemma_pow2_pos(147);
    lemma_pow2_adds(2, 147);
    lemma_pow2_strictly_increases(147, 277);
    lemma_pow2_adds(6, 147);
    lemma_pow2_strictly_increases(153, 277);
    let v = pow2(147);
    lemma_rounded_in_steps(75, 10, 30, 2);
    lemma_rounded_in_steps(35, 4, 35, 2);
    lemma_near_is_rounded(false, 75, 10);
    lemma_near_is_rounded(false, 35, 4);
    lemma_near_whole(false, 10);
    assert(31 * v < 35 * v && 36 * v <= 40 * v && 36 * v < 64 * v) by (nonlinear_arith)
        requires
            v > 0,
    ;
    assert(10 * pow2(149) == 40 * v);
}

proof fn lemma_delay_reads_back(ms: nat)
    requires
        ms * 1000 + 1 < 0x100_0000,
    ensures
        near(false, ms, 1).product(near(false, 1000, 1)).truncated(u32::MAX as nat) == ms * 1000,
{
    let u = pow2(149);
    lemma_pow2_pos(149);
    lemma_pow2_pos(298);
    lemma_pow2_adds(149, 149);
    lemma_near_whole(false, ms);
    lemma_near_whole(false, 1000);
    let p = (ms * u) * (1000 * u);
    let q = pow2(298);
    let k = ms * 1000;
    assert(p == k * q) by (nonlinear_arith)
        requires
            p == (ms * u) * (1000 * u),
            q == u * u,
            k == ms * 1000,
    ;
    lemma_rounded_exact(p, q, k);
    lemma_near_is_rounded(false, p, q);
    assert((k * u) / u == k) by {
        vstd::arithmetic::div_mod::lemma_div_multiples_vanish(k as int, u as int);
        assert(k * u == u * k) by (nonlinear_arith);
    }
}

/// A change does what it says and nothing more: a value that is not refused stands under
/// its key, and settings under other keys stay, but for those that the change of a
/// preset or of the microphone takes along.
pub proof fn lemma_change_is_made(
    values: Values,
    key: Seq<char>,
    value: Seq<char>,
    recognised: bool,
    other: Seq<char>,
)
    requires
        changed(values, key, value, recognised).1 is None,
    ensures
        value_in(changed(values, key, value, recognised).0, key) == Some(value),
        other != key && key != "preset"@ && !(key == "microphone_mode"@ && value == "off"@ && other
            == "monitor_source"@) ==> value_in(
            changed(values, key, value, recognised).0,
            other,
        ) == value_in(values, other),
        key == "microphone_mode"@ && value == "off"@ && value_in(values, "monitor_source"@)
            != Some("headset"@) ==> value_in(
            changed(values, key, value, recognised).0,
            "monitor_source"@,
        ) == value_in(values, "monitor_source"@),
{
    lemma_preset_keys();
    reveal_strlit("microphone_mode");
    reveal_strlit("monitor_source");
    assert("monitor_source"@.len() == 14);
    assert("microphone_mode"@.len() == 15);
}

/// What is refused, and what is not: each of these settings has its own words, and any
/// other value is refused; a gain is refused exactly outside of nothing and twice; and
/// settings that have no rules take every value.
pub proof fn lemma_only_nonsense_is_refused(
    values: Values,
    key: Seq<char>,
    value: Seq<char>,
    recognised: bool,
)
    ensures
        ({
            let fine = changed(values, key, value, recognised).1 is None;
            &&& key == "microphone_mode"@ ==> (fine <==> value == "on"@ || value == "off"@)
            &&& key == "microphone_quality"@ ==> (fine <==> value == "voice"@ || value
                == "balanced"@ || value == "high"@)
            &&& key == "microphone_target"@ ==> (fine <==> value == "vb-cable"@ || value
                == "vb-cable-a"@ || value == "vb-cable-b"@ || value == "none"@)
            &&& key == "monitor_mode"@ ==> (fine <==> value == "mix"@ || value == "replace"@)
            &&& key == "link_metrics"@ || key == "command_style"@ ==> (fine <==> recognised)
            &&& key == "preset"@ ==> (fine <==> value == "custom"@ || exists|p: Preset|
                value == #[trigger] p.name())
            &&& key == "gain"@ || key == "microphone_gain"@ || key == "monitor_gain"@ ==> (fine
                <==> number_of(value) is Some && number_of(value)->0 !is NotANumber && 0 <= (
            number_of(value)->0).rank() <= 2 * pow2(149))
            &&& key != "microphone_mode"@ && key != "microphone_quality"@ && key
                != "microphone_target"@ && key != "monitor_mode"@ && key != "link_metrics"@ && key
                != "command_style"@ && key != "preset"@ && key != "gain"@ && key
                != "microphone_gain"@ && key != "monitor_gain"@ ==> fine
        }),
{
    reveal_strlit("microphone_mode");
    reveal_strlit("microphone_quality");
    reveal_strlit("microphone_target");
    reveal_strlit("monitor_mode");
    reveal_strlit("link_metrics");
    reveal_strlit("command_style");
    reveal_strlit("gain");
    reveal_strlit("microphone_gain");
    reveal_strlit("monitor_gain");
    reveal_strlit("preset");
    assert("microphone_mode"@.len() == 15 && "microphone_gain"@.len() == 15);
    assert("microphone_mode"@[11] == 'm' && "microphone_gain"@[11] == 'g');
    assert("monitor_mode"@.len() == 12 && "monitor_gain"@.len() == 12);
    assert("link_metrics"@.len() == 12);
    assert("monitor_mode"@[8] == 'm' && "monitor_gain"@[8] == 'g' && "link_metrics"@[0] == 'l');
    assert("microphone_quality"@.len() == 18 && "microphone_target"@.len() == 17);
    assert("command_style"@.len() == 13 && "gain"@.len() == 4 && "preset"@.len() == 6);
    lemma_preset_names();
    lemma_near_whole(false, 2);
    if key == "preset"@ && value != "custom"@ {
        if let Some(p) = preset_of(value) {
            lemma_names_and_presets_belong_together(p, value);
            assert(value == p.name());
        } else {
            assert forall|p: Preset| value != #[trigger] p.name() by {
                lemma_names_and_presets_belong_together(p, value);
            }
        }
    }
}

/// Whether a choice stands for a source.
pub open spec fn is_choice_of(choice: (Seq<char>, Seq<char>), source: Source) -> bool {
    choice.0 == source.id && choice.1 == source.name
}

proof fn lemma_microphones_are_offered(list: Seq<Source>)
    ensures
        forall|i: int|
            0 <= i < list.len() && !(#[trigger] list[i]).virtual_cable ==> microphone_choices(
                list,
            ).contains((list[i].id, list[i].name)),
        forall|k: int|
            0 <= k < microphone_choices(list).len() ==> exists|i: int|
                0 <= i < list.len() && !(#[trigger] list[i]).virtual_cable && is_choice_of(
                    #[trigger] microphone_choices(list)[k],
                    list[i],
                ),
    decreases list.len(),
{
    if list.len() > 0 {
        let front = list.drop_last();
        let before = microphone_choices(front);
        let all = microphone_choices(list);
        lemma_microphones_are_offered(front);
        assert forall|i: int|
            0 <= i < list.len() && !(#[trigger] list[i]).virtual_cable implies all.contains(
            (list[i].id, list[i].name),
        ) by {
            if i < front.len() {
                assert(front[i] == list[i]);
                let k = choose|k: int|
                    0 <= k < before.len() && before[k] == (list[i].id, list[i].name);
                assert(all[k] == before[k]);
            } else {
                assert(all[before.len() as int] == (list[i].id, list[i].name));
            }
        }
        assert forall|k: int| 0 <= k < all.len() implies exists|i: int|
            0 <= i < list.len() && !(#[trigger] list[i]).virtual_cable && is_choice_of(
                #[trigger] all[k],
                list[i],
            ) by {
            if k < before.len() {
                assert(all[k] == before[k]);
                let i = choose|i: int|
                    0 <= i < front.len() && !(#[trigger] front[i]).virtual_cable && is_choice_of(
                        before[k],
                        front[i],
                    );
                assert(list[i] == front[i]);
            } else {
                assert(is_choice_of(all[k], list[list.len() - 1]));
            }
        }
    }
}

/// Everything can be played from, but only what has a microphone behind it can be listened
/// to. The default comes first, and the headset is offered exactly where it listens.
pub proof fn lemma_choices_are_the_sources(list: Seq<Source>, headset: bool, i: int)
    requires
        0 <= i < list.len(),
    ensures
        playback_choices(list).len() == list.len(),
        is_choice_of(playback_choices(list)[i], list[i]),
        monitor_choices(list, headset)[0].0 == "default"@,
        !list[i].virtual_cable ==> monitor_choices(list, headset).contains(
            (list[i].id, list[i].name),
        ),
        headset ==> monitor_choices(list, headset).last().0 == "headset"@,
        monitor_choices(list, true).len() == monitor_choices(list, false).len() + 1,
        forall|k: int|
            1 <= k < monitor_choices(list, false).len() ==> exists|j: int|
                0 <= j < list.len() && !(#[trigger] list[j]).virtual_cable && is_choice_of(
                    #[trigger] monitor_choices(list, false)[k],
                    list[j],
                ),
{
    let found = microphone_choices(list);
    let all = monitor_choices(list, headset);
    lemma_microphones_are_offered(list);
    if !list[i].virtual_cable {
        let k = choose|k: int| 0 <= k < found.len() && found[k] == (list[i].id, list[i].name);
        assert(all[k + 1] == found[k]);
    }
    assert forall|k: int| 1 <= k < monitor_choices(list, false).len() implies exists|j: int|
        0 <= j < list.len() && !(#[trigger] list[j]).virtual_cable && is_choice_of(
            #[trigger] monitor_choices(list, false)[k],
            list[j],
        ) by {
        assert(monitor_choices(list, false)[k] == found[k - 1]);
    }
}

/// Every setting is shown, in the order of the table, with the value that it has. Only two
/// of them offer choices.
pub proof fn lemma_every_setting_is_shown(values: Values, list: Seq<Source>, i: int)
    requires
        0 <= i < knob_table().len(),
    ensures
        snapshot_of(values, list).len() == knob_table().len(),
        snapshot_of(values, list)[i].knob == knob_table()[i],
        value_in(values, knob_table()[i].key@) is Some ==> Some(
            snapshot_of(values, list)[i].value,
        ) == value_in(values, knob_table()[i].key@),
        value_in(values, knob_table()[i].key@) is None ==> snapshot_of(values, list)[i].value
            == ""@,
        snapshot_of(values, list)[i].options is Some <==> knob_table()[i].key@
            == "playback_source"@ || knob_table()[i].key@ == "monitor_source"@,
        knob_table()[i].key@ == "playback_source"@ ==> snapshot_of(values, list)[i].options == Some(
            playback_choices(list),
        ),
        knob_table()[i].key@ == "monitor_source"@ ==> snapshot_of(values, list)[i].options == Some(
            monitor_choices(list, value_in(values, "microphone_mode"@) == Some("on"@)),
        ),
{
    reveal_strlit("off");
    reveal_strlit("on");
    reveal_strlit("playback_source");
    reveal_strlit("monitor_source");
    assert("off"@.len() == 3 && "on"@.len() == 2);
    assert("playback_source"@.len() == 15 && "monitor_source"@.len() == 14);
}

} // verus!
