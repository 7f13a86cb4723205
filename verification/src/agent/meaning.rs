//! What the settings mean together: what the defaults amount to, and what a change may
//! touch at all.

use vstd::prelude::*;

use crate::agent::change::{changed, lemma_preset_is_spelled_out, with_preset};
use crate::agent::play::{quality_in, request_in, Request};
use crate::agent::tuning::{
    codec_in, lemma_policy_says_what_was_typed, lemma_session_is_configured_by_the_settings, live_in,
    policy_in, qos_in, refreshed, Values,
};
use crate::bap::{FrameDuration, Preset};
use crate::number::{
    digits_value, lemma_fraction_grows, lemma_fraction_is_a_number, lemma_near,
    lemma_near_is_rounded, near, number_of, pow10,
};
use crate::reconnect::ReconnectPolicy;
use crate::session::Wishes;
use crate::settings::{default_values, knob_table, value_in, ApplyScope, Settings};
use crate::text::decimal;
use crate::time::Duration;

verus! {

/// A number that tells the names of settings apart.
spec fn tag(key: Seq<char>) -> int {
    let n = key.len() as int;
    n + 1_000 * (key[n - 1] as int) + 1_000_000 * (key[n - 2] as int) + 1_000_000_000 * (key[n
        - 3] as int)
}

proof fn lemma_tags()
    ensures
        tag("preset"@) == 115101116006,
        tag("rate_hz"@) == 95104122007,
        tag("frame_ms"@) == 95109115008,
        tag("octets"@) == 101116115006,
        tag("phy"@) == 112104121003,
        tag("retransmissions"@) == 111110115015,
        tag("max_latency_ms"@) == 95109115014,
        tag("presentation_delay_ms"@) == 95109115021,
        tag("swap_channels"@) == 101108115013,
        tag("audio_mode"@) == 111100101010,
        tag("playback_source"@) == 114099101015,
        tag("microphone_mode"@) == 111100101015,
        tag("microphone_quality"@) == 105116121018,
        tag("microphone_target"@) == 103101116017,
        tag("monitor_enabled"@) == 108101100015,
        tag("monitor_source"@) == 114099101014,
        tag("monitor_mode"@) == 111100101012,
        tag("monitor_gain"@) == 97105110012,
        tag("microphone_gain"@) == 97105110015,
        tag("diagnostics"@) == 105099115011,
        tag("device"@) == 105099101006,
        tag("gain"@) == 97105110004,
        tag("idle_timeout_min"@) == 109105110016,
        tag("reconnect_enabled"@) == 108101100017,
        tag("reconnect_interval_s"@) == 108095115020,
        tag("reconnect_window_min"@) == 109105110020,
        tag("startup_reconnect_enabled"@) == 108101100025,
        tag("language"@) == 97103101008,
        tag("run_in_background"@) == 117110100017,
        tag("start_with_windows"@) == 111119115018,
        tag("command_style"@) == 121108101013,
        tag("version"@) == 105111110007,
        tag("balance"@) == 110099101007,
{
    assert(tag("preset"@) == 115101116006) by {
        reveal_strlit("preset");
    }
    assert(tag("rate_hz"@) == 95104122007) by {
        reveal_strlit("rate_hz");
    }
    assert(tag("frame_ms"@) == 95109115008) by {
        reveal_strlit("frame_ms");
    }
    assert(tag("octets"@) == 101116115006) by {
        reveal_strlit("octets");
    }
    assert(tag("phy"@) == 112104121003) by {
        reveal_strlit("phy");
    }
    assert(tag("retransmissions"@) == 111110115015) by {
        reveal_strlit("retransmissions");
    }
    assert(tag("max_latency_ms"@) == 95109115014) by {
        reveal_strlit("max_latency_ms");
    }
    assert(tag("presentation_delay_ms"@) == 95109115021) by {
        reveal_strlit("presentation_delay_ms");
    }
    assert(tag("swap_channels"@) == 101108115013) by {
        reveal_strlit("swap_channels");
    }
    assert(tag("audio_mode"@) == 111100101010) by {
        reveal_strlit("audio_mode");
    }
    assert(tag("playback_source"@) == 114099101015) by {
        reveal_strlit("playback_source");
    }
    assert(tag("microphone_mode"@) == 111100101015) by {
        reveal_strlit("microphone_mode");
    }
    assert(tag("microphone_quality"@) == 105116121018) by {
        reveal_strlit("microphone_quality");
    }
    assert(tag("microphone_target"@) == 103101116017) by {
        reveal_strlit("microphone_target");
    }
    assert(tag("monitor_enabled"@) == 108101100015) by {
        reveal_strlit("monitor_enabled");
    }
    assert(tag("monitor_source"@) == 114099101014) by {
        reveal_strlit("monitor_source");
    }
    assert(tag("monitor_mode"@) == 111100101012) by {
        reveal_strlit("monitor_mode");
    }
    assert(tag("monitor_gain"@) == 97105110012) by {
        reveal_strlit("monitor_gain");
    }
    assert(tag("microphone_gain"@) == 97105110015) by {
        reveal_strlit("microphone_gain");
    }
    assert(tag("diagnostics"@) == 105099115011) by {
        reveal_strlit("diagnostics");
    }
    assert(tag("device"@) == 105099101006) by {
        reveal_strlit("device");
    }
    assert(tag("gain"@) == 97105110004) by {
        reveal_strlit("gain");
    }
    assert(tag("idle_timeout_min"@) == 109105110016) by {
        reveal_strlit("idle_timeout_min");
    }
    assert(tag("reconnect_enabled"@) == 108101100017) by {
        reveal_strlit("reconnect_enabled");
    }
    assert(tag("reconnect_interval_s"@) == 108095115020) by {
        reveal_strlit("reconnect_interval_s");
    }
    assert(tag("reconnect_window_min"@) == 109105110020) by {
        reveal_strlit("reconnect_window_min");
    }
    assert(tag("startup_reconnect_enabled"@) == 108101100025) by {
        reveal_strlit("startup_reconnect_enabled");
    }
    assert(tag("language"@) == 97103101008) by {
        reveal_strlit("language");
    }
    assert(tag("run_in_background"@) == 117110100017) by {
        reveal_strlit("run_in_background");
    }
    assert(tag("start_with_windows"@) == 111119115018) by {
        reveal_strlit("start_with_windows");
    }
    assert(tag("command_style"@) == 121108101013) by {
        reveal_strlit("command_style");
    }
    assert(tag("version"@) == 105111110007) by {
        reveal_strlit("version");
    }
    assert(tag("balance"@) == 110099101007) by {
        reveal_strlit("balance");
    }
}

proof fn lemma_table()
    ensures
        knob_table().len() == 31,
        knob_table()[0].key@ == "preset"@,
        knob_table()[0].scope == ApplyScope::OnReconnect,
        knob_table()[1].key@ == "rate_hz"@,
        knob_table()[1].scope == ApplyScope::OnReconnect,
        knob_table()[2].key@ == "frame_ms"@,
        knob_table()[2].scope == ApplyScope::OnReconnect,
        knob_table()[3].key@ == "octets"@,
        knob_table()[3].scope == ApplyScope::OnReconnect,
        knob_table()[4].key@ == "phy"@,
        knob_table()[4].scope == ApplyScope::OnReconnect,
        knob_table()[5].key@ == "retransmissions"@,
        knob_table()[5].scope == ApplyScope::OnReconnect,
        knob_table()[6].key@ == "max_latency_ms"@,
        knob_table()[6].scope == ApplyScope::OnReconnect,
        knob_table()[7].key@ == "presentation_delay_ms"@,
        knob_table()[7].scope == ApplyScope::OnReconnect,
        knob_table()[8].key@ == "swap_channels"@,
        knob_table()[8].scope == ApplyScope::Immediately,
        knob_table()[9].key@ == "audio_mode"@,
        knob_table()[9].scope == ApplyScope::OnReconnect,
        knob_table()[10].key@ == "playback_source"@,
        knob_table()[10].scope == ApplyScope::OnReconnect,
        knob_table()[11].key@ == "microphone_mode"@,
        knob_table()[11].scope == ApplyScope::OnReconnect,
        knob_table()[12].key@ == "microphone_quality"@,
        knob_table()[12].scope == ApplyScope::OnReconnect,
        knob_table()[13].key@ == "microphone_target"@,
        knob_table()[13].scope == ApplyScope::OnReconnect,
        knob_table()[14].key@ == "monitor_enabled"@,
        knob_table()[14].scope == ApplyScope::Immediately,
        knob_table()[15].key@ == "monitor_source"@,
        knob_table()[15].scope == ApplyScope::Immediately,
        knob_table()[16].key@ == "monitor_mode"@,
        knob_table()[16].scope == ApplyScope::Immediately,
        knob_table()[17].key@ == "monitor_gain"@,
        knob_table()[17].scope == ApplyScope::Immediately,
        knob_table()[18].key@ == "microphone_gain"@,
        knob_table()[18].scope == ApplyScope::Immediately,
        knob_table()[19].key@ == "diagnostics"@,
        knob_table()[19].scope == ApplyScope::OnReconnect,
        knob_table()[20].key@ == "device"@,
        knob_table()[20].scope == ApplyScope::OnReconnect,
        knob_table()[21].key@ == "gain"@,
        knob_table()[21].scope == ApplyScope::Immediately,
        knob_table()[22].key@ == "idle_timeout_min"@,
        knob_table()[22].scope == ApplyScope::OnReconnect,
        knob_table()[23].key@ == "reconnect_enabled"@,
        knob_table()[23].scope == ApplyScope::OnReconnect,
        knob_table()[24].key@ == "reconnect_interval_s"@,
        knob_table()[24].scope == ApplyScope::OnReconnect,
        knob_table()[25].key@ == "reconnect_window_min"@,
        knob_table()[25].scope == ApplyScope::OnReconnect,
        knob_table()[26].key@ == "startup_reconnect_enabled"@,
        knob_table()[26].scope == ApplyScope::Immediately,
        knob_table()[27].key@ == "language"@,
        knob_table()[27].scope == ApplyScope::Immediately,
        knob_table()[28].key@ == "run_in_background"@,
        knob_table()[28].scope == ApplyScope::Immediately,
        knob_table()[29].key@ == "start_with_windows"@,
        knob_table()[29].scope == ApplyScope::Immediately,
        knob_table()[30].key@ == "command_style"@,
        knob_table()[30].scope == ApplyScope::OnAdapterRestart,
{
}

/// The default of each setting.
proof fn lemma_default_values()
    ensures
        value_in(default_values(), "version"@) == Some(Settings::VERSION@),
        value_in(default_values(), "preset"@) == Some("windows"@),
        value_in(default_values(), "rate_hz"@) == Some("48000"@),
        value_in(default_values(), "frame_ms"@) == Some("7.5"@),
        value_in(default_values(), "octets"@) == Some("90"@),
        value_in(default_values(), "phy"@) == Some("2M"@),
        value_in(default_values(), "retransmissions"@) == Some("13"@),
        value_in(default_values(), "max_latency_ms"@) == Some("75"@),
        value_in(default_values(), "presentation_delay_ms"@) == Some("40"@),
        value_in(default_values(), "audio_mode"@) == Some("stereo"@),
        value_in(default_values(), "playback_source"@) == Some("CABLE Output"@),
        value_in(default_values(), "microphone_mode"@) == Some("off"@),
        value_in(default_values(), "microphone_quality"@) == Some("balanced"@),
        value_in(default_values(), "microphone_target"@) == Some("vb-cable"@),
        value_in(default_values(), "monitor_enabled"@) == Some("false"@),
        value_in(default_values(), "monitor_source"@) == Some("default"@),
        value_in(default_values(), "monitor_mode"@) == Some("mix"@),
        value_in(default_values(), "monitor_gain"@) == Some("1.0"@),
        value_in(default_values(), "microphone_gain"@) == Some("1.0"@),
        value_in(default_values(), "swap_channels"@) == Some("false"@),
        value_in(default_values(), "diagnostics"@) == Some("true"@),
        value_in(default_values(), "command_style"@) == Some("class-device"@),
        value_in(default_values(), "gain"@) == Some("1.0"@),
        value_in(default_values(), "idle_timeout_min"@) == Some("5"@),
        value_in(default_values(), "reconnect_enabled"@) == Some("true"@),
        value_in(default_values(), "reconnect_interval_s"@) == Some("5"@),
        value_in(default_values(), "reconnect_window_min"@) == Some("3"@),
        value_in(default_values(), "startup_reconnect_enabled"@) == Some("true"@),
        value_in(default_values(), "language"@) == Some("en"@),
        value_in(default_values(), "run_in_background"@) == Some("false"@),
        value_in(default_values(), "start_with_windows"@) == Some("false"@),
        value_in(default_values(), "device"@) is None,
        value_in(default_values(), "balance"@) is None,
{
    lemma_tags();
}

proof fn lemma_default_numbers()
    ensures
        decimal(48_000) == "48000"@,
        decimal(90) == "90"@,
        decimal(13) == "13"@,
        decimal(75) == "75"@,
        decimal(40) == "40"@,
        decimal(5) == "5"@,
        decimal(3) == "3"@,
{
    reveal_strlit("48000");
    reveal_strlit("90");
    reveal_strlit("13");
    reveal_strlit("75");
    reveal_strlit("40");
    reveal_strlit("5");
    reveal_strlit("3");
    reveal_with_fuel(decimal, 6);
    assert(decimal(48_000) =~= "48000"@);
    assert(decimal(90) =~= "90"@);
    assert(decimal(13) =~= "13"@);
    assert(decimal(75) =~= "75"@);
    assert(decimal(40) =~= "40"@);
    assert(decimal(5) =~= "5"@);
    assert(decimal(3) =~= "3"@);
}

proof fn lemma_one_is_one()
    ensures
        number_of("1.0"@) == Some(near(false, 1, 1)),
{
    reveal_strlit("1.0");
    let one = seq!['1'];
    let zero = seq!['0'];
    assert("1.0"@ =~= one + seq!['.'] + zero);
    lemma_fraction_is_a_number(one, zero);
    let both = one + zero;
    assert(both.drop_last() =~= one);
    assert(one.drop_last() =~= Seq::<char>::empty());
    reveal_with_fuel(digits_value, 3);
    assert(digits_value(both) == 10);
    reveal_with_fuel(pow10, 2);
    assert(pow10(1) == 10);
    lemma_near_is_rounded(false, 10, 10);
    lemma_fraction_grows(1, 1, 10);
    lemma_near(near(false, 10, 10), false, 1, 1);
}

/// The defaults are those of the preset that they name: to choose it again changes
/// nothing, and whoever asks for the same by hand gets the same codec and the same radio
/// settings.
pub proof fn lemma_defaults_are_the_preset_they_name(recognised: bool, single_cis: bool)
    ensures
        changed(default_values(), "preset"@, "windows"@, recognised) == (
            default_values(),
            None::<Seq<char>>,
        ),
        request_in(default_values(), single_cis) == (Request::Preset {
            preset: Preset::WindowsDefault,
            single_cis,
        }),
        codec_in(default_values()) == Preset::WindowsDefault.codec_of(false),
        qos_in(default_values()) == Preset::WindowsDefault.qos_of(
            Preset::WindowsDefault.codec_of(false),
        ),
        codec_in(default_values()).frame_duration == FrameDuration::Ms7_5,
        codec_in(default_values()).octets_per_frame == 90,
        qos_in(default_values()).retransmission_number == 13,
        qos_in(default_values()).max_transport_latency_ms == 75,
        qos_in(default_values()).presentation_delay_us == 40_000,
{
    let values = default_values();
    lemma_default_values();
    lemma_default_numbers();
    lemma_tags();
    reveal_strlit("custom");
    reveal_strlit("windows");
    assert("custom"@.len() == 6 && "windows"@.len() == 7);
    lemma_preset_is_spelled_out(values, Preset::WindowsDefault, recognised, "device"@);
    let now = changed(values, "preset"@, "windows"@, recognised).0;
    assert(now == with_preset(values.insert("preset"@, "windows"@), Preset::WindowsDefault));
    assert(now =~= values);
}

/// Whoever never touched a setting hears the sound as it is, without the microphone in
/// it. Lost headphones are sought every five seconds for three minutes, and a stream
/// without sound is given up after five minutes.
pub proof fn lemma_defaults_leave_the_sound_alone(wishes: Wishes)
    ensures
        !live_in(default_values()).monitor_enabled,
        !live_in(default_values()).monitor_replace,
        live_in(default_values()).output_gain == near(false, 1, 1),
        live_in(default_values()).microphone_gain == near(false, 1, 1),
        live_in(default_values()).monitor_gain == near(false, 1, 1),
        policy_in(default_values()) == (ReconnectPolicy {
            enabled: true,
            interval: Duration { nanos: 5_000_000_000 },
            window: Some(Duration { nanos: 180_000_000_000 }),
        }),
        refreshed(wishes, default_values()).reconnect == policy_in(default_values()),
        refreshed(wishes, default_values()).monitor_source is None,
        refreshed(wishes, default_values()).limiter.level == near(false, 1, 1),
        refreshed(wishes, default_values()).idle_timeout == Some(
            Duration { nanos: 300_000_000_000 },
        ),
{
    lemma_default_values();
    lemma_default_numbers();
    lemma_one_is_one();
    reveal_strlit("mix");
    reveal_strlit("replace");
    reveal_strlit("true");
    reveal_strlit("false");
    reveal_strlit("1");
    reveal_strlit("0");
    reveal_strlit("yes");
    reveal_strlit("ne");
    assert("mix"@.len() == 3 && "replace"@.len() == 7);
    assert("true"@.len() == 4 && "false"@.len() == 5 && "1"@.len() == 1 && "0"@.len() == 1);
    assert("yes"@.len() == 3 && "ne"@.len() == 2);
    lemma_policy_says_what_was_typed(default_values(), wishes, 5, 3);
    lemma_session_is_configured_by_the_settings(wishes, default_values(), 5);
}

/// Every setting has a default, but for the headphones themselves: which those are
/// nobody can know beforehand.
#[verifier::rlimit(40)]
pub proof fn lemma_every_setting_has_a_default(i: int)
    requires
        0 <= i < knob_table().len(),
    ensures
        value_in(default_values(), knob_table()[i].key@) is Some <==> knob_table()[i].key@
            != "device"@,
{
    lemma_table();
    lemma_tags();
    lemma_default_values();
}

/// A setting takes effect when it says it does. One that applies at once is none that a
/// stream is built from: changing it leaves the codec, the radio settings and the request
/// as they were. One that waits for a new connection leaves what is heard at this moment
/// alone. One that waits for the adapter changes nothing of a connection.
#[verifier::rlimit(60)]
#[verifier::spinoff_prover]
pub proof fn lemma_settings_take_effect_when_they_say(
    values: Values,
    i: int,
    text: Seq<char>,
    wishes: Wishes,
    single_cis: bool,
)
    requires
        0 <= i < knob_table().len(),
    ensures
        ({
            let now = values.insert(knob_table()[i].key@, text);
            &&& knob_table()[i].scope == ApplyScope::Immediately ==> codec_in(now) == codec_in(
                values,
            ) && qos_in(now) == qos_in(values) && request_in(now, single_cis) == request_in(
                values,
                single_cis,
            ) && quality_in(now) == quality_in(values) && policy_in(now) == policy_in(values)
            &&& knob_table()[i].scope != ApplyScope::Immediately ==> live_in(now) == live_in(
                values,
            )
            &&& knob_table()[i].scope == ApplyScope::OnAdapterRestart ==> refreshed(wishes, now)
                == refreshed(wishes, values) && request_in(now, single_cis) == request_in(
                values,
                single_cis,
            )
        }),
{
    lemma_table();
    lemma_tags();
    lemma_other_settings_stay(values, knob_table()[i].key@, text);
}

proof fn lemma_other_settings_stay(values: Values, key: Seq<char>, text: Seq<char>)
    ensures
        forall|other: Seq<char>|
            other != key ==> #[trigger] value_in(values.insert(key, text), other) == value_in(
                values,
                other,
            ),
{
}

} // verus!
