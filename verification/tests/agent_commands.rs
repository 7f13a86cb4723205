//! Commands: how a line is read, who deals with it, what it is answered.

use olea_core::agent::change::{apply_setting_change, parse_preset, settings_snapshot, CaptureDevice};
use olea_core::agent::command::{
    answer_set, command_from, conclude, desk, errand, read_command, signals, Command, Desk, Errand,
    Reader, Reading,
};
use olea_core::agent::message::Message;
use olea_core::agent::tuning::{
    battery_poll, can_configure, can_tune, custom_codec, custom_qos, has_policy, idle_link_latency,
    link_timeout, link_tuning, multipoint_yield, reconnect_policy, refresh_connection_config,
    session_config, sync_live_from_settings,
};
use olea_core::bap::{FrameDuration, Preset, SamplingFrequency, LOCATION_FRONT_LEFT};
use olea_core::number::Number;
use olea_core::session::{ReconnectPolicy, SessionConfig};
use olea_core::settings::Settings;
use olea_core::time::Duration;

fn command(line: &str) -> Command {
    match read_command(line) {
        Reading::Command(command) => command,
        other => panic!("{line}: {other:?}"),
    }
}

fn named(name: &str) -> Command {
    Command {
        name: name.to_owned(),
        key: None,
        value: None,
        address: None,
        on: None,
        seconds: None,
        pre_persisted: None,
        epoch: 0,
    }
}

fn settings(text: &str) -> Settings {
    Settings::from_text(text)
}

#[test]
fn a_line_of_json_becomes_a_command() {
    let c = command(r#"  {"cmd":"set","key":"gain","value":"0.5","on":true,"seconds":12,"epoch":9} "#);
    assert_eq!(c.name, "set");
    assert_eq!(c.key.as_deref(), Some("gain"));
    assert_eq!(c.value.as_deref(), Some("0.5"));
    assert_eq!(c.address, None);
    assert_eq!(c.on, Some(true));
    assert_eq!(c.seconds, Some(12));
    assert_eq!(c.change(), ("gain".to_owned(), "0.5".to_owned()));

    // Escapes are those of JSON, and a value of another kind is not there.
    let c = command(r#"{"cmd":"connect","address":"7C:FE","seconds":-1,"on":"yes","key":7}"#);
    assert_eq!(c.address.as_deref(), Some("7C:FE"));
    assert_eq!((c.seconds, c.on, c.key.as_deref()), (None, None, None));
    assert_eq!(c.change(), (String::new(), String::new()));
}

#[test]
fn a_command_without_a_name_is_one_nobody_knows() {
    assert_eq!(command(r#"{"on":true}"#).name, "");
    assert_eq!(command("null").name, "");
    match errand(&command("{}"), 0) {
        Errand::Unknown(text) => assert_eq!(text, "unknown command ''"),
        other => panic!("{other:?}"),
    }
}

#[test]
fn blank_lines_mean_nothing_and_bad_ones_are_named() {
    assert!(matches!(read_command("   \t"), Reading::Blank));
    match read_command(r#"{"cmd":"#) {
        Reading::Unreadable(text) => {
            assert!(text.starts_with("unreadable command: "), "{text}");
            let fault = serde_json::from_str::<serde_json::Value>(r#"{"cmd":"#).unwrap_err();
            assert_eq!(text, format!("unreadable command: {fault}"));
        }
        other => panic!("{other:?}"),
    }
    // Neither an object nor nothing: there is no place for a stamp.
    for line in ["5", "[1]", "\"set\"", "true"] {
        assert!(matches!(read_command(line), Reading::NoRoom), "{line}");
    }
}

#[test]
fn what_was_parsed_decides_what_was_meant() {
    let fault = Some("eof".to_owned());
    match command_from(fault, true, None, named("")) {
        Reading::Unreadable(text) => assert_eq!(text, "unreadable command: eof"),
        other => panic!("{other:?}"),
    }
    assert!(matches!(command_from(None, false, None, named("")), Reading::NoRoom));
    match command_from(None, true, Some("play".to_owned()), named("")) {
        Reading::Command(c) => assert_eq!(c.name, "play"),
        other => panic!("{other:?}"),
    }
}

#[test]
fn what_ends_playback_also_interrupts() {
    for name in ["stop", "quit", "disconnect"] {
        let s = signals(name, None);
        assert!(s.stop_playing && s.interrupt && s.cancel, "{name}");
    }
    let off = signals("adapter", Some(false));
    assert!(off.stop_playing && off.interrupt && off.cancel);
    let on = signals("adapter", Some(true));
    assert!(!on.stop_playing && on.interrupt && on.cancel);
    for name in ["connect", "scan"] {
        let s = signals(name, None);
        assert!(!s.stop_playing && s.interrupt && !s.cancel, "{name}");
    }
    let forget = signals("forget", None);
    assert!(!forget.stop_playing && forget.interrupt && forget.cancel);

    let quiet = signals("status", Some(false));
    assert!(!quiet.stop_playing && !quiet.interrupt && !quiet.cancel);
    assert!(signals("battery", None).refresh_battery);
    assert_eq!(signals("debug", Some(true)).trace, Some(true));
    assert_eq!(signals("debug", None).trace, Some(false));
    assert_eq!(signals("status", Some(true)).trace, None);
}

#[test]
fn settings_do_not_wait_for_the_worker() {
    assert_eq!(desk("set"), Desk::ReaderSets);
    assert_eq!(desk("settings"), Desk::ReaderShows);
    assert_eq!(desk("connect"), Desk::Worker);
}

#[test]
fn a_stale_connect_is_dropped_and_a_fresh_one_runs() {
    let mut reader = Reader { epoch: 4 };
    let stale = reader.accept(named("connect"));
    assert_eq!(stale.epoch, 4);
    let taken_back = reader.accept(named("disconnect"));
    assert_eq!((taken_back.epoch, reader.epoch), (5, 5));
    let mut fresh = named("connect");
    fresh.address = Some("A".to_owned());
    let fresh = reader.accept(fresh);

    assert!(matches!(errand(&stale, reader.epoch), Errand::Dropped));
    match errand(&fresh, reader.epoch) {
        Errand::Connect(address) => assert_eq!(address.as_deref(), Some("A")),
        other => panic!("{other:?}"),
    }
    // Only a connect grows stale.
    assert!(matches!(errand(&named("status"), 9), Errand::Status));
}

#[test]
fn a_change_is_marked_as_stored() {
    let mut reader = Reader { epoch: 0 };
    assert_eq!(reader.accept(named("set")).pre_persisted, Some(true));
    assert_eq!(reader.accept(named("play")).pre_persisted, None);
}

#[test]
fn each_command_has_its_errand() {
    assert!(matches!(errand(&named("check"), 0), Errand::Check));
    assert!(matches!(errand(&named("adapter"), 0), Errand::Adapter(true)));
    assert!(matches!(errand(&command(r#"{"cmd":"adapter","on":false}"#), 0), Errand::Adapter(false)));
    assert!(matches!(errand(&named("scan"), 0), Errand::Scan(8)));
    assert!(matches!(errand(&command(r#"{"cmd":"scan","seconds":3}"#), 0), Errand::Scan(3)));
    assert!(matches!(errand(&named("forget"), 0), Errand::Forget(None)));
    assert!(matches!(errand(&named("settings"), 0), Errand::ReportSettings));
    assert!(matches!(errand(&named("set"), 0), Errand::Change { pre_persisted: false, .. }));
    assert!(matches!(errand(&named("reset-settings"), 0), Errand::ResetSettings));
    assert!(matches!(errand(&named("play"), 0), Errand::Play));
    assert!(matches!(errand(&named("disconnect"), 0), Errand::Disconnect));
    for name in ["debug", "battery", "stop"] {
        assert!(matches!(errand(&named(name), 0), Errand::Nothing), "{name}");
    }
    assert!(matches!(errand(&named("quit"), 0), Errand::Quit));
}

#[test]
fn every_command_is_answered() {
    let said = conclude("play", false, None);
    assert!(matches!(&said[..], [Message::Done { cmd }] if cmd == "play"));

    let said = conclude("play", false, Some("no device is connected".to_owned()));
    assert!(matches!(
        &said[..],
        [Message::Error { cmd: Some(c), text }, Message::Done { cmd }]
            if c == "play" && text == "no device is connected" && cmd == "play"
    ));

    let said = conclude("connect", true, None);
    assert!(matches!(
        &said[..],
        [Message::Log(text), Message::Done { cmd }]
            if text == "connect request dropped: something else was asked for in the meantime"
                && cmd == "connect"
    ));
}

#[test]
fn a_change_that_cannot_be_stored_is_an_error() {
    let (said, forward) = answer_set("gain", "1", Ok(vec![]), None);
    assert!(forward);
    assert!(matches!(&said[..], [Message::Applied { key, value, needs }]
        if key == "gain" && value == "1" && needs.is_empty()));

    let (said, forward) = answer_set("gain", "1", Ok(vec![]), Some("disk full".to_owned()));
    assert!(!forward);
    assert!(matches!(&said[..], [Message::Error { cmd: Some(c), text }, Message::Done { cmd }]
        if c == "set" && text == "save failed: disk full" && cmd == "set"));

    let (said, forward) = answer_set("gain", "9", Err("no".to_owned()), None);
    assert!(!forward);
    assert!(matches!(&said[0], Message::Error { text, .. } if text == "no"));
}

#[test]
fn refused_changes_say_why_and_change_nothing() {
    for (key, value, why) in [
        ("microphone_mode", "maybe", "unknown microphone mode"),
        ("microphone_quality", "best", "unknown microphone quality"),
        ("microphone_target", "speakers", "unknown microphone target"),
        ("monitor_mode", "loud", "unknown monitoring mode"),
        ("link_metrics", "all", "unknown radio monitoring level"),
        ("command_style", "odd", "unknown HCI command addressing mode"),
        ("gain", "loud", "gain must be a number from 0 to 2"),
        ("monitor_gain", "2.1", "gain must be in the range from 0 to 2"),
        ("microphone_gain", "-0.1", "gain must be in the range from 0 to 2"),
        ("gain", "nan", "gain must be in the range from 0 to 2"),
    ] {
        let mut s = Settings::defaults();
        let outcome = apply_setting_change(&mut s, key, value, false);
        assert_eq!(outcome.err().as_deref(), Some(why), "{key}");
        assert_eq!(s, Settings::defaults(), "{key}");
    }
    let mut s = Settings::defaults();
    let outcome = apply_setting_change(&mut s, "preset", "loudest", false);
    assert_eq!(outcome.err().as_deref(), Some("unknown LC3 preset"));
}

#[test]
fn accepted_changes_are_kept_and_say_what_they_cost() {
    let mut s = Settings::defaults();
    assert!(apply_setting_change(&mut s, "gain", "2", false).unwrap().is_empty());
    assert_eq!(s.get("gain"), Some("2"));

    // Whether a level or a style is known is decided elsewhere.
    let mut s = Settings::defaults();
    apply_setting_change(&mut s, "command_style", "odd", true).unwrap();
    assert_eq!(s.get("command_style"), Some("odd"));
}

#[test]
fn a_microphone_that_is_switched_off_is_not_listened_to() {
    let mut s = settings("monitor_source = headset\nmicrophone_mode = on\n");
    apply_setting_change(&mut s, "microphone_mode", "off", false).unwrap();
    assert_eq!(s.get("monitor_source"), Some("default"));
    assert_eq!(s.get("microphone_mode"), Some("off"));

    let mut s = settings("monitor_source = headset\nmicrophone_mode = off\n");
    apply_setting_change(&mut s, "microphone_mode", "on", false).unwrap();
    assert_eq!(s.get("monitor_source"), Some("headset"));
}

#[test]
fn a_preset_fills_in_every_value_that_it_stands_for() {
    let mut s = Settings::defaults();
    apply_setting_change(&mut s, "preset", "windows", false).unwrap();
    let codec = Preset::WindowsDefault.codec(false);
    let qos = Preset::WindowsDefault.qos(&codec);
    let micros = codec.frame_duration.microseconds();
    assert_eq!(s.get("rate_hz"), Some(codec.sampling_frequency.hz().unwrap().to_string().as_str()));
    assert_eq!(s.get("frame_ms"), Some(if micros == 7_500 { "7.5" } else { "10" }));
    assert_eq!(s.get("octets"), Some(codec.octets_per_frame.to_string().as_str()));
    assert_eq!(s.get("phy"), Some(if qos.phy == 1 { "1M" } else { "2M" }));
    assert_eq!(s.get("retransmissions"), Some(qos.retransmission_number.to_string().as_str()));
    assert_eq!(s.get("max_latency_ms"), Some(qos.max_transport_latency_ms.to_string().as_str()));
    assert_eq!(
        s.get("presentation_delay_ms"),
        Some((qos.presentation_delay_us / 1000).to_string().as_str()),
    );

    // One's own values stay.
    let before = s.clone();
    apply_setting_change(&mut s, "preset", "custom", false).unwrap();
    assert_eq!(s.get("octets"), before.get("octets"));
    assert_eq!(s.get("preset"), Some("custom"));
}

#[test]
fn presets_are_known_by_their_names() {
    assert_eq!(parse_preset("windows"), Some(Preset::WindowsDefault));
    assert_eq!(parse_preset("low-latency"), Some(Preset::LowLatency));
    assert_eq!(parse_preset("custom"), None);
}

fn devices() -> Vec<CaptureDevice> {
    vec![
        CaptureDevice { id: "1".into(), name: "CABLE Output".into(), virtual_cable: true },
        CaptureDevice { id: "2".into(), name: "QuadCast".into(), virtual_cable: false },
    ]
}

fn choices(s: &Settings, key: &str) -> Vec<(String, String)> {
    let controls = settings_snapshot(s, &devices());
    let control = controls.into_iter().find(|c| c.knob.key == key).unwrap();
    control.options.unwrap().into_iter().map(|c| (c.value, c.label)).collect()
}

#[test]
fn the_application_is_shown_what_it_can_choose_from() {
    let s = Settings::defaults();
    let controls = settings_snapshot(&s, &devices());
    for control in &controls {
        assert_eq!(control.value, s.get(control.knob.key).unwrap_or(""));
        let listed = matches!(control.knob.key, "playback_source" | "monitor_source");
        assert_eq!(control.options.is_some(), listed, "{}", control.knob.key);
    }

    let pair = |a: &str, b: &str| (a.to_owned(), b.to_owned());
    assert_eq!(
        choices(&s, "playback_source"),
        vec![pair("1", "CABLE Output"), pair("2", "QuadCast")],
    );
    let usual = pair("default", "Windows default microphone");
    assert_eq!(choices(&s, "monitor_source"), vec![usual.clone(), pair("2", "QuadCast")]);
    assert_eq!(
        choices(&settings("microphone_mode = on\n"), "monitor_source"),
        vec![usual, pair("2", "QuadCast"), pair("headset", "Headset microphone (LE Audio)")],
    );
}

#[test]
fn live_settings_come_from_the_stored_ones() {
    let live = sync_live_from_settings(&settings(
        "monitor_enabled = true\nmonitor_source = headset\nmonitor_mode = replace\nmonitor_gain = 0.5\ngain = 1.5\nmicrophone_gain = 2\nbalance = -25\n",
    ));
    assert!(live.monitor_enabled && live.monitor_replace);
    assert_eq!(live.monitor_source, "headset");
    assert_eq!(live.monitor_gain, Number::ratio(1, 2));
    assert_eq!(live.output_gain, Number::ratio(3, 2));
    assert_eq!(live.microphone_gain, Number::ratio(2, 1));
    assert_eq!(Some(live.balance), Number::parse("-0.5"));

    let usual = sync_live_from_settings(&Settings::new());
    assert!(!usual.monitor_enabled && !usual.monitor_replace);
    assert_eq!(usual.monitor_source, "default");
    assert_eq!(usual.output_gain, Number::ratio(1, 1));

    // Further than to one side there is nowhere to go.
    assert_eq!(sync_live_from_settings(&settings("balance = 400\n")).balance, Number::ratio(1, 1));
}

#[test]
fn the_link_timeout_stays_within_what_a_controller_takes() {
    assert_eq!(link_timeout(&Settings::new()), Duration::from_secs(10));
    assert_eq!(link_timeout(&settings("link_timeout_s = 1\n")), Duration::from_secs(2));
    assert_eq!(link_timeout(&settings("link_timeout_s = 400\n")), Duration::from_secs(30));
    assert_eq!(link_timeout(&settings("link_timeout_s = 2.5\n")), Duration::from_millis(2_500));
}

#[test]
fn the_battery_is_asked_for_or_not_at_all() {
    assert_eq!(battery_poll(&Settings::new()), Some(Duration::from_secs(15 * 60)));
    assert_eq!(battery_poll(&settings("battery_poll_min = 0\n")), None);
    assert_eq!(battery_poll(&settings("battery_poll_min = 1\n")), Some(Duration::from_secs(60)));
    assert_eq!(battery_poll(&settings("battery_poll_min = 500\n")), Some(Duration::from_secs(7_200)));
}

#[test]
fn wake_ups_and_yields_have_their_bounds() {
    assert_eq!(idle_link_latency(&Settings::new()), 0);
    assert_eq!(idle_link_latency(&settings("idle_link_latency = 99\n")), 30);
    assert_eq!(idle_link_latency(&settings("idle_link_latency = 3.9\n")), 3);

    assert_eq!(multipoint_yield(&settings("multipoint_yield_s = 9\n")), None);
    let on = "multipoint_yield_enabled = true\n";
    assert_eq!(multipoint_yield(&settings(on)), Some(Duration::from_secs(5)));
    let soon = format!("{on}multipoint_yield_s = 1\n");
    assert_eq!(multipoint_yield(&settings(&soon)), Some(Duration::from_secs(2)));

    let tuning = link_tuning(&settings("link_metrics = full\n"), true);
    assert_eq!(tuning.metrics.as_deref(), Some("full"));
    assert_eq!(tuning.link_timeout, Duration::from_secs(10));
    assert_eq!(link_tuning(&settings("link_metrics = full\n"), false).metrics, None);
}

#[test]
fn a_length_of_time_that_cannot_be_held_is_noticed() {
    assert!(can_configure(&Settings::defaults()));
    assert!(has_policy(&Settings::defaults()));
    assert!(!can_configure(&settings("reconnect_interval_s = -1\n")));
    assert!(has_policy(&settings("reconnect_interval_s = -1\n")));
    assert!(!has_policy(&settings("reconnect_interval_s = 1e30\n")));
    assert!(!can_configure(&settings("link_timeout_s = nan\n")));
    assert!(!can_tune(&settings("link_timeout_s = nan\n")));
    // Keeping a link takes no interval between attempts.
    assert!(can_tune(&settings("reconnect_interval_s = -1\n")));
}

#[test]
fn the_policy_is_what_the_settings_say_now() {
    let usual = ReconnectPolicy::default();
    assert_eq!(reconnect_policy(&Settings::new()).interval, usual.interval);
    assert_eq!(reconnect_policy(&settings("reconnect_interval_s = 0\n")).interval, usual.interval);

    let policy = reconnect_policy(&settings(
        "reconnect_enabled = false\nreconnect_interval_s = 2.5\nreconnect_window_min = 0\n",
    ));
    assert!(!policy.enabled);
    assert_eq!(policy.interval, Duration::from_millis(2_500));
    assert_eq!(policy.window, None);
}

#[test]
fn a_session_is_configured_from_the_settings() {
    let config = session_config(
        &settings(
            "playback_source = 7\nmicrophone_target = vb-cable-b\nmonitor_enabled = true\nmonitor_mode = replace\ngain = 0.5\nidle_timeout_min = 1\ncommand_style = x\n",
        ),
        true,
    );
    assert!(!config.prefer_single_cis);
    assert_eq!(config.command_style.as_deref(), Some("x"));
    assert_eq!(config.audio_device.as_deref(), Some("7"));
    assert_eq!(config.microphone_target.as_deref(), Some("CABLE-B Input"));
    assert_eq!(config.monitor_source.as_deref(), Some("default"));
    assert!(config.monitor_replace);
    assert_eq!(config.limiter.gain(), Number::ratio(1, 2));
    assert_eq!(config.idle_timeout, Some(Duration::from_secs(60)));

    let plain = session_config(&Settings::new(), false);
    assert_eq!(plain.monitor_source, None);
    assert_eq!(plain.microphone_target, None);
    assert_eq!(plain.audio_device, None);
    assert_eq!(plain.limiter.gain(), Number::ratio(1, 1));
    assert_eq!(plain.idle_timeout, SessionConfig::default().idle_timeout);
}

#[test]
fn a_connection_takes_over_what_has_changed() {
    let mut config = SessionConfig::default();
    refresh_connection_config(
        &mut config,
        &settings("microphone_target = vb-cable\nreconnect_interval_s = 3\nreconnect_enabled = false\n"),
    );
    assert_eq!(config.microphone_target.as_deref(), Some("CABLE Input"));
    assert_eq!(config.reconnect.interval, Duration::from_secs(3));
    assert!(!config.reconnect.enabled);
    // What is decided when the adapter opens stays.
    assert!(config.prefer_single_cis);
}

#[test]
fn a_codec_of_ones_own_is_spelled_out() {
    let codec = custom_codec(&Settings::new());
    assert_eq!(codec.sampling_frequency.hz(), Some(48_000));
    assert_eq!(codec.frame_duration, FrameDuration::Ms10);
    assert_eq!(codec.channel_allocation, LOCATION_FRONT_LEFT);
    assert_eq!((codec.octets_per_frame, codec.frames_per_sdu), (100, 1));

    let s = settings(
        "rate_hz = 32000\nframe_ms = 7.5\noctets = 60\nphy = 1M\nretransmissions = 4\nmax_latency_ms = 95\npresentation_delay_ms = 20.5\n",
    );
    let codec = custom_codec(&s);
    assert_eq!(codec.sampling_frequency, SamplingFrequency::from_hz(32_000).unwrap());
    assert_eq!(codec.frame_duration, FrameDuration::Ms7_5);
    let qos = custom_qos(&s);
    assert_eq!((qos.sdu_interval_us, qos.phy, qos.max_sdu), (7_500, 1, 60));
    assert_eq!((qos.retransmission_number, qos.max_transport_latency_ms), (4, 95));
    assert_eq!(qos.presentation_delay_us, 20_500);

    // A rate that does not exist falls back, and the border belongs to ten.
    assert_eq!(custom_codec(&settings("rate_hz = 12345\n")).sampling_frequency.hz(), Some(48_000));
    assert_eq!(custom_codec(&settings("frame_ms = 8.75\n")).frame_duration, FrameDuration::Ms10);
    assert_eq!(custom_qos(&settings("retransmissions = 300\n")).retransmission_number, 255);
}
