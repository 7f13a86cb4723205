//! Setting a stream up, what the headphones are asked for, and what is left.

use olea_core::agent::bonds::{Bond, BondStore};
use olea_core::agent::endpoint::{
    ask_device_for_delay, ask_device_for_qos, find_control_point, read_endpoints, DevicePreference,
    Readings, Search,
};
use olea_core::agent::message::Message;
use olea_core::agent::play::{Call, Encore, MicrophoneQuality, Request, Setup};
use olea_core::agent::report::report;
use olea_core::agent::state::{Agent, Switch};
use olea_core::agent::variants::{variant_order, variants, Stride};
use olea_core::bap::{
    CodecConfiguration, FrameDuration, Preset, SamplingFrequency, CONTEXT_MEDIA, LATENCY_BALANCED,
    LOCATION_STEREO,
};
use olea_core::cis::CisOutcome;
use olea_core::hci::{disconnect_reason, BdAddr};
use olea_core::link::{AudioCapabilities, Link, LinkError, Reply, Step};
use olea_core::session::{Adapter, Progress, RadioQuality, SessionError, StreamCounters};
use olea_core::settings::Settings;
use olea_core::stream::{Microphone, StreamPlan, Topology};
use olea_core::time::Duration;

fn logs(messages: &[Message]) -> Vec<String> {
    messages
        .iter()
        .filter_map(|m| match m {
            Message::Log(text) => Some(text.clone()),
            _ => None,
        })
        .collect()
}

fn plan() -> StreamPlan {
    let codec = Preset::WindowsDefault.codec(false);
    StreamPlan {
        cig_id: 1,
        topology: Topology::DualCis,
        codec,
        qos: Preset::WindowsDefault.qos(&codec),
        ase_ids: vec![1, 2],
        playback_enabled: true,
        microphone: None,
        target_latency: 0,
        context: 0,
    }
}

fn microphone() -> Microphone {
    Microphone { ase_id: 5, cis_id: 0, codec: Preset::WindowsDefault.codec(false) }
}

/// An agent that is connected, with these settings.
fn connected(text: &str) -> Agent {
    let mut agent = Agent::new(BondStore::new(), Settings::from_text(text)).0;
    let session = match agent.adapter_on(Settings::from_text(text), &[], false) {
        Switch::Open(session) => session,
        other => panic!("{other:?}"),
    };
    let adapter = Adapter { version: None, address: Some(BdAddr([1, 2, 3, 4, 5, 6])) };
    agent.adapter_opened(session, Ok(adapter)).unwrap();
    agent.link = Some(Link::new(0x40));
    agent.connected = Some(("A".to_owned(), 0x40));
    agent.capabilities = Some(AudioCapabilities::default());
    agent.control_point = Some(9);
    agent
}

fn setup(agent: &Agent) -> Setup {
    agent.planned(0x40, Ok((plan(), Preset::WindowsDefault))).unwrap().0
}

#[test]
fn playing_needs_everything_that_it_rests_on() {
    let mut a = connected("");
    a.connected = None;
    assert_eq!(a.begin_play().unwrap_err(), "no device is connected");
    let mut a = connected("");
    a.link = None;
    assert_eq!(a.begin_play().unwrap_err(), "connection is not open");
    let mut a = connected("");
    a.capabilities = None;
    assert_eq!(a.request_plan().unwrap_err(), "device capabilities have not been loaded");
    let mut a = connected("");
    a.control_point = None;
    assert_eq!(a.request_plan().unwrap_err(), "ASE control point is unknown");
    let mut a = connected("");
    a.session = None;
    assert_eq!(a.request_plan().unwrap_err(), "adapter is off");
}

#[test]
fn a_stream_is_planned_from_a_preset_or_from_ones_own_values() {
    assert_eq!(
        connected("").request_plan(),
        Ok(Request::Preset { preset: Preset::WindowsDefault, single_cis: false }),
    );
    assert_eq!(
        connected("preset = robust\n").request_plan(),
        Ok(Request::Preset { preset: Preset::Robust, single_cis: false }),
    );
    match connected("preset = custom\noctets = 77\n").request_plan() {
        Ok(Request::Custom { codec, qos, single_cis: false }) => {
            assert_eq!((codec.octets_per_frame, qos.max_sdu), (77, 77));
        }
        other => panic!("{other:?}"),
    }
}

#[test]
fn a_plan_that_fails_says_which_kind_it_was() {
    let no = || Err("too many octets".to_owned());
    assert_eq!(
        connected("").planned(0x40, no()).unwrap_err(),
        "stream could not be scheduled: too many octets",
    );
    assert_eq!(
        connected("preset = custom\n").planned(0x40, no()).unwrap_err(),
        "device rejected the custom configuration: too many octets",
    );
}

#[test]
fn typed_radio_settings_count_only_where_the_codec_is_spelled_out() {
    let typed = "phy = 1M\nretransmissions = 3\n";
    let (kept, _, _) = connected(typed).planned(0x40, Ok((plan(), Preset::Robust))).unwrap();
    assert_eq!(kept.plan.qos, plan().qos);
    assert!(!kept.custom);
    assert_eq!(kept.label, Preset::Robust.label());

    let own = format!("preset = custom\n{typed}");
    let (spelled, _, _) = connected(&own).planned(0x40, Ok((plan(), Preset::Robust))).unwrap();
    assert_eq!((spelled.plan.qos.phy, spelled.plan.qos.retransmission_number), (1, 3));
    assert!(spelled.custom);
    assert_eq!(spelled.label, "custom");
}

#[test]
fn the_shape_and_the_microphone_are_choices() {
    let a = connected("");
    let (_, said, call) = a.planned(0x40, Ok((plan(), Preset::WindowsDefault))).unwrap();
    assert!(matches!(call, Call::ReadHandles { sources: false }));
    assert_eq!(
        logs(&said),
        vec![
            "headset microphone disabled; Source ASE is released and radio budget stays with playback"
                .to_owned(),
            "monitoring disabled; no PC microphone is opened".to_owned(),
            format!("ASE control point 0x0009, preset {}", Preset::WindowsDefault.label()),
        ],
    );

    let a = connected("audio_mode = mono\nmicrophone_mode = on\nmicrophone_quality = voice\n");
    let (mut s, said, call) = a.planned(0x40, Ok((plan(), Preset::WindowsDefault))).unwrap();
    assert!(matches!(call, Call::IntoMono));
    assert_eq!(logs(&said), vec!["mono mode: one channel with left and right mixed"]);
    let mono = StreamPlan { ase_ids: vec![1], topology: Topology::SingleCis, ..plan() };
    let (_, call) = a.shaped(&mut s, mono);
    assert!(matches!(call, Call::AddMicrophone(MicrophoneQuality::Voice)));
    let (said, call) = a.microphone_added(&mut s, Err("no source".into()));
    assert!(said.is_empty());
    assert!(matches!(call, Call::Fail { text, .. }
        if text == "headset microphone could not be configured: no source"));
    let heard = StreamPlan { microphone: Some(microphone()), ..plan() };
    let (said, call) = a.microphone_added(&mut s, Ok(heard));
    assert_eq!(logs(&said)[0], "headset microphone enabled; playback remains active");
    assert!(matches!(call, Call::ReadHandles { sources: true }));

    let legacy = connected("audio_mode = legacy\n");
    let (_, _, call) = legacy.planned(0x40, Ok((plan(), Preset::WindowsDefault))).unwrap();
    assert!(matches!(call, Call::IntoLegacy));
}

#[test]
fn each_stream_says_which_ear_it_claims() {
    let mut a = connected("");
    let mut s = setup(&a);
    let (said, call) = a.handles_read(&mut s, vec![(1, 20), (2, 21)], vec![], &[1, 0x40]);
    assert_eq!(
        logs(&said),
        vec!["  ASE 1 → left (0x00000001)", "  ASE 2 → 0x00000040 (0x00000040)"],
    );
    assert!(matches!(call, Call::ConfigureCodec));
    // They are configured the moment the writes land.
    assert_eq!(a.configured_ases, vec![1, 2]);
    assert_eq!(s.sinks, vec![(1, 20), (2, 21)]);
}

/// The value of an endpoint whose codec is configured.
fn configured(ase_id: u8, phy: u8, rtn: u8, latency: u16, min: u32, max: u32) -> Vec<u8> {
    let mut v = vec![ase_id, 1, 0, phy, rtn];
    v.extend(latency.to_le_bytes());
    for delay in [min, max, min, max] {
        v.extend(&delay.to_le_bytes()[..3]);
    }
    v
}

#[test]
fn what_the_headphones_prefer_has_to_suit_every_endpoint() {
    let list = Readings {
        values: vec![
            (1, Some(configured(1, 0b11, 2, 20, 30_000, 40_000))),
            (2, Some(configured(2, 0b01, 5, 15, 35_000, 40_000))),
            (3, None),
            (4, Some(vec![4, 0])),
        ],
    };
    let (wanted, said) = ask_device_for_qos(&list, 10_000);
    assert_eq!(
        wanted,
        DevicePreference {
            presentation_delay_us: Some(35_000),
            retransmissions: Some(5),
            max_transport_latency_ms: Some(15),
            phy_preference: Some(0b01),
        },
    );
    assert_eq!(
        logs(&said)[0],
        "  ASE 1 requests 30000-40000 µs delay, prefers 30000 µs, RTN 2, latency 20 ms",
    );
    assert_eq!(ask_device_for_delay(&list, 10_000).0, Some(35_000));

    let nothing = Readings { values: vec![] };
    let (wanted, said) = ask_device_for_qos(&nothing, 10_000);
    assert_eq!(wanted.presentation_delay_us, None);
    assert!(said.is_empty());
    assert_eq!(ask_device_for_delay(&nothing, 10_000).0, None);
}

#[test]
fn the_radio_follows_the_headphones_unless_the_user_drives() {
    let list = || Readings { values: vec![(1, Some(configured(1, 0b01, 7, 9, 50_000, 60_000)))] };
    let a = connected("");
    let mut s = setup(&a);
    s.plan.qos.presentation_delay_us = 40_000;
    s.plan.qos.retransmission_number = 13;
    s.plan.qos.max_transport_latency_ms = 20;
    s.plan.qos.phy = 2;
    let (said, call) = a.preferences_read(&mut s, &list());
    assert!(matches!(call, Call::ConfigureQos));
    let qos = s.plan.qos;
    assert_eq!((qos.presentation_delay_us, qos.retransmission_number), (50_000, 7));
    assert_eq!((qos.max_transport_latency_ms, qos.phy), (9, 1));
    assert_eq!(
        logs(&said)[1..],
        [
            "headphones request 50 ms delay instead of 40 ms; using their value",
            "headphones recommend 7 retransmissions instead of 13; using theirs",
            "headphones support at most 9 ms transport latency, not 20; using theirs",
            "headphones do not offer the 2M radio; falling back to 1M",
        ],
    );

    let own = connected("preset = custom\n");
    let mut s = setup(&own);
    let before = s.plan.qos;
    own.preferences_read(&mut s, &list());
    assert_eq!(s.plan.qos.retransmission_number, before.retransmission_number);
    assert_eq!(s.plan.qos.presentation_delay_us, 50_000);
}

#[test]
fn one_shape_is_asked_for() {
    let a = connected("");
    let mut s = setup(&a);
    assert!(matches!(a.qos_configured(&mut s, Ok(())), Call::Establish));
    assert_eq!((s.plan.target_latency, s.plan.context), (LATENCY_BALANCED, CONTEXT_MEDIA));

    let error = || SessionError::Link(LinkError::Closed);
    let why = error().text();
    assert!(matches!(a.codec_configured(Err(error())), Call::Fail { text, .. }
        if text == format!("konfigurace kodeku selhala: {why}")));
    assert!(matches!(a.qos_configured(&mut s, Err(error())), Call::Fail { text, .. }
        if text == format!("konfigurace QoS selhala: {why}")));
    assert!(matches!(a.codec_configured(Ok(())), Call::ReadPreferences));
}

fn now() -> Duration {
    Duration::from_secs(50)
}

#[test]
fn half_a_stream_is_handed_back() {
    let a = connected("");
    let mut s = setup(&a);
    s.sinks = vec![(1, 20), (2, 21), (3, 22)];
    let half = CisOutcome { established: vec![0x60], failed: vec![(0x61, 0x3E)] };
    let words = half.describe();
    let (_, call) = a.established(&mut s, Ok(half), now());
    match call {
        Call::Fail { clearing, text } => {
            assert_eq!((clearing.channels, clearing.group), (vec![0x60], true));
            assert_eq!(
                text,
                format!("headphones did not establish every channel ({words}); retrying the connection"),
            );
        }
        other => panic!("{other:?}"),
    }

    let (_, call) = a.established(&mut s, Err(SessionError::NoCisEstablished), now());
    assert!(matches!(call, Call::Fail { clearing, text } if clearing.group
        && text == format!("isochronous channels could not be established: {}",
            SessionError::NoCisEstablished.text())));

    let whole = || CisOutcome { established: vec![0x60, 0x61], failed: vec![] };
    let (said, call) = a.established(&mut s, Ok(whole()), now());
    assert_eq!(logs(&said), vec![format!("channels established: {}", whole().describe())]);
    // The endpoint that no stream uses is not waited for.
    assert!(matches!(call, Call::Watch(endpoints) if endpoints == vec![(1, 20), (2, 21)]));
    assert_eq!(s.deadline, Duration::from_secs(53));
    assert_eq!(s.cis, vec![0x60, 0x61]);

    s.sinks = vec![(1, 20)];
    let (_, call) = a.established(&mut s, Ok(whole()), now());
    assert!(matches!(call, Call::Fail { text, .. }
        if text == "stereo stream cannot be verified: found 1 of 2 Sink ASE characteristics"));

    s.sinks = vec![(1, 20), (2, 21)];
    s.plan.microphone = Some(microphone());
    let (_, call) = a.established(&mut s, Ok(whole()), now());
    assert!(matches!(call, Call::Fail { text, .. }
        if text == "microphone cannot be verified: Source ASE 5 has no readable state characteristic"));
    s.sources = vec![(5, 30)];
    let (_, call) = a.established(&mut s, Ok(whole()), now());
    assert!(matches!(call, Call::StartReceiver(5)));
    // The time to start begins only once the receiver is ready.
    let call = a.receiver_started(&mut s, Duration::from_secs(60));
    assert!(matches!(call, Call::Watch(endpoints) if endpoints == vec![(1, 20), (2, 21)]));
    assert_eq!(s.deadline, Duration::from_secs(63));
}

fn states(list: &[(u8, Option<u8>)]) -> Readings {
    Readings {
        values: list.iter().map(|&(id, state)| (id, state.map(|state| vec![id, state]))).collect(),
    }
}

#[test]
fn audio_waits_until_every_endpoint_streams() {
    let a = connected("diagnostics = true\n");
    let mut s = setup(&a);
    s.sinks = vec![(1, 20), (2, 21)];
    s.deadline = Duration::from_secs(53);

    let half = states(&[(1, Some(4)), (2, Some(3))]);
    let (said, call) = a.states_read(&mut s, &half, now());
    assert!(said.is_empty());
    assert!(matches!(call, Call::WatchAgain(endpoints) if endpoints == vec![(1, 20), (2, 21)]));

    let (said, call) = a.states_read(&mut s, &states(&[(1, Some(4)), (2, None)]), Duration::from_secs(53));
    assert_eq!(logs(&said)[1], "  ASE 2 je ve stavu could not be read");
    assert!(matches!(call, Call::Fail { text, .. } if text
        == "headphones did not start both stereo channels (ASE 2: unreadable state); audio is not sent because one channel could play as mono in both ears"));

    let (_, call) = a.states_read(&mut s, &states(&[(1, Some(4)), (2, Some(4))]), now());
    assert!(matches!(call, Call::RunAudio));
}

#[test]
fn the_microphone_has_to_stream_too() {
    let a = connected("");
    let mut s = setup(&a);
    s.sinks = vec![(1, 20), (2, 21)];
    s.sources = vec![(5, 30)];
    s.plan.microphone = Some(microphone());
    let (_, call) = a.states_read(&mut s, &states(&[(1, Some(4)), (2, Some(4))]), now());
    assert!(matches!(call, Call::WatchMicrophone(30)));
    assert_eq!(s.deadline, Duration::from_secs(53));

    let (_, call) = a.microphone_read(&s, 30, Some(vec![5, 3]), now());
    assert!(matches!(call, Call::WatchMicrophoneAgain(30)));
    let (_, call) = a.microphone_read(&s, 30, None, Duration::from_secs(54));
    assert!(matches!(call, Call::Fail { text, .. }
        if text == "microphone Source ASE 5 is not in Streaming state (unreadable state)"));
    let (said, call) = a.microphone_read(&s, 30, Some(vec![5, 4]), now());
    assert!(matches!(call, Call::RunAudio));
    let codec = microphone().codec;
    assert_eq!(
        logs(&said),
        vec![format!(
            "microphone Source ASE 5 active: {} Hz, {} octets per frame",
            codec.sampling_frequency.hz().unwrap(),
            codec.octets_per_frame,
        )],
    );
    assert!(matches!(a.streaming_started(&s, 42), Message::StreamingStarted { latency_ms: 42, .. }));
}

#[test]
fn a_stop_is_no_loss() {
    let mut a = connected("");
    let s = setup(&a);
    let after = a.stopped(&s, None, None, false);
    assert!(after.release.is_empty() && after.hang_up.is_none() && after.result.is_ok());
    assert!(matches!(&after.say[..], [Message::StreamingStopped]));
    assert_eq!(a.lost_reason, None);
    assert!(a.connected.is_some());
}

#[test]
fn a_lost_link_leaves_nothing() {
    let mut a = connected("");
    a.configured_ases = vec![1, 2];
    let s = setup(&a);
    let after = a.stopped(&s, None, Some(0x13), false);
    assert!(after.result.is_ok() && after.hang_up.is_none());
    assert!(matches!(&after.say[..], [Message::StreamingStopped, Message::Lost { address, reason: 0x13 }]
        if address == "A"));
    assert_eq!(a.lost_reason, Some(0x13));
    assert!(a.connected.is_none() && a.capabilities.is_none() && a.control_point.is_none());
    assert!(a.configured_ases.is_empty());
}

#[test]
fn a_failure_leads_to_another_attempt() {
    let mut a = connected("");
    let s = setup(&a);
    let error = SessionError::Audio("gone".into());
    let why = error.text();
    let after = a.stopped(&s, Some(error), None, false);
    assert_eq!(after.hang_up, Some(0x40));
    assert!(after.result.is_ok());
    assert_eq!(logs(&after.say), vec![format!("playback failed: {why}; restoring the connection")]);
    assert_eq!(a.lost_reason, Some(0x08));
    assert!(a.link.is_none());
}

#[test]
fn silence_hands_the_headphones_back_and_sound_takes_them_again() {
    let mut a = connected("");
    a.configured_ases = vec![1, 2];
    let (handle, link) = a.begin_play().unwrap();
    assert_eq!(handle, 0x40);
    assert!(a.link.is_none());
    let s = setup(&a);
    let after = a.stopped(&s, None, None, true);
    assert_eq!(after.release, vec![1, 2]);
    assert!(matches!(&after.say[..], [Message::Log(text), Message::Yielded, Message::StreamingStopped]
        if text == "silence: headphones released, another device may take them"));
    match a.end_play(link, after.result) {
        Encore::WaitForSound { handle, sample_rate, frame_us } => {
            assert_eq!(handle, 0x40);
            assert_eq!(Some(sample_rate), plan().codec.sampling_frequency.hz());
            assert_eq!(frame_us, plan().qos.sdu_interval_us);
        }
        other => panic!("{other:?}"),
    }
    assert!(a.link.is_some());

    let (said, next) = a.sound_heard(Ok(true));
    assert!(matches!(next, Encore::Again));
    assert_eq!(logs(&said), vec!["audio is back: taking the headphones again"]);
    assert!(matches!(said[1], Message::Reclaiming));
    assert!(matches!(a.sound_heard(Ok(false)).1, Encore::Finished(Ok(()))));
    let error = SessionError::Audio("gone".into());
    let text = format!("waiting for audio failed: {}", error.text());
    assert!(matches!(a.sound_heard(Err(error)).1, Encore::Finished(Err(t)) if t == text));
}

#[test]
fn without_a_hand_back_playback_is_over() {
    let mut a = connected("");
    let (_, link) = a.begin_play().unwrap();
    assert!(matches!(a.end_play(link, Ok(())), Encore::Finished(Ok(()))));
}

#[test]
fn shapes_are_tried_in_order_each_once() {
    assert_eq!(variant_order(Some("JBL Tune 780NC"), None), vec![0, 1, 2, 3, 4, 5]);
    assert_eq!(variant_order(Some("JBL Tune 780NC"), Some("hra")), vec![2, 0, 1, 3, 4, 5]);
    assert_eq!(variant_order(Some("Other"), Some("hra")), vec![0]);
    assert_eq!(variant_order(None, None), vec![0]);
    assert_eq!(variants().len(), 6);
    assert_eq!(variants()[0].name, "windows");
}

#[test]
fn a_walk_ends_with_a_shape_or_with_none() {
    let mut a = connected("");
    a.bonds.insert(Bond {
        address: "A".into(),
        address_type: 0,
        name: "JBL Tune 780NC".into(),
        long_term_key: [1; 16],
        le_audio: true,
    });
    let mut s = setup(&a);
    let (mut walk, said) = a.begin_walk();
    assert_eq!(logs(&said), vec!["JBL Tune 780NC compatibility profile active"]);
    let mut tried = 0;
    loop {
        let (_, stride) = walk.stride(&mut s);
        let ready = match stride {
            Stride::Reconfigure => walk.reconfigured(Ok(())).1,
            other => other,
        };
        match ready {
            Stride::Establish => {}
            Stride::Lost(text) => {
                assert_eq!(
                    text,
                    "none of 6 variants established both channels; try legacy or mono mode",
                );
                break;
            }
            other => panic!("{other:?}"),
        }
        tried += 1;
        let half = CisOutcome { established: vec![0x60], failed: vec![(0x61, 0xFF)] };
        let (_, stride) = a.shape_tried(&walk, Ok(half));
        assert!(matches!(stride, Stride::Clear(channels) if channels == vec![0x60]));
    }
    assert_eq!(tried, 6);

    let (mut walk, _) = a.begin_walk();
    walk.stride(&mut s);
    let whole = CisOutcome { established: vec![0x60, 0x61], failed: vec![] };
    let (_, stride) = a.shape_tried(&walk, Ok(whole));
    assert!(matches!(stride, Stride::Arrived(channels) if channels == vec![0x60, 0x61]));
    assert_eq!(a.settings.get("winning_variant"), Some("windows"));
}

fn reply(bytes: &[u8]) -> Reply {
    Reply { mtu: 247, answer: Ok(bytes.to_vec()) }
}

fn refusal(request: u8) -> Reply {
    reply(&[0x01, request, 0, 0, 0x0A])
}

#[test]
fn the_control_point_is_looked_for_in_its_service() {
    assert!(matches!(find_control_point(&[], 0), Search::Ask(_)));

    let services = [0x11, 6, 1, 0, 9, 0, 0x4E, 0x18];
    let characteristics = [0x09, 7, 2, 0, 0x18, 3, 0, 0xC6, 0x2B];
    let replies = [reply(&services), refusal(0x10), reply(&characteristics), refusal(0x08)];
    assert!(matches!(find_control_point(&replies, 0), Search::Found(3)));

    let other = [0x11, 6, 1, 0, 9, 0, 0x50, 0x18];
    match find_control_point(&[reply(&other), refusal(0x10)], 0) {
        Search::Failed(text) => assert_eq!(text, "device does not expose the ASCS service"),
        other => panic!("{other:?}"),
    }
    match find_control_point(&[reply(&services), refusal(0x10), refusal(0x08)], 0) {
        Search::Failed(text) => assert_eq!(text, "ASCS has no control point"),
        other => panic!("{other:?}"),
    }
    let closed = [Reply { mtu: 23, answer: Err(LinkError::Closed) }];
    match find_control_point(&closed, 0) {
        Search::Failed(text) => {
            assert_eq!(text, format!("discovery selhalo: {}", LinkError::Closed.text()))
        }
        other => panic!("{other:?}"),
    }
}

#[test]
fn an_endpoint_that_cannot_be_read_is_passed_over() {
    let handles = [(1, 20), (2, 21)];
    let replies = [
        Reply { mtu: 247, answer: Err(LinkError::Closed) },
        reply(&[0x0B, 2, 4]),
    ];
    match read_endpoints(&handles, &replies, 0) {
        Step::Done(list, 2) => assert_eq!(list.values, vec![(1, None), (2, Some(vec![2, 4]))]),
        other => panic!("{other:?}"),
    }
}

#[test]
fn progress_is_told_in_words() {
    let told = |p: Progress| logs(&report(p)).join("|");
    assert_eq!(
        told(Progress::AdapterReady { version: "5.4".into(), address: "A".into() }),
        "adapter 5.4, A",
    );
    assert_eq!(told(Progress::Connected { handle: 0x40 }), "connected, handle 0x0040");
    assert_eq!(told(Progress::StreamPlanned { summary: "s".into() }), "s");
    assert_eq!(
        told(Progress::CaptureReady { device: "d".into(), format: "f".into() }),
        "zdroj zvuku: d - f",
    );
    assert_eq!(
        told(Progress::Idle { after: Duration::from_secs(300) }),
        "silent for 300 s, transmission paused",
    );
    assert_eq!(
        told(Progress::Yielded { after: Duration::from_millis(5_999) }),
        "silent for 5 s, handing the headphones back",
    );
    assert_eq!(told(Progress::Resumed), "audio resumed");
    assert_eq!(
        told(Progress::Disconnected { reason: 8 }),
        format!("peer disconnected: {} (code 0x08)", disconnect_reason(8)),
    );
    assert_eq!(told(Progress::Stopped { reason: "r".into() }), "r");
    assert_eq!(
        told(Progress::BatteryAsked { reason: "click".into() }),
        "battery level requested from the headphones (click)",
    );
    assert!(report(Progress::CapabilitiesRead { summary: "s".into() }).is_empty());
    let counters = StreamCounters { frames: 7, iso_sent: 14, iso_failed: 0, rssi: None, delivered: vec![] };
    let quality = RadioQuality {
        handle: 0x60,
        lost: 6,
        unacked: 1,
        flushed: 2,
        retransmitted: 3,
        crc_errors: 4,
        unreceived: 5,
    };
    let streaming = Progress::Streaming { counters, backlog: 960, underruns: 2, quality: vec![quality] };
    match &report(streaming)[..] {
        [Message::Streaming { counters, backlog, underruns, quality: told }] => {
            assert_eq!((counters.frames, *backlog, *underruns), (7, 960, 2));
            assert_eq!(told, &vec![quality]);
        }
        other => panic!("{other:?}"),
    }
    assert!(matches!(
        &report(Progress::Battery { levels: vec![80, 70] })[..],
        [Message::Battery { address: None, levels }] if levels == &vec![80, 70]
    ));
}

#[test]
fn a_codec_knows_how_many_channels_it_carries() {
    let codec = CodecConfiguration {
        sampling_frequency: SamplingFrequency::from_hz(48_000).unwrap(),
        frame_duration: FrameDuration::Ms10,
        channel_allocation: LOCATION_STEREO,
        octets_per_frame: 100,
        frames_per_sdu: 1,
    };
    assert_eq!(codec.channel_count(), 2);
    assert_eq!(FrameDuration::Ms7_5.microseconds(), 7_500);
}
