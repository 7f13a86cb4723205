//! The session: what is reported, who is picked, when to try again.

use olea_core::audio::is_silent;
use olea_core::bap::{
    CodecCapabilities, PacRecord, SamplingFrequency, LOCATION_FRONT_LEFT, LOCATION_FRONT_RIGHT,
    LOCATION_STEREO,
};
use olea_core::hci::BdAddr;
use olea_core::link::AudioCapabilities;
use olea_core::number::Number;
use olea_core::session::{
    best_match, describe_capabilities, describe_locations, parse_address, DiscoveredDevice,
    ReconnectPolicy, SessionConfig,
};
use olea_core::time::Duration;

fn value(n: Number) -> f32 {
    match n {
        Number::NotANumber => f32::NAN,
        Number::Infinite { negative: true } => f32::NEG_INFINITY,
        Number::Infinite { negative: false } => f32::INFINITY,
        Number::Finite { negative, mantissa, exponent } => {
            let magnitude = (mantissa as f64 * 2f64.powi(exponent)) as f32;
            if negative {
                -magnitude
            } else {
                magnitude
            }
        }
    }
}

fn lc3(channel_counts: Vec<u8>) -> PacRecord {
    PacRecord {
        coding_format: 0x06,
        capabilities: CodecCapabilities {
            sampling_frequencies: vec![SamplingFrequency::from_hz(48_000).unwrap()],
            supports_7_5ms: true,
            supports_10ms: true,
            channel_counts,
            min_octets_per_frame: Some(26),
            max_octets_per_frame: Some(155),
            max_frames_per_sdu: 1,
        },
        raw: vec![],
    }
}

fn synthetic_capabilities(stereo: bool, sinks: u8) -> AudioCapabilities {
    AudioCapabilities {
        sink_records: vec![lc3(if stereo { vec![1, 2] } else { vec![1] })],
        source_records: vec![lc3(vec![1])],
        sink_locations: Some(LOCATION_STEREO),
        available_contexts: Some(0x0fff),
        supported_contexts: Some(0x0fff),
        sink_ase_ids: (1..=sinks).collect(),
        source_ase_ids: vec![3],
    }
}

#[test]
fn locations_are_reported_in_words() {
    assert_eq!(describe_locations(Some(LOCATION_STEREO)), "left + right (0x00000003)");
    assert_eq!(describe_locations(Some(LOCATION_FRONT_LEFT)), "left (0x00000001)");
    assert_eq!(describe_locations(Some(LOCATION_FRONT_RIGHT)), "right (0x00000002)");

    // A device claiming no ears at all is a real answer, not a missing one.
    assert_eq!(describe_locations(Some(0)), "none (0x00000000)");
    assert_eq!(describe_locations(None), "neuvedeno");
}

#[test]
fn capability_summary_mentions_what_matters() {
    let caps = synthetic_capabilities(true, 2);
    let summary = describe_capabilities(&caps);

    assert!(summary.contains("48 kHz"));
    assert!(summary.contains("stereo in one stream: yes"));
    assert!(summary.contains("sink ASE: [1, 2]"), "{summary}");
    // The microphone is listed too: an endpoint nobody mentions is an
    // endpoint nobody thinks to release.
    assert!(summary.contains("mikrofon"), "{summary}");
}

#[test]
fn device_without_lc3_is_described_plainly() {
    let caps = AudioCapabilities::default();
    assert_eq!(describe_capabilities(&caps), "zadne LC3 sink capabilities");
}

#[test]
fn name_hint_wins_over_signal_strength() {
    let devices = vec![
        DiscoveredDevice {
            address: BdAddr([1, 0, 0, 0, 0, 0]),
            address_type: 0,
            rssi: -30, // much closer
            name: Some("Nekde jinde".into()),
            appearance: None,
            service_uuids: vec![0x1850],
        },
        DiscoveredDevice {
            address: BdAddr([2, 0, 0, 0, 0, 0]),
            address_type: 0,
            rssi: -80,
            name: Some("JBL Tune 780NC".into()),
            appearance: None,
            service_uuids: vec![0x1850],
        },
    ];

    let picked = best_match(&devices, Some("JBL")).unwrap();
    assert_eq!(picked.name.as_deref(), Some("JBL Tune 780NC"));

    // With no hint, the nearest device wins.
    let nearest = best_match(&devices, None).unwrap();
    assert_eq!(nearest.rssi, -30);
}

#[test]
fn dither_still_counts_as_silence() {
    // What Windows actually sends when nothing is playing.
    let quiet: Vec<i16> = (0..480).map(|i| if i % 7 == 0 { 1 } else { 0 }).collect();
    assert!(is_silent(&quiet));

    // Quiet music is not silence, however quiet.
    let mut faint = vec![0i16; 480];
    faint[100] = 900;
    assert!(!is_silent(&faint));
}

#[test]
fn the_reconnect_window_eventually_gives_up() {
    let policy = ReconnectPolicy::default();

    assert!(policy.enabled);
    assert!(policy.should_retry(Duration::from_secs(0)));
    assert!(policy.should_retry(Duration::from_secs(119)));
    assert!(!policy.should_retry(Duration::from_secs(120)));
    assert_eq!(policy.attempts_in_window(), Some(24));
}

#[test]
fn reconnect_can_be_turned_off_and_made_endless() {
    assert!(!ReconnectPolicy::disabled().should_retry(Duration::zero()));
    assert!(ReconnectPolicy::forever().should_retry(Duration::from_secs(86_400)));
}

#[test]
fn a_disconnection_we_asked_for_is_not_retried() {
    // Local host terminated, and the peer powering off, are both decisions.
    assert!(!ReconnectPolicy::worth_reconnecting(0x16));
    assert!(!ReconnectPolicy::worth_reconnecting(0x15));

    // Out of range and a peer-side drop are both worth chasing.
    assert!(ReconnectPolicy::worth_reconnecting(0x08));
    assert!(ReconnectPolicy::worth_reconnecting(0x13));
}

#[test]
fn the_stack_goes_idle_after_five_minutes_by_default() {
    assert_eq!(SessionConfig::default().idle_timeout, Some(Duration::from_secs(300)));
}

#[test]
fn the_default_plays_at_full_quality() {
    let config = SessionConfig::default();

    // Attenuating by default cost three bits of resolution before the
    // encoder ever saw the signal. The soft-start ramp and the garbage
    // screen are what protect the listener now.
    assert_eq!(value(config.limiter.gain()), 1.0, "the default must be transparent");
    assert!(config.prefer_single_cis, "one CIS is the safer topology");
}

#[test]
fn address_parses_from_display_form() {
    let address = parse_address("7C:FE:62:72:B4:9A").unwrap();
    assert_eq!(address.to_text(), "7C:FE:62:72:B4:9A");
    assert!(parse_address("nonsense").is_none());
}
