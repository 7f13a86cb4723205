//! Devices: who is found, what they publish, and what audio becomes.

use olea_core::audio::{mix, resample_mono, same_virtual_cable, scale, scale_all};
use olea_core::bap::{
    parse_configured_codec, parse_preferred_qos, parse_state, receiver_start_ready, release,
    state_name, CodecCapabilities, FrameDuration, PacRecord, Preset, SamplingFrequency,
};
use olea_core::capabilities::codec_envelope;
use olea_core::cis::{data_path_commands, judge_group, parse_offered, CisOutcome};
use olea_core::device::{best_match, merge_report, order_found, pick_device};
use olea_core::hci::{BdAddr, Event};
use olea_core::link::{AudioCapabilities, Link, Reply, Step};
use olea_core::number::Number;
use olea_core::session::{
    describe_capabilities, Adapter, DiscoveredDevice, Progress, Session, SessionConfig, SessionError,
};

fn device(last: u8, rssi: i8, name: Option<&str>, uuids: &[u16]) -> DiscoveredDevice {
    DiscoveredDevice {
        address: BdAddr([last, 0, 0, 0, 0, 0]),
        address_type: 0,
        rssi,
        name: name.map(str::to_owned),
        appearance: None,
        service_uuids: uuids.to_vec(),
    }
}

#[test]
fn a_device_offers_le_audio_if_it_says_so() {
    assert!(device(1, 0, None, &[0x184E]).is_le_audio());
    assert!(device(1, 0, None, &[0x180F, 0x1850]).is_le_audio());
    assert!(!device(1, 0, None, &[0x180F]).is_le_audio());
    assert!(!device(1, 0, None, &[]).is_le_audio());
}

#[test]
fn a_later_report_adds_to_what_is_known() {
    let mut found = vec![];
    merge_report(&mut found, &device(1, -70, None, &[0x1850]));
    merge_report(&mut found, &device(2, -40, Some("Other"), &[]));
    merge_report(&mut found, &device(1, -60, Some("JBL"), &[0x184E]));
    assert_eq!(found.len(), 2);
    assert_eq!(found[0].rssi, -60);
    assert_eq!(found[0].name.as_deref(), Some("JBL"));
    assert!(found[0].service_uuids.contains(&0x1850) && found[0].service_uuids.contains(&0x184E));

    // A nameless report does not take the name away.
    merge_report(&mut found, &device(1, -65, None, &[]));
    assert_eq!(found[0].name.as_deref(), Some("JBL"));
}

#[test]
fn a_scan_keeps_the_devices_in_order() {
    let found = vec![
        device(1, -80, Some("Far"), &[0x1850]),
        device(2, -30, Some("Near"), &[0x1850]),
    ];
    let ordered = order_found(&found);
    assert_eq!(ordered.len(), 2);
    assert_eq!(ordered[0].rssi, -30);

    let mut session = Session::new(SessionConfig::default());
    assert!(matches!(session.scan(Err("x".into())), Err(SessionError::NoDeviceFound)));
    let adapter = Adapter { version: None, address: None };
    session.open_adapter(Ok(adapter)).unwrap();
    let (devices, told) = session.scan(Ok(found)).unwrap();
    assert_eq!(devices.len(), told.len());
    assert!(matches!(&told[0], Progress::DeviceFound { name, .. } if name == "Near"));

    // What a device says may be split across reports.
    let split = vec![
        device(1, -80, None, &[]),
        device(2, -30, Some("Near"), &[]),
        device(1, -70, Some("Far"), &[0x1850]),
    ];
    let (devices, told) = session.scan(Ok(split)).unwrap();
    assert_eq!(devices.len(), 2);
    assert!(matches!(&told[0], Progress::DeviceFound { name, rssi: -70, le_audio: true, .. } if name == "Far"));
    assert!(matches!(session.scan(Ok(vec![])), Err(SessionError::NoDeviceFound)));
    assert!(matches!(session.scan(Err("scanner is busy".into())), Err(SessionError::Controller(t)) if t == "scanner is busy"));
}

#[test]
fn a_hint_is_found_whatever_its_case() {
    let devices = [
        device(1, -30, Some("SPEAKER"), &[0x1850]),
        device(2, -80, Some("JBL TUNE 780NC"), &[0x1850]),
        device(3, -20, None, &[]),
    ];
    assert_eq!(best_match(&devices, Some("jbl tune")).unwrap().rssi, -80);
    // ÄÖ become äö, which only the machine's tables know.
    let umlaut = [device(1, -30, Some("KOPFHÖRER"), &[0x1850])];
    assert!(best_match(&umlaut, Some("kopfhörer")).is_some());
    assert!(best_match(&[], Some("x")).is_none());
}

#[test]
fn the_names_that_were_lowered_decide() {
    let devices = [device(1, -30, Some("A"), &[0x1850]), device(2, -80, Some("B"), &[0x1850])];
    let names = [Some("a".to_owned()), Some("b".to_owned())];
    assert_eq!(pick_device(&devices, &names, Some("b")), Some(1));
    assert_eq!(pick_device(&devices, &names, None), Some(0));
}

fn record(rates: &[u32], channels: &[u8], min: u16, max: u16, seven: bool, ten: bool) -> PacRecord {
    PacRecord {
        coding_format: 0x06,
        capabilities: CodecCapabilities {
            sampling_frequencies: rates.iter().map(|&hz| SamplingFrequency::from_hz(hz).unwrap()).collect(),
            supports_7_5ms: seven,
            supports_10ms: ten,
            channel_counts: channels.to_vec(),
            min_octets_per_frame: Some(min),
            max_octets_per_frame: Some(max),
            max_frames_per_sdu: 1,
        },
        raw: vec![],
    }
}

#[test]
fn an_envelope_holds_what_any_record_holds() {
    let envelope = codec_envelope(&[
        record(&[48_000, 16_000], &[2], 40, 100, true, false),
        record(&[32_000, 48_000], &[1, 2], 26, 155, false, true),
    ]);
    assert_eq!(envelope.rates, vec![16_000, 32_000, 48_000]);
    assert_eq!(envelope.channels, vec![1, 2]);
    assert!(envelope.supports_7_5ms && envelope.supports_10ms);
    assert_eq!((envelope.octets_min, envelope.octets_max), (Some(26), Some(155)));

    let nothing = codec_envelope(&[]);
    assert!(nothing.rates.is_empty() && !nothing.supports_10ms);
    assert_eq!(nothing.octets_min, None);
}

#[test]
fn the_order_of_records_does_not_matter() {
    let first = || record(&[48_000, 16_000], &[2], 40, 100, true, false);
    let second = || record(&[32_000, 48_000], &[1], 26, 155, false, true);
    let foreign = || PacRecord { coding_format: 0xFF, ..record(&[8_000], &[2], 1, 200, true, true) };
    let published = |sink_records: Vec<PacRecord>, source_records: Vec<PacRecord>| {
        let mut caps = AudioCapabilities::default();
        caps.sink_ase_ids = vec![1, 2];
        caps.sink_records = sink_records;
        caps.source_records = source_records;
        describe_capabilities(&caps)
    };
    let text = published(vec![first(), second()], vec![]);
    assert!(text.contains("2 zaznamu"));
    assert_eq!(published(vec![second(), first()], vec![]), text);
    assert_eq!(published(vec![second(), foreign(), first()], vec![first()]), text);
}

#[test]
fn a_published_record_is_read() {
    // One LC3 record: 48 kHz, both durations, one or two channels, 26 to 155 octets.
    let value = [
        1, 0x06, 0, 0, 0, 0, 16, 3, 0x01, 0x80, 0x00, 2, 0x02, 0x03, 2, 0x03, 0x03, 5, 0x04, 26, 0,
        155, 0, 0,
    ];
    let records = PacRecord::parse_characteristic(&value);
    assert_eq!(records.len(), 1);
    assert!(records[0].is_lc3());
    let c = &records[0].capabilities;
    assert_eq!(c.sampling_frequencies, vec![SamplingFrequency::from_hz(48_000).unwrap()]);
    assert!(c.supports_7_5ms && c.supports_10ms && c.supports_stereo_in_one_stream());
    assert_eq!(c.channel_counts, vec![1, 2]);
    assert_eq!((c.min_octets_per_frame, c.max_octets_per_frame), (Some(26), Some(155)));
    assert!(PacRecord::parse_characteristic(&[]).is_empty());
}

#[test]
fn an_endpoint_says_which_state_it_is_in() {
    let state = parse_state(&[3, 4]).unwrap();
    assert_eq!((state.ase_id, state.state), (3, 4));
    assert!(parse_state(&[3]).is_none());
    assert_ne!(state_name(0), state_name(4));
    assert_eq!(release(3), vec![0x08, 1, 3]);
    assert_eq!(receiver_start_ready(3), vec![0x04, 1, 3]);
}

#[test]
fn a_delay_within_the_range_is_kept() {
    let mut v = vec![1, 1, 0, 2, 5, 20, 0];
    for delay in [20_000u32, 40_000, 25_000, 30_000] {
        v.extend(&delay.to_le_bytes()[..3]);
    }
    let qos = parse_preferred_qos(&v).unwrap();
    assert_eq!((qos.phy_preference, qos.retransmission_preference), (2, 5));
    assert_eq!(qos.max_transport_latency_ms, 20);
    assert_eq!(qos.preferred_delay_min_us, 25_000);
    for wanted in [0, 10_000, 20_000, 26_000, 39_999, 90_000] {
        let chosen = qos.choose_presentation_delay(wanted);
        assert!((20_000..=40_000).contains(&chosen), "{wanted} became {chosen}");
    }
    assert_eq!(qos.choose_presentation_delay(26_000), 26_000);
    // Another state holds no preferences.
    v[1] = 2;
    assert!(parse_preferred_qos(&v).is_none());
    assert!(parse_configured_codec(&[1, 1]).is_none());
}

#[test]
fn presets_differ_and_fit_their_codecs() {
    let all = [Preset::WindowsDefault, Preset::LowLatency, Preset::HighQuality, Preset::Robust];
    for (i, a) in all.iter().enumerate() {
        let codec = a.codec(false);
        let qos = a.qos(&codec);
        assert_eq!(qos.sdu_interval_us, codec.frame_duration.microseconds());
        assert_eq!(codec.channel_count(), 1);
        assert_eq!(a.codec(true).channel_count(), 2);
        for b in &all[i + 1..] {
            assert_ne!(a.label(), b.label());
        }
    }
    // What the usual one is known to be made of.
    let usual = Preset::WindowsDefault.codec(false);
    assert_eq!(usual.sampling_frequency.hz(), Some(48_000));
    assert!(matches!(usual.frame_duration, FrameDuration::Ms7_5 | FrameDuration::Ms10));
    assert_eq!(Preset::WindowsDefault.qos(&usual).retransmission_number, 13);
}

#[test]
fn rates_have_codes() {
    for hz in [8_000, 16_000, 24_000, 32_000, 44_100, 48_000] {
        assert_eq!(SamplingFrequency::from_hz(hz).unwrap().hz(), Some(hz));
    }
    assert_eq!(SamplingFrequency::from_hz(12_345), None);
    assert_eq!(SamplingFrequency { code: 0 }.hz_or_48000(), 48_000);
}

#[test]
fn a_group_is_judged_in_its_own_order() {
    assert_eq!(parse_offered(&[0, 1, 2, 0x60, 0, 0x61, 0]), vec![0x60, 0x61]);
    assert_eq!(parse_offered(&[0, 1, 2, 0x60, 0]), vec![0x60]);
    assert!(parse_offered(&[0, 1]).is_empty());

    let report = |status: u8, handle: u8| Event { code: 0x3E, params: vec![0x19, status, handle, 0] };
    let outcome = judge_group(&[0x60, 0x61, 0x62], &[report(0, 0x61), report(0x3E, 0x62), report(0, 0x60)]);
    assert_eq!(outcome.established, vec![0x60, 0x61]);
    assert_eq!(outcome.failed, vec![(0x62, 0x3E)]);
    assert!(!outcome.complete());

    let quiet = judge_group(&[0x60, 0x61], &[report(0, 0x60)]);
    assert_eq!(quiet.failed, vec![(0x61, 0xFF)]);
    assert!(quiet.describe().starts_with("ustaveno 1 z 2, nepovedlo se: "), "{}", quiet.describe());

    let whole = CisOutcome { established: vec![0x60, 0x61], failed: vec![] };
    assert!(whole.complete());
    assert_eq!(whole.describe(), "2 channels established");
}

#[test]
fn each_channel_gets_its_data_path() {
    let commands = data_path_commands(&[0x60, 0x61], 2, None);
    assert_eq!(commands.len(), 2);
    for (command, handle) in commands.iter().zip([0x60u8, 0x61]) {
        assert_eq!(command[..2], [0x6E, 0x20]);
        assert_eq!((command[3], command[5]), (handle, 0));
    }
    // The microphone comes the other way.
    let heard = data_path_commands(&[0x60, 0x61], 2, Some(0));
    assert!(heard.iter().any(|c| c[3] == 0x60 && c[5] == 1));
}

#[test]
fn audio_is_mixed_without_wrapping() {
    assert_eq!(mix(&[1, 2, 3, 4], &[10, 20], false), vec![11, 12, 23, 24]);
    assert_eq!(mix(&[1, 2, 3, 4], &[10, 20], true), vec![10, 10, 20, 20]);
    assert_eq!(mix(&[32_000, -32_000], &[1_000], false), vec![32_767, -31_000]);
    assert_eq!(mix(&[1, 2, 3], &[5, 5], false), vec![6, 7, 3]);
    // Silence changes nothing.
    assert_eq!(mix(&[5, -6], &[0], false), vec![5, -6]);
}

#[test]
fn gains_are_held_between_nothing_and_twice() {
    assert_eq!(scale(100, Number::ratio(1, 2)), 50);
    assert_eq!(scale(100, Number::ratio(9, 1)), 200);
    assert_eq!(scale(30_000, Number::ratio(2, 1)), 32_767);
    assert_eq!(scale(-30_000, Number::ratio(2, 1)), -32_768);
    assert_eq!(scale_all(&[3, -3], Number::ratio(1, 2)), vec![1, -1]);
}

#[test]
fn a_slower_microphone_is_stretched() {
    let one = Number::ratio(1, 1);
    assert_eq!(resample_mono(&[1, 2, 3], 48_000, 48_000, one), vec![1, 2, 3]);
    let stretched = resample_mono(&[10, 20], 16_000, 48_000, one);
    assert_eq!(stretched.len(), 6);
    assert_eq!(stretched[0], 10);
    assert!(resample_mono(&[], 16_000, 48_000, one).is_empty());
}

#[test]
fn two_ends_of_one_cable_are_noticed() {
    assert!(same_virtual_cable("CABLE Output (VB-Audio)", "CABLE Input (VB-Audio)"));
    assert!(!same_virtual_cable("CABLE-A Output", "CABLE-B Input"));
    assert!(!same_virtual_cable("CABLE Output", "Speakers"));
}

#[test]
fn what_a_device_can_do_is_read_from_it() {
    // It publishes nothing of the kind.
    let reply = |bytes: &[u8]| Reply { mtu: 247, answer: Ok(bytes.to_vec()) };
    let mut replies: Vec<Reply> = vec![];
    let outcome = loop {
        match Link::read_audio_capabilities(&replies, 0) {
            Step::Ask(pdu) => {
                let answer = match pdu[0] {
                    0x02 => reply(&[0x03, 0xF7, 0]),
                    request => reply(&[0x01, request, 0, 0, 0x0A]),
                };
                replies.push(answer);
            }
            Step::Done(_, _) => panic!("there is no service"),
            Step::Failed(error, _) => break error,
        }
    };
    assert_eq!(outcome.text(), "service 0x1850 not found on this device");
}
