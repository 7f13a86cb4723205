//! The audio loop, one action after the other.

use olea_core::bap::Preset;
use olea_core::hci::Event;
use olea_core::link::VolumeControlHandles;
use olea_core::number::Number;
use olea_core::session::playback::{priming_frames, ramp_after, Action, Ending, Playback};
use olea_core::session::{LiveAudioConfig, Progress, SessionError, VolumeBridge};
use olea_core::stream::{Microphone, StreamPlan, Topology};
use olea_core::time::Duration;
use olea_core::vcs::VolumeState;

const LEFT: u16 = 0x60;
const RIGHT: u16 = 0x61;
const ACL: u16 = 0x40;
const FRAME: usize = 480;

fn plan() -> StreamPlan {
    let codec = Preset::WindowsDefault.codec(false);
    let mut qos = Preset::WindowsDefault.qos(&codec);
    qos.sdu_interval_us = 10_000;
    StreamPlan {
        cig_id: 1,
        topology: Topology::DualCis,
        codec,
        qos,
        ase_ids: vec![1, 2],
        playback_enabled: true,
        microphone: None,
        target_latency: 2,
        context: 4,
    }
}

fn millis(n: u64) -> Duration {
    Duration::from_millis(n)
}

fn bridge() -> VolumeBridge {
    VolumeBridge {
        handles: VolumeControlHandles { state: 0x30, state_cccd: 0x31, control_point: 0x33 },
        volume: VolumeState { setting: 100, muted: false, change_counter: 0 },
        slider: true,
    }
}

fn start(idle: Option<Duration>) -> Playback {
    Playback::start(&plan(), &[LEFT, RIGHT], Some(ACL), true, FRAME, idle, Some(bridge()), millis(0)).unwrap()
}

/// Takes a loop from the start of a turn to where a frame is captured.
fn up_to_capture(p: &mut Playback, live: LiveAudioConfig, now: Duration) {
    assert!(matches!(p.begin(), Action::CheckStop));
    assert!(matches!(p.stop_checked(false), Action::ReadEvents));
    let mut action = p.events_read(&[], now);
    if let Action::SendCommand(command) = action {
        assert_eq!(command, vec![0x05, 0x14, 2, 0x40, 0x00]);
        action = p.command_sent(true, now);
    }
    assert!(matches!(action, Action::ReadLive));
    action = p.live_read(live);
    if let Action::SwitchMonitor(source) = action {
        action = p.monitor_switched(source.is_some());
    }
    assert!(matches!(action, Action::ReadAcl), "{action:?}");
    assert!(matches!(p.acl_read(None), Action::Capture(n) if n == FRAME));
}

/// Plays one frame of this sample, and gives what the loop wants after encoding.
fn play(p: &mut Playback, sample: i16, now: Duration) -> Action {
    up_to_capture(p, LiveAudioConfig::default(), now);
    let frame = vec![sample; FRAME * 2];
    assert!(matches!(p.captured(Ok(Some(frame.clone()))), Action::Screen { .. }));
    assert!(matches!(p.screened(Ok(frame)), Action::Encode(_)));
    p.encoded(Ok(vec![vec![1], vec![2]]), now)
}

#[test]
fn without_a_channel_there_is_nothing_to_play_to() {
    let none = Playback::start(&plan(), &[], Some(ACL), true, FRAME, None, None, millis(0));
    assert!(matches!(none, Err(SessionError::NoCisEstablished)));
}

#[test]
fn reports_tell_how_the_loop_ended() {
    let mut ending = Ending::new();
    assert_eq!(ending, Ending { lost: None, yielded: false });
    assert_eq!(ramp_after(&Progress::Resumed), Some(60));
    for other in [Progress::Idle { after: millis(1) }, Progress::Stopped { reason: "r".into() }] {
        ending.take_note(&other);
        assert_eq!(ending, Ending::new());
        assert_eq!(ramp_after(&other), None);
    }
    ending.take_note(&Progress::Yielded { after: millis(1) });
    assert_eq!(ending, Ending { lost: None, yielded: true });
    ending.take_note(&Progress::Disconnected { reason: 0x13 });
    assert_eq!(ending, Ending { lost: Some(0x13), yielded: true });
}

#[test]
fn two_channels_start_together() {
    assert_eq!(priming_frames(&plan(), 2), 20);
    assert_eq!(priming_frames(&plan(), 1), 0);
    let single = StreamPlan { topology: Topology::SingleCis, ..plan() };
    assert_eq!(priming_frames(&single, 2), 0);
}

#[test]
fn a_user_who_asks_to_stop_is_obeyed() {
    match start(None).stop_checked(true) {
        Action::Finish { report: Some(Progress::Stopped { reason }), result: Ok(()) } => {
            assert_eq!(reason, "zastaveno uzivatelem")
        }
        other => panic!("{other:?}"),
    }
}

#[test]
fn a_frame_goes_out_as_one_packet_for_each_channel() {
    let mut p = start(None);
    assert!(matches!(play(&mut p, 900, millis(0)), Action::SendIso(packet) if packet == vec![1]));
    assert!(matches!(p.packet_sent(None, millis(1)), Action::SendIso(packet) if packet == vec![2]));
    // What is left of the interval is slept away.
    match p.packet_sent(None, millis(2)) {
        Action::Sleep { flush: false, duration } => assert_eq!(duration, millis(8)),
        other => panic!("{other:?}"),
    }
}

#[test]
fn a_loop_that_fell_behind_owes_nothing() {
    let mut p = start(None);
    play(&mut p, 900, millis(500));
    p.packet_sent(None, millis(500));
    match p.packet_sent(None, millis(500)) {
        Action::Sleep { duration, .. } => assert_eq!(duration, Duration::zero()),
        other => panic!("{other:?}"),
    }
    // The next interval is counted from here.
    play(&mut p, 900, millis(501));
    p.packet_sent(None, millis(502));
    match p.packet_sent(None, millis(503)) {
        Action::Sleep { duration, .. } => assert_eq!(duration, millis(7)),
        other => panic!("{other:?}"),
    }
}

#[test]
fn a_lost_link_ends_the_loop() {
    for handle in [LEFT, RIGHT, ACL] {
        let mut p = start(None);
        p.stop_checked(false);
        let gone = Event { code: 0x05, params: vec![0, handle as u8, 0, 0x08] };
        assert!(matches!(
            p.events_read(&[gone], millis(0)),
            Action::Finish { report: Some(Progress::Disconnected { reason: 0x08 }), result: Ok(()) }
        ));
    }
    let mut p = start(None);
    let other = Event { code: 0x05, params: vec![0, 0x77, 0, 0x08] };
    assert!(!matches!(p.events_read(&[other], millis(0)), Action::Finish { .. }));
}

#[test]
fn counters_are_reported_once_a_second() {
    let mut p = start(None);
    up_to_capture(&mut p, LiveAudioConfig::default(), millis(0));
    // Each delivery is counted once, whatever the number of frames after it.
    let delivered = Event { code: 0x13, params: vec![2, 0x60, 0, 3, 0, 0x61, 0, 1, 0] };
    let stranger = Event { code: 0x13, params: vec![1, 0x77, 0, 9, 0] };
    let signal = Event { code: 0x0E, params: vec![1, 0x05, 0x14, 0, 0x40, 0, 0xC4] };
    p.events_read(&[delivered, stranger, signal], millis(1));
    for turn in 0..3 {
        play(&mut p, 900, millis(10 * turn));
        p.packet_sent(None, millis(10 * turn));
        p.packet_sent(None, millis(10 * turn));
    }
    play(&mut p, 900, millis(1_000));
    p.packet_sent(None, millis(1_000));
    match p.packet_sent(None, millis(1_000)) {
        Action::ReportStreaming(counters) => {
            assert_eq!((counters.frames, counters.iso_sent, counters.iso_failed), (4, 8, 0));
            assert_eq!(counters.delivered, vec![3, 1]);
            assert_eq!(counters.rssi, Some(-60));
        }
        other => panic!("{other:?}"),
    }
    // A backlog that keeps growing is thrown away.
    let mut q = start(None);
    assert!(matches!(q.streaming_reported(FRAME * 8, millis(0)), Action::Sleep { flush: false, .. }));
    assert!(matches!(q.streaming_reported(FRAME * 8 + 1, millis(0)), Action::Sleep { flush: true, .. }));
}

#[test]
fn one_question_about_the_signal_at_a_time() {
    let mut p = start(None);
    assert!(matches!(p.events_read(&[], millis(0)), Action::SendCommand(_)));
    p.command_sent(true, millis(0));
    assert!(matches!(p.events_read(&[], millis(5_000)), Action::ReadLive));
    let answer = || Event { code: 0x0E, params: vec![1, 0x05, 0x14, 0, 0x40, 0, 0xC4] };
    assert!(matches!(p.events_read(&[answer()], millis(5_000)), Action::SendCommand(_)));
    // A question that could not be sent is put again after a second.
    p.command_sent(false, millis(5_000));
    assert!(matches!(p.events_read(&[], millis(5_999)), Action::ReadLive));
    assert!(matches!(p.events_read(&[], millis(6_000)), Action::SendCommand(_)));
}

#[test]
fn lasting_silence_pauses_and_sound_resumes() {
    let mut p = start(Some(millis(100)));
    assert!(matches!(play(&mut p, 3, millis(0)), Action::SendIso(_)));
    assert!(matches!(play(&mut p, 3, millis(99)), Action::SendIso(_)));
    match play(&mut p, 3, millis(100)) {
        Action::Report(Progress::Idle { after }) => assert_eq!(after, millis(100)),
        other => panic!("{other:?}"),
    }
    assert!(matches!(p.announced(millis(100)), Action::Sleep { flush: false, .. }));
    // Nothing is sent while the stream is idle.
    assert!(matches!(play(&mut p, 3, millis(110)), Action::Sleep { .. }));

    assert!(matches!(play(&mut p, 900, millis(120)), Action::Report(Progress::Resumed)));
    assert!(matches!(p.announced(millis(120)), Action::SendIso(_)));
    // Sound in between starts the count again.
    assert!(matches!(play(&mut p, 3, millis(130)), Action::SendIso(_)));
    assert!(matches!(play(&mut p, 3, millis(229)), Action::SendIso(_)));
}

#[test]
fn a_dropped_transport_ends_playback_and_another_fault_is_one() {
    let mut p = start(None);
    play(&mut p, 900, millis(0));
    let usb = SessionError::Transport { usb: true, text: "gone".into() };
    match p.packet_sent(Some(usb), millis(0)) {
        Action::Finish { report: Some(Progress::Stopped { reason }), result: Ok(()) } => {
            assert_eq!(reason, "gone")
        }
        other => panic!("{other:?}"),
    }
    let mut p = start(None);
    play(&mut p, 900, millis(0));
    let misrouted = SessionError::Transport { usb: false, text: "wrong pipe".into() };
    assert!(matches!(
        p.packet_sent(Some(misrouted), millis(0)),
        Action::Finish { result: Err(SessionError::Transport { usb: false, .. }), .. }
    ));
}

#[test]
fn what_fails_on_the_way_ends_the_loop() {
    let mut p = start(None);
    assert!(matches!(
        p.captured(Err("unplugged".into())),
        Action::Finish { report: None, result: Err(SessionError::Audio(_)) }
    ));
    match p.screened(Err("that is noise".into())) {
        Action::Finish { report: Some(Progress::Stopped { reason }), result: Err(SessionError::Screened(_)) } => {
            assert_eq!(reason, "that is noise")
        }
        other => panic!("{other:?}"),
    }
    assert!(matches!(
        p.encoded(Err("no".into()), millis(0)),
        Action::Finish { report: None, result: Err(SessionError::Encode(_)) }
    ));
    assert!(matches!(
        p.rendered(Err("no".into())),
        Action::Finish { report: None, result: Err(SessionError::Audio(_)) }
    ));
    assert!(matches!(p.rendered(Ok(())), Action::ReadAcl));
}

#[test]
fn nothing_captured_means_a_short_wait() {
    let mut p = start(None);
    match p.captured(Ok(None)) {
        Action::Sleep { flush: false, duration } => assert_eq!(duration, Duration::from_micros(2_500)),
        other => panic!("{other:?}"),
    }
    let mut quiet = plan();
    quiet.playback_enabled = false;
    let mut p = Playback::start(&quiet, &[LEFT], Some(ACL), false, FRAME, None, None, millis(0)).unwrap();
    assert!(matches!(p.captured(Ok(Some(vec![1; 8]))), Action::Sleep { .. }));
}

#[test]
fn the_gain_that_is_asked_for_is_held() {
    let mut p = start(None);
    let loud = LiveAudioConfig { output_gain: Number::ratio(5, 1), ..LiveAudioConfig::default() };
    up_to_capture(&mut p, loud, millis(0));
    match p.captured(Ok(Some(vec![7; 4]))) {
        Action::Screen { samples, gain } => {
            assert_eq!(samples, vec![7; 4]);
            assert_eq!(gain, Number::ratio(2, 1));
        }
        other => panic!("{other:?}"),
    }
}

fn listening(source: &str, replace: bool) -> LiveAudioConfig {
    LiveAudioConfig {
        monitor_enabled: true,
        monitor_source: source.to_owned(),
        monitor_replace: replace,
        ..LiveAudioConfig::default()
    }
}

#[test]
fn what_is_listened_to_is_mixed_in_or_replaces() {
    let mut p = start(None);
    p.events_read(&[], millis(0));
    p.command_sent(true, millis(0));
    assert!(matches!(p.live_read(listening("mic", false)), Action::SwitchMonitor(Some(s)) if s == "mic"));
    p.monitor_switched(true);
    p.acl_read(None);
    assert!(matches!(p.captured(Ok(Some(vec![10, 20, 30_000, -5]))), Action::CaptureMonitor(2)));
    match p.monitor_captured(Some(vec![5, 9_000])) {
        Action::Screen { samples, .. } => assert_eq!(samples, vec![15, 25, 32_767, 8_995]),
        other => panic!("{other:?}"),
    }

    p.live_read(listening("mic", true));
    p.captured(Ok(Some(vec![10, 20, 30, 40])));
    match p.monitor_captured(None) {
        Action::Screen { samples, .. } => assert_eq!(samples, vec![0; 4]),
        other => panic!("{other:?}"),
    }
    // Switching off closes it.
    assert!(matches!(p.live_read(LiveAudioConfig::default()), Action::SwitchMonitor(None)));
}

fn iso(handle: u16, payload: &[u8]) -> Vec<u8> {
    let mut raw = handle.to_le_bytes().to_vec();
    raw[1] |= 0x20;
    raw.extend(((payload.len() + 4) as u16).to_le_bytes());
    raw.extend([1, 0]);
    raw.extend((payload.len() as u16).to_le_bytes());
    raw.extend(payload);
    raw
}

#[test]
fn the_microphone_of_the_headset_is_published_and_listened_to() {
    let mut heard = plan();
    heard.microphone = Some(Microphone { ase_id: 5, cis_id: 0, codec: heard.codec });
    let mut p = Playback::start(&heard, &[LEFT, RIGHT], Some(ACL), true, FRAME, None, None, millis(0)).unwrap();
    p.events_read(&[], millis(0));
    p.command_sent(true, millis(0));
    // Nothing is opened for it: it comes over the air.
    assert!(matches!(p.live_read(listening("headset", true)), Action::SwitchMonitor(None)));
    assert!(matches!(p.monitor_switched(false), Action::ReadAcl));
    assert!(matches!(p.acl_read(Some(&iso(LEFT, &[9, 9]))), Action::Decode(frame) if frame == vec![9, 9]));
    match p.decoded(Some(&[100, 200])) {
        Action::Render { samples, rate, gain } => {
            assert_eq!(samples, vec![100, 200]);
            assert_eq!(Some(rate), heard.codec.sampling_frequency.hz());
            assert_eq!(gain, Number::ratio(1, 1));
        }
        other => panic!("{other:?}"),
    }
    p.acl_read(None);
    match p.captured(Ok(Some(vec![1, 1, 2, 2, 3, 3]))) {
        Action::Screen { samples, .. } => assert_eq!(samples, vec![100, 100, 200, 200, 0, 0]),
        other => panic!("{other:?}"),
    }
    // A damaged frame is passed over.
    assert!(matches!(p.decoded(None), Action::ReadAcl));
}

fn acl(cid: u16, payload: &[u8]) -> Vec<u8> {
    let mut raw = vec![ACL as u8, 0x20];
    raw.extend(((payload.len() + 4) as u16).to_le_bytes());
    raw.extend((payload.len() as u16).to_le_bytes());
    raw.extend(cid.to_le_bytes());
    raw.extend(payload);
    raw
}

#[test]
fn a_volume_button_moves_the_slider() {
    let mut p = start(None);
    let moved = acl(4, &[0x1B, 0x30, 0, 51, 1, 1]);
    match p.acl_read(Some(&moved)) {
        Action::MoveSlider { level, muted } => {
            assert_eq!(level, Number::ratio(51, 255));
            assert!(muted);
        }
        other => panic!("{other:?}"),
    }
    assert!(matches!(p.answered(), Action::ReadAcl));
    assert_eq!(
        p.volume().unwrap().state(),
        VolumeState { setting: 51, muted: true, change_counter: 1 },
    );
    // The same state again moves nothing, and neither does another value.
    assert!(matches!(p.acl_read(Some(&moved)), Action::ReadAcl));
    assert!(matches!(p.acl_read(Some(&acl(4, &[0x1B, 0x44, 0, 9, 0, 2]))), Action::ReadAcl));
}

#[test]
fn a_parameter_request_is_answered_while_music_plays() {
    let mut p = start(None);
    let request = acl(5, &[0x12, 7, 8, 0, 6, 0, 12, 0, 0, 0, 0xF4, 1]);
    match p.acl_read(Some(&request)) {
        Action::SendAcl(packets) => {
            assert_eq!(packets.len(), 1);
            assert_eq!(packets[0][4..], [6, 0, 5, 0, 0x13, 7, 2, 0, 0, 0]);
        }
        other => panic!("{other:?}"),
    }
}
