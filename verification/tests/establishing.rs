//! Pairing, bringing channels up, and talking to a device.

use olea_core::att::Uuid;
use olea_core::bap::Preset;
use olea_core::hci::{BdAddr, Event};
use olea_core::link::{
    att_timeout, AudioCapabilities, HciPump, Link, LinkError, Reaction, Reply, Step,
    VolumeControlHandles, Watch,
};
use olea_core::number::Number;
use olea_core::safety::SafetyViolation;
use olea_core::session::establish::{Fact, Job, Work};
use olea_core::session::{
    notification, Adapter, DiscoveredDevice, PairingRound, PairingStep, Progress, Session,
    SessionConfig, SessionError, VolumeBridge,
};
use olea_core::stream::{StreamPlan, Topology};
use olea_core::time::Duration;
use olea_core::vcs::VolumeState;

fn session() -> Session {
    let mut session = Session::new(SessionConfig::default());
    let adapter = Adapter { version: None, address: Some(BdAddr([1, 2, 3, 4, 5, 6])) };
    session.open_adapter(Ok(adapter)).unwrap();
    session
}

fn peer() -> DiscoveredDevice {
    DiscoveredDevice {
        address: BdAddr([9; 6]),
        address_type: 1,
        rssi: -50,
        name: None,
        appearance: None,
        service_uuids: vec![],
    }
}

fn plan() -> StreamPlan {
    let codec = Preset::WindowsDefault.codec(false);
    StreamPlan {
        cig_id: 3,
        topology: Topology::DualCis,
        codec,
        qos: Preset::WindowsDefault.qos(&codec),
        ase_ids: vec![1, 2],
        playback_enabled: true,
        microphone: None,
        target_latency: 2,
        context: 4,
    }
}

#[test]
fn an_adapter_without_details_is_unknown() {
    let mut s = Session::new(SessionConfig::default());
    assert!(!s.is_open());
    match s.open_adapter(Ok(Adapter { version: None, address: None })).unwrap() {
        Progress::AdapterReady { version, address } => {
            assert_eq!((version.as_str(), address.as_str()), ("unknown", "unknown"))
        }
        other => panic!("{other:?}"),
    }
    assert!(s.is_open());
    assert!(s.shutdown());
    assert!(!s.is_open());
    assert!(!s.shutdown());
}

#[test]
fn a_connection_comes_up_or_says_why_not() {
    let s = session();
    assert_eq!(s.connect(Ok(Some(0x40))).unwrap(), 0x40);
    assert!(matches!(s.connect(Ok(None)), Err(SessionError::ConnectFailed)));
    assert!(matches!(s.connect(Err("x".into())), Err(SessionError::Controller(_))));
    assert!(s.resume_encryption(Ok(true)).is_ok());
    assert!(matches!(s.resume_encryption(Ok(false)), Err(SessionError::EncryptionFailed)));
    assert_eq!(s.disconnect(0x40), Some(vec![0x06, 0x04, 3, 0x40, 0, 0x13]));

    let off = Session::new(SessionConfig::default());
    assert!(matches!(off.connect(Ok(Some(1))), Err(SessionError::NoDeviceFound)));
    assert!(matches!(off.open_link(1), Err(SessionError::NoDeviceFound)));
    assert_eq!(off.disconnect(1), None);
}

#[test]
fn pairing_goes_round_by_round_and_ends_with_the_key() {
    let s = session();
    let ok = |b: u8| -> Result<Vec<u8>, SessionError> { Ok(vec![b]) };
    let mut results = vec![];
    match s.pair(&peer(), &results) {
        PairingStep::Start { local, peer, peer_is_random } => {
            assert_eq!((local, peer), (BdAddr([1, 2, 3, 4, 5, 6]), BdAddr([9; 6])));
            assert!(peer_is_random);
        }
        other => panic!("{other:?}"),
    }
    let rounds = [
        PairingRound::Response,
        PairingRound::PublicKey,
        PairingRound::Confirm,
        PairingRound::Random,
        PairingRound::Check,
    ];
    let mut value = 0u8;
    for round in rounds {
        results.push(ok(value));
        match s.pair(&peer(), &results) {
            PairingStep::Exchange(pdu) => {
                assert_ne!(round, PairingRound::Confirm);
                assert_eq!(pdu, vec![value]);
            }
            PairingStep::Receive => assert_eq!(round, PairingRound::Confirm),
            other => panic!("{other:?}"),
        }
        value += 1;
        results.push(ok(value));
        match s.pair(&peer(), &results) {
            PairingStep::Handle(r, pdu) => assert_eq!((r, pdu), (round, vec![value])),
            other => panic!("{other:?}"),
        }
        value += 1;
    }
    results.push(ok(77));
    assert!(matches!(s.pair(&peer(), &results), PairingStep::Encrypt(key) if key == vec![77]));

    // The first failure ends it.
    results.insert(3, Err(SessionError::Pairing("refused".into())));
    assert!(matches!(s.pair(&peer(), &results), PairingStep::Failed(SessionError::Pairing(t)) if t == "refused"));
}

fn fact(bytes: &[u8]) -> Fact {
    Fact { error: None, bytes: bytes.to_vec(), events: vec![] }
}

fn up(status: u8, handle: u8) -> Event {
    Event { code: 0x3E, params: vec![0x19, status, handle, 0] }
}

/// Performs the work with these reports for each attempt, one to a wait, and lists
/// what was done. Where the reports of an attempt run out, the controller is silent.
fn establish(attempts: &[Vec<Event>]) -> (Vec<String>, Result<(Vec<u16>, Vec<(u16, u8)>), String>) {
    let s = session();
    let mut facts: Vec<Fact> = vec![];
    let mut done = vec![];
    let mut attempt = 0;
    let mut heard = 0;
    loop {
        match s.establish_isochronous(&plan(), &[0x62, 0x20, 0], 0x40, &facts) {
            Work::Do(Job::Command(command)) => {
                done.push(format!("command {:#06x}", u16::from_le_bytes([command[0], command[1]])));
                if command[0] == 0x62 {
                    attempt += 1;
                    heard = 0;
                }
                let offer: &[u8] = if command[0] == 0x62 { &[0, 3, 2, 0x60, 0, 0x61, 0] } else { &[0] };
                facts.push(fact(offer));
            }
            Work::Do(Job::AwaitChannel(patience)) => {
                assert_eq!(patience, Duration::from_secs(8));
                done.push("await".into());
                let reports = &attempts[attempt - 1];
                let events = reports.get(heard).cloned().into_iter().collect();
                facts.push(Fact { error: None, bytes: vec![], events });
                heard += 1;
            }
            Work::Do(Job::Disconnect(handle)) => {
                done.push(format!("disconnect {handle:#06x}"));
                facts.push(fact(&[]));
            }
            Work::Do(Job::Pause(pause)) => {
                assert_eq!(pause, Duration::from_millis(200));
                done.push("pause".into());
                facts.push(fact(&[]));
            }
            Work::Done(result, used) => {
                assert_eq!(used, facts.len());
                return (done, result.map(|o| (o.established, o.failed)).map_err(|e| e.text()));
            }
        }
    }
}

#[test]
fn channels_come_up_in_the_order_of_the_group() {
    let (done, result) = establish(&[vec![up(0, 0x61), up(0, 0x60)]]);
    assert_eq!(result, Ok((vec![0x60, 0x61], vec![])));
    assert_eq!(done[..5], ["command 0x2065", "command 0x2062", "command 0x2064", "await", "await"]);
    assert!(done[5..].iter().all(|d| d == "command 0x206e"));
}

#[test]
fn half_a_group_is_torn_down_and_tried_again() {
    let (done, result) = establish(&[
        vec![up(0, 0x60), up(0x3E, 0x61)],
        vec![up(0, 0x60), up(0, 0x61)],
    ]);
    assert_eq!(result, Ok((vec![0x60, 0x61], vec![])));
    assert!(done.contains(&"disconnect 0x0060".to_owned()));
    assert!(done.contains(&"pause".to_owned()));
}

#[test]
fn after_three_attempts_what_is_missing_is_named() {
    let silent = || vec![up(0, 0x60)];
    let (done, result) = establish(&[silent(), silent(), silent()]);
    assert_eq!(result, Ok((vec![0x60], vec![(0x61, 0xFF)])));
    assert_eq!(done.iter().filter(|d| *d == "pause").count(), 2);
    // The report of each attempt, and the silence after it.
    assert_eq!(done.iter().filter(|d| *d == "await").count(), 6);
}

#[test]
fn what_came_up_in_the_last_attempt_stays_up() {
    let half = || vec![up(0, 0x60), up(0x3E, 0x61)];
    let (done, result) = establish(&[half(), half(), half()]);
    assert_eq!(result, Ok((vec![0x60], vec![(0x61, 0x3E)])));
    // Two attempts were taken down, to make room for another. The third was not.
    assert_eq!(done.iter().filter(|d| *d == "disconnect 0x0060").count(), 2);
    let last = done.iter().rposition(|d| d == "command 0x2062").unwrap();
    assert!(done[last..].iter().all(|d| !d.starts_with("disconnect")));
    assert!(done.last().unwrap().starts_with("command 0x206e"));
}

#[test]
fn the_first_silence_ends_the_waiting() {
    let (done, result) = establish(&[vec![], vec![], vec![]]);
    assert!(result.is_err());
    // One wait of each attempt, though two channels were offered.
    assert_eq!(done.iter().filter(|d| *d == "await").count(), 3);

    // An error is no silence: it ends the attempt as it is.
    let s = session();
    let offer = || fact(&[0, 3, 2, 0x60, 0, 0x61, 0]);
    let broken = || Fact { error: Some(SessionError::Controller("gone".into())), bytes: vec![], events: vec![] };
    let mut facts = vec![];
    for attempt in 0..3 {
        facts.extend([fact(&[0]), offer(), fact(&[0]), broken()]);
        if attempt < 2 {
            facts.extend([fact(&[0]), fact(&[])]);
        }
    }
    match s.establish_isochronous(&plan(), &[0x62, 0x20, 0], 0x40, &facts) {
        Work::Done(Err(SessionError::Controller(text)), used) => {
            assert_eq!((text.as_str(), used), ("gone", facts.len()))
        }
        other => panic!("{other:?}"),
    }
}

#[test]
fn a_group_without_channels_is_an_error() {
    let s = session();
    let mut facts: Vec<Fact> = vec![];
    let result = loop {
        match s.establish_isochronous(&plan(), &[0x62, 0x20, 0], 0x40, &facts) {
            Work::Do(_) => facts.push(fact(&[0, 3, 0])),
            Work::Done(result, _) => break result,
        }
    };
    assert!(matches!(result, Err(SessionError::NoCisEstablished)));

    // Without an adapter there is nothing to establish them with.
    let off = Session::new(SessionConfig::default());
    let mut facts: Vec<Fact> = vec![];
    let result = loop {
        match off.establish_isochronous(&plan(), &[0x62, 0x20, 0], 0x40, &facts) {
            Work::Do(Job::Command(_)) => panic!("there is nobody to command"),
            Work::Do(_) => facts.push(fact(&[])),
            Work::Done(result, _) => break result,
        }
    };
    assert!(matches!(result, Err(SessionError::NoDeviceFound)));
}

fn reply(bytes: &[u8]) -> Reply {
    Reply { mtu: 247, answer: Ok(bytes.to_vec()) }
}

fn refusal(request: u8, code: u8) -> Reply {
    reply(&[0x01, request, 0, 0, code])
}

#[test]
fn services_are_discovered_until_there_are_no_more() {
    match Link::discover_services(&[], 0) {
        Step::Ask(pdu) => assert_eq!(pdu, vec![0x10, 1, 0, 0xFF, 0xFF, 0, 0x28]),
        other => panic!("{other:?}"),
    }
    let first = reply(&[0x11, 6, 1, 0, 9, 0, 0x50, 0x18]);
    match Link::discover_services(&[reply(&[0x11, 6, 1, 0, 9, 0, 0x50, 0x18])], 0) {
        Step::Ask(pdu) => assert_eq!(pdu, vec![0x10, 10, 0, 0xFF, 0xFF, 0, 0x28]),
        other => panic!("{other:?}"),
    }
    match Link::discover_services(&[first, refusal(0x10, 0x0A)], 0) {
        Step::Done(services, 2) => {
            assert_eq!(services.len(), 1);
            assert_eq!(services[0].uuid, Uuid::Short(0x1850));
        }
        other => panic!("{other:?}"),
    }
    assert!(matches!(
        Link::discover_services(&[refusal(0x10, 0x05)], 0),
        Step::Failed(LinkError::Att(_), 1)
    ));
}

#[test]
fn a_long_value_is_read_in_pieces() {
    match Link::read_characteristic(3, &[], 0) {
        Step::Ask(pdu) => assert_eq!(pdu, vec![0x0A, 3, 0]),
        other => panic!("{other:?}"),
    }
    let short = Reply { mtu: 23, answer: Ok(vec![0x0B, 1, 2]) };
    assert!(matches!(Link::read_characteristic(3, &[short], 0), Step::Done(v, 1) if v == vec![1, 2]));

    let mut full = vec![0x0B];
    full.extend([7; 22]);
    let piece = |bytes: Vec<u8>| Reply { mtu: 23, answer: Ok(bytes) };
    match Link::read_characteristic(3, &[piece(full.clone())], 0) {
        Step::Ask(pdu) => assert_eq!(pdu, vec![0x0C, 3, 0, 22, 0]),
        other => panic!("{other:?}"),
    }
    match Link::read_characteristic(3, &[piece(full), piece(vec![0x0D, 8])], 0) {
        Step::Done(value, 2) => {
            assert_eq!(value.len(), 23);
            assert_eq!(value[22], 8);
        }
        other => panic!("{other:?}"),
    }
}

#[test]
fn a_value_of_several_pieces_is_read_whole() {
    let whole: Vec<u8> = (0..50).collect();
    let piece = |opcode: u8, bytes: &[u8]| {
        let mut pdu = vec![opcode];
        pdu.extend(bytes);
        Reply { mtu: 23, answer: Ok(pdu) }
    };
    let replies = [piece(0x0B, &whole[..22]), piece(0x0D, &whole[22..44]), piece(0x0D, &whole[44..])];
    match Link::read_characteristic(3, &replies[..2], 0) {
        Step::Ask(pdu) => assert_eq!(pdu, vec![0x0C, 3, 0, 44, 0]),
        other => panic!("{other:?}"),
    }
    assert!(matches!(Link::read_characteristic(3, &replies, 0), Step::Done(v, 3) if v == whole));

    // A value that ends with a full piece: the end is said by Invalid Offset.
    let mut exact = vec![piece(0x0B, &whole[..22]), piece(0x0D, &whole[22..44])];
    exact.push(Reply { mtu: 23, answer: Ok(vec![0x01, 0x0C, 3, 0, 0x07]) });
    assert!(matches!(Link::read_characteristic(3, &exact, 0), Step::Done(v, 3) if v == whole[..44]));
    exact.pop();
    exact.push(piece(0x0D, &[]));
    assert!(matches!(Link::read_characteristic(3, &exact, 0), Step::Done(v, 3) if v == whole[..44]));
}

#[test]
fn a_refused_write_is_never_sent() {
    let mut link = Link::new(0x40);
    match link.write_characteristic(9, &[1], &[], 0) {
        Step::Failed(LinkError::Unsafe(v), 0) => assert_eq!(v, SafetyViolation { handle: 9 }),
        other => panic!("{other:?}"),
    }
    link.allow_writes_to(9);
    match link.write_characteristic(9, &[1], &[], 0) {
        Step::Ask(pdu) => assert_eq!(pdu, vec![0x12, 9, 0, 1]),
        other => panic!("{other:?}"),
    }
    assert!(matches!(link.write_characteristic(9, &[1], &[reply(&[0x13])], 0), Step::Done((), 1)));
}

#[test]
fn the_packet_size_is_agreed_upon() {
    assert!(matches!(Link::exchange_mtu(&[], 0), Step::Ask(pdu) if pdu == vec![0x02, 0x05, 0x02]));
    assert!(matches!(Link::exchange_mtu(&[reply(&[0x03, 100, 0])], 0), Step::Done(100, 1)));
}

#[test]
fn a_link_answers_what_the_peer_asks_for() {
    let mut link = Link::new(0x40);
    // The peer offers its packet size.
    match link.take_packet(&acl(4, &[0x02, 100, 0])) {
        Reaction::Send(packets) => assert_eq!(packets[0][8..], [0x03, 0x05, 0x02]),
        other => panic!("{other:?}"),
    }
    assert_eq!(link.mtu(), 100);
    // It asks for an attribute that we do not have.
    match link.take_packet(&acl(4, &[0x0A, 3, 0])) {
        Reaction::Send(packets) => assert_eq!(packets[0][8], 0x01),
        other => panic!("{other:?}"),
    }
    // It tells us something unasked: that is kept.
    assert!(matches!(link.take_packet(&acl(4, &[0x1B, 5, 0, 9])), Reaction::Wait));
    assert_eq!(link.take_notifications(), vec![(5, vec![9])]);
    assert!(link.take_notifications().is_empty());
    // It answers.
    assert!(matches!(link.take_packet(&acl(4, &[0x0B, 1])), Reaction::Response(pdu) if pdu == vec![0x0B, 1]));
    // What belongs to another channel is not for us.
    assert!(matches!(link.take_packet(&acl(6, &[0x01])), Reaction::Wait));
    assert!(matches!(link.smp_receive(&acl(6, &[0x02])), Reaction::Response(pdu) if pdu == vec![0x02]));
}

fn acl(cid: u16, payload: &[u8]) -> Vec<u8> {
    let mut raw = vec![0x40, 0x20];
    raw.extend(((payload.len() + 4) as u16).to_le_bytes());
    raw.extend((payload.len() as u16).to_le_bytes());
    raw.extend(cid.to_le_bytes());
    raw.extend(payload);
    raw
}

#[test]
fn a_wait_ends_with_a_packet_the_time_or_the_link() {
    let link = Link::new(0x40);
    let second = Duration::from_secs(1);
    let budget = Duration::from_secs(30);
    let mut pump = HciPump::new();
    assert!(matches!(
        link.recv_acl_watching_link(&mut pump, Duration::zero(), second, budget),
        Watch::Wait(pause) if pause == Duration::from_millis(100)
    ));
    assert!(matches!(
        link.recv_acl_watching_link(&mut pump, second, second, budget),
        Watch::Failed(LinkError::Timeout(d)) if d == budget
    ));
    pump.deliver_acl(&[1, 2, 3]);
    assert!(matches!(
        link.recv_acl_watching_link(&mut pump, Duration::zero(), second, budget),
        Watch::Packet(raw) if raw == vec![1, 2, 3]
    ));
    // Another event stays where it is; the end of our link does not.
    pump.deliver_event(&[0x0E, 1, 0]);
    pump.deliver_event(&[0x05, 4, 0, 0x40, 0, 0x13]);
    assert!(matches!(
        link.recv_acl_watching_link(&mut pump, Duration::zero(), second, budget),
        Watch::Failed(LinkError::Disconnected { reason: 0x13 })
    ));
    assert_eq!(pump.try_recv_event().unwrap().code, 0x0E);
}

#[test]
fn a_closed_pump_gives_what_is_left() {
    let mut pump = HciPump::new();
    pump.deliver_event(&[0x0E, 1, 0]);
    pump.close();
    assert_eq!(pump.recv_event(Duration::zero()).unwrap().code, 0x0E);
    assert_eq!(pump.recv_event(Duration::zero()).err(), Some(LinkError::Closed));
    let mut open = HciPump::new();
    let wait = Duration::from_secs(2);
    assert_eq!(open.recv_event(wait).err(), Some(LinkError::Timeout(wait)));
    assert_eq!(open.recv_acl(wait).err(), Some(LinkError::Timeout(wait)));
    assert_eq!(Link::new(1).patience(), att_timeout());
}

#[test]
fn errors_are_sentences() {
    let said = |e: LinkError| e.text();
    assert_eq!(said(LinkError::Timeout(Duration::from_millis(350))), "no response within 350ms");
    assert_eq!(said(LinkError::Closed), "link closed");
    assert_eq!(said(LinkError::Transport("x".into())), "transport error: x");
    assert_eq!(said(LinkError::ServiceMissing(0x1850)), "service 0x1850 not found on this device");
    assert_eq!(said(LinkError::CharacteristicMissing(0x2BC9)), "characteristic 0x2bc9 not found");
    assert!(said(LinkError::Disconnected { reason: 8 }).ends_with("(kod 0x08)"));

    assert_eq!(SessionError::NoDeviceFound.text(), "no LE Audio device found while scanning");
    assert_eq!(SessionError::Planning("p".into()).text(), "could not plan a stream: p");
    assert_eq!(SessionError::UnsafeParameters("u".into()).text(), "stream parameters rejected: u");
    assert_eq!(SessionError::ConnectFailed.text(), "connection attempt did not complete");
    assert_eq!(
        SessionError::EncryptionFailed.text(),
        "pairing succeeded but encryption did not start",
    );
    assert_eq!(SessionError::IsoPath("i".into()).text(), "isochronni cesta pro audio: i");
    assert!(SessionError::CisFailed { handle: 0x60, status: 0x3E }
        .text()
        .starts_with("CIS 0x0060 se nepodarilo ustavit: status 0x3e ("));
    assert_eq!(SessionError::Link(LinkError::Closed).text(), "link closed");
}

#[test]
fn endpoints_are_released_one_by_one() {
    let mut s = session();
    let mut link = Link::new(0x40);
    // Nobody has approved the control point yet.
    assert!(matches!(s.release_streams(&mut link, 9, &[1, 2], &[], 0), Step::Done((), 0)));
    s.write_ascs(&mut link, 9, &[], &[], 0);
    match s.release_streams(&mut link, 9, &[1, 2], &[], 0) {
        Step::Ask(pdu) => assert_eq!(pdu, vec![0x12, 9, 0, 0x08, 1, 1]),
        other => panic!("{other:?}"),
    }
    // A refusal is no reason to stop.
    match s.release_streams(&mut link, 9, &[1, 2], &[refusal(0x12, 3)], 0) {
        Step::Ask(pdu) => assert_eq!(pdu, vec![0x12, 9, 0, 0x08, 1, 2]),
        other => panic!("{other:?}"),
    }
    let both = [refusal(0x12, 3), reply(&[0x13])];
    assert!(matches!(s.release_streams(&mut link, 9, &[1, 2], &both, 0), Step::Done((), 2)));

    let mut capabilities = AudioCapabilities::default();
    capabilities.sink_ase_ids = vec![4];
    capabilities.source_ase_ids = vec![6];
    match s.release_all_streams(&mut link, 9, &capabilities, &[reply(&[0x13])], 0) {
        Step::Ask(pdu) => assert_eq!(pdu, vec![0x12, 9, 0, 0x08, 1, 6]),
        other => panic!("{other:?}"),
    }
    match s.start_receivers(&mut link, 9, &[6], &[], 0) {
        Step::Ask(pdu) => assert_eq!(pdu, vec![0x12, 9, 0, 0x04, 1, 6]),
        other => panic!("{other:?}"),
    }
}

#[test]
fn a_write_that_matters_stops_at_the_first_refusal() {
    let mut s = session();
    let mut link = Link::new(0x40);
    let writes = vec![vec![1], vec![2]];
    match s.write_ascs(&mut link, 9, &writes, &[], 0) {
        Step::Ask(pdu) => assert_eq!(pdu, vec![0x12, 9, 0, 1]),
        other => panic!("{other:?}"),
    }
    assert!(matches!(
        s.write_ascs(&mut link, 9, &writes, &[refusal(0x12, 3)], 0),
        Step::Failed(LinkError::Att(_), 1)
    ));
    let both = [reply(&[0x13]), reply(&[0x13])];
    assert!(matches!(s.write_ascs(&mut link, 9, &writes, &both, 0), Step::Done((), 2)));
}

#[test]
fn the_volume_is_followed_and_set() {
    let mut b = VolumeBridge {
        handles: VolumeControlHandles { state: 3, state_cccd: 4, control_point: 9 },
        volume: VolumeState { setting: 255, muted: false, change_counter: 1 },
        slider: true,
    };
    assert_eq!(
        b.describe(),
        "hlasitost sluchatek 100 %; the Windows volume slider will follow them",
    );
    assert!(b.absorb(&[0, 1, 2]));
    assert!(!b.absorb(&[0, 1, 2]));
    assert!(!b.absorb(&[0]));
    b.slider = false;
    assert_eq!(
        b.describe(),
        "hlasitost sluchatek 0 %, ztlumeno; posuvnik Windows se nepodarilo otevrit",
    );

    let mut s = session();
    let mut link = Link::new(0x40);
    // Without a bridge there is nothing to set.
    assert!(matches!(s.set_volume(&link, Number::ratio(1, 2), &[], 0), Ok(Step::Done((), 0))));
    s.keep_volume(Some(b));
    assert_eq!(s.volume(), Some(b));
    assert!(matches!(
        s.set_volume(&link, Number::ratio(1, 2), &[], 0),
        Err(SessionError::Safety(SafetyViolation { handle: 9 }))
    ));
    s.write_ascs(&mut link, 9, &[], &[], 0);
    match s.set_volume(&link, Number::ratio(1, 2), &[], 0) {
        Ok(Step::Ask(pdu)) => assert_eq!(pdu, vec![0x12, 9, 0, 0x04, 2, 128]),
        other => panic!("{other:?}"),
    }
}

#[test]
fn a_notification_is_told_from_an_answer() {
    let frame = |cid: u16, payload: &[u8]| olea_core::att::L2capFrame { cid, payload: payload.to_vec() };
    assert_eq!(notification(&frame(4, &[0x1B, 3, 0, 7, 8])), Some((3, vec![7, 8])));
    assert_eq!(notification(&frame(4, &[0x0B, 3, 0, 7])), None);
    assert_eq!(notification(&frame(5, &[0x1B, 3, 0, 7])), None);
    assert_eq!(notification(&frame(4, &[0x1B, 3])), None);
}
