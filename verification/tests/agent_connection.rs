//! Connecting: the adapter, whom to aim at, when to try again, and bonds.

use olea_core::agent::attempt::{Availability, Need};
use olea_core::agent::bonds::{Bond, BondStore};
use olea_core::agent::message::{Issue, Message};
use olea_core::agent::retry::{remaining, wait_for, Next, Pause, Retry};
use olea_core::agent::state::{useful_device_name, Agent, Switch};
use olea_core::hci::{disconnect_reason, BdAddr};
use olea_core::link::AudioCapabilities;
use olea_core::session::{Adapter, DiscoveredDevice, ReconnectPolicy, SessionError};
use olea_core::settings::Settings;
use olea_core::time::Duration;

const ADDRESS: &str = "7C:FE:62:72:B4:9A";

fn device(name: Option<&str>) -> DiscoveredDevice {
    DiscoveredDevice {
        address: BdAddr([0x9A, 0xB4, 0x72, 0x62, 0xFE, 0x7C]),
        address_type: 1,
        rssi: -50,
        name: name.map(str::to_owned),
        appearance: None,
        service_uuids: vec![0x184E],
    }
}

fn bond(address: &str, name: &str, key: u8) -> Bond {
    Bond {
        address: address.to_owned(),
        address_type: 1,
        name: name.to_owned(),
        long_term_key: [key; 16],
        le_audio: true,
    }
}

fn logs(messages: &[Message]) -> Vec<String> {
    messages
        .iter()
        .filter_map(|m| match m {
            Message::Log(text) => Some(text.clone()),
            _ => None,
        })
        .collect()
}

fn agent() -> Agent {
    Agent::new(BondStore::new(), Settings::defaults()).0
}

/// An agent with its adapter on.
fn agent_with_radio() -> Agent {
    let mut agent = agent();
    let session = match agent.adapter_on(Settings::defaults(), &[], false) {
        Switch::Open(session) => session,
        other => panic!("{other:?}"),
    };
    let adapter = Adapter {
        version: Some("5.4".to_owned()),
        address: Some(BdAddr([1, 2, 3, 4, 5, 6])),
    };
    agent.adapter_opened(session, Ok(adapter)).unwrap();
    agent
}

fn seconds(n: u64) -> Duration {
    Duration::from_secs(n)
}

#[test]
fn a_remembered_bond_is_found_again() {
    let mut store = BondStore::new();
    store.insert(bond("A", "First", 1));
    store.insert(bond("B", "Second", 2));
    store.insert(bond("A", "Renamed", 3));

    assert_eq!(store.len(), 2);
    assert_eq!(store.get("A").unwrap().name, "Renamed");
    assert_eq!(store.get("A").unwrap().long_term_key, [3; 16]);
    assert!(store.contains("B"));
    assert!(store.get("C").is_none());

    assert!(store.remove("A"));
    assert!(!store.remove("A"));
    assert!(!store.contains("A"));
    let names: Vec<String> = store.all().into_iter().map(|k| k.name).collect();
    assert_eq!(names, vec!["Second"]);
}

#[test]
fn a_name_is_useful_if_it_says_more_than_the_address() {
    assert!(useful_device_name("JBL Tune 780NC", ADDRESS));
    assert!(!useful_device_name("", ADDRESS));
    assert!(!useful_device_name("  \t", ADDRESS));
    assert!(!useful_device_name(" 7c:fe:62:72:b4:9a ", ADDRESS));
    assert!(!useful_device_name("(Unnamed)", ADDRESS));
    assert!(!useful_device_name("(BEZ JMENA)", ADDRESS));
}

#[test]
fn the_agent_starts_with_what_it_remembers() {
    let mut store = BondStore::new();
    store.insert(bond("A", "First", 1));
    let (agent, ready) = Agent::new(store, Settings::defaults());
    assert!(matches!(ready, Message::Ready { paired: 1 }));
    match agent.status() {
        Message::Status { adapter_on, paired } => {
            assert!(!adapter_on);
            assert_eq!((paired.len(), paired[0].address.as_str()), (1, "A"));
        }
        other => panic!("{other:?}"),
    }
}

#[test]
fn what_stands_in_the_way_keeps_the_adapter_off() {
    let issue = |blocking: bool| Issue {
        id: "x".into(),
        severity: "s".into(),
        blocking,
        summary: "Still on the other stack.".into(),
        remedy: "Run Setup.".into(),
        setup_action: None,
    };
    let mut a = agent();
    match a.adapter_on(Settings::defaults(), &[issue(false), issue(true)], false) {
        Switch::Refused { say: Message::Adapter { on: false, version: None, address: None }, text } => {
            assert_eq!(text, "Still on the other stack. Run Setup.")
        }
        other => panic!("{other:?}"),
    }
    // What does not block does not keep it off.
    assert!(matches!(a.adapter_on(Settings::defaults(), &[issue(false)], false), Switch::Open(_)));
}

#[test]
fn an_adapter_that_opens_says_what_it_is() {
    let mut a = agent();
    let session = match a.adapter_on(Settings::defaults(), &[], false) {
        Switch::Open(session) => session,
        other => panic!("{other:?}"),
    };
    let adapter = Adapter { version: Some("5.4".into()), address: Some(BdAddr([1, 2, 3, 4, 5, 6])) };
    match a.adapter_opened(session, Ok(adapter)).unwrap() {
        Message::Adapter { on, version, address } => {
            assert!(on);
            assert_eq!(version.as_deref(), Some("Bluetooth 5.4"));
            assert_eq!(address.as_deref(), Some("06:05:04:03:02:01"));
        }
        other => panic!("{other:?}"),
    }
    // Once on, it is only asked how things stand.
    let again = a.adapter_on(Settings::defaults(), &[], false);
    assert!(matches!(again, Switch::On(Message::Status { adapter_on: true, .. })));

    let mut b = agent();
    let session = match b.adapter_on(Settings::defaults(), &[], false) {
        Switch::Open(session) => session,
        other => panic!("{other:?}"),
    };
    let failed = b.adapter_opened(session, Err("busy".into())).unwrap_err();
    let controller = SessionError::Controller("busy".into()).text();
    assert_eq!(failed, format!("adapter could not be enabled: {controller}"));
    assert!(b.session.is_none());
}

#[test]
fn switching_off_leaves_nothing_behind() {
    let mut a = agent_with_radio();
    a.found.push(device(None));
    a.connected = Some((ADDRESS.to_owned(), 0x40));
    let (teardown, session, said) = a.adapter_off();
    assert_eq!(teardown.handle, Some(0x40));
    assert!(session.is_some());
    assert!(matches!(
        &said[..],
        [Message::Disconnected, Message::Adapter { on: false, version: None, address: None }]
    ));
    assert!(a.session.is_none() && a.found.is_empty() && a.connected.is_none());
}

#[test]
fn a_scan_has_its_bounds_and_needs_the_adapter() {
    let mut a = agent_with_radio();
    assert_eq!(a.begin_scan(0), Ok(seconds(1)));
    assert_eq!(a.begin_scan(8), Ok(seconds(8)));
    assert_eq!(a.begin_scan(600), Ok(seconds(60)));
    assert_eq!(agent().begin_scan(8), Err("adapter is off".to_owned()));

    assert_eq!(a.end_scan(Err("scanner is busy".into())).unwrap_err(), "scan failed: scanner is busy");
    assert!(a.end_scan(Ok(vec![])).unwrap_err().starts_with("scan failed: "));
    assert_eq!(agent().end_scan(Ok(vec![])).unwrap_err(), "adapter is off");
    assert!(a.found.is_empty());

    let said = a.end_scan(Ok(vec![device(Some("JBL"))])).unwrap();
    match &said[..] {
        [Message::Device { address, name, rssi, le_audio, paired }] => {
            assert_eq!((address.as_str(), name.as_str(), *rssi), (ADDRESS, "JBL", -50));
            assert!(*le_audio && !*paired);
        }
        other => panic!("{other:?}"),
    }
    assert_eq!(a.found.len(), 1);
}

#[test]
fn a_paired_device_needs_no_scan() {
    let mut a = agent();
    let missing = "device is not in the scan results; start a scan first";
    assert_eq!(a.target_device(ADDRESS).unwrap_err(), missing);

    a.bonds.insert(bond(ADDRESS, "JBL", 1));
    let aimed = a.target_device(ADDRESS).unwrap();
    assert_eq!(aimed.address.to_text(), ADDRESS);
    assert_eq!((aimed.address_type, aimed.rssi), (1, 0));
    assert_eq!(aimed.name.as_deref(), Some("JBL"));

    a.bonds.insert(bond("headphones", "JBL", 1));
    assert_eq!(a.target_device("headphones").unwrap_err(), "address could not be read");

    // What was just scanned comes first.
    a.found.push(device(Some("Seen")));
    let seen = a.target_device("7c:fe:62:72:b4:9a").unwrap();
    assert_eq!((seen.name.as_deref(), seen.rssi), (Some("Seen"), -50));
}

#[test]
fn nothing_is_handed_back_twice() {
    let mut a = agent_with_radio();
    let mut link = a.session.as_ref().unwrap().open_link(0x40).unwrap();
    link.allow_writes_to(9);
    a.link = Some(link);
    a.control_point = Some(9);
    a.configured_ases = vec![1, 2];
    a.connected = Some((ADDRESS.to_owned(), 0x40));

    let (teardown, said) = a.disconnect();
    assert_eq!(teardown.streams, Some((9, vec![1, 2])));
    assert_eq!(teardown.handle, Some(0x40));
    assert!(matches!(said, Message::Disconnected));

    let (again, _) = a.disconnect();
    assert!(again.link.is_none() && again.streams.is_none() && again.handle.is_none());
    let failed = a.reset_after_failure();
    assert!(failed.link.is_none() && failed.streams.is_none() && failed.handle.is_none());
}

#[test]
fn forgetting_is_remembered() {
    let mut a = agent();
    a.bonds.insert(bond(ADDRESS, "JBL", 1));
    assert_eq!(a.forget(None), Err("address is missing".to_owned()));
    assert_eq!(a.forget(Some("other")), Ok(false));
    assert_eq!(a.forget(Some(ADDRESS)), Ok(true));
    assert!(!a.bonds.contains(ADDRESS));

    let said = a.forgotten(ADDRESS, true, None).unwrap();
    assert_eq!(logs(&said), vec![format!("{ADDRESS} removed")]);
    assert!(matches!(said[1], Message::Status { .. }));
    let said = a.forgotten(ADDRESS, false, None).unwrap();
    assert!(matches!(&said[..], [Message::Status { .. }]));
    let unsaved = a.forgotten(ADDRESS, true, Some("disk full".into())).unwrap_err();
    assert_eq!(unsaved, "save failed: disk full");
}

#[test]
fn a_stored_change_is_only_loaded() {
    let mut a = agent();
    let stored = Settings::from_text("gain = 0.5\n");
    assert!(a.set(Some("gain"), Some("9"), true, stored, false).unwrap().is_none());
    assert_eq!(a.settings.get("gain"), Some("0.5"));

    let none = Settings::new();
    assert_eq!(a.set(None, Some("9"), true, none.clone(), false).unwrap_err(), "key is missing");
    assert_eq!(a.set(Some("gain"), None, true, none.clone(), false).unwrap_err(), "value is missing");

    let needs = a.set(Some("preset"), Some("robust"), false, none, false).unwrap().unwrap();
    assert!(needs.iter().any(|k| k.key == "preset"));
    assert_eq!(a.settings.get("preset"), Some("robust"));

    a.reset_settings();
    assert_eq!(a.settings, Settings::defaults());
}

fn retry() -> Retry {
    let mut a = agent_with_radio();
    a.bonds.insert(bond(ADDRESS, "JBL", 1));
    a.begin_connect(Some(ADDRESS), Settings::defaults(), 3, seconds(100)).unwrap()
}

fn patient() -> ReconnectPolicy {
    ReconnectPolicy { enabled: true, interval: seconds(5), window: Some(seconds(60)) }
}

#[test]
fn connecting_needs_an_address_a_device_and_a_radio() {
    let mut a = agent_with_radio();
    let stored = Settings::defaults();
    assert_eq!(
        a.begin_connect(None, stored.clone(), 0, seconds(0)).unwrap_err(),
        "address is missing",
    );
    assert_eq!(
        a.begin_connect(Some(ADDRESS), stored.clone(), 0, seconds(0)).unwrap_err(),
        "device is not in the scan results; start a scan first",
    );
    let mut off = agent();
    off.bonds.insert(bond(ADDRESS, "JBL", 1));
    assert_eq!(
        off.begin_connect(Some(ADDRESS), stored, 0, seconds(0)).unwrap_err(),
        "adapter is off",
    );
    assert_eq!(retry().address(), ADDRESS);
    assert_eq!(retry().device().name.as_deref(), Some("JBL"));
}

#[test]
fn the_first_window_is_generous_and_later_ones_are_held() {
    let mut r = retry();
    let (said, next) = r.round(3, false, patient());
    assert!(said.is_empty());
    assert!(matches!(next, Next::Attempt { already_paired: false, window } if window == seconds(15)));

    let (said, next) = r.round(3, true, patient());
    assert!(matches!(&said[..], [Message::Reconnecting { attempt: 2, .. }]));
    assert!(matches!(next, Next::Attempt { already_paired: true, window } if window == seconds(5)));

    let hasty = ReconnectPolicy { interval: Duration::from_millis(100), ..patient() };
    let (_, next) = r.round(3, true, hasty);
    assert!(matches!(next, Next::Attempt { window, .. } if window == Duration::from_millis(1_500)));
    let slow = ReconnectPolicy { interval: seconds(90), ..patient() };
    let (_, next) = r.round(3, true, slow);
    assert!(matches!(next, Next::Attempt { window, .. } if window == seconds(20)));
}

#[test]
fn settings_that_cannot_be_held_matter_only_where_they_are_used() {
    let unfit = || Settings::from_text("reconnect_interval_s = -1\n");
    // Where the radio is on already, or something stands in the way.
    let mut on = agent_with_radio();
    assert!(matches!(on.adapter_on(unfit(), &[], false), Switch::On(_)));
    let issue = Issue {
        id: "x".into(),
        severity: "s".into(),
        blocking: true,
        summary: "S.".into(),
        remedy: "R.".into(),
        setup_action: None,
    };
    assert!(matches!(agent().adapter_on(unfit(), &[issue], false), Switch::Refused { text, .. } if text == "S. R."));

    // Where nobody is aimed at, or the radio is off.
    let refusal = |a: &mut Agent, address| a.begin_connect(address, unfit(), 0, seconds(0)).unwrap_err();
    assert_eq!(refusal(&mut on, None), "address is missing");
    assert_eq!(refusal(&mut on, Some(ADDRESS)), "device is not in the scan results; start a scan first");
    let mut off = agent();
    off.bonds.insert(bond(ADDRESS, "JBL", 1));
    assert_eq!(refusal(&mut off, Some(ADDRESS)), "adapter is off");
}

#[test]
fn what_was_taken_back_is_not_attempted() {
    let mut r = retry();
    let (said, next) = r.round(4, true, patient());
    assert!(matches!(next, Next::Finished(Ok(()))));
    assert_eq!(logs(&said), vec!["connection attempt stopped: something else was asked for"]);
    assert!(matches!(&said[1], Message::ReconnectStopped { address } if address == ADDRESS));
}

#[test]
fn a_device_that_is_no_longer_paired_is_not_retried() {
    let mut r = retry();
    r.round(3, true, patient());
    let (said, next) = r.round(3, false, patient());
    assert!(matches!(next, Next::Finished(Ok(()))));
    assert_eq!(logs(&said), vec!["automatic reconnect stopped: the device is no longer paired"]);
}

#[test]
fn a_stop_by_the_user_is_final_and_a_decision_is_respected() {
    let mut r = retry();
    r.round(3, true, patient());
    let (said, next) = r.ended(None, true, seconds(200));
    assert!(said.is_empty() && matches!(next, Next::Finished(Ok(()))));

    let mut r = retry();
    r.round(3, true, patient());
    let (said, next) = r.ended(Some(0x15), true, seconds(200));
    assert!(matches!(next, Next::Finished(Ok(()))));
    let words = disconnect_reason(0x15);
    assert_eq!(logs(&said), vec![format!("connection ended: {words} - not reconnecting")]);
}

#[test]
fn a_lost_link_starts_the_window_again() {
    let mut r = retry();
    r.round(3, true, patient());
    // Far beyond the window that began with the first attempt.
    let (said, next) = r.ended(Some(0x08), true, seconds(9_000));
    assert_eq!(logs(&said), vec![format!("connection lost: {}", disconnect_reason(0x08))]);
    assert!(matches!(&said[1], Message::Waiting { pause } if *pause == seconds(5)));
    assert!(matches!(next, Next::Wait { pause, quiet: false } if pause == seconds(5)));

    // And the count of attempts, so the next window is generous again.
    let (_, next) = r.round(3, true, patient());
    assert!(matches!(next, Next::Attempt { window, .. } if window == seconds(15)));
}

#[test]
fn the_first_failure_is_followed_at_once() {
    let mut r = retry();
    r.round(3, true, patient());
    let (said, next) = r.failed("no answer".into(), false, seconds(101));
    assert_eq!(logs(&said), vec!["attempt failed: no answer; trying once more"]);
    assert!(matches!(next, Next::Wait { pause, quiet: true } if pause == Duration::from_millis(600)));
    assert!(r.interrupted(true).is_empty());
}

#[test]
fn the_second_failure_is_reported_or_retried() {
    let mut r = retry();
    let off = ReconnectPolicy { enabled: false, ..patient() };
    r.round(3, true, off);
    r.failed("a".into(), false, seconds(101));
    r.round(3, true, off);
    let (said, next) = r.failed("b".into(), false, seconds(102));
    assert!(said.is_empty());
    assert!(matches!(next, Next::Finished(Err(text)) if text == "b"));

    let mut r = retry();
    r.round(3, true, patient());
    r.failed("a".into(), false, seconds(101));
    r.round(3, true, patient());
    let (said, next) = r.failed("b".into(), false, seconds(500));
    assert!(matches!(&said[..], [Message::Log(text), Message::ReconnectStarted { interval_ms: 5_000, .. }]
        if text == "attempt failed: b"));
    // It never answered, so the interval has already passed.
    assert!(matches!(next, Next::Wait { pause, quiet: false } if pause == Duration::from_millis(400)));
    let said = r.interrupted(false);
    assert_eq!(logs(&said), vec!["automatic reconnect canceled"]);
    assert!(matches!(said[1], Message::ReconnectStopped { .. }));

    // The window is counted from here on.
    r.round(3, true, patient());
    let (_, next) = r.failed("c".into(), true, seconds(559));
    assert!(matches!(next, Next::Wait { pause, quiet: false } if pause == seconds(5)));
    r.round(3, true, patient());
    let (said, next) = r.failed("d".into(), true, seconds(560));
    assert_eq!(
        logs(&said),
        vec!["attempt failed: d", "automatic reconnect ended: retry window expired"],
    );
    assert!(matches!(next, Next::Finished(Ok(()))));
}

#[test]
fn a_wait_ends_with_the_time_or_with_the_user() {
    assert_eq!(wait_for(seconds(1), seconds(2), false), Pause::Sleep(Duration::from_millis(50)));
    assert_eq!(wait_for(seconds(1), seconds(2), true), Pause::Over(false));
    assert_eq!(wait_for(seconds(2), seconds(2), false), Pause::Over(true));
    assert_eq!(wait_for(seconds(2), seconds(2), true), Pause::Over(false));
    assert_eq!(remaining(seconds(9), Duration::from_millis(1_500)), 7);
    assert_eq!(remaining(seconds(1), seconds(2)), 0);
}

#[test]
fn an_unknown_device_is_paired() {
    let mut a = agent_with_radio();
    let (mut attempt, said) = a.begin_attempt(ADDRESS, &device(Some("JBL")), false).unwrap();
    assert_eq!(logs(&said), vec!["pairing JBL"]);
    assert!(!a.reached_link);

    let (_, need) = a.reached(&mut attempt, Ok(Some(0x40)));
    assert!(matches!(need, Need::Pair { again: false }));
    assert!(a.reached_link);
    assert_eq!(attempt.handle, 0x40);

    let (said, need) = a.paired(&attempt, false, Ok([7; 16]));
    assert!(matches!(need, Need::ReadCapabilities));
    assert!(matches!(&said[..], [Message::Paired { address, name, le_audio: true }]
        if address == ADDRESS && name == "JBL"));
    assert_eq!(a.bonds.get(ADDRESS).unwrap().long_term_key, [7; 16]);
}

#[test]
fn a_peer_that_is_not_there_is_not_reached() {
    let mut a = agent_with_radio();
    let (mut attempt, _) = a.begin_attempt(ADDRESS, &device(None), false).unwrap();
    let (_, need) = a.reached(&mut attempt, Ok(None));
    let text = format!("connection failed: {}", SessionError::ConnectFailed.text());
    assert!(matches!(need, Need::Fail { hang_up: None, text: t } if t == text));
    assert!(!a.reached_link);
    assert_eq!(agent().begin_attempt(ADDRESS, &device(None), false).unwrap_err(), "adapter is off");
}

#[test]
fn a_saved_key_is_used_again_and_a_dead_one_is_forgotten() {
    let mut a = agent_with_radio();
    a.bonds.insert(bond(ADDRESS, "JBL", 5));
    let (mut attempt, said) = a.begin_attempt(ADDRESS, &device(None), true).unwrap();
    // A nameless advertisement does not take the name away.
    assert_eq!(logs(&said), vec!["connecting JBL (already paired)"]);
    let (_, need) = a.reached(&mut attempt, Ok(Some(0x40)));
    let key = match need {
        Need::Resume(key) => key,
        other => panic!("{other:?}"),
    };
    assert_eq!(key, [5; 16]);

    let (said, need) = a.resumed(&attempt, key, Ok(()));
    assert!(matches!(need, Need::ReadCapabilities));
    assert_eq!(logs(&said), vec!["restored an encrypted connection from the saved bond"]);

    let refused = SessionError::EncryptionFailed;
    let why = refused.text();
    let (said, need) = a.resumed(&attempt, key, Err(refused));
    assert!(matches!(need, Need::Pair { again: true }));
    assert_eq!(
        logs(&said),
        vec![format!("the saved key was refused ({why}); pairing again from scratch")],
    );
    let failed = SessionError::Pairing("no".into());
    let text = format!("pairing again failed: {}", failed.text());
    let (_, need) = a.paired(&attempt, true, Err(failed));
    assert!(matches!(need, Need::Fail { hang_up: Some(0x40), text: t } if t == text));
    assert!(!a.bonds.contains(ADDRESS));
    // The next attempt exchanges keys.
    let (_, need) = a.reached(&mut attempt, Ok(Some(0x41)));
    assert!(matches!(need, Need::Pair { again: false }));
    assert_eq!(attempt.handle, 0x41);
    assert_eq!(attempt.link.as_ref().unwrap().mtu(), 23);
}

#[test]
fn an_empty_key_is_no_key() {
    let mut a = agent_with_radio();
    a.bonds.insert(bond(ADDRESS, "JBL", 0));
    let (mut attempt, _) = a.begin_attempt(ADDRESS, &device(None), true).unwrap();
    let (_, need) = a.reached(&mut attempt, Ok(Some(0x40)));
    assert!(matches!(need, Need::Pair { again: false }));
}

#[test]
fn a_busy_headset_is_said_to_be_busy() {
    let mut a = agent_with_radio();
    let (mut attempt, _) = a.begin_attempt(ADDRESS, &device(None), false).unwrap();
    a.reached(&mut attempt, Ok(Some(0x40)));
    let (said, need) = a.capabilities_read(&mut attempt, Ok(AudioCapabilities::default()));
    assert!(matches!(need, Need::Judge));
    assert!(matches!(&said[..], [Message::Capabilities { summary, .. }]
        if summary == "zadne LC3 sink capabilities"));

    let verdict = |worth_attempting: bool| Availability {
        state: "busy".into(),
        detail: "in use by a phone".into(),
        worth_attempting,
        contexts: Some(("media".into(), None)),
    };
    let (said, need) = a.judged(&attempt, verdict(false), false);
    assert!(matches!(need, Need::Fail { hang_up: Some(0x40), text } if text == "in use by a phone"));
    assert_eq!(
        logs(&said),
        vec!["multipoint: in use by a phone", "  available now: media (supported: not published)"],
    );
    assert!(matches!(&said[2], Message::Availability { state, .. } if state == "busy"));
    let (_, need) = a.judged(&attempt, verdict(true), false);
    assert!(matches!(need, Need::FindControlPoint));
}

#[test]
fn a_connection_that_stands_is_announced() {
    let mut a = agent_with_radio();
    let (mut attempt, _) = a.begin_attempt(ADDRESS, &device(Some("JBL")), false).unwrap();
    a.reached(&mut attempt, Ok(Some(0x40)));
    a.paired(&attempt, false, Ok([7; 16]));
    a.capabilities_read(&mut attempt, Ok(AudioCapabilities::default()));

    let need = a.control_point_found(&mut attempt, Err("ASCS has no control point".into()));
    assert!(matches!(need, Need::Fail { hang_up: Some(0x40), text }
        if text == "ASCS has no control point"));
    let need = a.control_point_found(&mut attempt, Ok(9));
    assert!(matches!(need, Need::AttachVolume));
    assert_eq!(a.control_point, Some(9));

    let (said, need) = a.volume_attached(Ok(None));
    assert_eq!(logs(&said), vec!["device does not expose volume control"]);
    assert!(matches!(need, Need::AttachBatteries));

    let (said, need) = a.batteries_attached(attempt, Ok(vec![80]));
    assert!(matches!(&said[..], [
        Message::Battery { address: Some(_), levels },
        Message::Connected { handle: 0x40, name, .. },
    ] if levels == &vec![80] && name == "JBL"));
    assert!(matches!(need, Need::Play));
    assert_eq!(a.connected, Some((ADDRESS.to_owned(), 0x40)));
    assert!(a.link.is_some() && a.capabilities.is_some());

    // A stream that cannot be set up does not leave a ghost behind.
    assert!(a.played(&Ok(())).is_none());
    let (teardown, said) = a.played(&Err("no".into())).unwrap();
    assert_eq!(teardown.handle, Some(0x40));
    assert!(matches!(said, Message::Disconnected));
    assert!(a.connected.is_none() && a.link.is_none());
}
