//! Procedures, run against a small device that answers as headphones do.

use olea_core::bap::{parse_state, PacRecord};
use olea_core::link::{Link, LinkError, Reply, Step, VolumeControlHandles};
use olea_core::session::{Adapter, Session, SessionConfig};
use olea_core::vcs::VolumeState;

struct Device {
    /// Each service with its first and last handle.
    services: Vec<(u16, u16, u16)>,
    /// Each characteristic with the handle of its value, and the value.
    values: Vec<(u16, u16, Vec<u8>)>,
    written: Vec<(u16, Vec<u8>)>,
}

const PAC: [u8; 24] = [
    1, 0x06, 0, 0, 0, 0, 16, 3, 0x01, 0x80, 0x00, 2, 0x02, 0x03, 2, 0x03, 0x03, 5, 0x04, 26, 0, 155,
    0, 0,
];

fn headphones() -> Device {
    Device {
        services: vec![(0x1850, 1, 20), (0x184E, 30, 50), (0x1844, 60, 70)],
        values: vec![
            (0x2BC9, 3, PAC.to_vec()),
            (0x2BCA, 6, vec![3, 0, 0, 0]),
            (0x2BCB, 9, PAC.to_vec()),
            (0x2BCD, 12, vec![0xFF, 0x0F, 0, 0]),
            (0x2BCE, 15, vec![0xFE, 0x0F, 0, 0]),
            (0x2BC4, 32, vec![1, 0]),
            (0x2BC4, 35, vec![2, 4]),
            (0x2BC5, 38, vec![3, 0]),
            (0x2BC6, 41, vec![]),
            (0x2B7D, 62, vec![128, 0, 7]),
            (0x2B7E, 65, vec![]),
        ],
        written: vec![],
    }
}

impl Device {
    fn answer(&mut self, pdu: &[u8]) -> Vec<u8> {
        let word = |at: usize| u16::from_le_bytes([pdu[at], pdu[at + 1]]);
        let refused = |code: u8| vec![0x01, pdu[0], pdu[1], pdu[2], code];
        match pdu[0] {
            0x02 => vec![0x03, 64, 0],
            0x10 => match self.services.iter().find(|s| s.1 >= word(1)) {
                Some(&(uuid, first, last)) => {
                    let mut out = vec![0x11, 6];
                    for part in [first, last, uuid] {
                        out.extend(part.to_le_bytes());
                    }
                    out
                }
                None => refused(0x0A),
            },
            0x08 => {
                let next = self.values.iter().find(|v| v.1 - 1 >= word(1) && v.1 <= word(3));
                match next {
                    Some((uuid, handle, _)) => {
                        let mut out = vec![0x09, 7];
                        out.extend((handle - 1).to_le_bytes());
                        out.push(0x12);
                        out.extend(handle.to_le_bytes());
                        out.extend(uuid.to_le_bytes());
                        out
                    }
                    None => refused(0x0A),
                }
            }
            0x0A => match self.values.iter().find(|v| v.1 == word(1)) {
                Some((_, _, value)) => {
                    let mut out = vec![0x0B];
                    out.extend(value.iter().take(63));
                    out
                }
                None => refused(0x01),
            },
            0x12 => {
                self.written.push((word(1), pdu[3..].to_vec()));
                vec![0x13]
            }
            _ => refused(0x06),
        }
    }

    /// Runs a procedure to its end.
    fn run<T>(&mut self, mut procedure: impl FnMut(&[Reply]) -> Step<T>) -> Result<T, LinkError> {
        let mut replies: Vec<Reply> = vec![];
        loop {
            match procedure(&replies) {
                Step::Ask(pdu) => {
                    let answer = Ok(self.answer(&pdu));
                    replies.push(Reply { mtu: 64, answer });
                }
                Step::Done(value, used) => {
                    assert_eq!(used, replies.len());
                    return Ok(value);
                }
                Step::Failed(error, used) => {
                    assert_eq!(used, replies.len());
                    return Err(error);
                }
            }
        }
    }
}

#[test]
fn capabilities_are_read_out_of_the_device() {
    let caps = headphones().run(|replies| Link::read_audio_capabilities(replies, 0)).unwrap();
    assert_eq!(caps.sink_records, PacRecord::parse_characteristic(&PAC));
    assert_eq!(caps.source_records.len(), 1);
    assert_eq!(caps.sink_locations, Some(3));
    assert_eq!(caps.available_contexts, Some(0x0FFF));
    assert_eq!(caps.supported_contexts, Some(0x0FFE));
    assert_eq!(caps.sink_ase_ids, vec![1, 2]);
    assert_eq!(caps.source_ase_ids, vec![3]);
}

#[test]
fn a_device_without_endpoints_still_has_capabilities() {
    let mut device = headphones();
    device.services.truncate(1);
    let caps = device.run(|replies| Link::read_audio_capabilities(replies, 0)).unwrap();
    assert_eq!(caps.sink_locations, Some(3));
    assert!(caps.sink_ase_ids.is_empty() && caps.source_ase_ids.is_empty());
}

#[test]
fn endpoints_are_found_with_their_handles() {
    let mut device = headphones();
    let sinks = device.run(|replies| Link::sink_ase_handles(replies, 0)).unwrap();
    assert_eq!(sinks, vec![(1, 32), (2, 35)]);
    let sources = device.run(|replies| Link::source_ase_handles(replies, 0)).unwrap();
    assert_eq!(sources, vec![(3, 38)]);

    device.services.remove(1);
    assert_eq!(
        device.run(|replies| Link::sink_ase_handles(replies, 0)).err(),
        Some(LinkError::ServiceMissing(0x184E)),
    );
}

#[test]
fn every_endpoint_is_subscribed_to() {
    let mut device = headphones();
    let mut link = Link::new(0x40);
    let sinks = device.run(|replies| link.subscribe_to_ase_state(replies, 0)).unwrap();
    assert_eq!(sinks, vec![(1, 32), (2, 35)]);
    let on = |handle: u16| (handle, vec![1, 0]);
    assert_eq!(device.written, vec![on(33), on(36), on(39), on(42)]);
    assert_eq!(parse_state(&device.values[6].2).unwrap().state, 4);
}

#[test]
fn the_volume_service_is_hooked_up() {
    let mut device = headphones();
    let handles = device.run(|replies| Link::discover_volume_control(replies, 0)).unwrap();
    let expected = VolumeControlHandles { state: 62, state_cccd: 63, control_point: 65 };
    assert_eq!(handles, Some(expected));
    let state = device.run(|replies| Link::read_volume_state(62, replies, 0)).unwrap();
    assert_eq!(state, Some(VolumeState { setting: 128, muted: false, change_counter: 7 }));

    let mut session = Session::new(SessionConfig::default());
    session.open_adapter(Ok(Adapter { version: None, address: None })).unwrap();
    let mut link = Link::new(0x40);
    let bridge = device
        .run(|replies| session.attach_volume_control(&mut link, true, replies, 0))
        .unwrap()
        .unwrap();
    assert_eq!((bridge.handles, bridge.volume.setting), (expected, 128));
    assert_eq!(session.volume(), Some(bridge));
    assert_eq!(device.written, vec![(63, vec![1, 0])]);

    // A device without the service has no remote volume, which is no failure.
    device.services.pop();
    assert_eq!(device.run(|replies| Link::discover_volume_control(replies, 0)).unwrap(), None);
}

#[test]
fn a_stream_is_configured_write_by_write() {
    let mut device = headphones();
    let mut session = Session::new(SessionConfig::default());
    session.open_adapter(Ok(Adapter { version: None, address: None })).unwrap();
    let mut link = Link::new(0x40);
    let writes = vec![vec![0x01, 1], vec![0x02, 1], vec![0x03, 1]];
    device
        .run(|replies| session.configure_stream(&mut link, 41, &writes, replies, 0))
        .unwrap();
    let expected: Vec<(u16, Vec<u8>)> = writes.into_iter().map(|w| (41, w)).collect();
    assert_eq!(device.written, expected);
}
