//! The link: what is read out of a device, and what order events keep.

use olea_core::att::{Characteristic, ServiceRange, Uuid};
use olea_core::bap::Preset;
use olea_core::hci::Event;
use olea_core::link::{pacs_uuid, AudioCapabilities, DiscoveredService, HciPump};

/// Draining the held queue and handing it back must leave it unchanged and,
/// above all, must terminate. Returning events one at a time from inside the
/// drain loop spun forever, and because the spin sat between reading ACL and
/// answering it, the peer saw a host that had gone silent mid-handshake.
#[test]
fn inspecting_held_events_terminates_and_preserves_order() {
    let mut pump = HciPump::new();
    for code in [0x05u8, 0x0E, 0x13] {
        pump.deliver_event(&[code, 1, code]);
    }

    // The same drain-then-restore shape the ACL wait uses.
    let mut inspected: Vec<Event> = Vec::new();
    while let Some(event) = pump.try_recv_event() {
        inspected.push(event);
    }
    pump.put_back_events(inspected);

    let mut codes: Vec<u8> = Vec::new();
    while let Some(event) = pump.try_recv_event() {
        codes.push(event.code);
    }
    assert_eq!(codes, vec![0x05, 0x0E, 0x13], "order must survive a round trip");
}

#[test]
fn capabilities_default_to_empty() {
    let caps = AudioCapabilities::default();
    assert!(caps.sink_records.is_empty());
    assert!(caps.sink_ase_ids.is_empty());
}

#[test]
fn service_lookup_matches_by_short_uuid() {
    let service = DiscoveredService {
        range: ServiceRange {
            start_handle: 0x0001,
            end_handle: 0x0010,
            uuid: Uuid::Short(pacs_uuid::SERVICE_PACS),
        },
        characteristics: vec![Characteristic {
            declaration_handle: 0x0002,
            properties: 0x12,
            value_handle: 0x0003,
            uuid: Uuid::Short(pacs_uuid::SINK_PAC),
        }],
    };

    assert!(service.characteristic(pacs_uuid::SINK_PAC).is_some());
    assert!(service.characteristic(pacs_uuid::SOURCE_PAC).is_none());
    assert_eq!(service.characteristic(pacs_uuid::SINK_PAC).unwrap().value_handle, 0x0003);
}

#[test]
fn two_ase_ids_mean_two_cis_are_possible() {
    // A device exposing two sink ASEs is the layout that makes Windows set up
    // two CIS. Knowing the count is what lets us choose one stream instead.
    let mut caps = AudioCapabilities::default();
    caps.sink_ase_ids = vec![1, 2];

    assert_eq!(caps.sink_ase_ids.len(), 2);

    // With stereo-in-one-stream support we only need the first.
    let config = Preset::WindowsDefault.codec(true);
    assert_eq!(config.channel_count(), 2);
}
