//! What goes over the air: events, commands, packets, frames.

use olea_core::att::{
    absent_local_attribute_response, agree_on_mtu, build_acl_packets, check_error,
    exchange_mtu_request, exchange_mtu_response, parse_characteristics, parse_mtu_response,
    parse_read_response, parse_service_ranges, read_blob_request, read_by_group_type_request,
    read_by_type_request, read_request, write_request, AclReassembler, AttError, Malformed, Uuid,
};
use olea_core::hci::{
    confirms_disconnection, disconnect, disconnect_reason, le_create_cis, le_remove_cig, le_setup_iso_data_path,
    parse_cis_established, parse_disconnection_complete, parse_iso_data_packet,
    parse_number_of_completed_packets, read_rssi, BdAddr, Event,
};
use olea_core::l2cap::{parameter_update_response, parse, ConnectionParameters, Signal};
use olea_core::number::Number;
use olea_core::safety::{SafetyViolation, WritePolicy};
use olea_core::vcs::{parse_volume_state, set_absolute, VolumeState};

#[test]
fn an_event_is_its_code_and_its_parameters() {
    let event = Event::parse(&[0x05, 4, 0, 0x40, 0x00, 0x13]).unwrap();
    assert_eq!(event.code, 0x05);
    assert_eq!(event.params, vec![0, 0x40, 0x00, 0x13]);

    // Shorter than it says, or too short to say anything.
    assert!(Event::parse(&[0x05, 4, 0, 0x40]).is_none());
    assert!(Event::parse(&[0x05]).is_none());
}

#[test]
fn an_answered_command_gives_its_parameters() {
    let event = Event::parse(&[0x0E, 7, 1, 0x05, 0x14, 0, 0x40, 0x00, 0xC4]).unwrap();
    assert_eq!(event.command_complete(), Some((0x1405, vec![0, 0x40, 0x00, 0xC4])));

    let other = Event { code: 0x0F, params: vec![1, 0x05, 0x14] };
    assert_eq!(other.command_complete(), None);
}

#[test]
fn a_disconnection_names_the_handle_and_the_reason() {
    let event = Event { code: 0x05, params: vec![0, 0x40, 0x00, 0x08] };
    assert_eq!(parse_disconnection_complete(&event), Some((0x0040, 0x08)));
    assert_eq!(parse_disconnection_complete(&Event { code: 0x05, params: vec![0, 0x40] }), None);
    assert_eq!(parse_disconnection_complete(&Event { code: 0x06, params: vec![0, 0x40, 0, 8] }), None);
}

#[test]
fn completed_packets_are_listed_by_handle() {
    let event = Event { code: 0x13, params: vec![2, 0x60, 0x00, 3, 0, 0x61, 0x00, 1, 0] };
    assert_eq!(parse_number_of_completed_packets(&event), vec![(0x0060, 3), (0x0061, 1)]);
    assert!(parse_number_of_completed_packets(&Event { code: 0x0E, params: vec![] }).is_empty());
}

#[test]
fn only_the_end_of_the_connection_itself_confirms_it() {
    let ended = Event { code: 0x05, params: vec![0, 0x40, 0x00, 0x13] };
    assert!(confirms_disconnection(&ended, 0x40));
    assert!(!confirms_disconnection(&ended, 0x41));
    assert!(!confirms_disconnection(&Event { code: 0x05, params: vec![1, 0x40, 0x00, 0x13] }, 0x40));
    assert!(!confirms_disconnection(&Event { code: 0x0E, params: vec![0, 0x40, 0x00, 0x13] }, 0x40));
}

#[test]
fn an_established_channel_has_a_status_and_a_handle() {
    let event = Event { code: 0x3E, params: vec![0x19, 0x00, 0x60, 0x00, 1, 2, 3] };
    assert_eq!(parse_cis_established(&event), Some((0x00, 0x0060)));
    let other = Event { code: 0x3E, params: vec![0x01, 0x00, 0x60, 0x00] };
    assert_eq!(parse_cis_established(&other), None);
}

#[test]
fn commands_are_opcode_length_and_parameters() {
    assert_eq!(disconnect(0x0040, 0x13), vec![0x06, 0x04, 3, 0x40, 0x00, 0x13]);
    assert_eq!(read_rssi(0x0040), vec![0x05, 0x14, 2, 0x40, 0x00]);
    assert_eq!(le_remove_cig(1), vec![0x65, 0x20, 1, 1]);
    assert_eq!(
        le_create_cis(&[(0x60, 0x40), (0x61, 0x40)]),
        vec![0x64, 0x20, 9, 2, 0x60, 0, 0x40, 0, 0x61, 0, 0x40, 0],
    );
    let path = le_setup_iso_data_path(0x0060, 1, 0);
    assert_eq!(path[..7], [0x6E, 0x20, 13, 0x60, 0x00, 1, 0]);
    assert_eq!(path.len(), 16);
}

#[test]
fn reasons_are_put_into_words() {
    let words: Vec<&str> = [0x08u8, 0x13, 0x14, 0x15, 0x16].map(disconnect_reason).to_vec();
    for (i, a) in words.iter().enumerate() {
        assert!(!a.is_empty());
        for b in &words[i + 1..] {
            assert_ne!(a, b);
        }
    }
}

#[test]
fn an_address_reads_back_as_it_is_shown() {
    for bytes in [[0u8; 6], [1, 2, 3, 4, 5, 6], [0xFF; 6], [0x9A, 0xB4, 0x72, 0x62, 0xFE, 0x7C]] {
        let address = BdAddr(bytes);
        assert_eq!(BdAddr::parse(&address.to_text()), Some(address));
    }
    // The last byte on the air is the first one shown.
    assert_eq!(BdAddr([0x9A, 0xB4, 0x72, 0x62, 0xFE, 0x7C]).to_text(), "7C:FE:62:72:B4:9A");

    for text in ["", "7C:FE:62:72:B4", "7C:FE:62:72:B4:9A:00", "7C-FE-62-72-B4-9A", "7G:FE:62:72:B4:9A"] {
        assert_eq!(BdAddr::parse(text), None, "{text}");
    }
}

#[test]
fn a_frame_is_cut_up_and_put_together_again() {
    let pdu: Vec<u8> = (0..100).collect();
    for max in [4usize, 5, 27, 103, 104, 251] {
        let packets = build_acl_packets(0x0040, 0x0004, &pdu, max);
        assert_eq!(packets.len(), (pdu.len() + 4).div_ceil(max));

        let mut whole = AclReassembler::new();
        let (last, before) = packets.split_last().unwrap();
        for packet in before {
            assert!(whole.push(packet).unwrap().is_none());
        }
        let frame = whole.push(last).unwrap().unwrap();
        assert_eq!((frame.cid, frame.payload), (0x0004, pdu.clone()));
    }
}

#[test]
fn packets_say_whether_they_start_a_frame() {
    let packets = build_acl_packets(0x0040, 0x0004, &[1, 2, 3], 4);
    assert_eq!(packets[0], vec![0x40, 0x00, 4, 0, 3, 0, 4, 0]);
    assert_eq!(packets[1], vec![0x40, 0x10, 3, 0, 1, 2, 3]);
}

#[test]
fn a_new_frame_throws_away_what_was_left_of_the_last() {
    let first = build_acl_packets(0x0040, 0x0004, &[1; 60], 27);
    let second = build_acl_packets(0x0040, 0x0004, &[2, 2], 27);

    let mut whole = AclReassembler::new();
    assert!(whole.push(&first[0]).unwrap().is_none());
    assert_eq!(whole.push(&second[0]).unwrap().unwrap().payload, vec![2, 2]);

    // A continuation of nothing is a fault.
    let mut fresh = AclReassembler::new();
    assert!(fresh.push(&first[1]).is_err());
}

#[test]
fn microphone_audio_is_told_from_other_packets() {
    let raw = [0x60, 0x20, 8, 0, 0x01, 0x00, 4, 0, 9, 8, 7, 6];
    assert_eq!(parse_iso_data_packet(&raw), Some((0x0060, vec![9, 8, 7, 6])));
    assert_eq!(parse_iso_data_packet(&[0x60]), None);
}

#[test]
fn requests_are_laid_out_in_little_endian() {
    assert_eq!(exchange_mtu_request(517), vec![0x02, 0x05, 0x02]);
    assert_eq!(exchange_mtu_response(517), vec![0x03, 0x05, 0x02]);
    assert_eq!(read_by_group_type_request(1, 0xFFFF, 0x2800), vec![0x10, 1, 0, 0xFF, 0xFF, 0, 0x28]);
    assert_eq!(read_by_type_request(1, 9, 0x2803), vec![0x08, 1, 0, 9, 0, 3, 0x28]);
    assert_eq!(read_request(0x0102), vec![0x0A, 2, 1]);
    assert_eq!(read_blob_request(0x0102, 22), vec![0x0C, 2, 1, 22, 0]);
    assert_eq!(write_request(3, &[7, 8]), vec![0x12, 3, 0, 7, 8]);
}

#[test]
fn a_refusal_says_what_was_asked_and_why() {
    let refused = check_error(&[0x01, 0x0A, 0x03, 0x00, 0x05]);
    let error = AttError::Protocol { request: 0x0A, handle: 3, code: 5 };
    assert_eq!(refused, Err(error));
    assert!(error.is_code(5));
    assert!(!error.is_code(6));
    assert!(check_error(&[0x0B, 1]).is_ok());
    assert_eq!(check_error(&[0x01, 0x0A]), Err(AttError::Malformed { part: Malformed::Error }));
}

#[test]
fn the_smaller_packet_size_counts() {
    assert_eq!(agree_on_mtu(517, 247), 247);
    assert_eq!(agree_on_mtu(517, 1024), 517);
    // Less than the least that every device takes is no offer.
    assert_eq!(agree_on_mtu(517, 5), 23);
    assert_eq!(parse_mtu_response(&[0x03, 0xF7, 0x00], 517), Ok(247));
    assert_eq!(parse_mtu_response(&[0x03], 517), Err(AttError::Malformed { part: Malformed::Mtu }));
}

#[test]
fn services_are_read_from_their_ranges() {
    let ranges = parse_service_ranges(&[0x11, 6, 1, 0, 9, 0, 0x50, 0x18, 10, 0, 20, 0, 0x4E, 0x18]).unwrap();
    assert_eq!(ranges.len(), 2);
    assert_eq!((ranges[0].start_handle, ranges[0].end_handle), (1, 9));
    assert_eq!(ranges[1].uuid, Uuid::Short(0x184E));
    assert!(ranges[1].uuid.is_short(0x184E));
    assert_eq!(ranges[1].uuid.as_short(), Some(0x184E));
    assert_eq!(
        parse_service_ranges(&[0x11, 3, 1, 0, 9]).err(),
        Some(AttError::Malformed { part: Malformed::Services }),
    );
}

#[test]
fn characteristics_are_read_from_their_declarations() {
    let found = parse_characteristics(&[0x09, 7, 2, 0, 0x12, 3, 0, 0xC9, 0x2B]).unwrap();
    assert_eq!(found.len(), 1);
    assert_eq!((found[0].declaration_handle, found[0].properties), (2, 0x12));
    assert_eq!((found[0].value_handle, found[0].uuid), (3, Uuid::Short(0x2BC9)));
    assert_eq!(
        parse_characteristics(&[0x09, 2, 1, 0]).err(),
        Some(AttError::Malformed { part: Malformed::Characteristics }),
    );
}

#[test]
fn a_value_is_what_follows_the_opcode() {
    assert_eq!(parse_read_response(&[0x0B, 1, 2]), Ok(vec![1, 2]));
    assert_eq!(parse_read_response(&[0x13]), Err(AttError::Malformed { part: Malformed::Value }));
}

#[test]
fn a_request_for_what_we_lack_is_refused() {
    let answer = absent_local_attribute_response(&[0x08, 1, 0, 0xFF, 0xFF, 3, 0x28]).unwrap();
    assert_eq!(answer, vec![0x01, 0x08, 1, 0, 0x0A]);
    // An answer is no request.
    assert_eq!(absent_local_attribute_response(&[0x0B, 1, 2]), None);
}

#[test]
fn a_parameter_request_is_understood_and_accepted() {
    let request = [0x12, 7, 8, 0, 6, 0, 12, 0, 0, 0, 0xF4, 1];
    match parse(&request) {
        Some(Signal::ParameterUpdateRequest { identifier, parameters }) => {
            assert_eq!(identifier, 7);
            assert_eq!(
                parameters,
                ConnectionParameters {
                    interval_min: 6,
                    interval_max: 12,
                    latency: 0,
                    supervision_timeout: 500,
                },
            );
        }
        None => panic!("not understood"),
    }
    assert_eq!(parameter_update_response(7, 0), vec![0x13, 7, 2, 0, 0, 0]);
    assert!(parse(&request[..8]).is_none());
}

#[test]
fn only_approved_handles_are_written() {
    let mut policy = WritePolicy::new();
    assert_eq!(policy.check_write(9), Err(SafetyViolation { handle: 9 }));
    policy.allow_ase_control_point(9);
    policy.allow_volume_control_point(10);
    policy.allow_subscription(11);
    for handle in [9, 10, 11] {
        assert!(policy.check_write(handle).is_ok());
    }
    assert!(policy.check_write(12).is_err());

    // Another control point takes the place of the first.
    policy.allow_ase_control_point(20);
    assert!(policy.check_write(9).is_err());
    assert!(policy.check_write(20).is_ok());
}

#[test]
fn the_volume_is_a_fraction_of_full_scale() {
    let state = parse_volume_state(&[255, 0, 3]).unwrap();
    assert_eq!(state, VolumeState { setting: 255, muted: false, change_counter: 3 });
    assert_eq!(state.percent(), 100);
    assert_eq!(state.scalar(), Number::ratio(1, 1));
    assert_eq!(set_absolute(&state, 128), vec![0x04, 3, 128]);

    assert_eq!(parse_volume_state(&[51, 1, 0]).unwrap().percent(), 20);
    assert!(parse_volume_state(&[51, 1, 0]).unwrap().muted);
    assert!(parse_volume_state(&[51, 1]).is_none());

    assert_eq!(VolumeState::setting_from_scalar(Number::ratio(0, 1)), 0);
    assert_eq!(VolumeState::setting_from_scalar(Number::ratio(1, 1)), 255);
    assert_eq!(VolumeState::setting_from_scalar(Number::ratio(9, 1)), 255);
    assert_eq!(VolumeState::setting_from_scalar(Number::ratio(1, 2)), 128);
}
