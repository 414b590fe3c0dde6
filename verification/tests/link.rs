use dnp3::link::{
    encoded_payload_len, ControlField, Direction, LinkFrame, LinkFunction, PrimaryFunction,
    SecondaryFunction,
};
use dnp3::primitives::{crc16, Address, ProtocolError};

#[test]
fn control_field_parsing_primary() {
    let control = ControlField::decode(0xf3).unwrap();
    assert_eq!(control.direction, Direction::OutstationToMaster);
    assert!(control.fcb);
    assert!(control.fcv);
    assert_eq!(
        control.function,
        LinkFunction::Primary(PrimaryFunction::ConfirmedUserData)
    );
    assert_eq!(control.encode(), 0xf3);
}

#[test]
fn control_field_parsing_secondary() {
    let control = ControlField::decode(0x80).unwrap();
    assert_eq!(control.function, LinkFunction::Secondary(SecondaryFunction::Ack));
    assert_eq!(control.encode(), 0x80);
}

#[test]
fn link_frame_round_trip() {
    let frame = LinkFrame::unconfirmed_user_data(
        Address::new(1),
        Address::new(1024),
        (0_u8..40).collect(),
    )
    .unwrap();
    let encoded = frame.encode();
    assert_eq!(LinkFrame::decode(&encoded).unwrap(), frame);
}

#[test]
fn invalid_crc_rejection() {
    let frame = LinkFrame::unconfirmed_user_data(Address::new(1), Address::new(2), vec![1]).unwrap();
    let mut encoded = frame.encode();
    let last = encoded.len() - 1;
    encoded[last] ^= 0xff;
    assert_eq!(LinkFrame::decode(&encoded), Err(ProtocolError::InvalidCrc));
}

#[test]
fn tool_reset_link_states_matches_freyr_client_capture() {
    let frame = LinkFrame::tool_reset_link_states(Address::new(10), Address::new(1));
    assert_eq!(frame.control.encode(), 0xC0);
    assert_eq!(
        frame.encode(),
        [0x05, 0x64, 0x05, 0xc0, 0x0a, 0x00, 0x01, 0x00, 0xb1, 0xac]
    );
}

#[test]
fn invalid_length_rejection() {
    let frame = LinkFrame::unconfirmed_user_data(Address::new(1), Address::new(2), vec![1]).unwrap();
    let mut encoded = frame.encode();
    encoded[2] = 4;
    let crc = crc16(&encoded[..8]).to_le_bytes();
    encoded[8..10].copy_from_slice(&crc);
    assert!(matches!(
        LinkFrame::decode(&encoded),
        Err(ProtocolError::InvalidLength { .. })
    ));
}

#[test]
fn frame_round_trip_every_payload_length() {
    for len in 0..=250usize {
        let payload: Vec<u8> = (0..len).map(|i| (i * 31 + 5) as u8).collect();
        let frame = LinkFrame::unconfirmed_user_data(Address::new(7), Address::new(9), payload).unwrap();
        let encoded = frame.encode();
        assert_eq!(encoded.len(), 10 + encoded_payload_len(len));
        assert_eq!(LinkFrame::decode(&encoded).unwrap(), frame);
    }
}

#[test]
fn oversized_payload_is_refused() {
    let payload = vec![0u8; 251];
    assert_eq!(
        LinkFrame::unconfirmed_user_data(Address::new(7), Address::new(9), payload),
        Err(ProtocolError::InvalidLength { expected: 250, actual: 251 })
    );
}

#[test]
fn malformed_frames_are_refused() {
    assert_eq!(LinkFrame::decode(&[0x05, 0x64, 0x05]), Err(ProtocolError::UnexpectedEof));
    assert_eq!(
        LinkFrame::decode(&[0x05, 0x65, 0x05, 0xc0, 0, 0, 0, 0, 0, 0]),
        Err(ProtocolError::InvalidStartBytes)
    );
    let mut bytes = LinkFrame::reset_link_states(Address::new(1), Address::new(2)).encode();
    bytes.push(0);
    assert_eq!(
        LinkFrame::decode(&bytes),
        Err(ProtocolError::InvalidLength { expected: 10, actual: 11 })
    );
    for seed in 0..200u32 {
        let bytes: Vec<u8> = (0..(seed as usize % 40))
            .map(|i| ((seed as usize * 131 + i * 17) % 256) as u8)
            .collect();
        let _ = LinkFrame::decode(&bytes);
    }
}

#[test]
fn control_bytes_round_trip() {
    for value in 0..=255u8 {
        if let Ok(control) = ControlField::decode(value) {
            assert_eq!(control.encode(), value);
        }
    }
    assert!(ControlField::decode(0x4f).is_err());
}

#[test]
fn frame_constructors_use_expected_controls() {
    let a = Address::new(1);
    let b = Address::new(2);
    assert_eq!(LinkFrame::ack(a, b).control.encode(), 0x80);
    assert_eq!(LinkFrame::legacy_ack(a, b).control.encode(), 0x00);
    assert_eq!(LinkFrame::ack_with_fcb(a, b, true).control.encode(), 0xa0);
    assert_eq!(LinkFrame::legacy_ack_with_fcb(a, b, true).control.encode(), 0x20);
    assert_eq!(LinkFrame::link_status(a, b).control.encode(), 0x8b);
    assert_eq!(LinkFrame::link_status(a, b).payload, vec![0xff]);
    assert_eq!(LinkFrame::reset_link_states(a, b).control.encode(), 0x40);
    assert_eq!(LinkFrame::tool_reset_link_states(a, b).control.encode(), 0xc0);
    assert_eq!(LinkFrame::test_link_states(a, b, true).control.encode(), 0x72);
    assert_eq!(LinkFrame::tool_test_link_states(a, b, false).control.encode(), 0xd2);
    assert_eq!(
        LinkFrame::unconfirmed_user_data(a, b, vec![]).unwrap().control.encode(),
        0x44
    );
    assert_eq!(
        LinkFrame::tool_unconfirmed_user_data(a, b, vec![]).unwrap().control.encode(),
        0xc4
    );
    assert_eq!(
        LinkFrame::outstation_unconfirmed_user_data(a, b, vec![]).unwrap().control.encode(),
        0xc4
    );
}

#[test]
fn encoded_payload_len_counts_block_crcs() {
    assert_eq!(encoded_payload_len(0), 0);
    assert_eq!(encoded_payload_len(1), 3);
    assert_eq!(encoded_payload_len(16), 18);
    assert_eq!(encoded_payload_len(17), 21);
    assert_eq!(encoded_payload_len(250), 282);
}
