use dnp3::app::{
    AnalogInput, AnalogOutput, AppControl, AppObject, ApplicationFragment, BinaryInput,
    BinaryOutput, Counter, FunctionCode,
};
use dnp3::link::{LinkFrame, LinkFunction, SecondaryFunction};
use dnp3::outstation::{Database, OutstationConfig, OutstationError, OutstationSession};
use dnp3::primitives::{crc16, Address, ProtocolError};
use dnp3::transport::{TransportHeader, TransportSegment};

fn request_frame(destination: u16, request: &ApplicationFragment, sequence: u8) -> LinkFrame {
    LinkFrame::unconfirmed_user_data(
        Address::new(destination),
        Address::new(1),
        TransportSegment {
            header: TransportHeader::new(true, true, sequence),
            payload: request.encode().unwrap(),
        }
        .encode(),
    )
    .unwrap()
}

fn response_of(frame: &LinkFrame) -> ApplicationFragment {
    let segment = TransportSegment::decode(&frame.payload).unwrap();
    ApplicationFragment::decode(&segment.payload).unwrap()
}

#[test]
fn reset_link_states_returns_standard_ack() {
    let mut outstation = OutstationSession::new(OutstationConfig::default(), Database::default());
    let frame = LinkFrame::reset_link_states(Address::new(1024), Address::new(1));
    let responses = outstation.handle_frame(frame).unwrap();
    assert_eq!(responses.len(), 1);
    assert_eq!(responses[0].control.encode(), 0x80);
    assert!(matches!(
        responses[0].control.function,
        LinkFunction::Secondary(SecondaryFunction::Ack)
    ));
}

#[test]
fn tool_reset_control_c0_returns_legacy_ack() {
    let mut outstation = OutstationSession::new(
        OutstationConfig { outstation: Address::new(10) },
        Database::default(),
    );
    let mut bytes = LinkFrame::reset_link_states(Address::new(10), Address::new(1)).encode();
    bytes[3] = 0xc0;
    let crc = crc16(&bytes[..8]).to_le_bytes();
    bytes[8..10].copy_from_slice(&crc);
    let frame = LinkFrame::decode(&bytes).unwrap();
    let responses = outstation.handle_frame(frame).unwrap();
    assert_eq!(responses.len(), 1);
    assert_eq!(responses[0].control.encode(), 0x00);
    assert_eq!(
        responses[0].encode(),
        LinkFrame::legacy_ack(Address::new(1), Address::new(10)).encode()
    );
}

#[test]
fn client_class_scan_request_returns_single_integrity_set() {
    let mut outstation = OutstationSession::new(
        OutstationConfig { outstation: Address::new(10) },
        Database {
            binary_inputs: vec![BinaryInput { index: 0, flags: 0x81 }],
            binary_outputs: vec![BinaryOutput { index: 0, flags: 0x81 }],
            analog_inputs: vec![AnalogInput { index: 0, flags: 0x81, value: 1234 }],
            analog_outputs: vec![AnalogOutput { index: 0, flags: 0x81, value: 5678 }],
            counters: vec![Counter { index: 0, flags: 0x81, value: 42 }],
        },
    );

    let request = ApplicationFragment::decode(&[
        0xc0, 0x01, 0x3c, 0x01, 0x06, 0x3c, 0x02, 0x06, 0x3c, 0x03, 0x06, 0x3c, 0x04, 0x06,
    ])
    .unwrap();
    let frame = LinkFrame::unconfirmed_user_data(
        Address::new(10),
        Address::new(1),
        TransportSegment {
            header: TransportHeader::new(true, true, 0),
            payload: request.encode().unwrap(),
        }
        .encode(),
    )
    .unwrap();

    let responses = outstation.handle_frame(frame).unwrap();
    assert_eq!(responses.len(), 1);
    assert_eq!(responses[0].control.encode(), 0xC4);

    let segment = TransportSegment::decode(&responses[0].payload).unwrap();
    let response = ApplicationFragment::decode(&segment.payload).unwrap();
    assert_eq!(response.function, FunctionCode::Response);
    assert_eq!(response.iin, 0);
    assert_eq!(response.objects.len(), 5);
    let encoded = response.encode().unwrap();
    assert_eq!(&encoded[..4], &[0xc0, 0x81, 0x00, 0x00]);
    // Range16 encoding: index in header, flags-only body.
    assert_eq!(&encoded[4..12], &[0x01, 0x02, 0x01, 0x00, 0x00, 0x00, 0x00, 0x81]);
}

#[test]
fn tool_style_class_scan_request_returns_0x44_response() {
    let mut outstation = OutstationSession::new(
        OutstationConfig { outstation: Address::new(10) },
        Database::default(),
    );

    let request = ApplicationFragment::decode(&[
        0xc0, 0x01, 0x3c, 0x01, 0x06, 0x3c, 0x02, 0x06, 0x3c, 0x03, 0x06, 0x3c, 0x04, 0x06,
    ])
    .unwrap();
    let mut bytes = LinkFrame::unconfirmed_user_data(
        Address::new(10),
        Address::new(1),
        TransportSegment {
            header: TransportHeader::new(true, true, 0),
            payload: request.encode().unwrap(),
        }
        .encode(),
    )
    .unwrap()
    .encode();
    bytes[3] = 0xc4;
    let crc = crc16(&bytes[..8]).to_le_bytes();
    bytes[8..10].copy_from_slice(&crc);
    let frame = LinkFrame::decode(&bytes).unwrap();

    let responses = outstation.handle_frame(frame).unwrap();
    assert_eq!(responses.len(), 1);
    assert_eq!(responses[0].control.encode(), 0x44);
}

#[test]
fn frames_for_other_addresses_are_ignored() {
    let mut outstation = OutstationSession::new(OutstationConfig::default(), Database::default());
    let frame = LinkFrame::reset_link_states(Address::new(9), Address::new(1));
    assert!(outstation.handle_frame(frame).unwrap().is_empty());
    assert_eq!(outstation.outstation_address(), Address::new(1024));
}

#[test]
fn test_link_and_status_requests_are_answered() {
    let mut outstation = OutstationSession::new(OutstationConfig::default(), Database::default());
    let test = LinkFrame::test_link_states(Address::new(1024), Address::new(3), true);
    let responses = outstation.handle_frame(test).unwrap();
    assert_eq!(responses, vec![LinkFrame::legacy_ack_with_fcb(Address::new(3), Address::new(1024), true)]);
    let mut status_bytes = LinkFrame::reset_link_states(Address::new(1024), Address::new(3)).encode();
    status_bytes[3] = 0x49;
    let crc = crc16(&status_bytes[..8]).to_le_bytes();
    status_bytes[8..10].copy_from_slice(&crc);
    let status = LinkFrame::decode(&status_bytes).unwrap();
    let responses = outstation.handle_frame(status).unwrap();
    assert_eq!(responses, vec![LinkFrame::link_status(Address::new(3), Address::new(1024))]);
}

#[test]
fn confirmed_user_data_is_acknowledged_before_the_response() {
    let mut outstation = OutstationSession::new(OutstationConfig::default(), Database::default());
    let request = ApplicationFragment::integrity_poll(5);
    let mut bytes = request_frame(1024, &request, 0).encode();
    bytes[3] = 0x73;
    let crc = crc16(&bytes[..8]).to_le_bytes();
    bytes[8..10].copy_from_slice(&crc);
    let frame = LinkFrame::decode(&bytes).unwrap();
    let responses = outstation.handle_frame(frame).unwrap();
    assert_eq!(responses.len(), 2);
    assert_eq!(responses[0], LinkFrame::ack_with_fcb(Address::new(1), Address::new(1024), true));
    let response = response_of(&responses[1]);
    assert_eq!(response.control.sequence, 5);
    assert!(response.objects.is_empty());
}

#[test]
fn write_requests_get_empty_responses_and_others_are_refused() {
    let mut outstation = OutstationSession::new(OutstationConfig::default(), Database::default());
    let write = ApplicationFragment::new(AppControl::single(7), FunctionCode::Write, vec![]);
    let responses = outstation.handle_frame(request_frame(1024, &write, 0)).unwrap();
    let response = response_of(&responses[0]);
    assert_eq!(response.function, FunctionCode::Response);
    assert_eq!(response.control, AppControl::single(7));
    assert!(response.objects.is_empty());

    let operate = ApplicationFragment::new(AppControl::single(8), FunctionCode::Operate, vec![]);
    match outstation.handle_frame(request_frame(1024, &operate, 1)) {
        Err(OutstationError::Protocol(ProtocolError::UnknownValue { field, value })) => {
            assert_eq!(field, "unsupported outstation function");
            assert_eq!(value, 4);
        }
        other => panic!("unexpected result {other:?}"),
    }
}

#[test]
fn responses_advance_the_transport_sequence() {
    let mut outstation = OutstationSession::new(OutstationConfig::default(), Database::default());
    let poll = ApplicationFragment::integrity_poll(0);
    let first = outstation.handle_frame(request_frame(1024, &poll, 0)).unwrap();
    let second = outstation.handle_frame(request_frame(1024, &poll, 1)).unwrap();
    let s1 = TransportSegment::decode(&first[0].payload).unwrap();
    let s2 = TransportSegment::decode(&second[0].payload).unwrap();
    assert_eq!(s1.header.sequence, 0);
    assert_eq!(s2.header.sequence, 1);
    let reset = LinkFrame::reset_link_states(Address::new(1024), Address::new(1));
    outstation.handle_frame(reset).unwrap();
    let third = outstation.handle_frame(request_frame(1024, &poll, 2)).unwrap();
    assert_eq!(TransportSegment::decode(&third[0].payload).unwrap().header.sequence, 0);
}

#[test]
fn read_without_static_request_gets_no_objects() {
    let mut database = Database::default();
    database.binary_inputs.push(BinaryInput { index: 1, flags: 1 });
    let mut outstation = OutstationSession::new(OutstationConfig::default(), database);
    let read = ApplicationFragment::new(AppControl::single(2), FunctionCode::Read, vec![]);
    let responses = outstation.handle_frame(request_frame(1024, &read, 0)).unwrap();
    assert!(response_of(&responses[0]).objects.is_empty());
    outstation.database_mut().counters.push(Counter { index: 0, flags: 1, value: 3 });
    assert_eq!(outstation.database().counters.len(), 1);
    let poll = ApplicationFragment::integrity_poll(3);
    let responses = outstation.handle_frame(request_frame(1024, &poll, 1)).unwrap();
    assert_eq!(response_of(&responses[0]).objects.len(), 2);
}

#[test]
fn integrity_objects_skip_empty_lists() {
    let database = Database {
        binary_inputs: vec![],
        binary_outputs: vec![BinaryOutput { index: 2, flags: 1 }],
        analog_inputs: vec![],
        analog_outputs: vec![],
        counters: vec![Counter { index: 0, flags: 1, value: 9 }],
    };
    assert_eq!(
        database.integrity_objects(),
        vec![
            AppObject::BinaryOutputs(vec![BinaryOutput { index: 2, flags: 1 }]),
            AppObject::Counters(vec![Counter { index: 0, flags: 1, value: 9 }]),
        ]
    );
    assert!(Database::default().integrity_objects().is_empty());
}

#[test]
fn segment_errors_are_reported() {
    let mut outstation = OutstationSession::new(OutstationConfig::default(), Database::default());
    let frame =
        LinkFrame::unconfirmed_user_data(Address::new(1024), Address::new(1), vec![]).unwrap();
    assert!(matches!(
        outstation.handle_frame(frame),
        Err(OutstationError::Protocol(ProtocolError::UnexpectedEof))
    ));
    let orphan = LinkFrame::unconfirmed_user_data(
        Address::new(1024),
        Address::new(1),
        vec![TransportHeader::new(false, true, 0).encode(), 1],
    )
    .unwrap();
    assert!(matches!(
        outstation.handle_frame(orphan),
        Err(OutstationError::Protocol(ProtocolError::InvalidFragment))
    ));
}

#[test]
fn multi_segment_requests_are_answered_at_the_last_frame() {
    let mut outstation = OutstationSession::new(OutstationConfig::default(), Database::default());
    let values: Vec<BinaryInput> = (0..600u16).map(|i| BinaryInput { index: i, flags: 1 }).collect();
    let write = ApplicationFragment::new(
        AppControl::single(9),
        FunctionCode::Write,
        vec![AppObject::BinaryInputs(values)],
    );
    let bytes = write.encode().unwrap();
    let segments = dnp3::transport::fragment(&bytes, 40);
    assert_eq!(segments.len(), 3);
    let last = segments.len() - 1;
    for (i, segment) in segments.into_iter().enumerate() {
        let frame = LinkFrame::unconfirmed_user_data(Address::new(1024), Address::new(1), segment.encode())
            .unwrap();
        let responses = outstation.handle_frame(frame).unwrap();
        if i < last {
            assert!(responses.is_empty());
        } else {
            assert_eq!(responses.len(), 1);
            let response = response_of(&responses[0]);
            assert_eq!(response.control, AppControl::single(9));
            assert_eq!(response.function, FunctionCode::Response);
        }
    }
}
