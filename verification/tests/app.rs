use dnp3::app::{
    AnalogInput, AnalogOutput, AppControl, AppObject, ApplicationFragment, BinaryInput,
    BinaryOutput, Counter, DataClass, FunctionCode, ObjectHeader, Qualifier,
};
use dnp3::primitives::{ProtocolError, Reader, Timestamp48};

fn double_bit_state(flags: u8) -> &'static str {
    match (flags >> 6) & 0x03 {
        0b10 => "ON",
        0b01 => "OFF",
        0b11 => "INDETERMINATE",
        _ => "INTERMEDIATE",
    }
}

fn round_trip_object(object: AppObject) {
    let fragment =
        ApplicationFragment::new(AppControl::single(1), FunctionCode::Response, vec![object]);
    let encoded = fragment.encode().unwrap();
    assert_eq!(ApplicationFragment::decode(&encoded).unwrap(), fragment);
}

#[test]
fn function_code_parsing() {
    assert_eq!(FunctionCode::decode(1).unwrap(), FunctionCode::Read);
    assert_eq!(FunctionCode::decode(129).unwrap(), FunctionCode::Response);
    assert!(FunctionCode::decode(255).is_err());
}

#[test]
fn object_header_parsing() {
    let header = ObjectHeader::new(1, 2, Qualifier::CountAndPrefix16(3));
    let mut encoded = Vec::new();
    header.encode(&mut encoded);
    let mut reader = Reader::new(&encoded);
    assert_eq!(ObjectHeader::decode(&mut reader).unwrap(), header);
}

#[test]
fn contiguous_binary_inputs_use_range16_qualifier() {
    let mut encoded = Vec::new();
    AppObject::BinaryInputs(vec![BinaryInput { index: 0, flags: 0x81 }])
        .encode(&mut encoded)
        .unwrap();
    assert_eq!(&encoded, &[0x01, 0x02, 0x01, 0x00, 0x00, 0x00, 0x00, 0x81]);
}

#[test]
fn binary_input_encoding_decoding() {
    round_trip_object(AppObject::BinaryInputs(vec![
        BinaryInput { index: 0, flags: 0x81 },
        BinaryInput { index: 3, flags: 0x01 },
    ]));
}

#[test]
fn binary_output_encoding_decoding() {
    round_trip_object(AppObject::BinaryOutputs(vec![BinaryOutput { index: 4, flags: 0x81 }]));
}

#[test]
fn analog_input_encoding_decoding() {
    round_trip_object(AppObject::AnalogInputs(vec![AnalogInput {
        index: 7,
        flags: 0x81,
        value: -1234,
    }]));
}

#[test]
fn analog_output_encoding_decoding() {
    round_trip_object(AppObject::AnalogOutputs(vec![AnalogOutput {
        index: 8,
        flags: 0x81,
        value: 4321,
    }]));
}

#[test]
fn counter_encoding_decoding() {
    round_trip_object(AppObject::Counters(vec![Counter {
        index: 2,
        flags: 0x81,
        value: 123_456,
    }]));
}

#[test]
fn time_encoding_decoding() {
    round_trip_object(AppObject::Time(Timestamp48::from_millis(1_704_067_200_123).unwrap()));
}

#[test]
fn integrity_poll_round_trip() {
    let fragment = ApplicationFragment::integrity_poll(4);
    let encoded = fragment.encode().unwrap();
    assert_eq!(ApplicationFragment::decode(&encoded).unwrap(), fragment);
}

#[test]
fn class_scan_round_trip() {
    round_trip_object(AppObject::ClassScan(DataClass::Class1));
}

#[test]
fn simulator_double_bit_event_with_22_qualifier_decodes() {
    let payload = &[
        0xc0, 0x81, 0x00, 0x00, 0x04, 0x02, 0x22, 0x01, 0x00, 0x00, 0x81, 0x00, 0x00, 0x00, 0x00,
        0x00, 0x00,
    ];
    let response =
        ApplicationFragment::decode(payload).expect("0x22 double-bit event should decode");
    match &response.objects[0] {
        AppObject::DoubleBitBinaryInputs(points) => {
            assert_eq!(points[0].index, 0);
            assert_eq!(points[0].flags, 0x81);
            assert_eq!(double_bit_state(points[0].flags), "ON");
        }
        other => panic!("unexpected object {other:?}"),
    }
}

#[test]
fn simulator_event_response_with_a2_qualifier_decodes() {
    let payload = &[
        0xc0, 0x81, 0x00, 0x00, 0x02, 0x03, 0xa2, 0x01, 0x00, 0x00, 0x00, 0x00, 0x42, 0x00, 0x00,
        0x00, 0x00, 0x00, 0x00,
    ];
    let response = ApplicationFragment::decode(payload).expect("a2 event should decode");
    match &response.objects[0] {
        AppObject::BinaryInputs(points) => {
            assert_eq!(points[0].flags, 0x42);
        }
        other => panic!("unexpected object {other:?}"),
    }
}

#[test]
fn simulator_binary_event_with_ad_qualifier_decodes() {
    let payload = &[
        0xc0, 0x81, 0x00, 0x00, 0x02, 0x03, 0xad, 0x01, 0x00, 0x00, 0x00, 0x00, 0x81, 0x00, 0x00,
        0x00, 0x00, 0x00, 0x00,
    ];
    let response = ApplicationFragment::decode(payload).expect("0xad binary event should decode");
    match &response.objects[0] {
        AppObject::BinaryInputs(points) => {
            assert_eq!(points[0].flags, 0x81);
        }
        other => panic!("unexpected object {other:?}"),
    }
}

#[test]
fn simulator_analog_event_with_8f_qualifier_decodes() {
    let payload = &[
        0xc0, 0x81, 0x00, 0x00, 0x20, 0x03, 0x8f, 0x01, 0x00, 0x00, 0x00, 0x00, 0x01, 0x00, 0x00,
        0x80, 0x3f, 0x00, 0x00, 0x00, 0x00, 0x00, 0x00,
    ];
    let response = ApplicationFragment::decode(payload).expect("0x8f analog event should decode");
    match &response.objects[0] {
        AppObject::AnalogInputs(points) => {
            assert_eq!(points[0].index, 0);
            assert_eq!(points[0].value, 0x3f800000_u32 as i32);
        }
        other => panic!("unexpected object {other:?}"),
    }
}

#[test]
fn simulator_event_response_with_d8_qualifier_decodes() {
    let payload = &[
        0xc0, 0x81, 0x00, 0x00, 0x02, 0x03, 0xd8, 0x01, 0x00, 0x00, 0x00, 0x00, 0x81, 0x00, 0x00,
        0x00, 0x00, 0x00, 0x00,
    ];
    let response = ApplicationFragment::decode(payload).expect("event response should decode");
    assert_eq!(response.objects.len(), 1);
    match &response.objects[0] {
        AppObject::BinaryInputs(points) => {
            assert_eq!(points.len(), 1);
            assert_eq!(points[0].index, 0);
            assert_eq!(points[0].flags, 0x81);
        }
        other => panic!("unexpected object {other:?}"),
    }
}

#[test]
fn freyr_outstation_response_decodes() {
    let payload = &[
        0xc0, 0x81, 0x90, 0x00, 0x01, 0x02, 0x00, 0x00, 0x00, 0x01, 0x03, 0x02, 0x00, 0x00, 0x00,
        0x51, 0x0a, 0x01, 0x14, 0x01, 0x00, 0x00, 0x00, 0x01, 0x00, 0x00, 0x00, 0x00, 0x15, 0x01,
        0x00, 0x00, 0x00, 0x73, 0x7e, 0x01, 0x00, 0x00, 0x00,
    ];
    let response = ApplicationFragment::decode(payload).expect("freyr response should decode");
    match &response.objects[0] {
        AppObject::BinaryInputs(points) => assert_eq!(points[0].flags, 0x01),
        other => panic!("unexpected object {other:?}"),
    }
    match &response.objects[1] {
        AppObject::DoubleBitBinaryInputs(points) => {
            assert_eq!(points[0].flags, 0x51);
            assert_eq!(double_bit_state(points[0].flags), "OFF");
        }
        other => panic!("unexpected object {other:?}"),
    }
}

#[test]
fn freyr_double_bit_flags_use_bits_6_and_7() {
    assert_eq!(double_bit_state(0x81), "ON");
    assert_eq!(double_bit_state(0x41), "OFF");
    assert_eq!(double_bit_state(0x51), "OFF");
}

#[test]
fn binary_inputs_round_trip_pseudo_random() {
    let mut state: u32 = 12345;
    for round in 0..200u32 {
        let len = (round % 33) as usize;
        let mut values = Vec::new();
        for _ in 0..len {
            state = state.wrapping_mul(1_103_515_245).wrapping_add(12_345);
            let index = (state >> 8) as u16;
            let flags = (state >> 24) as u8;
            values.push(BinaryInput { index, flags });
        }
        let fragment = ApplicationFragment::new(
            AppControl::single(2),
            FunctionCode::Response,
            vec![AppObject::BinaryInputs(values)],
        );
        let encoded = fragment.encode().unwrap();
        assert_eq!(ApplicationFragment::decode(&encoded).unwrap(), fragment);
    }
}

#[test]
fn non_contiguous_points_use_index_prefixes() {
    let mut encoded = Vec::new();
    AppObject::Counters(vec![
        Counter { index: 5, flags: 0x01, value: 7 },
        Counter { index: 9, flags: 0x02, value: 0x0102_0304 },
    ])
    .encode(&mut encoded)
    .unwrap();
    assert_eq!(
        encoded,
        vec![
            0x14, 0x01, 0x28, 0x02, 0x05, 0x00, 0x01, 0x07, 0x00, 0x00, 0x00, 0x09, 0x00, 0x02,
            0x04, 0x03, 0x02, 0x01
        ]
    );
}

#[test]
fn too_many_prefixed_points_are_refused() {
    let values: Vec<BinaryInput> =
        (0..256u16).map(|i| BinaryInput { index: i * 2, flags: 0 }).collect();
    let mut encoded = vec![0xaa];
    assert_eq!(
        AppObject::BinaryInputs(values).encode(&mut encoded),
        Err(ProtocolError::InvalidLength { expected: 255, actual: 256 })
    );
    assert_eq!(encoded, vec![0xaa]);
}

#[test]
fn response_carries_internal_indications() {
    let mut fragment =
        ApplicationFragment::new(AppControl::single(3), FunctionCode::Response, vec![]);
    fragment.iin = 0x1234;
    let encoded = fragment.encode().unwrap();
    assert_eq!(encoded, vec![0xc3, 0x81, 0x34, 0x12]);
    assert_eq!(ApplicationFragment::decode(&encoded).unwrap(), fragment);
}

#[test]
fn class_zero_scan_reads_back_as_integrity_poll() {
    let fragment = ApplicationFragment::new(
        AppControl::single(0),
        FunctionCode::Read,
        vec![AppObject::ClassScan(DataClass::Class0)],
    );
    let encoded = fragment.encode().unwrap();
    assert_eq!(encoded, vec![0xc0, 0x01, 0x3c, 0x01, 0x06]);
    let decoded = ApplicationFragment::decode(&encoded).unwrap();
    assert_eq!(decoded.objects, vec![AppObject::IntegrityPoll]);
}

#[test]
fn simulator_scans_list_classes() {
    let scan = ApplicationFragment::simulator_class_scan(17);
    assert_eq!(scan.control.sequence, 1);
    assert_eq!(
        scan.encode().unwrap(),
        vec![0xc1, 0x01, 0x3c, 0x01, 0x06, 0x3c, 0x02, 0x06, 0x3c, 0x03, 0x06, 0x3c, 0x04, 0x06]
    );
    let events = ApplicationFragment::simulator_event_scan(2);
    assert_eq!(events.objects.len(), 3);
    assert_eq!(ApplicationFragment::decode(&events.encode().unwrap()).unwrap(), events);
}

#[test]
fn decode_errors_are_reported() {
    assert_eq!(ApplicationFragment::decode(&[0xc0]), Err(ProtocolError::UnexpectedEof));
    assert!(matches!(
        ApplicationFragment::decode(&[0xc0, 0xff]),
        Err(ProtocolError::UnknownValue { value: 0xff, .. })
    ));
    assert_eq!(ApplicationFragment::decode(&[0xc0, 0x81, 0x00]), Err(ProtocolError::UnexpectedEof));
    assert!(matches!(
        ApplicationFragment::decode(&[0xc0, 0x01, 0x63, 0x01, 0x06]),
        Err(ProtocolError::UnknownValue { value: 0x63, .. })
    ));
}

#[test]
fn app_control_encoding() {
    let control = AppControl::new(true, false, true, false, 0x1f);
    assert_eq!(control.sequence, 0x0f);
    assert_eq!(control.encode(), 0xaf);
    assert_eq!(AppControl::decode(0xaf), control);
}

#[test]
fn indices_that_would_wrap_use_index_prefixes() {
    let values = vec![
        BinaryInput { index: 65535, flags: 0x81 },
        BinaryInput { index: 0, flags: 0x01 },
    ];
    let mut encoded = Vec::new();
    AppObject::BinaryInputs(values.clone()).encode(&mut encoded).unwrap();
    assert_eq!(
        encoded,
        vec![0x01, 0x02, 0x28, 0x02, 0xff, 0xff, 0x81, 0x00, 0x00, 0x01]
    );
    round_trip_object(AppObject::BinaryInputs(values));
    round_trip_object(AppObject::Counters(vec![
        Counter { index: 65535, flags: 1, value: 5 },
        Counter { index: 0, flags: 1, value: 6 },
    ]));
    round_trip_object(AppObject::AnalogOutputs(vec![
        AnalogOutput { index: 65535, flags: 1, value: -5 },
        AnalogOutput { index: 0, flags: 1, value: 6 },
    ]));
}

#[test]
fn run_ending_at_the_last_index_uses_a_range() {
    let values = vec![
        BinaryInput { index: 65534, flags: 0x01 },
        BinaryInput { index: 65535, flags: 0x02 },
    ];
    let mut encoded = Vec::new();
    AppObject::BinaryInputs(values.clone()).encode(&mut encoded).unwrap();
    assert_eq!(encoded, vec![0x01, 0x02, 0x01, 0xfe, 0xff, 0xff, 0xff, 0x01, 0x02]);
    round_trip_object(AppObject::BinaryInputs(values));
}

#[test]
fn binary_inputs_near_the_top_index_round_trip() {
    for start in [65500u16, 65520, 65530, 65535] {
        for len in 1..=32usize {
            let values: Vec<BinaryInput> = (0..len)
                .map(|i| BinaryInput { index: start.wrapping_add(i as u16), flags: i as u8 })
                .collect();
            let fragment = ApplicationFragment::new(
                AppControl::single(2),
                FunctionCode::Response,
                vec![AppObject::BinaryInputs(values)],
            );
            let encoded = fragment.encode().unwrap();
            assert_eq!(ApplicationFragment::decode(&encoded).unwrap(), fragment);
        }
    }
}
