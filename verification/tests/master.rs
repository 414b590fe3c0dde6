use dnp3::app::{AppControl, AppObject, ApplicationFragment, DataClass, FunctionCode};
use dnp3::link::{LinkFrame, PrimaryFunction, LinkFunction};
use dnp3::master::{LinkStyle, MasterConfig, MasterError, MasterSession};
use dnp3::outstation::{Database, OutstationConfig, OutstationSession};
use dnp3::primitives::{Address, ProtocolError};
use dnp3::transport::{fragment, TransportHeader, TransportSegment};
use dnp3::app::BinaryInput;

#[test]
fn master_config_defaults() {
    let config = MasterConfig::default();
    assert_eq!(config.master, Address::new(1));
    assert_eq!(config.outstation, Address::new(1024));
    assert_eq!(config.link_style, LinkStyle::Tool);
    let session = MasterSession::new(config);
    assert_eq!(session.master_address(), Address::new(1));
    assert_eq!(session.outstation_address(), Address::new(1024));
}

#[test]
fn tool_integrity_poll_is_a_class_scan_in_one_frame() {
    let mut master = MasterSession::new(MasterConfig::default());
    let request = master.integrity_poll_request();
    assert_eq!(request, ApplicationFragment::simulator_class_scan(0));
    let frames = master.request_frames(&request).unwrap();
    assert_eq!(frames.len(), 1);
    assert_eq!(frames[0].destination, Address::new(1024));
    assert_eq!(frames[0].source, Address::new(1));
    assert_eq!(frames[0].control.encode(), 0xC4);
    let segment = TransportSegment::decode(&frames[0].payload).unwrap();
    assert_eq!(segment.header, TransportHeader::new(true, true, 0));
    assert_eq!(ApplicationFragment::decode(&segment.payload).unwrap(), request);
}

#[test]
fn standard_integrity_poll_uses_ieee_controls() {
    let config = MasterConfig {
        master: Address::new(3),
        outstation: Address::new(10),
        link_style: LinkStyle::Standard,
    };
    let mut master = MasterSession::new(config);
    let request = master.integrity_poll_request();
    assert_eq!(request, ApplicationFragment::integrity_poll(0));
    let frames = master.request_frames(&request).unwrap();
    assert_eq!(frames[0].control.encode(), 0x44);
    assert_eq!(
        frames[0].control.function,
        LinkFunction::Primary(PrimaryFunction::UnconfirmedUserData)
    );
}

#[test]
fn application_sequence_wraps_after_fifteen() {
    let mut master = MasterSession::new(MasterConfig::default());
    for expected in (0..16u8).chain(0..3u8) {
        let request = master.integrity_poll_request();
        assert_eq!(request.control.sequence, expected);
    }
}

#[test]
fn transport_sequence_advances_by_segments() {
    let mut master = MasterSession::new(MasterConfig::default());
    let big: Vec<AppObject> = vec![AppObject::BinaryInputs(
        (0..300u16).map(|i| BinaryInput { index: i, flags: 1 }).collect(),
    )];
    let request = ApplicationFragment::new(AppControl::single(1), FunctionCode::Write, big);
    let frames = master.request_frames(&request).unwrap();
    assert_eq!(frames.len(), 2);
    let first = TransportSegment::decode(&frames[0].payload).unwrap();
    let second = TransportSegment::decode(&frames[1].payload).unwrap();
    assert_eq!((first.header.fir, first.header.fin, first.header.sequence), (true, false, 0));
    assert_eq!((second.header.fir, second.header.fin, second.header.sequence), (false, true, 1));
    let poll = master.integrity_poll_request();
    let frames = master.request_frames(&poll).unwrap();
    assert_eq!(TransportSegment::decode(&frames[0].payload).unwrap().header.sequence, 2);
}

#[test]
fn unencodable_requests_leave_the_session_alone() {
    let mut master = MasterSession::new(MasterConfig::default());
    let values: Vec<BinaryInput> = (0..300u16).map(|i| BinaryInput { index: i * 3, flags: 0 }).collect();
    let request = ApplicationFragment::new(
        AppControl::single(1),
        FunctionCode::Write,
        vec![AppObject::BinaryInputs(values)],
    );
    match master.request_frames(&request) {
        Err(MasterError::Protocol(ProtocolError::InvalidLength { expected, actual })) => {
            assert_eq!((expected, actual), (255, 300));
        }
        other => panic!("unexpected result {other:?}"),
    }
    let poll = master.integrity_poll_request();
    let frames = master.request_frames(&poll).unwrap();
    assert_eq!(TransportSegment::decode(&frames[0].payload).unwrap().header.sequence, 0);
}

fn response_frames(response: &ApplicationFragment, destination: u16, start: u8) -> Vec<LinkFrame> {
    let bytes = response.encode().unwrap();
    fragment(&bytes, start)
        .into_iter()
        .map(|s| {
            LinkFrame::outstation_unconfirmed_user_data(Address::new(destination), Address::new(1024), s.encode())
                .unwrap()
        })
        .collect()
}

#[test]
fn accept_frame_completes_a_response() {
    let mut master = MasterSession::new(MasterConfig::default());
    let mut response = ApplicationFragment::new(
        AppControl::single(4),
        FunctionCode::Response,
        vec![AppObject::BinaryInputs((0..400u16).map(|i| BinaryInput { index: i, flags: 0x81 }).collect())],
    );
    response.iin = 0x0010;
    let frames = response_frames(&response, 1, 7);
    assert!(frames.len() > 1);
    let last = frames.len() - 1;
    for (i, frame) in frames.iter().enumerate() {
        let got = master.accept_frame(frame).unwrap();
        if i < last {
            assert_eq!(got, None);
        } else {
            assert_eq!(got, Some(response.clone()));
        }
    }
}

#[test]
fn accept_frame_ignores_other_addresses_and_recovers_from_gaps() {
    let mut master = MasterSession::new(MasterConfig::default());
    let response = ApplicationFragment::new(AppControl::single(4), FunctionCode::Response, vec![]);
    let foreign = response_frames(&response, 2, 0);
    assert_eq!(master.accept_frame(&foreign[0]).unwrap(), None);
    let orphan = LinkFrame::outstation_unconfirmed_user_data(
        Address::new(1),
        Address::new(1024),
        vec![TransportHeader::new(false, true, 3).encode(), 0],
    )
    .unwrap();
    assert_eq!(master.accept_frame(&orphan).unwrap(), None);
    let frames = response_frames(&response, 1, 9);
    assert_eq!(master.accept_frame(&frames[0]).unwrap(), Some(response));
    let empty = LinkFrame::outstation_unconfirmed_user_data(Address::new(1), Address::new(1024), vec![]).unwrap();
    assert!(matches!(
        master.accept_frame(&empty),
        Err(MasterError::Protocol(ProtocolError::UnexpectedEof))
    ));
}

#[test]
fn poll_waits_for_a_response() {
    let mut master = MasterSession::new(MasterConfig::default());
    let read = ApplicationFragment::new(AppControl::single(1), FunctionCode::Read, vec![]);
    assert_eq!(master.accept_poll_response(read), None);
    let response = ApplicationFragment::new(AppControl::single(1), FunctionCode::Response, vec![]);
    assert_eq!(master.accept_poll_response(response.clone()), Some(response));
    let unsolicited = ApplicationFragment::new(AppControl::single(1), FunctionCode::UnsolicitedResponse, vec![AppObject::ClassScan(DataClass::Class2)]);
    assert_eq!(master.accept_poll_response(unsolicited.clone()), Some(unsolicited));
}

#[test]
fn sends_integrity_poll() {
    let mut master = MasterSession::new(MasterConfig::default());
    let request = master.integrity_poll_request();
    let sent = master.request_frames(&request).unwrap();
    assert_eq!(sent.len(), 1);
    assert_eq!(sent[0].destination, Address::new(1024));
    assert_eq!(sent[0].control.encode(), 0xC4);
}

#[test]
fn integrity_poll_response() {
    let database = Database {
        binary_inputs: vec![BinaryInput { index: 0, flags: 0x81 }],
        binary_outputs: vec![],
        analog_inputs: vec![],
        analog_outputs: vec![],
        counters: vec![],
    };
    let mut outstation = OutstationSession::new(OutstationConfig::default(), database);
    let mut master = MasterSession::new(MasterConfig::default());
    let request = master.integrity_poll_request();
    let frames = master.request_frames(&request).unwrap();
    let mut answer = Vec::new();
    for frame in frames {
        answer.extend(outstation.handle_frame(frame).unwrap());
    }
    let mut response = None;
    for frame in &answer {
        if let Some(fragment) = master.accept_frame(frame).unwrap() {
            response = Some(fragment);
        }
    }
    let response = response.unwrap();
    assert_eq!(response.function, FunctionCode::Response);
    assert_eq!(response.objects.len(), 1);
}
