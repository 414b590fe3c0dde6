use dnp3::link::LinkFrame;
use dnp3::primitives::{Address, ProtocolError};
use dnp3::stream::{decode_stream_frame, frame_remainder_len, FRAME_HEADER_LEN};

#[test]
fn stream_frames_split_at_the_fixed_header() {
    let frame =
        LinkFrame::unconfirmed_user_data(Address::new(1), Address::new(2), (0u8..40).collect()).unwrap();
    let bytes = frame.encode();
    let (header, rest) = bytes.split_at(FRAME_HEADER_LEN);
    assert_eq!(frame_remainder_len(header), Ok(rest.len()));
    assert_eq!(rest.len(), 46);
    assert_eq!(decode_stream_frame(header, rest).unwrap(), frame);
}

#[test]
fn stream_header_errors() {
    assert_eq!(
        frame_remainder_len(&[0x05, 0x63, 0x05, 0, 0, 0, 0, 0, 0, 0]),
        Err(ProtocolError::InvalidStartBytes)
    );
    assert_eq!(
        frame_remainder_len(&[0x05, 0x64, 0x04, 0, 0, 0, 0, 0, 0, 0]),
        Err(ProtocolError::InvalidLength { expected: 5, actual: 4 })
    );
    assert_eq!(frame_remainder_len(&[0x05, 0x64, 0x05, 0, 0, 0, 0, 0, 0, 0]), Ok(0));
    let ack = LinkFrame::ack(Address::new(1), Address::new(2)).encode();
    assert_eq!(decode_stream_frame(&ack, &[]).unwrap(), LinkFrame::ack(Address::new(1), Address::new(2)));
}
