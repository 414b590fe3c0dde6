use dnp3::primitives::ProtocolError;
use dnp3::transport::{fragment, Reassembler, TransportHeader, TransportSegment};

#[test]
fn sequence_header_round_trip() {
    let header = TransportHeader::new(true, false, 63);
    assert_eq!(TransportHeader::decode(header.encode()), header);
}

#[test]
fn fragment_reassembly() {
    let payload: Vec<u8> = (0..=255).cycle().take(700).collect();
    let segments = fragment(&payload, 12);
    assert!(segments.len() > 1);
    let mut reassembler = Reassembler::new();
    let mut completed = None;
    for segment in segments {
        completed = reassembler.push(segment).unwrap();
    }
    assert_eq!(completed.unwrap(), payload);
}

#[test]
fn invalid_sequence_rejected() {
    let mut reassembler = Reassembler::new();
    let first = TransportSegment {
        header: TransportHeader::new(true, false, 1),
        payload: vec![1],
    };
    let second = TransportSegment {
        header: TransportHeader::new(false, true, 3),
        payload: vec![2],
    };
    assert_eq!(reassembler.push(first).unwrap(), None);
    assert!(matches!(
        reassembler.push(second),
        Err(ProtocolError::InvalidSequence { .. })
    ));
}

#[test]
fn fragmentation_round_trip_many_sizes() {
    for len in [0usize, 1, 248, 249, 250, 497, 498, 499, 1000, 2048] {
        for seq in [0u8, 1, 62, 63] {
            let payload: Vec<u8> = (0..len).map(|i| (i % 251) as u8).collect();
            let segments = fragment(&payload, seq);
            let expected = if len == 0 { 1 } else { (len + 248) / 249 };
            assert_eq!(segments.len(), expected);
            let mut reassembler = Reassembler::default();
            let mut out = None;
            for (i, segment) in segments.into_iter().enumerate() {
                assert_eq!(segment.header.fir, i == 0);
                assert_eq!(segment.header.fin, i + 1 == expected);
                assert_eq!(segment.header.sequence, ((seq as usize + i) % 64) as u8);
                assert!(segment.payload.len() <= 249);
                out = reassembler.push(segment).unwrap();
                if i + 1 < expected {
                    assert_eq!(out, None);
                }
            }
            assert_eq!(out.unwrap(), payload);
        }
    }
}

#[test]
fn segment_without_first_is_refused() {
    let mut reassembler = Reassembler::new();
    let segment = TransportSegment {
        header: TransportHeader::new(false, true, 0),
        payload: vec![9],
    };
    assert_eq!(reassembler.push(segment), Err(ProtocolError::InvalidFragment));
}

#[test]
fn first_segment_restarts_reassembly() {
    let mut reassembler = Reassembler::new();
    let first = TransportSegment { header: TransportHeader::new(true, false, 5), payload: vec![1, 2] };
    let restart = TransportSegment { header: TransportHeader::new(true, true, 9), payload: vec![3] };
    assert_eq!(reassembler.push(first).unwrap(), None);
    assert_eq!(reassembler.push(restart).unwrap(), Some(vec![3]));
}

#[test]
fn reset_clears_partial_fragment() {
    let mut reassembler = Reassembler::new();
    let first = TransportSegment { header: TransportHeader::new(true, false, 5), payload: vec![1] };
    let next = TransportSegment { header: TransportHeader::new(false, true, 6), payload: vec![2] };
    assert_eq!(reassembler.push(first).unwrap(), None);
    reassembler.reset();
    assert_eq!(reassembler.push(next), Err(ProtocolError::InvalidFragment));
}

#[test]
fn segment_encoding_round_trip() {
    let segment = TransportSegment { header: TransportHeader::new(true, true, 63), payload: vec![1, 2, 3] };
    let bytes = segment.encode();
    assert_eq!(bytes, vec![0xff, 1, 2, 3]);
    assert_eq!(TransportSegment::decode(&bytes).unwrap(), segment);
    assert_eq!(TransportSegment::decode(&[]), Err(ProtocolError::UnexpectedEof));
    assert_eq!(
        TransportSegment::decode(&vec![0u8; 251]),
        Err(ProtocolError::InvalidLength { expected: 250, actual: 251 })
    );
}

#[test]
fn header_sequence_is_six_bits() {
    let header = TransportHeader::new(false, true, 0x7f);
    assert_eq!(header.sequence, 0x3f);
    assert_eq!(header.encode(), 0x7f);
    assert_eq!(TransportHeader::decode(0x85), TransportHeader::new(true, false, 5));
}
