use dnp3::primitives::{
    crc16, decode_crc_blocks, encode_crc_blocks, verify_crc, Address, ProtocolError, Reader,
    Timestamp48,
};

#[test]
fn crc_known_vector_header() {
    let header = [0x05, 0x64, 0x05, 0xc0, 0x01, 0x00, 0x00, 0x04];
    assert_eq!(crc16(&header), 0x21e9);
}

#[test]
fn crc_blocks_round_trip() {
    let data: Vec<u8> = (0..40).collect();
    let mut encoded = Vec::new();
    encode_crc_blocks(&data, &mut encoded);
    assert_eq!(decode_crc_blocks(&encoded, data.len()).unwrap(), data);
}

#[test]
fn invalid_crc_is_rejected() {
    let data = [1, 2, 3, 4];
    assert_eq!(verify_crc(&data, &[0, 0]), Err(ProtocolError::InvalidCrc));
}

#[test]
fn address_round_trip() {
    let mut encoded = Vec::new();
    Address::new(1024).encode(&mut encoded);
    let mut reader = Reader::new(&encoded);
    assert_eq!(Address::decode(&mut reader).unwrap(), Address::new(1024));
}

#[test]
fn timestamp_round_trip() {
    let time = Timestamp48::from_millis(0x0102_0304_0506).unwrap();
    let mut encoded = Vec::new();
    time.encode(&mut encoded);
    let mut reader = Reader::new(&encoded);
    assert_eq!(Timestamp48::decode(&mut reader).unwrap(), time);
}

#[test]
fn crc_blocks_round_trip_every_length() {
    for len in 0..100usize {
        let data: Vec<u8> = (0..len).map(|i| (i * 7 + 3) as u8).collect();
        let mut encoded = Vec::new();
        encode_crc_blocks(&data, &mut encoded);
        let blocks = (len + 15) / 16;
        assert_eq!(encoded.len(), len + 2 * blocks);
        assert_eq!(decode_crc_blocks(&encoded, len).unwrap(), data);
    }
}

#[test]
fn crc_blocks_reject_short_input() {
    let data: Vec<u8> = (0..20).collect();
    let mut encoded = Vec::new();
    encode_crc_blocks(&data, &mut encoded);
    encoded.pop();
    assert!(decode_crc_blocks(&encoded, data.len()).is_err());
}

#[test]
fn crc_blocks_reject_corrupted_block() {
    let data: Vec<u8> = (0..20).collect();
    let mut encoded = Vec::new();
    encode_crc_blocks(&data, &mut encoded);
    encoded[3] ^= 0x01;
    assert_eq!(decode_crc_blocks(&encoded, data.len()), Err(ProtocolError::InvalidCrc));
}

#[test]
fn verify_crc_accepts_computed_crc() {
    let data = [0x05u8, 0x64, 0x05, 0xc0, 0x01, 0x00, 0x00, 0x04];
    let crc = crc16(&data).to_le_bytes();
    assert_eq!(verify_crc(&data, &crc), Ok(()));
    assert_eq!(
        verify_crc(&data, &crc[..1]),
        Err(ProtocolError::InvalidLength { expected: 2, actual: 1 })
    );
}

#[test]
fn broadcast_address_is_all_ones() {
    assert_eq!(Address::broadcast().value(), 0xffff);
    assert_eq!(Address::from(77u16).value(), 77);
}

#[test]
fn timestamp_rejects_values_over_48_bits() {
    assert_eq!(
        Timestamp48::from_millis(0x1_0000_0000_0000),
        Err(ProtocolError::InvalidLength {
            expected: 0xffff_ffff_ffff,
            actual: 0x1_0000_0000_0000
        })
    );
    assert_eq!(Timestamp48::from_millis(0xffff_ffff_ffff).unwrap().millis(), 0xffff_ffff_ffff);
    assert_eq!(Timestamp48::from_millis_truncated(0x1_0000_0000_0005).millis(), 5);
}

#[test]
fn timestamp_encodes_little_endian() {
    let time = Timestamp48::from_millis(0x0102_0304_0506).unwrap();
    let mut encoded = Vec::new();
    time.encode(&mut encoded);
    assert_eq!(encoded, vec![0x06, 0x05, 0x04, 0x03, 0x02, 0x01]);
}

#[test]
fn reader_reads_little_endian_integers() {
    let bytes = [0x01u8, 0x02, 0x03, 0x04, 0x05, 0x06, 0xff, 0xff, 0xff, 0xff, 0xfe, 0xff];
    let mut reader = Reader::new(&bytes);
    assert_eq!(reader.read_u8().unwrap(), 0x01);
    assert_eq!(reader.read_u16_le().unwrap(), 0x0302);
    assert_eq!(reader.remaining(), 9);
    assert_eq!(reader.read_u32_le().unwrap(), 0xff06_0504);
    assert_eq!(reader.read_i32_le().unwrap(), 0xfeff_ffffu32 as i32);
    assert!(reader.read_i16_le().is_err());
    assert!(!reader.is_empty());
}

#[test]
fn reader_reports_eof() {
    let bytes = [0x01u8];
    let mut reader = Reader::new(&bytes);
    assert_eq!(reader.read_u16_le(), Err(ProtocolError::UnexpectedEof));
    assert_eq!(reader.read_exact(2), Err(ProtocolError::UnexpectedEof));
    assert_eq!(reader.read_u8().unwrap(), 1);
    assert!(reader.is_empty());
}

#[test]
fn address_displays_in_decimal() {
    assert_eq!(Address::new(1024).to_string(), "1024");
    assert_eq!(Address::new(0).to_string(), "0");
    assert_eq!(Address::broadcast().to_string(), "65535");
}
