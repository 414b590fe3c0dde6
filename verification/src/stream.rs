use vstd::prelude::*;

use crate::link::{
    encoded_payload_len, frame_header, lemma_crc_blocks_len, spec_decode_frame, spec_encode_frame,
    spec_encoded_payload_len, LinkFrame, LinkFrameView, START_BYTE_0, START_BYTE_1,
};
use crate::primitives as prim;
use crate::primitives::ProtocolError;

verus! {

/// Number of fixed bytes at the start of every frame: start bytes, length, control,
/// addresses and header CRC.
pub const FRAME_HEADER_LEN: usize = 10;

/// How many bytes follow the fixed header bytes of a frame on a byte stream, or why the
/// header cannot start a frame.
pub open spec fn spec_frame_remainder_len(header: Seq<u8>) -> Result<nat, ProtocolError> {
    if header[0] != START_BYTE_0 || header[1] != START_BYTE_1 {
        Err(ProtocolError::InvalidStartBytes)
    } else if header[2] < 5 {
        Err(ProtocolError::InvalidLength { expected: 5, actual: header[2] as usize })
    } else {
        Ok(spec_encoded_payload_len((header[2] - 5) as nat))
    }
}

/// Reads the start bytes and length field of a frame's fixed header and returns how many
/// more bytes the frame takes on the stream.
pub fn frame_remainder_len(header: &[u8]) -> (r: Result<usize, ProtocolError>)
    requires
        header.len() >= 3,
    ensures
        match spec_frame_remainder_len(header@) {
            Ok(n) => r == Ok::<usize, ProtocolError>(n as usize),
            Err(e) => r == Err::<usize, ProtocolError>(e),
        },
{
    if header[0] != START_BYTE_0 || header[1] != START_BYTE_1 {
        return Err(ProtocolError::InvalidStartBytes);
    }
    let length: usize = header[2] as usize;
    if length < 5 {
        return Err(ProtocolError::InvalidLength { expected: 5, actual: length });
    }
    let payload_len: usize = length - 5;
    assert(spec_encoded_payload_len(payload_len as nat) <= 250 + 2 * 16);
    Ok(encoded_payload_len(payload_len))
}

/// Decodes a frame read from a stream as its fixed header followed by the rest of its
/// bytes.
pub fn decode_stream_frame(header: &[u8], rest: &[u8]) -> (r: Result<LinkFrame, ProtocolError>)
    ensures
        match spec_decode_frame(header@ + rest@) {
            Ok(v) => r matches Ok(f) && f@ == v,
            Err(e) => r == Err::<LinkFrame, ProtocolError>(e),
        },
{
    let mut encoded: Vec<u8> = Vec::new();
    crate::primitives::extend_bytes(&mut encoded, header);
    crate::primitives::extend_bytes(&mut encoded, rest);
    proof {
        assert(encoded@ =~= header@ + rest@);
    }
    LinkFrame::decode(encoded.as_slice())
}

/// On a stream that carries encoded frames, the remainder length read from a frame's fixed
/// header is exactly the number of bytes of that frame after the header, for every frame whose
/// payload fits the length field.
pub proof fn lemma_remainder_of_encoded_frame(f: LinkFrameView)
    requires
        f.payload.len() <= 250,
    ensures
        spec_frame_remainder_len(spec_encode_frame(f).take(10)) == Ok::<nat, ProtocolError>(
            (spec_encode_frame(f).len() - 10) as nat,
        ),
{
    let s = spec_encode_frame(f);
    let h = frame_header(f);
    prim::lemma_le_bytes_len(f.destination as nat, 2);
    prim::lemma_le_bytes_len(f.source as nat, 2);
    prim::lemma_le_bytes_len(prim::spec_crc16(h) as nat, 2);
    lemma_crc_blocks_len(f.payload);
    assert(h.len() == 8);
    assert(s.take(10)[0] == START_BYTE_0);
    assert(s.take(10)[1] == START_BYTE_1);
    assert(s.take(10)[2] == 5 + f.payload.len());
}

} // verus!
