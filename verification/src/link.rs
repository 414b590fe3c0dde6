use vstd::prelude::*;

use crate::primitives as prim;
use crate::primitives::{
    append_crc, decode_crc_blocks, encode_crc_blocks, verify_crc, Address, ProtocolError, Reader,
    CRC_BLOCK_SIZE,
};

verus! {

/// First link-layer start byte.
pub const START_BYTE_0: u8 = 0x05;

/// Second link-layer start byte.
pub const START_BYTE_1: u8 = 0x64;

const MIN_LENGTH_FIELD: usize = 5;

const MAX_LENGTH_FIELD: usize = 255;

/// Link-layer traffic direction.
#[derive(Debug, Clone, Copy, PartialEq, Eq, Structural)]
pub enum Direction {
    /// Master/client to outstation/server.
    MasterToOutstation,
    /// Outstation/server to master/client.
    OutstationToMaster,
}

impl Direction {
    pub open spec fn spec_bit(self) -> u8 {
        match self {
            Direction::MasterToOutstation => 0,
            Direction::OutstationToMaster => 0x80,
        }
    }

    fn bit(self) -> (r: u8)
        ensures
            r == self.spec_bit(),
    {
        match self {
            Direction::MasterToOutstation => 0,
            Direction::OutstationToMaster => 0x80,
        }
    }
}

/// Primary link-layer function codes.
#[derive(Debug, Clone, Copy, PartialEq, Eq, Structural)]
pub enum PrimaryFunction {
    /// Reset link-layer state.
    ResetLinkStates,
    /// Reset user process state.
    ResetUserProcess,
    /// Test link-layer state.
    TestLinkStates,
    /// User data requiring link-layer confirmation.
    ConfirmedUserData,
    /// User data that does not require link-layer confirmation.
    UnconfirmedUserData,
    /// Request link status.
    RequestLinkStatus,
}

impl PrimaryFunction {
    pub open spec fn spec_code(self) -> u8 {
        match self {
            PrimaryFunction::ResetLinkStates => 0,
            PrimaryFunction::ResetUserProcess => 1,
            PrimaryFunction::TestLinkStates => 2,
            PrimaryFunction::ConfirmedUserData => 3,
            PrimaryFunction::UnconfirmedUserData => 4,
            PrimaryFunction::RequestLinkStatus => 9,
        }
    }

    pub open spec fn spec_parse(value: u8) -> Result<PrimaryFunction, ProtocolError> {
        if value == 0 {
            Ok(PrimaryFunction::ResetLinkStates)
        } else if value == 1 {
            Ok(PrimaryFunction::ResetUserProcess)
        } else if value == 2 {
            Ok(PrimaryFunction::TestLinkStates)
        } else if value == 3 {
            Ok(PrimaryFunction::ConfirmedUserData)
        } else if value == 4 {
            Ok(PrimaryFunction::UnconfirmedUserData)
        } else if value == 9 {
            Ok(PrimaryFunction::RequestLinkStatus)
        } else {
            Err(ProtocolError::UnknownValue { field: "primary link function", value })
        }
    }

    fn code(self) -> (r: u8)
        ensures
            r == self.spec_code(),
    {
        match self {
            PrimaryFunction::ResetLinkStates => 0,
            PrimaryFunction::ResetUserProcess => 1,
            PrimaryFunction::TestLinkStates => 2,
            PrimaryFunction::ConfirmedUserData => 3,
            PrimaryFunction::UnconfirmedUserData => 4,
            PrimaryFunction::RequestLinkStatus => 9,
        }
    }

    fn parse(value: u8) -> (r: Result<PrimaryFunction, ProtocolError>)
        ensures
            r == PrimaryFunction::spec_parse(value),
    {
        match value {
            0 => Ok(PrimaryFunction::ResetLinkStates),
            1 => Ok(PrimaryFunction::ResetUserProcess),
            2 => Ok(PrimaryFunction::TestLinkStates),
            3 => Ok(PrimaryFunction::ConfirmedUserData),
            4 => Ok(PrimaryFunction::UnconfirmedUserData),
            9 => Ok(PrimaryFunction::RequestLinkStatus),
            _ => Err(ProtocolError::UnknownValue { field: "primary link function", value }),
        }
    }
}

/// Secondary link-layer function codes.
#[derive(Debug, Clone, Copy, PartialEq, Eq, Structural)]
pub enum SecondaryFunction {
    /// Positive acknowledgement.
    Ack,
    /// Negative acknowledgement.
    Nack,
    /// Link status response.
    LinkStatus,
    /// Function is not supported.
    NotSupported,
}

impl SecondaryFunction {
    pub open spec fn spec_code(self) -> u8 {
        match self {
            SecondaryFunction::Ack => 0,
            SecondaryFunction::Nack => 1,
            SecondaryFunction::LinkStatus => 11,
            SecondaryFunction::NotSupported => 15,
        }
    }

    pub open spec fn spec_parse(value: u8) -> Result<SecondaryFunction, ProtocolError> {
        if value == 0 {
            Ok(SecondaryFunction::Ack)
        } else if value == 1 {
            Ok(SecondaryFunction::Nack)
        } else if value == 11 {
            Ok(SecondaryFunction::LinkStatus)
        } else if value == 15 {
            Ok(SecondaryFunction::NotSupported)
        } else {
            Err(ProtocolError::UnknownValue { field: "secondary link function", value })
        }
    }

    fn code(self) -> (r: u8)
        ensures
            r == self.spec_code(),
    {
        match self {
            SecondaryFunction::Ack => 0,
            SecondaryFunction::Nack => 1,
            SecondaryFunction::LinkStatus => 11,
            SecondaryFunction::NotSupported => 15,
        }
    }

    fn parse(value: u8) -> (r: Result<SecondaryFunction, ProtocolError>)
        ensures
            r == SecondaryFunction::spec_parse(value),
    {
        match value {
            0 => Ok(SecondaryFunction::Ack),
            1 => Ok(SecondaryFunction::Nack),
            11 => Ok(SecondaryFunction::LinkStatus),
            15 => Ok(SecondaryFunction::NotSupported),
            _ => Err(ProtocolError::UnknownValue { field: "secondary link function", value }),
        }
    }
}

/// Parsed link-layer function.
#[derive(Debug, Clone, Copy, PartialEq, Eq, Structural)]
pub enum LinkFunction {
    /// Primary function.
    Primary(PrimaryFunction),
    /// Secondary function.
    Secondary(SecondaryFunction),
}

/// Link-layer control field.
#[derive(Debug, Clone, Copy, PartialEq, Eq, Structural)]
pub struct ControlField {
    /// Direction bit.
    pub direction: Direction,
    /// Frame count bit.
    pub fcb: bool,
    /// Frame count valid bit.
    pub fcv: bool,
    /// Function code.
    pub function: LinkFunction,
}

/// The byte that carries a control field: direction, primary, FCB and FCV bits over the
/// four-bit function code.
pub open spec fn control_byte(dir: u8, prm: u8, fcb: bool, fcv: bool, code: u8) -> u8 {
    dir | prm | (if fcb {
        0x20u8
    } else {
        0u8
    }) | (if fcv {
        0x10u8
    } else {
        0u8
    }) | code
}

impl ControlField {
    pub open spec fn spec_encode(self) -> u8 {
        match self.function {
            LinkFunction::Primary(f) => control_byte(
                self.direction.spec_bit(),
                0x40,
                self.fcb,
                self.fcv,
                f.spec_code(),
            ),
            LinkFunction::Secondary(f) => control_byte(
                self.direction.spec_bit(),
                0,
                self.fcb,
                self.fcv,
                f.spec_code(),
            ),
        }
    }

    pub open spec fn spec_decode(value: u8) -> Result<ControlField, ProtocolError> {
        let direction = if value & 0x80 == 0 {
            Direction::MasterToOutstation
        } else {
            Direction::OutstationToMaster
        };
        let fcb = value & 0x20 != 0;
        let fcv = value & 0x10 != 0;
        let code = value & 0x0f;
        if value & 0x40 != 0 {
            match PrimaryFunction::spec_parse(code) {
                Ok(f) => Ok(ControlField { direction, fcb, fcv, function: LinkFunction::Primary(f) }),
                Err(e) => Err(e),
            }
        } else {
            match SecondaryFunction::spec_parse(code) {
                Ok(f) => Ok(
                    ControlField { direction, fcb, fcv, function: LinkFunction::Secondary(f) },
                ),
                Err(e) => Err(e),
            }
        }
    }

    /// Builds a primary control field.
    pub fn primary(direction: Direction, function: PrimaryFunction, fcb: bool, fcv: bool) -> (r:
        ControlField)
        ensures
            r == (ControlField { direction, fcb, fcv, function: LinkFunction::Primary(function) }),
    {
        ControlField { direction, fcb, fcv, function: LinkFunction::Primary(function) }
    }

    /// Builds a secondary control field.
    pub fn secondary(direction: Direction, function: SecondaryFunction) -> (r: ControlField)
        ensures
            r == (ControlField {
                direction,
                fcb: false,
                fcv: false,
                function: LinkFunction::Secondary(function),
            }),
    {
        ControlField {
            direction,
            fcb: false,
            fcv: false,
            function: LinkFunction::Secondary(function),
        }
    }

    /// Encodes the control field into one byte.
    pub fn encode(self) -> (r: u8)
        ensures
            r == self.spec_encode(),
    {
        let (prm, function) = match self.function {
            LinkFunction::Primary(function) => (0x40u8, function.code()),
            LinkFunction::Secondary(function) => (0x00u8, function.code()),
        };
        self.direction.bit() | prm | (if self.fcb {
            0x20u8
        } else {
            0u8
        }) | (if self.fcv {
            0x10u8
        } else {
            0u8
        }) | function
    }

    /// Decodes a control field from one byte.
    pub fn decode(value: u8) -> (r: Result<ControlField, ProtocolError>)
        ensures
            r == ControlField::spec_decode(value),
    {
        let direction = if value & 0x80 == 0 {
            Direction::MasterToOutstation
        } else {
            Direction::OutstationToMaster
        };
        let fcb = value & 0x20 != 0;
        let fcv = value & 0x10 != 0;
        let function_code = value & 0x0f;
        let function = if value & 0x40 != 0 {
            LinkFunction::Primary(PrimaryFunction::parse(function_code)?)
        } else {
            LinkFunction::Secondary(SecondaryFunction::parse(function_code)?)
        };
        Ok(ControlField { direction, fcb, fcv, function })
    }
}

proof fn lemma_control_byte_bits(dir: u8, prm: u8, fcb: u8, fcv: u8, code: u8)
    requires
        dir == 0 || dir == 0x80,
        prm == 0 || prm == 0x40,
        fcb == 0 || fcb == 0x20,
        fcv == 0 || fcv == 0x10,
        code < 16,
    ensures
        ((dir | prm | fcb | fcv | code) & 0x80 == 0) == (dir == 0),
        ((dir | prm | fcb | fcv | code) & 0x40 != 0) == (prm != 0),
        ((dir | prm | fcb | fcv | code) & 0x20 != 0) == (fcb != 0),
        ((dir | prm | fcb | fcv | code) & 0x10 != 0) == (fcv != 0),
        (dir | prm | fcb | fcv | code) & 0x0f == code,
{
    assert(((dir | prm | fcb | fcv | code) & 0x80 == 0) == (dir == 0)) by (bit_vector)
        requires
            dir == 0 || dir == 0x80,
            prm == 0 || prm == 0x40,
            fcb == 0 || fcb == 0x20,
            fcv == 0 || fcv == 0x10,
            code < 16,
    ;
    assert(((dir | prm | fcb | fcv | code) & 0x40 != 0) == (prm != 0)) by (bit_vector)
        requires
            dir == 0 || dir == 0x80,
            prm == 0 || prm == 0x40,
            fcb == 0 || fcb == 0x20,
            fcv == 0 || fcv == 0x10,
            code < 16,
    ;
    assert(((dir | prm | fcb | fcv | code) & 0x20 != 0) == (fcb != 0)) by (bit_vector)
        requires
            dir == 0 || dir == 0x80,
            prm == 0 || prm == 0x40,
            fcb == 0 || fcb == 0x20,
            fcv == 0 || fcv == 0x10,
            code < 16,
    ;
    assert(((dir | prm | fcb | fcv | code) & 0x10 != 0) == (fcv != 0)) by (bit_vector)
        requires
            dir == 0 || dir == 0x80,
            prm == 0 || prm == 0x40,
            fcb == 0 || fcb == 0x20,
            fcv == 0 || fcv == 0x10,
            code < 16,
    ;
    assert((dir | prm | fcb | fcv | code) & 0x0f == code) by (bit_vector)
        requires
            dir == 0 || dir == 0x80,
            prm == 0 || prm == 0x40,
            fcb == 0 || fcb == 0x20,
            fcv == 0 || fcv == 0x10,
            code < 16,
    ;
}

/// Decoding the byte of a control field gives back that control field.
pub proof fn lemma_control_field_round_trip(c: ControlField)
    ensures
        ControlField::spec_decode(c.spec_encode()) == Ok::<ControlField, ProtocolError>(c),
{
    let fcb: u8 = if c.fcb {
        0x20
    } else {
        0
    };
    let fcv: u8 = if c.fcv {
        0x10
    } else {
        0
    };
    match c.function {
        LinkFunction::Primary(f) => {
            lemma_control_byte_bits(c.direction.spec_bit(), 0x40, fcb, fcv, f.spec_code());
        },
        LinkFunction::Secondary(f) => {
            lemma_control_byte_bits(c.direction.spec_bit(), 0, fcb, fcv, f.spec_code());
        },
    }
}

/// A byte that decodes as a control field is the encoding of that control field.
pub proof fn lemma_control_byte_round_trip(value: u8)
    ensures
        ControlField::spec_decode(value) matches Ok(c) ==> c.spec_encode() == value,
{
    assert(value == (value & 0x80) | (value & 0x40) | (value & 0x20) | (value & 0x10) | (value
        & 0x0f)) by (bit_vector);
    assert((value & 0x80 == 0 || value & 0x80 == 0x80) && (value & 0x40 == 0 || value & 0x40
        == 0x40) && (value & 0x20 == 0 || value & 0x20 == 0x20) && (value & 0x10 == 0 || value
        & 0x10 == 0x10) && value & 0x0f < 16) by (bit_vector);
}

/// The abstract content of a link frame.
pub struct LinkFrameView {
    pub control: ControlField,
    pub destination: u16,
    pub source: u16,
    pub payload: Seq<u8>,
}

/// A decoded link-layer frame.
#[derive(Debug, Clone, PartialEq, Eq)]
pub struct LinkFrame {
    /// Link-layer control field.
    pub control: ControlField,
    /// Destination address.
    pub destination: Address,
    /// Source address.
    pub source: Address,
    /// Link payload after CRC validation.
    pub payload: Vec<u8>,
}

impl View for LinkFrame {
    type V = LinkFrameView;

    open spec fn view(&self) -> LinkFrameView {
        LinkFrameView {
            control: self.control,
            destination: self.destination@,
            source: self.source@,
            payload: self.payload@,
        }
    }
}

/// The eight header bytes of a frame: start bytes, length, control, destination, source.
pub open spec fn frame_header(f: LinkFrameView) -> Seq<u8> {
    seq![START_BYTE_0, START_BYTE_1, ((5 + f.payload.len()) % 256) as u8, f.control.spec_encode()]
        + prim::le_bytes(f.destination as nat, 2) + prim::le_bytes(f.source as nat, 2)
}

/// The bytes of an encoded frame: header, header CRC, then the CRC-protected payload.
pub open spec fn spec_encode_frame(f: LinkFrameView) -> Seq<u8> {
    frame_header(f) + prim::le_bytes(prim::spec_crc16(frame_header(f)) as nat, 2) + prim::crc_blocks(f.payload)
}

/// The encoded byte count for a CRC-protected payload length.
pub open spec fn spec_encoded_payload_len(payload_len: nat) -> nat {
    if payload_len == 0 {
        0
    } else {
        payload_len + 2 * ((payload_len + 15) / 16)
    }
}

/// The frame that `s` holds, or why it holds none.
pub open spec fn spec_decode_frame(s: Seq<u8>) -> Result<LinkFrameView, ProtocolError> {
    if s.len() < 10 {
        Err(ProtocolError::UnexpectedEof)
    } else if s[0] != START_BYTE_0 || s[1] != START_BYTE_1 {
        Err(ProtocolError::InvalidStartBytes)
    } else if s[2] < 5 {
        Err(ProtocolError::InvalidLength { expected: 5, actual: s[2] as usize })
    } else {
        match prim::spec_verify_crc(s.take(8), s.subrange(8, 10)) {
            Err(e) => Err(e),
            Ok(_) => {
                let payload_len = (s[2] - 5) as nat;
                let expected_len = 10 + spec_encoded_payload_len(payload_len);
                if s.len() != expected_len {
                    Err(
                        ProtocolError::InvalidLength {
                            expected: expected_len as usize,
                            actual: s.len() as usize,
                        },
                    )
                } else {
                    match ControlField::spec_decode(s[3]) {
                        Err(e) => Err(e),
                        Ok(control) => match prim::spec_decode_crc_blocks(s.skip(10), payload_len) {
                            Err(e) => Err(e),
                            Ok(payload) => Ok(
                                LinkFrameView {
                                    control,
                                    destination: prim::le16(s.subrange(4, 6)),
                                    source: prim::le16(s.subrange(6, 8)),
                                    payload,
                                },
                            ),
                        },
                    }
                }
            },
        }
    }
}

/// The frame with an empty payload and the given fields.
pub open spec fn empty_frame(control: ControlField, destination: Address, source: Address) -> LinkFrameView {
    LinkFrameView { control, destination: destination@, source: source@, payload: seq![] }
}

/// The outcome of [`LinkFrame::new`]: the frame, or the error for an oversized payload.
pub open spec fn spec_new_frame(
    control: ControlField,
    destination: Address,
    source: Address,
    payload: Seq<u8>,
) -> Result<LinkFrameView, ProtocolError> {
    if payload.len() + 5 > 255 {
        Err(ProtocolError::InvalidLength { expected: 250, actual: payload.len() as usize })
    } else {
        Ok(LinkFrameView { control, destination: destination@, source: source@, payload })
    }
}

/// The control field of a primary frame without FCB and FCV.
pub open spec fn plain_primary(direction: Direction, function: PrimaryFunction) -> ControlField {
    ControlField { direction, fcb: false, fcv: false, function: LinkFunction::Primary(function) }
}

impl LinkFrame {
    /// Creates a new link frame.
    pub fn new(control: ControlField, destination: Address, source: Address, payload: Vec<u8>) -> (r:
        Result<LinkFrame, ProtocolError>)
        ensures
            match spec_new_frame(control, destination, source, payload@) {
                Ok(v) => r matches Ok(f) && f@ == v,
                Err(e) => r == Err::<LinkFrame, ProtocolError>(e),
            },
    {
        if payload.len() > MAX_LENGTH_FIELD - MIN_LENGTH_FIELD {
            return Err(
                ProtocolError::InvalidLength {
                    expected: MAX_LENGTH_FIELD - MIN_LENGTH_FIELD,
                    actual: payload.len(),
                },
            );
        }
        Ok(LinkFrame { control, destination, source, payload })
    }

    /// Creates an ACK frame (IEEE style, DIR=1, control 0x80).
    pub fn ack(destination: Address, source: Address) -> (r: LinkFrame)
        ensures
            r@ == empty_frame(
                ControlField {
                    direction: Direction::OutstationToMaster,
                    fcb: false,
                    fcv: false,
                    function: LinkFunction::Secondary(SecondaryFunction::Ack),
                },
                destination,
                source,
            ),
    {
        LinkFrame::ack_with_fcb(destination, source, false)
    }

    /// Creates a legacy ACK frame used by many Windows masters (DIR=0, control 0x00).
    pub fn legacy_ack(destination: Address, source: Address) -> (r: LinkFrame)
        ensures
            r@ == empty_frame(
                ControlField {
                    direction: Direction::MasterToOutstation,
                    fcb: false,
                    fcv: false,
                    function: LinkFunction::Secondary(SecondaryFunction::Ack),
                },
                destination,
                source,
            ),
    {
        LinkFrame::legacy_ack_with_fcb(destination, source, false)
    }

    /// Creates an ACK frame, optionally mirroring the request FCB bit.
    pub fn ack_with_fcb(destination: Address, source: Address, fcb: bool) -> (r: LinkFrame)
        ensures
            r@ == empty_frame(
                ControlField {
                    direction: Direction::OutstationToMaster,
                    fcb,
                    fcv: false,
                    function: LinkFunction::Secondary(SecondaryFunction::Ack),
                },
                destination,
                source,
            ),
    {
        LinkFrame {
            control: ControlField {
                direction: Direction::OutstationToMaster,
                fcb,
                fcv: false,
                function: LinkFunction::Secondary(SecondaryFunction::Ack),
            },
            destination,
            source,
            payload: Vec::new(),
        }
    }

    /// Creates a legacy ACK frame, optionally mirroring the request FCB bit.
    pub fn legacy_ack_with_fcb(destination: Address, source: Address, fcb: bool) -> (r: LinkFrame)
        ensures
            r@ == empty_frame(
                ControlField {
                    direction: Direction::MasterToOutstation,
                    fcb,
                    fcv: false,
                    function: LinkFunction::Secondary(SecondaryFunction::Ack),
                },
                destination,
                source,
            ),
    {
        LinkFrame {
            control: ControlField {
                direction: Direction::MasterToOutstation,
                fcb,
                fcv: false,
                function: LinkFunction::Secondary(SecondaryFunction::Ack),
            },
            destination,
            source,
            payload: Vec::new(),
        }
    }

    /// Creates a link-status response frame.
    pub fn link_status(destination: Address, source: Address) -> (r: LinkFrame)
        ensures
            r@ == (LinkFrameView {
                control: ControlField {
                    direction: Direction::OutstationToMaster,
                    fcb: false,
                    fcv: false,
                    function: LinkFunction::Secondary(SecondaryFunction::LinkStatus),
                },
                destination: destination@,
                source: source@,
                payload: seq![0xffu8],
            }),
    {
        let mut payload = Vec::new();
        payload.push(0xFF);
        proof {
            assert(payload@ =~= seq![0xffu8]);
        }
        LinkFrame {
            control: ControlField::secondary(
                Direction::OutstationToMaster,
                SecondaryFunction::LinkStatus,
            ),
            destination,
            source,
            payload,
        }
    }

    /// Creates a reset-link-states frame (IEEE style, control 0x40).
    pub fn reset_link_states(destination: Address, source: Address) -> (r: LinkFrame)
        ensures
            r@ == empty_frame(
                plain_primary(Direction::MasterToOutstation, PrimaryFunction::ResetLinkStates),
                destination,
                source,
            ),
    {
        LinkFrame {
            control: ControlField::primary(
                Direction::MasterToOutstation,
                PrimaryFunction::ResetLinkStates,
                false,
                false,
            ),
            destination,
            source,
            payload: Vec::new(),
        }
    }

    /// Creates a tool-style reset-link-states frame (control 0xC0).
    pub fn tool_reset_link_states(destination: Address, source: Address) -> (r: LinkFrame)
        ensures
            r@ == empty_frame(
                plain_primary(Direction::OutstationToMaster, PrimaryFunction::ResetLinkStates),
                destination,
                source,
            ),
    {
        LinkFrame {
            control: ControlField::primary(
                Direction::OutstationToMaster,
                PrimaryFunction::ResetLinkStates,
                false,
                false,
            ),
            destination,
            source,
            payload: Vec::new(),
        }
    }

    /// Creates a test-link-states frame (IEEE style, control 0x52).
    pub fn test_link_states(destination: Address, source: Address, fcb: bool) -> (r: LinkFrame)
        ensures
            r@ == empty_frame(
                ControlField {
                    direction: Direction::MasterToOutstation,
                    fcb,
                    fcv: true,
                    function: LinkFunction::Primary(PrimaryFunction::TestLinkStates),
                },
                destination,
                source,
            ),
    {
        LinkFrame {
            control: ControlField::primary(
                Direction::MasterToOutstation,
                PrimaryFunction::TestLinkStates,
                fcb,
                true,
            ),
            destination,
            source,
            payload: Vec::new(),
        }
    }

    /// Creates a tool-style test-link-states frame (control 0xD2).
    pub fn tool_test_link_states(destination: Address, source: Address, fcb: bool) -> (r: LinkFrame)
        ensures
            r@ == empty_frame(
                ControlField {
                    direction: Direction::OutstationToMaster,
                    fcb,
                    fcv: true,
                    function: LinkFunction::Primary(PrimaryFunction::TestLinkStates),
                },
                destination,
                source,
            ),
    {
        LinkFrame {
            control: ControlField::primary(
                Direction::OutstationToMaster,
                PrimaryFunction::TestLinkStates,
                fcb,
                true,
            ),
            destination,
            source,
            payload: Vec::new(),
        }
    }

    /// Creates an unconfirmed user data frame (IEEE style, control 0x44).
    pub fn unconfirmed_user_data(destination: Address, source: Address, payload: Vec<u8>) -> (r:
        Result<LinkFrame, ProtocolError>)
        ensures
            match spec_new_frame(
                plain_primary(Direction::MasterToOutstation, PrimaryFunction::UnconfirmedUserData),
                destination,
                source,
                payload@,
            ) {
                Ok(v) => r matches Ok(f) && f@ == v,
                Err(e) => r == Err::<LinkFrame, ProtocolError>(e),
            },
    {
        LinkFrame::new(
            ControlField::primary(
                Direction::MasterToOutstation,
                PrimaryFunction::UnconfirmedUserData,
                false,
                false,
            ),
            destination,
            source,
            payload,
        )
    }

    /// Creates a tool-style master user data frame (control 0xC4).
    pub fn tool_unconfirmed_user_data(destination: Address, source: Address, payload: Vec<u8>) -> (r:
        Result<LinkFrame, ProtocolError>)
        ensures
            match spec_new_frame(
                plain_primary(Direction::OutstationToMaster, PrimaryFunction::UnconfirmedUserData),
                destination,
                source,
                payload@,
            ) {
                Ok(v) => r matches Ok(f) && f@ == v,
                Err(e) => r == Err::<LinkFrame, ProtocolError>(e),
            },
    {
        LinkFrame::new(
            ControlField::primary(
                Direction::OutstationToMaster,
                PrimaryFunction::UnconfirmedUserData,
                false,
                false,
            ),
            destination,
            source,
            payload,
        )
    }

    /// Creates an outstation response frame (outstation to master, control 0xC4).
    pub fn outstation_unconfirmed_user_data(
        destination: Address,
        source: Address,
        payload: Vec<u8>,
    ) -> (r: Result<LinkFrame, ProtocolError>)
        ensures
            match spec_new_frame(
                plain_primary(Direction::OutstationToMaster, PrimaryFunction::UnconfirmedUserData),
                destination,
                source,
                payload@,
            ) {
                Ok(v) => r matches Ok(f) && f@ == v,
                Err(e) => r == Err::<LinkFrame, ProtocolError>(e),
            },
    {
        LinkFrame::new(
            ControlField::primary(
                Direction::OutstationToMaster,
                PrimaryFunction::UnconfirmedUserData,
                false,
                false,
            ),
            destination,
            source,
            payload,
        )
    }

    /// Encodes the frame to bytes.
    pub fn encode(&self) -> (r: Vec<u8>)
        requires
            self.payload.len() <= usize::MAX - 5,
        ensures
            r@ == spec_encode_frame(self@),
    {
        let length = ((MIN_LENGTH_FIELD + self.payload.len()) % 256) as u8;
        let mut header: Vec<u8> = Vec::with_capacity(8);
        header.push(START_BYTE_0);
        header.push(START_BYTE_1);
        header.push(length);
        header.push(self.control.encode());
        self.destination.encode(&mut header);
        self.source.encode(&mut header);
        proof {
            assert(header@ =~= frame_header(self@));
        }
        let mut out = header.clone();
        proof {
            assert(out@ =~= header@);
        }
        append_crc(header.as_slice(), &mut out);
        encode_crc_blocks(self.payload.as_slice(), &mut out);
        out
    }

    /// Decodes one complete frame from bytes.
    pub fn decode(input: &[u8]) -> (r: Result<LinkFrame, ProtocolError>)
        ensures
            match spec_decode_frame(input@) {
                Ok(v) => r matches Ok(f) && f@ == v,
                Err(e) => r == Err::<LinkFrame, ProtocolError>(e),
            },
    {
        if input.len() < 10 {
            return Err(ProtocolError::UnexpectedEof);
        }
        if input[0] != START_BYTE_0 || input[1] != START_BYTE_1 {
            return Err(ProtocolError::InvalidStartBytes);
        }
        let length = input[2] as usize;
        if length < MIN_LENGTH_FIELD {
            return Err(ProtocolError::InvalidLength { expected: MIN_LENGTH_FIELD, actual: length });
        }
        let head = &input[0..8];
        let head_crc = &input[8..10];
        proof {
            assert(head@ =~= input@.take(8));
            assert(head_crc@ =~= input@.subrange(8, 10));
        }
        verify_crc(head, head_crc)?;
        let payload_len = length - MIN_LENGTH_FIELD;
        let encoded_len = encoded_payload_len(payload_len);
        let expected_len = 10 + encoded_len;
        if input.len() != expected_len {
            return Err(ProtocolError::InvalidLength { expected: expected_len, actual: input.len() });
        }
        let fields = &input[3..8];
        let mut reader = Reader::new(fields);
        let control_byte = reader.read_u8()?;
        let control = ControlField::decode(control_byte)?;
        let destination = Address::decode(&mut reader)?;
        let source = Address::decode(&mut reader)?;
        proof {
            assert(fields@.subrange(1, 3) =~= input@.subrange(4, 6));
            assert(fields@.subrange(3, 5) =~= input@.subrange(6, 8));
        }
        let body = &input[10..input.len()];
        proof {
            assert(body@ =~= input@.skip(10));
        }
        let payload = decode_crc_blocks(body, payload_len)?;
        Ok(LinkFrame { control, destination, source, payload })
    }
}

/// Returns the encoded byte count for a CRC-protected payload length.
pub fn encoded_payload_len(payload_len: usize) -> (r: usize)
    requires
        spec_encoded_payload_len(payload_len as nat) <= usize::MAX,
    ensures
        r == spec_encoded_payload_len(payload_len as nat),
{
    if payload_len == 0 {
        0
    } else {
        let blocks = payload_len / CRC_BLOCK_SIZE + if payload_len % CRC_BLOCK_SIZE != 0 {
            1usize
        } else {
            0usize
        };
        proof {
            assert(blocks == (payload_len + 15) / 16);
        }
        payload_len + blocks * 2
    }
}

/// The CRC-protected form of a payload is as long as [`encoded_payload_len`] says.
pub proof fn lemma_crc_blocks_len(data: Seq<u8>)
    ensures
        prim::crc_blocks(data).len() == spec_encoded_payload_len(data.len()),
    decreases data.len(),
{
    if data.len() > 0 {
        let n = prim::chunk_len(data.len());
        lemma_crc_blocks_len(data.skip(n as int));
        prim::lemma_le_bytes_len(prim::spec_crc16(data.take(n as int)) as nat, 2);
    }
}

/// Decoding an encoded frame gives back the frame, for every frame whose payload fits the
/// one-byte length field.
pub proof fn lemma_frame_round_trip(f: LinkFrameView)
    requires
        f.payload.len() <= 250,
    ensures
        spec_decode_frame(spec_encode_frame(f)) == Ok::<LinkFrameView, ProtocolError>(f),
{
    let h = frame_header(f);
    let c = prim::spec_crc16(h);
    let s = spec_encode_frame(f);
    prim::lemma_le_bytes_len(f.destination as nat, 2);
    prim::lemma_le_bytes_len(f.source as nat, 2);
    prim::lemma_le_bytes_len(c as nat, 2);
    assert(prim::pow256(2) == 65536) by {
        reveal_with_fuel(prim::pow256, 3);
    }
    prim::lemma_le_round_trip(c as nat, 2);
    prim::lemma_le_round_trip(f.destination as nat, 2);
    prim::lemma_le_round_trip(f.source as nat, 2);
    lemma_crc_blocks_len(f.payload);
    prim::lemma_crc_blocks_round_trip(f.payload);
    lemma_control_field_round_trip(f.control);
    assert(h.len() == 8);
    assert(s.take(8) =~= h);
    assert(s.subrange(8, 10) =~= prim::le_bytes(c as nat, 2));
    assert(s.skip(10) =~= prim::crc_blocks(f.payload));
    assert(s.subrange(4, 6) =~= prim::le_bytes(f.destination as nat, 2));
    assert(s.subrange(6, 8) =~= prim::le_bytes(f.source as nat, 2));
    assert(s[2] == 5 + f.payload.len());
}

/// A frame is accepted only when its header is intact: the input starts with the two start
/// bytes, its length field is at least 5, and bytes 8 and 9 are the little-endian CRC of bytes
/// 0 to 7.
pub proof fn lemma_decoded_frame_header_checked(s: Seq<u8>)
    ensures
        spec_decode_frame(s) is Ok ==> {
            &&& s.len() >= 10
            &&& s[0] == 0x05 && s[1] == 0x64
            &&& s[2] >= 5
            &&& s[8] + 256 * s[9] == prim::spec_crc16(s.take(8))
        },
{
    if spec_decode_frame(s) is Ok {
        prim::lemma_le_value_2(s.subrange(8, 10));
        prim::lemma_le_value_bound(s.subrange(8, 10));
        assert(prim::pow256(2) == 65536) by {
            reveal_with_fuel(prim::pow256, 3);
        }
    }
}

} // verus!
