use vstd::prelude::*;

use crate::primitives as prim;
use crate::primitives::{push_u16_le, push_u32_le, ProtocolError, Reader, Timestamp48};

verus! {

// ---------------------------------------------------------------------------
// Application control field and function codes
// ---------------------------------------------------------------------------

/// Application-layer control field.
#[derive(Debug, Clone, Copy, PartialEq, Eq, Structural)]
pub struct AppControl {
    /// First fragment flag.
    pub fir: bool,
    /// Final fragment flag.
    pub fin: bool,
    /// Confirmation requested flag.
    pub con: bool,
    /// Unsolicited flag.
    pub uns: bool,
    /// Four-bit sequence number.
    pub sequence: u8,
}

/// `weight` when `flag` is set, else zero.
pub open spec fn flag_value(flag: bool, weight: int) -> int {
    if flag {
        weight
    } else {
        0
    }
}

impl AppControl {
    pub open spec fn spec_encode(self) -> u8 {
        (flag_value(self.fir, 128) + flag_value(self.fin, 64) + flag_value(self.con, 32)
            + flag_value(self.uns, 16) + self.sequence % 16) as u8
    }

    pub open spec fn spec_decode(value: u8) -> AppControl {
        AppControl {
            fir: value >= 128,
            fin: (value / 64) % 2 == 1,
            con: (value / 32) % 2 == 1,
            uns: (value / 16) % 2 == 1,
            sequence: value % 16,
        }
    }

    /// Creates a request/response control field.
    pub fn new(fir: bool, fin: bool, con: bool, uns: bool, sequence: u8) -> (r: AppControl)
        ensures
            r == (AppControl { fir, fin, con, uns, sequence: sequence % 16 }),
    {
        AppControl { fir, fin, con, uns, sequence: sequence % 16 }
    }

    /// Creates a single-fragment control field.
    pub fn single(sequence: u8) -> (r: AppControl)
        ensures
            r == (AppControl { fir: true, fin: true, con: false, uns: false, sequence: sequence % 16 }),
    {
        AppControl::new(true, true, false, false, sequence)
    }

    /// Encodes the control field.
    pub fn encode(self) -> (r: u8)
        ensures
            r == self.spec_encode(),
    {
        (if self.fir {
            0x80u8
        } else {
            0u8
        }) + (if self.fin {
            0x40u8
        } else {
            0u8
        }) + (if self.con {
            0x20u8
        } else {
            0u8
        }) + (if self.uns {
            0x10u8
        } else {
            0u8
        }) + self.sequence % 16
    }

    /// Decodes a control field.
    pub fn decode(value: u8) -> (r: AppControl)
        ensures
            r == AppControl::spec_decode(value),
    {
        AppControl {
            fir: value >= 0x80,
            fin: (value / 64) % 2 == 1,
            con: (value / 32) % 2 == 1,
            uns: (value / 16) % 2 == 1,
            sequence: value % 16,
        }
    }
}

/// Decoding an encoded control field gives it back, when its sequence number fits four bits.
pub proof fn lemma_app_control_round_trip(c: AppControl)
    requires
        c.sequence < 16,
    ensures
        AppControl::spec_decode(c.spec_encode()) == c,
{
}

/// Common application function codes.
#[derive(Debug, Clone, Copy, PartialEq, Eq, Structural)]
pub enum FunctionCode {
    /// Confirm an application fragment.
    Confirm,
    /// Read objects.
    Read,
    /// Write objects.
    Write,
    /// Select controllable outputs.
    Select,
    /// Operate selected outputs.
    Operate,
    /// Direct operate.
    DirectOperate,
    /// Freeze counters.
    Freeze,
    /// Enable unsolicited responses.
    EnableUnsolicited,
    /// Disable unsolicited responses.
    DisableUnsolicited,
    /// Assign class data.
    AssignClass,
    /// Delay measurement.
    DelayMeasure,
    /// Record current time.
    RecordCurrentTime,
    /// Response.
    Response,
    /// Unsolicited response.
    UnsolicitedResponse,
}

impl FunctionCode {
    pub open spec fn spec_encode(self) -> u8 {
        match self {
            FunctionCode::Confirm => 0,
            FunctionCode::Read => 1,
            FunctionCode::Write => 2,
            FunctionCode::Select => 3,
            FunctionCode::Operate => 4,
            FunctionCode::DirectOperate => 5,
            FunctionCode::Freeze => 7,
            FunctionCode::EnableUnsolicited => 20,
            FunctionCode::DisableUnsolicited => 21,
            FunctionCode::AssignClass => 22,
            FunctionCode::DelayMeasure => 23,
            FunctionCode::RecordCurrentTime => 24,
            FunctionCode::Response => 129,
            FunctionCode::UnsolicitedResponse => 130,
        }
    }

    pub open spec fn spec_decode(value: u8) -> Result<FunctionCode, ProtocolError> {
        if value == 0 {
            Ok(FunctionCode::Confirm)
        } else if value == 1 {
            Ok(FunctionCode::Read)
        } else if value == 2 {
            Ok(FunctionCode::Write)
        } else if value == 3 {
            Ok(FunctionCode::Select)
        } else if value == 4 {
            Ok(FunctionCode::Operate)
        } else if value == 5 {
            Ok(FunctionCode::DirectOperate)
        } else if value == 7 {
            Ok(FunctionCode::Freeze)
        } else if value == 20 {
            Ok(FunctionCode::EnableUnsolicited)
        } else if value == 21 {
            Ok(FunctionCode::DisableUnsolicited)
        } else if value == 22 {
            Ok(FunctionCode::AssignClass)
        } else if value == 23 {
            Ok(FunctionCode::DelayMeasure)
        } else if value == 24 {
            Ok(FunctionCode::RecordCurrentTime)
        } else if value == 129 {
            Ok(FunctionCode::Response)
        } else if value == 130 {
            Ok(FunctionCode::UnsolicitedResponse)
        } else {
            Err(ProtocolError::UnknownValue { field: "application function", value })
        }
    }

    /// Encodes the function code.
    pub fn encode(self) -> (r: u8)
        ensures
            r == self.spec_encode(),
    {
        match self {
            FunctionCode::Confirm => 0,
            FunctionCode::Read => 1,
            FunctionCode::Write => 2,
            FunctionCode::Select => 3,
            FunctionCode::Operate => 4,
            FunctionCode::DirectOperate => 5,
            FunctionCode::Freeze => 7,
            FunctionCode::EnableUnsolicited => 20,
            FunctionCode::DisableUnsolicited => 21,
            FunctionCode::AssignClass => 22,
            FunctionCode::DelayMeasure => 23,
            FunctionCode::RecordCurrentTime => 24,
            FunctionCode::Response => 129,
            FunctionCode::UnsolicitedResponse => 130,
        }
    }

    /// Decodes a function code.
    pub fn decode(value: u8) -> (r: Result<FunctionCode, ProtocolError>)
        ensures
            r == FunctionCode::spec_decode(value),
    {
        match value {
            0 => Ok(FunctionCode::Confirm),
            1 => Ok(FunctionCode::Read),
            2 => Ok(FunctionCode::Write),
            3 => Ok(FunctionCode::Select),
            4 => Ok(FunctionCode::Operate),
            5 => Ok(FunctionCode::DirectOperate),
            7 => Ok(FunctionCode::Freeze),
            20 => Ok(FunctionCode::EnableUnsolicited),
            21 => Ok(FunctionCode::DisableUnsolicited),
            22 => Ok(FunctionCode::AssignClass),
            23 => Ok(FunctionCode::DelayMeasure),
            24 => Ok(FunctionCode::RecordCurrentTime),
            129 => Ok(FunctionCode::Response),
            130 => Ok(FunctionCode::UnsolicitedResponse),
            _ => Err(ProtocolError::UnknownValue { field: "application function", value }),
        }
    }
}

/// Decoding an encoded function code gives it back.
pub proof fn lemma_function_code_round_trip(f: FunctionCode)
    ensures
        FunctionCode::spec_decode(f.spec_encode()) == Ok::<FunctionCode, ProtocolError>(f),
{
}

/// A byte that decodes as a function code is the encoding of that function code.
pub proof fn lemma_function_code_byte_round_trip(value: u8)
    ensures
        FunctionCode::spec_decode(value) matches Ok(f) ==> f.spec_encode() == value,
{
}

// ---------------------------------------------------------------------------
// Qualifiers and object headers
// ---------------------------------------------------------------------------

/// Object header qualifier.
#[derive(Debug, Clone, Copy, PartialEq, Eq, Structural)]
pub enum Qualifier {
    /// Start and stop index are encoded as one byte each.
    Range8 { start: u8, stop: u8 },
    /// Start and stop index are encoded as two bytes each.
    Range16 { start: u16, stop: u16 },
    /// No range or count fields.
    AllObjects,
    /// One-byte object count.
    Count8(u8),
    /// Two-byte object count.
    Count16(u16),
    /// One-byte count followed by two-byte index prefixes in the object body.
    CountAndPrefix16(u8),
    /// One 32-bit index prefix in the header (qualifier 0x14).
    Indexed32(u32),
    /// One-byte count followed by four-byte index prefixes in the object body.
    CountAndPrefix32(u8),
}

impl Qualifier {
    pub open spec fn spec_code(self) -> u8 {
        match self {
            Qualifier::Range8 { .. } => 0x00,
            Qualifier::Range16 { .. } => 0x01,
            Qualifier::AllObjects => 0x06,
            Qualifier::Count8(_) => 0x07,
            Qualifier::Count16(_) => 0x08,
            Qualifier::CountAndPrefix16(_) => 0x28,
            Qualifier::CountAndPrefix32(_) => 0x38,
            Qualifier::Indexed32(_) => 0x14,
        }
    }

    pub open spec fn spec_count(self) -> Result<usize, ProtocolError> {
        match self {
            Qualifier::Count8(c) => Ok(c as usize),
            Qualifier::CountAndPrefix16(c) => Ok(c as usize),
            Qualifier::CountAndPrefix32(c) => Ok(c as usize),
            Qualifier::Count16(c) => Ok(c as usize),
            _ => Err(
                ProtocolError::UnknownValue {
                    field: "object qualifier without count",
                    value: self.spec_code(),
                },
            ),
        }
    }

    /// The bytes that follow the qualifier code in an object header.
    pub open spec fn spec_fields(self) -> Seq<u8> {
        match self {
            Qualifier::Range8 { start, stop } => seq![start, stop],
            Qualifier::Range16 { start, stop } => prim::le_bytes(start as nat, 2) + prim::le_bytes(
                stop as nat,
                2,
            ),
            Qualifier::AllObjects => seq![],
            Qualifier::Count8(c) => seq![c],
            Qualifier::CountAndPrefix16(c) => seq![c],
            Qualifier::Count16(c) => prim::le_bytes(c as nat, 2),
            Qualifier::CountAndPrefix32(c) => seq![c],
            Qualifier::Indexed32(i) => prim::le_bytes(i as nat, 4),
        }
    }

    fn count(self) -> (r: Result<usize, ProtocolError>)
        ensures
            r == self.spec_count(),
    {
        match self {
            Qualifier::Count8(count) => Ok(count as usize),
            Qualifier::CountAndPrefix16(count) => Ok(count as usize),
            Qualifier::CountAndPrefix32(count) => Ok(count as usize),
            Qualifier::Count16(count) => Ok(count as usize),
            _ => Err(
                ProtocolError::UnknownValue {
                    field: "object qualifier without count",
                    value: self.code(),
                },
            ),
        }
    }

    fn code(self) -> (r: u8)
        ensures
            r == self.spec_code(),
    {
        match self {
            Qualifier::Range8 { .. } => 0x00,
            Qualifier::Range16 { .. } => 0x01,
            Qualifier::AllObjects => 0x06,
            Qualifier::Count8(_) => 0x07,
            Qualifier::Count16(_) => 0x08,
            Qualifier::CountAndPrefix16(_) => 0x28,
            Qualifier::CountAndPrefix32(_) => 0x38,
            Qualifier::Indexed32(_) => 0x14,
        }
    }
}

/// Qualifier codes that simulators send for one-byte counts with four-byte index prefixes.
pub open spec fn spec_is_simulator_indexed_qualifier(code: u8) -> bool {
    code == 0x38 || code == 0x58 || code == 0x61 || code == 0x82 || code == 0x8f || code == 0x9f
        || code == 0xa2 || code == 0xad || code == 0xb2 || code == 0xd8 || code == 0xf8 || (code
        % 16 == 0x0f && code / 16 >= 0x8) || (code / 16 >= 0xa && (code % 16 == 0x0c || code % 16
        == 0x0d || code % 16 == 0x0e))
}

/// Qualifier codes read as one-byte counts with two-byte index prefixes.
pub open spec fn spec_is_count_and_prefix16_qualifier(code: u8) -> bool {
    !spec_is_simulator_indexed_qualifier(code) && (code == 0x17 || code == 0x22 || code == 0x28
        || (code % 16 == 0x02 && code / 16 <= 0x0a))
}

fn is_simulator_indexed_qualifier(code: u8) -> (r: bool)
    ensures
        r == spec_is_simulator_indexed_qualifier(code),
{
    code == 0x38 || code == 0x58 || code == 0x61 || code == 0x82 || code == 0x8f || code == 0x9f
        || code == 0xa2 || code == 0xad || code == 0xb2 || code == 0xd8 || code == 0xf8 || (code
        % 16 == 0x0f && code / 16 >= 0x8) || (code / 16 >= 0xa && (code % 16 == 0x0c || code % 16
        == 0x0d || code % 16 == 0x0e))
}

fn is_count_and_prefix16_qualifier(code: u8) -> (r: bool)
    ensures
        r == spec_is_count_and_prefix16_qualifier(code),
{
    !is_simulator_indexed_qualifier(code) && (code == 0x17 || code == 0x22 || code == 0x28 || (
    code % 16 == 0x02 && code / 16 <= 0x0a))
}

/// Application object header.
#[derive(Debug, Clone, Copy, PartialEq, Eq, Structural)]
pub struct ObjectHeader {
    /// Object group.
    pub group: u8,
    /// Object variation.
    pub variation: u8,
    /// Header qualifier.
    pub qualifier: Qualifier,
}

/// The bytes of an encoded object header.
pub open spec fn spec_encode_header(h: ObjectHeader) -> Seq<u8> {
    seq![h.group, h.variation, h.qualifier.spec_code()] + h.qualifier.spec_fields()
}

/// The qualifier whose code is `code` and whose fields start at `p`, and where they end.
pub open spec fn spec_decode_qualifier(s: Seq<u8>, code: u8, p: int) -> Result<
    (Qualifier, int),
    ProtocolError,
> {
    if code == 0x00 {
        match prim::take_at(s, p, 2) {
            Ok((b, q)) => Ok((Qualifier::Range8 { start: b[0], stop: b[1] }, q)),
            Err(e) => Err(e),
        }
    } else if code == 0x01 {
        match prim::take_at(s, p, 4) {
            Ok((b, q)) => Ok(
                (
                    Qualifier::Range16 {
                        start: prim::le16(b.subrange(0, 2)),
                        stop: prim::le16(b.subrange(2, 4)),
                    },
                    q,
                ),
            ),
            Err(e) => Err(e),
        }
    } else if code == 0x06 {
        Ok((Qualifier::AllObjects, p))
    } else if code == 0x07 {
        match prim::take_at(s, p, 1) {
            Ok((b, q)) => Ok((Qualifier::Count8(b[0]), q)),
            Err(e) => Err(e),
        }
    } else if code == 0x08 {
        match prim::take_at(s, p, 2) {
            Ok((b, q)) => Ok((Qualifier::Count16(prim::le16(b)), q)),
            Err(e) => Err(e),
        }
    } else if code == 0x14 {
        match prim::take_at(s, p, 4) {
            Ok((b, q)) => Ok((Qualifier::Indexed32(prim::le32(b)), q)),
            Err(e) => Err(e),
        }
    } else if spec_is_simulator_indexed_qualifier(code) {
        match prim::take_at(s, p, 1) {
            Ok((b, q)) => Ok((Qualifier::CountAndPrefix32(b[0]), q)),
            Err(e) => Err(e),
        }
    } else if spec_is_count_and_prefix16_qualifier(code) {
        match prim::take_at(s, p, 1) {
            Ok((b, q)) => Ok((Qualifier::CountAndPrefix16(b[0]), q)),
            Err(e) => Err(e),
        }
    } else {
        Err(ProtocolError::UnknownValue { field: "object qualifier", value: code })
    }
}

/// The object header at `p` in `s`, and where it ends.
pub open spec fn spec_decode_header(s: Seq<u8>, p: int) -> Result<(ObjectHeader, int), ProtocolError> {
    match prim::take_at(s, p, 3) {
        Err(e) => Err(e),
        Ok((b, q)) => match spec_decode_qualifier(s, b[2], q) {
            Err(e) => Err(e),
            Ok((qualifier, end)) => Ok(
                (ObjectHeader { group: b[0], variation: b[1], qualifier }, end),
            ),
        },
    }
}

impl View for ObjectHeader {
    type V = ObjectHeader;

    open spec fn view(&self) -> ObjectHeader {
        *self
    }
}

impl ObjectHeader {
    /// Creates a header.
    pub fn new(group: u8, variation: u8, qualifier: Qualifier) -> (r: ObjectHeader)
        ensures
            r == (ObjectHeader { group, variation, qualifier }),
    {
        ObjectHeader { group, variation, qualifier }
    }

    /// Encodes the object header.
    pub fn encode(self, out: &mut Vec<u8>)
        ensures
            final(out)@ == old(out)@ + spec_encode_header(self),
    {
        let ghost start = out@;
        out.push(self.group);
        out.push(self.variation);
        out.push(self.qualifier.code());
        let ghost mid = out@;
        match self.qualifier {
            Qualifier::Range8 { start, stop } => {
                out.push(start);
                out.push(stop);
            },
            Qualifier::Range16 { start, stop } => {
                push_u16_le(out, start);
                push_u16_le(out, stop);
            },
            Qualifier::AllObjects => {},
            Qualifier::Count8(count) => out.push(count),
            Qualifier::CountAndPrefix16(count) => out.push(count),
            Qualifier::Count16(count) => push_u16_le(out, count),
            Qualifier::CountAndPrefix32(count) => out.push(count),
            Qualifier::Indexed32(index) => push_u32_le(out, index),
        }
        proof {
            assert(out@ =~= start + spec_encode_header(self));
        }
    }

    /// Decodes an object header.
    pub fn decode(input: &mut Reader<'_>) -> (r: Result<ObjectHeader, ProtocolError>)
        ensures
            prim::decoded(*old(input), *final(input), r, spec_decode_header(old(input).data(), old(input).pos())),
    {
        proof {
            use_type_invariant(&*input);
            Reader::lemma_in_bounds(*input);
        }
        let ghost s = input.data();
        let ghost p = input.pos();
        let group = input.read_u8()?;
        let variation = input.read_u8()?;
        let qualifier_code = input.read_u8()?;
        proof {
            assert(s.subrange(p, p + 3) =~= seq![group, variation, qualifier_code]);
        }
        let ghost q = input.pos();
        let qualifier = if qualifier_code == 0x00 {
            let start = input.read_u8()?;
            let stop = input.read_u8()?;
            proof {
                assert(s.subrange(q, q + 2) =~= seq![start, stop]);
            }
            Qualifier::Range8 { start, stop }
        } else if qualifier_code == 0x01 {
            let start = input.read_u16_le()?;
            let stop = input.read_u16_le()?;
            proof {
                assert(s.subrange(q, q + 4).subrange(0, 2) =~= s.subrange(q, q + 2));
                assert(s.subrange(q, q + 4).subrange(2, 4) =~= s.subrange(q + 2, q + 4));
            }
            Qualifier::Range16 { start, stop }
        } else if qualifier_code == 0x06 {
            Qualifier::AllObjects
        } else if qualifier_code == 0x07 {
            Qualifier::Count8(input.read_u8()?)
        } else if qualifier_code == 0x08 {
            Qualifier::Count16(input.read_u16_le()?)
        } else if qualifier_code == 0x14 {
            Qualifier::Indexed32(input.read_u32_le()?)
        } else if is_simulator_indexed_qualifier(qualifier_code) {
            Qualifier::CountAndPrefix32(input.read_u8()?)
        } else if is_count_and_prefix16_qualifier(qualifier_code) {
            Qualifier::CountAndPrefix16(input.read_u8()?)
        } else {
            return Err(
                ProtocolError::UnknownValue { field: "object qualifier", value: qualifier_code },
            );
        };
        Ok(ObjectHeader { group, variation, qualifier })
    }
}

/// Decoding an encoded object header, followed by anything, gives back the header and stops
/// right after it.
pub proof fn lemma_header_round_trip(h: ObjectHeader, front: Seq<u8>, tail: Seq<u8>)
    ensures
        spec_decode_header(front + spec_encode_header(h) + tail, front.len() as int) == Ok::<
            (ObjectHeader, int),
            ProtocolError,
        >((h, (front.len() + spec_encode_header(h).len()) as int)),
{
    let enc = spec_encode_header(h);
    let s = front + enc + tail;
    let p = front.len() as int;
    let f = h.qualifier.spec_fields();
    assert(prim::pow256(2) == 65536 && prim::pow256(4) == 0x1_0000_0000) by {
        reveal_with_fuel(prim::pow256, 5);
    }
    match h.qualifier {
        Qualifier::Range16 { start, stop } => {
            prim::lemma_le_round_trip(start as nat, 2);
            prim::lemma_le_round_trip(stop as nat, 2);
            assert(f.subrange(0, 2) =~= prim::le_bytes(start as nat, 2));
            assert(f.subrange(2, 4) =~= prim::le_bytes(stop as nat, 2));
        },
        Qualifier::Count16(c) => {
            prim::lemma_le_round_trip(c as nat, 2);
        },
        Qualifier::Indexed32(i) => {
            prim::lemma_le_round_trip(i as nat, 4);
        },
        _ => {},
    }
    assert(s.subrange(p, p + 3) =~= seq![h.group, h.variation, h.qualifier.spec_code()]);
    assert(s.subrange(p + 3, p + 3 + f.len()) =~= f);
}

// ---------------------------------------------------------------------------
// Points and object values
// ---------------------------------------------------------------------------

/// Binary input point.
#[derive(Debug, Clone, Copy, PartialEq, Eq, Structural)]
pub struct BinaryInput {
    /// Point index.
    pub index: u16,
    /// Flags byte.
    pub flags: u8,
}

/// Binary output point.
#[derive(Debug, Clone, Copy, PartialEq, Eq, Structural)]
pub struct BinaryOutput {
    /// Point index.
    pub index: u16,
    /// Flags byte.
    pub flags: u8,
}

/// Analog input point.
#[derive(Debug, Clone, Copy, PartialEq, Eq, Structural)]
pub struct AnalogInput {
    /// Point index.
    pub index: u16,
    /// Flags byte.
    pub flags: u8,
    /// Signed 32-bit value.
    pub value: i32,
}

/// Analog output point.
#[derive(Debug, Clone, Copy, PartialEq, Eq, Structural)]
pub struct AnalogOutput {
    /// Point index.
    pub index: u16,
    /// Flags byte.
    pub flags: u8,
    /// Signed 32-bit value.
    pub value: i32,
}

/// Counter point.
#[derive(Debug, Clone, Copy, PartialEq, Eq, Structural)]
pub struct Counter {
    /// Point index.
    pub index: u16,
    /// Flags byte.
    pub flags: u8,
    /// Unsigned 32-bit value.
    pub value: u32,
}

impl View for BinaryInput {
    type V = BinaryInput;

    open spec fn view(&self) -> BinaryInput {
        *self
    }
}

impl View for AnalogInput {
    type V = AnalogInput;

    open spec fn view(&self) -> AnalogInput {
        *self
    }
}

impl View for Counter {
    type V = Counter;

    open spec fn view(&self) -> Counter {
        *self
    }
}

pub open spec fn output_of(v: BinaryInput) -> BinaryOutput {
    BinaryOutput { index: v.index, flags: v.flags }
}

pub open spec fn input_of(v: BinaryOutput) -> BinaryInput {
    BinaryInput { index: v.index, flags: v.flags }
}

pub open spec fn analog_output_of(v: AnalogInput) -> AnalogOutput {
    AnalogOutput { index: v.index, flags: v.flags, value: v.value }
}

pub open spec fn analog_input_of(v: AnalogOutput) -> AnalogInput {
    AnalogInput { index: v.index, flags: v.flags, value: v.value }
}

impl From<BinaryInput> for BinaryOutput {
    fn from(value: BinaryInput) -> (r: BinaryOutput) {
        BinaryOutput { index: value.index, flags: value.flags }
    }
}

impl vstd::std_specs::convert::FromSpecImpl<BinaryInput> for BinaryOutput {
    open spec fn obeys_from_spec() -> bool {
        true
    }

    open spec fn from_spec(v: BinaryInput) -> BinaryOutput {
        output_of(v)
    }
}

impl From<BinaryOutput> for BinaryInput {
    fn from(value: BinaryOutput) -> (r: BinaryInput) {
        BinaryInput { index: value.index, flags: value.flags }
    }
}

impl vstd::std_specs::convert::FromSpecImpl<BinaryOutput> for BinaryInput {
    open spec fn obeys_from_spec() -> bool {
        true
    }

    open spec fn from_spec(v: BinaryOutput) -> BinaryInput {
        input_of(v)
    }
}

impl From<AnalogInput> for AnalogOutput {
    fn from(value: AnalogInput) -> (r: AnalogOutput) {
        AnalogOutput { index: value.index, flags: value.flags, value: value.value }
    }
}

impl vstd::std_specs::convert::FromSpecImpl<AnalogInput> for AnalogOutput {
    open spec fn obeys_from_spec() -> bool {
        true
    }

    open spec fn from_spec(v: AnalogInput) -> AnalogOutput {
        analog_output_of(v)
    }
}

impl From<AnalogOutput> for AnalogInput {
    fn from(value: AnalogOutput) -> (r: AnalogInput) {
        AnalogInput { index: value.index, flags: value.flags, value: value.value }
    }
}

impl vstd::std_specs::convert::FromSpecImpl<AnalogOutput> for AnalogInput {
    open spec fn obeys_from_spec() -> bool {
        true
    }

    open spec fn from_spec(v: AnalogOutput) -> AnalogInput {
        analog_input_of(v)
    }
}

/// DNP3 event and static data classes.
#[derive(Debug, Clone, Copy, PartialEq, Eq, Structural)]
pub enum DataClass {
    /// Static data.
    Class0,
    /// Event class 1.
    Class1,
    /// Event class 2.
    Class2,
    /// Event class 3.
    Class3,
}

impl DataClass {
    pub open spec fn spec_variation(self) -> u8 {
        match self {
            DataClass::Class0 => 1,
            DataClass::Class1 => 2,
            DataClass::Class2 => 3,
            DataClass::Class3 => 4,
        }
    }

    pub open spec fn spec_parse(variation: u8) -> Result<DataClass, ProtocolError> {
        if variation == 1 {
            Ok(DataClass::Class0)
        } else if variation == 2 {
            Ok(DataClass::Class1)
        } else if variation == 3 {
            Ok(DataClass::Class2)
        } else if variation == 4 {
            Ok(DataClass::Class3)
        } else {
            Err(ProtocolError::UnknownValue { field: "class variation", value: variation })
        }
    }

    fn variation(self) -> (r: u8)
        ensures
            r == self.spec_variation(),
    {
        match self {
            DataClass::Class0 => 1,
            DataClass::Class1 => 2,
            DataClass::Class2 => 3,
            DataClass::Class3 => 4,
        }
    }

    fn parse(variation: u8) -> (r: Result<DataClass, ProtocolError>)
        ensures
            r == DataClass::spec_parse(variation),
    {
        match variation {
            1 => Ok(DataClass::Class0),
            2 => Ok(DataClass::Class1),
            3 => Ok(DataClass::Class2),
            4 => Ok(DataClass::Class3),
            _ => Err(ProtocolError::UnknownValue { field: "class variation", value: variation }),
        }
    }
}

// ---------------------------------------------------------------------------
// Decoding point lists
// ---------------------------------------------------------------------------

/// How the index of each point in an object body is found.
#[derive(Debug, Clone, Copy, PartialEq, Eq, Structural)]
pub enum PointIndexing {
    /// Consecutive indices from a two-byte range start.
    FromStart16(u16),
    /// Consecutive indices from a one-byte range start, wrapping within one byte.
    FromStart8(u8),
    /// The position of the point in the body.
    Position,
    /// A two-byte index before each point.
    Prefix16,
    /// A four-byte index before each point, clamped to 16 bits.
    Prefix32,
    /// One point whose index the header carries, clamped to 16 bits.
    Fixed32(u32),
}

/// A 32-bit index clamped to the 16-bit index range.
pub open spec fn clamp16(v: u32) -> u16 {
    if v <= 0xffff {
        v as u16
    } else {
        0xffff
    }
}

fn clamp_index(v: u32) -> (r: u16)
    ensures
        r == clamp16(v),
{
    if v <= 0xffff {
        v as u16
    } else {
        0xffff
    }
}

/// Bytes of index prefix before each point.
pub open spec fn prefix_width(m: PointIndexing) -> int {
    match m {
        PointIndexing::Prefix16 => 2,
        PointIndexing::Prefix32 => 4,
        _ => 0,
    }
}

/// The indexing and the number of points that a qualifier announces. With `positional`,
/// plain counts number the points by position; otherwise they announce two-byte prefixes.
pub open spec fn spec_point_layout(q: Qualifier, positional: bool) -> Result<
    (PointIndexing, nat),
    ProtocolError,
> {
    match q {
        Qualifier::Range16 { start, stop } => if stop < start {
            Err(ProtocolError::InvalidLength { expected: start as usize, actual: stop as usize })
        } else {
            Ok((PointIndexing::FromStart16(start), (stop - start + 1) as nat))
        },
        Qualifier::Range8 { start, stop } => Ok(
            (
                PointIndexing::FromStart8(start),
                ((if stop >= start {
                    stop - start
                } else {
                    0
                }) + 1) as nat,
            ),
        ),
        Qualifier::Indexed32(i) => Ok((PointIndexing::Fixed32(i), 1)),
        Qualifier::Count8(c) if positional => Ok((PointIndexing::Position, c as nat)),
        Qualifier::Count16(c) if positional => Ok((PointIndexing::Position, c as nat)),
        Qualifier::CountAndPrefix32(c) => Ok((PointIndexing::Prefix32, c as nat)),
        _ => match q.spec_count() {
            Ok(c) => Ok((PointIndexing::Prefix16, c as nat)),
            Err(e) => Err(e),
        },
    }
}

/// Indices that every point position below the count can take without wrapping the counter.
pub open spec fn index_fits(m: PointIndexing, k: int) -> bool {
    match m {
        PointIndexing::FromStart8(_) => 0 <= k < 256,
        _ => 0 <= k < 65536,
    }
}

fn point_layout(q: Qualifier, positional: bool) -> (r: Result<(PointIndexing, usize), ProtocolError>)
    ensures
        match spec_point_layout(q, positional) {
            Ok((m, c)) => r == Ok::<(PointIndexing, usize), ProtocolError>((m, c as usize)) && c
                <= 65536 && forall|k: int| 0 <= k < c ==> #[trigger] index_fits(m, k),
            Err(e) => r == Err::<(PointIndexing, usize), ProtocolError>(e),
        },
{
    match q {
        Qualifier::Range16 { start, stop } => {
            if stop < start {
                return Err(
                    ProtocolError::InvalidLength { expected: start as usize, actual: stop as usize },
                );
            }
            Ok((PointIndexing::FromStart16(start), (stop - start) as usize + 1))
        },
        Qualifier::Range8 { start, stop } => {
            Ok((PointIndexing::FromStart8(start), stop.saturating_sub(start) as usize + 1))
        },
        Qualifier::Indexed32(i) => Ok((PointIndexing::Fixed32(i), 1)),
        Qualifier::Count8(c) if positional => Ok((PointIndexing::Position, c as usize)),
        Qualifier::Count16(c) if positional => Ok((PointIndexing::Position, c as usize)),
        Qualifier::CountAndPrefix32(c) => Ok((PointIndexing::Prefix32, c as usize)),
        _ => {
            let c = q.count()?;
            Ok((PointIndexing::Prefix16, c))
        },
    }
}

/// The index of point number `k` whose bytes start at `q`.
pub open spec fn spec_index_at(m: PointIndexing, k: int, s: Seq<u8>, q: int) -> u16 {
    match m {
        PointIndexing::FromStart16(start) => ((start + k) % 65536) as u16,
        PointIndexing::FromStart8(start) => ((start + k) % 256) as u16,
        PointIndexing::Position => k as u16,
        PointIndexing::Prefix16 => prim::le16(s.subrange(q, q + 2)),
        PointIndexing::Prefix32 => clamp16(prim::le32(s.subrange(q, q + 4))),
        PointIndexing::Fixed32(v) => clamp16(v),
    }
}

fn read_point_index(m: PointIndexing, k: usize, input: &mut Reader<'_>) -> (r: Result<
    u16,
    ProtocolError,
>)
    requires
        index_fits(m, k as int),
    ensures
        prim::decoded(
            *old(input),
            *final(input),
            r,
            if old(input).pos() + prefix_width(m) <= old(input).data().len() {
                Ok(
                    (
                        spec_index_at(m, k as int, old(input).data(), old(input).pos()),
                        old(input).pos() + prefix_width(m),
                    ),
                )
            } else {
                Err(ProtocolError::UnexpectedEof)
            },
        ),
{
    proof {
        use_type_invariant(&*input);
        Reader::lemma_in_bounds(*input);
    }
    match m {
        PointIndexing::FromStart16(start) => Ok(start.wrapping_add(k as u16)),
        PointIndexing::FromStart8(start) => Ok(start.wrapping_add(k as u8) as u16),
        PointIndexing::Position => Ok(k as u16),
        PointIndexing::Prefix16 => input.read_u16_le(),
        PointIndexing::Prefix32 => {
            let v = input.read_u32_le()?;
            Ok(clamp_index(v))
        },
        PointIndexing::Fixed32(v) => Ok(clamp_index(v)),
    }
}

pub open spec fn spec_is_event_group(group: u8) -> bool {
    group == 2 || group == 4 || group == 22 || group == 32 || group == 42
}

/// Bytes of event time that follow each point of an event variation.
pub open spec fn spec_event_suffix(group: u8, variation: u8) -> int {
    if spec_is_event_group(group) && (variation == 2 || variation == 3) {
        6
    } else {
        0
    }
}

fn is_event_group(group: u8) -> (r: bool)
    ensures
        r == spec_is_event_group(group),
{
    group == 2 || group == 4 || group == 22 || group == 32 || group == 42
}

fn event_suffix_bytes(group: u8, variation: u8) -> (r: usize)
    ensures
        r == spec_event_suffix(group, variation),
{
    if !is_event_group(group) {
        return 0;
    }
    match variation {
        1 => 0,
        2 | 3 => 6,
        _ => 0,
    }
}

fn skip_event_suffix(input: &mut Reader<'_>, group: u8, variation: u8) -> (r: Result<
    (),
    ProtocolError,
>)
    ensures
        prim::decoded(
            *old(input),
            *final(input),
            r,
            if old(input).pos() + spec_event_suffix(group, variation) <= old(input).data().len() {
                Ok(((), old(input).pos() + spec_event_suffix(group, variation)))
            } else {
                Err(ProtocolError::UnexpectedEof)
            },
        ),
{
    proof {
        use_type_invariant(&*input);
        Reader::lemma_in_bounds(*input);
    }
    let suffix = event_suffix_bytes(group, variation);
    if suffix != 0 {
        input.read_exact(suffix)?;
    }
    Ok(())
}

/// Bytes of value after the flags byte of an analog point.
pub open spec fn analog_value_width(variation: u8) -> int {
    if variation == 2 {
        2
    } else {
        4
    }
}

/// The value of an analog point whose value bytes start at `q`.
pub open spec fn spec_analog_value_at(variation: u8, s: Seq<u8>, q: int) -> i32 {
    if variation == 2 {
        prim::i16_of(prim::le16(s.subrange(q, q + 2))) as i32
    } else {
        prim::i32_of(prim::le32(s.subrange(q, q + 4)))
    }
}

/// The width in bytes of one binary point.
pub open spec fn binary_width(m: PointIndexing, group: u8, variation: u8) -> int {
    prefix_width(m) + 1 + spec_event_suffix(group, variation)
}

/// The width in bytes of one analog point.
pub open spec fn analog_width(m: PointIndexing, group: u8, variation: u8) -> int {
    prefix_width(m) + 1 + analog_value_width(variation) + spec_event_suffix(group, variation)
}

/// The width in bytes of one counter point.
pub open spec fn counter_width(m: PointIndexing, group: u8, variation: u8) -> int {
    prefix_width(m) + 5 + spec_event_suffix(group, variation)
}

/// Binary point number `k`, whose bytes start at `q`.
pub open spec fn binary_point_at(m: PointIndexing, k: int, s: Seq<u8>, q: int) -> BinaryInput {
    BinaryInput { index: spec_index_at(m, k, s, q), flags: s[q + prefix_width(m)] }
}

/// Analog point number `k`, whose bytes start at `q`.
pub open spec fn analog_point_at(m: PointIndexing, variation: u8, k: int, s: Seq<u8>, q: int) -> AnalogInput {
    AnalogInput {
        index: spec_index_at(m, k, s, q),
        flags: s[q + prefix_width(m)],
        value: spec_analog_value_at(variation, s, q + prefix_width(m) + 1),
    }
}

/// Counter point number `k`, whose bytes start at `q`.
pub open spec fn counter_point_at(m: PointIndexing, k: int, s: Seq<u8>, q: int) -> Counter {
    Counter {
        index: spec_index_at(m, k, s, q),
        flags: s[q + prefix_width(m)],
        value: prim::le32(s.subrange(q + prefix_width(m) + 1, q + prefix_width(m) + 5)),
    }
}

/// `count` binary points of `width` bytes each, starting at `p`.
pub open spec fn spec_binary_run(
    m: PointIndexing,
    count: nat,
    width: int,
    s: Seq<u8>,
    p: int,
) -> Result<(Seq<BinaryInput>, int), ProtocolError> {
    if p + count * width > s.len() {
        Err(ProtocolError::UnexpectedEof)
    } else {
        Ok((Seq::new(count, |k: int| binary_point_at(m, k, s, p + k * width)), p + count * width))
    }
}

/// `count` analog points of `width` bytes each, starting at `p`.
pub open spec fn spec_analog_run(
    m: PointIndexing,
    variation: u8,
    count: nat,
    width: int,
    s: Seq<u8>,
    p: int,
) -> Result<(Seq<AnalogInput>, int), ProtocolError> {
    if p + count * width > s.len() {
        Err(ProtocolError::UnexpectedEof)
    } else {
        Ok(
            (
                Seq::new(count, |k: int| analog_point_at(m, variation, k, s, p + k * width)),
                p + count * width,
            ),
        )
    }
}

/// `count` counter points of `width` bytes each, starting at `p`.
pub open spec fn spec_counter_run(
    m: PointIndexing,
    count: nat,
    width: int,
    s: Seq<u8>,
    p: int,
) -> Result<(Seq<Counter>, int), ProtocolError> {
    if p + count * width > s.len() {
        Err(ProtocolError::UnexpectedEof)
    } else {
        Ok((Seq::new(count, |k: int| counter_point_at(m, k, s, p + k * width)), p + count * width))
    }
}

/// The binary points that an object body with this group, variation and qualifier holds at `p`.
pub open spec fn spec_decode_binary_points(
    group: u8,
    variation: u8,
    q: Qualifier,
    s: Seq<u8>,
    p: int,
) -> Result<(Seq<BinaryInput>, int), ProtocolError> {
    match spec_point_layout(q, true) {
        Err(e) => Err(e),
        Ok((m, count)) => spec_binary_run(m, count, binary_width(m, group, variation), s, p),
    }
}

/// The analog points that an object body with this group, variation and qualifier holds at `p`.
pub open spec fn spec_decode_analog_points(
    group: u8,
    variation: u8,
    q: Qualifier,
    s: Seq<u8>,
    p: int,
) -> Result<(Seq<AnalogInput>, int), ProtocolError> {
    match spec_point_layout(q, false) {
        Err(e) => Err(e),
        Ok((m, count)) => spec_analog_run(
            m,
            variation,
            count,
            analog_width(m, group, variation),
            s,
            p,
        ),
    }
}

/// The counter points that an object body with this group, variation and qualifier holds at `p`.
pub open spec fn spec_decode_counter_points(
    group: u8,
    variation: u8,
    q: Qualifier,
    s: Seq<u8>,
    p: int,
) -> Result<(Seq<Counter>, int), ProtocolError> {
    match spec_point_layout(q, false) {
        Err(e) => Err(e),
        Ok((m, count)) => spec_counter_run(m, count, counter_width(m, group, variation), s, p),
    }
}

proof fn lemma_run_step(p: int, k: int, count: int, w: int, len: int)
    requires
        0 <= k < count,
        w >= 0,
    ensures
        p + k * w + w == p + (k + 1) * w,
        p + (k + 1) * w <= p + count * w,
        k * w >= 0,
{
    assert(k * w >= 0) by (nonlinear_arith)
        requires
            k >= 0,
            w >= 0,
    ;
    assert(k * w + w == (k + 1) * w) by (nonlinear_arith);
    assert((k + 1) * w <= count * w) by (nonlinear_arith)
        requires
            k + 1 <= count,
            w >= 0,
    ;
}

fn read_binary_point(m: PointIndexing, k: usize, group: u8, variation: u8, input: &mut Reader<'_>) -> (r:
    Result<BinaryInput, ProtocolError>)
    requires
        index_fits(m, k as int),
    ensures
        prim::decoded(
            *old(input),
            *final(input),
            r,
            if old(input).pos() + binary_width(m, group, variation) <= old(input).data().len() {
                Ok(
                    (
                        binary_point_at(m, k as int, old(input).data(), old(input).pos()),
                        old(input).pos() + binary_width(m, group, variation),
                    ),
                )
            } else {
                Err(ProtocolError::UnexpectedEof)
            },
        ),
{
    let index = read_point_index(m, k, input)?;
    let flags = input.read_u8()?;
    skip_event_suffix(input, group, variation)?;
    Ok(BinaryInput { index, flags })
}

fn read_analog_value(input: &mut Reader<'_>, variation: u8) -> (r: Result<i32, ProtocolError>)
    ensures
        prim::decoded(
            *old(input),
            *final(input),
            r,
            if old(input).pos() + analog_value_width(variation) <= old(input).data().len() {
                Ok(
                    (
                        spec_analog_value_at(variation, old(input).data(), old(input).pos()),
                        old(input).pos() + analog_value_width(variation),
                    ),
                )
            } else {
                Err(ProtocolError::UnexpectedEof)
            },
        ),
{
    match variation {
        2 => {
            let v = input.read_i16_le()?;
            Ok(v as i32)
        },
        _ => input.read_i32_le(),
    }
}

fn read_analog_point(m: PointIndexing, k: usize, group: u8, variation: u8, input: &mut Reader<'_>) -> (r:
    Result<AnalogInput, ProtocolError>)
    requires
        index_fits(m, k as int),
    ensures
        prim::decoded(
            *old(input),
            *final(input),
            r,
            if old(input).pos() + analog_width(m, group, variation) <= old(input).data().len() {
                Ok(
                    (
                        analog_point_at(m, variation, k as int, old(input).data(), old(input).pos()),
                        old(input).pos() + analog_width(m, group, variation),
                    ),
                )
            } else {
                Err(ProtocolError::UnexpectedEof)
            },
        ),
{
    let index = read_point_index(m, k, input)?;
    let flags = input.read_u8()?;
    let value = read_analog_value(input, variation)?;
    skip_event_suffix(input, group, variation)?;
    Ok(AnalogInput { index, flags, value })
}

fn read_counter_point(m: PointIndexing, k: usize, group: u8, variation: u8, input: &mut Reader<'_>) -> (r:
    Result<Counter, ProtocolError>)
    requires
        index_fits(m, k as int),
    ensures
        prim::decoded(
            *old(input),
            *final(input),
            r,
            if old(input).pos() + counter_width(m, group, variation) <= old(input).data().len() {
                Ok(
                    (
                        counter_point_at(m, k as int, old(input).data(), old(input).pos()),
                        old(input).pos() + counter_width(m, group, variation),
                    ),
                )
            } else {
                Err(ProtocolError::UnexpectedEof)
            },
        ),
{
    let index = read_point_index(m, k, input)?;
    let flags = input.read_u8()?;
    let value = input.read_u32_le()?;
    skip_event_suffix(input, group, variation)?;
    Ok(Counter { index, flags, value })
}

fn decode_binary_points(group: u8, variation: u8, qualifier: Qualifier, input: &mut Reader<'_>) -> (r:
    Result<Vec<BinaryInput>, ProtocolError>)
    ensures
        prim::decoded(
            *old(input),
            *final(input),
            r,
            spec_decode_binary_points(
                group,
                variation,
                qualifier,
                old(input).data(),
                old(input).pos(),
            ),
        ),
{
    proof {
        use_type_invariant(&*input);
        Reader::lemma_in_bounds(*input);
    }
    let ghost s = input.data();
    let ghost p = input.pos();
    let (m, count) = point_layout(qualifier, true)?;
    let ghost w = binary_width(m, group, variation);
    let mut values: Vec<BinaryInput> = Vec::new();
    let mut k: usize = 0;
    while k < count
        invariant
            k <= count,
            count <= 65536,
            forall|j: int| 0 <= j < count ==> #[trigger] index_fits(m, j),
            w == binary_width(m, group, variation),
            w >= 1,
            spec_point_layout(qualifier, true) == Ok::<(PointIndexing, nat), ProtocolError>(
                (m, count as nat),
            ),
            input.data() == s,
            s == old(input).data(),
            p == old(input).pos(),
            input.pos() == p + k * w,
            p + k * w <= s.len(),
            p >= 0,
            values@ == Seq::new(k as nat, |j: int| binary_point_at(m, j, s, p + j * w)),
        decreases count - k,
    {
        proof {
            lemma_run_step(p, k as int, count as int, w, s.len() as int);
        }
        let v = read_binary_point(m, k, group, variation, input)?;
        values.push(v);
        k = k + 1;
        proof {
            assert(values@ =~= Seq::new(k as nat, |j: int| binary_point_at(m, j, s, p + j * w)));
        }
    }
    Ok(values)
}

fn decode_analog_points(group: u8, variation: u8, qualifier: Qualifier, input: &mut Reader<'_>) -> (r:
    Result<Vec<AnalogInput>, ProtocolError>)
    ensures
        prim::decoded(
            *old(input),
            *final(input),
            r,
            spec_decode_analog_points(
                group,
                variation,
                qualifier,
                old(input).data(),
                old(input).pos(),
            ),
        ),
{
    proof {
        use_type_invariant(&*input);
        Reader::lemma_in_bounds(*input);
    }
    let ghost s = input.data();
    let ghost p = input.pos();
    let (m, count) = point_layout(qualifier, false)?;
    let ghost w = analog_width(m, group, variation);
    let mut values: Vec<AnalogInput> = Vec::new();
    let mut k: usize = 0;
    while k < count
        invariant
            k <= count,
            count <= 65536,
            forall|j: int| 0 <= j < count ==> #[trigger] index_fits(m, j),
            w == analog_width(m, group, variation),
            w >= 1,
            spec_point_layout(qualifier, false) == Ok::<(PointIndexing, nat), ProtocolError>(
                (m, count as nat),
            ),
            input.data() == s,
            s == old(input).data(),
            p == old(input).pos(),
            input.pos() == p + k * w,
            p + k * w <= s.len(),
            p >= 0,
            values@ == Seq::new(k as nat, |j: int| analog_point_at(m, variation, j, s, p + j * w)),
        decreases count - k,
    {
        proof {
            lemma_run_step(p, k as int, count as int, w, s.len() as int);
        }
        let v = read_analog_point(m, k, group, variation, input)?;
        values.push(v);
        k = k + 1;
        proof {
            assert(values@ =~= Seq::new(
                k as nat,
                |j: int| analog_point_at(m, variation, j, s, p + j * w),
            ));
        }
    }
    Ok(values)
}

fn decode_counter_points(group: u8, variation: u8, qualifier: Qualifier, input: &mut Reader<'_>) -> (r:
    Result<Vec<Counter>, ProtocolError>)
    ensures
        prim::decoded(
            *old(input),
            *final(input),
            r,
            spec_decode_counter_points(
                group,
                variation,
                qualifier,
                old(input).data(),
                old(input).pos(),
            ),
        ),
{
    proof {
        use_type_invariant(&*input);
        Reader::lemma_in_bounds(*input);
    }
    let ghost s = input.data();
    let ghost p = input.pos();
    let (m, count) = point_layout(qualifier, false)?;
    let ghost w = counter_width(m, group, variation);
    let mut values: Vec<Counter> = Vec::new();
    let mut k: usize = 0;
    while k < count
        invariant
            k <= count,
            count <= 65536,
            forall|j: int| 0 <= j < count ==> #[trigger] index_fits(m, j),
            w == counter_width(m, group, variation),
            w >= 1,
            spec_point_layout(qualifier, false) == Ok::<(PointIndexing, nat), ProtocolError>(
                (m, count as nat),
            ),
            input.data() == s,
            s == old(input).data(),
            p == old(input).pos(),
            input.pos() == p + k * w,
            p + k * w <= s.len(),
            p >= 0,
            values@ == Seq::new(k as nat, |j: int| counter_point_at(m, j, s, p + j * w)),
        decreases count - k,
    {
        proof {
            lemma_run_step(p, k as int, count as int, w, s.len() as int);
        }
        let v = read_counter_point(m, k, group, variation, input)?;
        values.push(v);
        k = k + 1;
        proof {
            assert(values@ =~= Seq::new(k as nat, |j: int| counter_point_at(m, j, s, p + j * w)));
        }
    }
    Ok(values)
}

/// Flags of a binary input packed one bit per point: set means on and online.
pub open spec fn spec_packed_binary_flags(byte: u8, offset: u8) -> u8 {
    if (byte >> offset) & 1u8 != 0 {
        0x81
    } else {
        0x00
    }
}

/// Flags of a double-bit input packed two bits per point, as state bits 6 and 7 plus online.
pub open spec fn spec_packed_double_bit_flags(byte: u8, slot: u8) -> u8 {
    let bits = (byte >> (slot * 2)) & 3u8;
    if bits == 2 {
        0x81
    } else if bits == 1 {
        0x41
    } else if bits == 3 {
        0xc1
    } else {
        0x01
    }
}

fn packed_binary_flags(byte: u8, offset: u8) -> (r: u8)
    requires
        offset < 8,
    ensures
        r == spec_packed_binary_flags(byte, offset),
{
    if (byte >> offset) & 1u8 != 0 {
        0x81
    } else {
        0x00
    }
}

fn packed_double_bit_flags(byte: u8, slot: u8) -> (r: u8)
    requires
        slot < 4,
    ensures
        r == spec_packed_double_bit_flags(byte, slot),
{
    let bits = (byte >> (slot * 2)) & 3u8;
    if bits == 2 {
        0x81
    } else if bits == 1 {
        0x41
    } else if bits == 3 {
        0xc1
    } else {
        0x01
    }
}

/// `count` packed points, `per` to a byte, starting at `p`; `double` selects two-bit states.
pub open spec fn spec_packed_run(
    m: PointIndexing,
    count: nat,
    per: int,
    double: bool,
    s: Seq<u8>,
    p: int,
) -> Result<(Seq<BinaryInput>, int), ProtocolError> {
    let nbytes = (count + per - 1) / per;
    if p + nbytes > s.len() {
        Err(ProtocolError::UnexpectedEof)
    } else {
        Ok(
            (
                Seq::new(
                    count,
                    |k: int|
                        BinaryInput {
                            index: spec_index_at(m, k, s, p),
                            flags: if double {
                                spec_packed_double_bit_flags(s[p + k / per], (k % per) as u8)
                            } else {
                                spec_packed_binary_flags(s[p + k / per], (k % per) as u8)
                            },
                        },
                ),
                p + nbytes,
            ),
        )
    }
}

/// Packed single-bit binary inputs (group 1 variation 1) at `p`.
pub open spec fn spec_decode_binary_packed(q: Qualifier, s: Seq<u8>, p: int) -> Result<
    (Seq<BinaryInput>, int),
    ProtocolError,
> {
    match q {
        Qualifier::Range16 { .. } | Qualifier::Range8 { .. } => match spec_point_layout(q, true) {
            Err(e) => Err(e),
            Ok((m, count)) => spec_packed_run(m, count, 8, false, s, p),
        },
        _ => spec_decode_binary_points(1, 2, q, s, p),
    }
}

/// Packed double-bit binary inputs (group 3 variation 1) at `p`.
pub open spec fn spec_decode_double_bit_packed(q: Qualifier, s: Seq<u8>, p: int) -> Result<
    (Seq<BinaryInput>, int),
    ProtocolError,
> {
    match q {
        Qualifier::Range16 { .. } | Qualifier::Range8 { .. } => match spec_point_layout(q, true) {
            Err(e) => Err(e),
            Ok((m, count)) => spec_packed_run(m, count, 4, true, s, p),
        },
        _ => spec_decode_binary_points(3, 2, q, s, p),
    }
}

#[verifier::rlimit(50)]
fn decode_packed_run(m: PointIndexing, count: usize, double: bool, input: &mut Reader<'_>) -> (r:
    Result<Vec<BinaryInput>, ProtocolError>)
    requires
        count <= 65536,
        forall|j: int| 0 <= j < count ==> #[trigger] index_fits(m, j),
        match m {
            PointIndexing::FromStart16(_) | PointIndexing::FromStart8(_) => true,
            _ => false,
        },
    ensures
        prim::decoded(
            *old(input),
            *final(input),
            r,
            spec_packed_run(
                m,
                count as nat,
                if double {
                    4
                } else {
                    8
                },
                double,
                old(input).data(),
                old(input).pos(),
            ),
        ),
{
    proof {
        use_type_invariant(&*input);
        Reader::lemma_in_bounds(*input);
    }
    let ghost s = input.data();
    let ghost p = input.pos();
    let per: usize = if double {
        4
    } else {
        8
    };
    let mut values: Vec<BinaryInput> = Vec::new();
    let mut k: usize = 0;
    let mut byte: u8 = 0;
    while k < count
        invariant
            k <= count,
            count <= 65536,
            per == (if double {
                4usize
            } else {
                8usize
            }),
            forall|j: int| 0 <= j < count ==> #[trigger] index_fits(m, j),
            match m {
                PointIndexing::FromStart16(_) | PointIndexing::FromStart8(_) => true,
                _ => false,
            },
            input.data() == s,
            s == old(input).data(),
            p == old(input).pos(),
            p >= 0,
            input.pos() == p + (k as int + per as int - 1) / (per as int),
            p + (k as int + per as int - 1) / (per as int) <= s.len(),
            (k as int) % (per as int) != 0 ==> byte == s[p + (k as int) / (per as int)],
            values@ == Seq::new(
                k as nat,
                |j: int|
                    BinaryInput {
                        index: spec_index_at(m, j, s, p),
                        flags: if double {
                            spec_packed_double_bit_flags(s[p + j / 4], (j % 4) as u8)
                        } else {
                            spec_packed_binary_flags(s[p + j / 8], (j % 8) as u8)
                        },
                    },
            ),
        decreases count - k,
    {
        if k % per == 0 {
            byte = input.read_u8()?;
        }
        let index = read_point_index(m, k, input)?;
        let flags = if double {
            packed_double_bit_flags(byte, (k % per) as u8)
        } else {
            packed_binary_flags(byte, (k % per) as u8)
        };
        values.push(BinaryInput { index, flags });
        k = k + 1;
        proof {
            assert(values@ =~= Seq::new(
                k as nat,
                |j: int|
                    BinaryInput {
                        index: spec_index_at(m, j, s, p),
                        flags: if double {
                            spec_packed_double_bit_flags(s[p + j / 4], (j % 4) as u8)
                        } else {
                            spec_packed_binary_flags(s[p + j / 8], (j % 8) as u8)
                        },
                    },
            ));
        }
    }
    proof {
        let ghost per_i: int = if double {
            4
        } else {
            8
        };
        assert(values@ =~= Seq::new(
            count as nat,
            |k: int|
                BinaryInput {
                    index: spec_index_at(m, k, s, p),
                    flags: if double {
                        spec_packed_double_bit_flags(s[p + k / per_i], (k % per_i) as u8)
                    } else {
                        spec_packed_binary_flags(s[p + k / per_i], (k % per_i) as u8)
                    },
                },
        ));
    }
    Ok(values)
}

fn decode_binary_packed(qualifier: Qualifier, input: &mut Reader<'_>) -> (r: Result<
    Vec<BinaryInput>,
    ProtocolError,
>)
    ensures
        prim::decoded(
            *old(input),
            *final(input),
            r,
            spec_decode_binary_packed(qualifier, old(input).data(), old(input).pos()),
        ),
{
    match qualifier {
        Qualifier::Range16 { .. } | Qualifier::Range8 { .. } => {
            let (m, count) = point_layout(qualifier, true)?;
            decode_packed_run(m, count, false, input)
        },
        _ => decode_binary_points(1, 2, qualifier, input),
    }
}

fn decode_double_bit_packed(qualifier: Qualifier, input: &mut Reader<'_>) -> (r: Result<
    Vec<BinaryInput>,
    ProtocolError,
>)
    ensures
        prim::decoded(
            *old(input),
            *final(input),
            r,
            spec_decode_double_bit_packed(qualifier, old(input).data(), old(input).pos()),
        ),
{
    match qualifier {
        Qualifier::Range16 { .. } | Qualifier::Range8 { .. } => {
            let (m, count) = point_layout(qualifier, true)?;
            decode_packed_run(m, count, true, input)
        },
        _ => decode_binary_points(3, 2, qualifier, input),
    }
}

// ---------------------------------------------------------------------------
// Objects
// ---------------------------------------------------------------------------

/// Supported application-layer object bodies.
#[derive(Debug, Clone, PartialEq, Eq)]
pub enum AppObject {
    /// Binary input values.
    BinaryInputs(Vec<BinaryInput>),
    /// Binary output values.
    BinaryOutputs(Vec<BinaryOutput>),
    /// Analog input values.
    AnalogInputs(Vec<AnalogInput>),
    /// Analog output values.
    AnalogOutputs(Vec<AnalogOutput>),
    /// Counter values.
    Counters(Vec<Counter>),
    /// Double-bit binary input values (group 3).
    DoubleBitBinaryInputs(Vec<BinaryInput>),
    /// Absolute time.
    Time(Timestamp48),
    /// Class scan request.
    ClassScan(DataClass),
    /// Integrity poll request.
    IntegrityPoll,
}

/// The abstract content of an [`AppObject`].
pub enum AppObjectView {
    BinaryInputs(Seq<BinaryInput>),
    BinaryOutputs(Seq<BinaryOutput>),
    AnalogInputs(Seq<AnalogInput>),
    AnalogOutputs(Seq<AnalogOutput>),
    Counters(Seq<Counter>),
    DoubleBitBinaryInputs(Seq<BinaryInput>),
    Time(u64),
    ClassScan(DataClass),
    IntegrityPoll,
}

impl View for AppObject {
    type V = AppObjectView;

    open spec fn view(&self) -> AppObjectView {
        match self {
            AppObject::BinaryInputs(v) => AppObjectView::BinaryInputs(v@),
            AppObject::BinaryOutputs(v) => AppObjectView::BinaryOutputs(v@),
            AppObject::AnalogInputs(v) => AppObjectView::AnalogInputs(v@),
            AppObject::AnalogOutputs(v) => AppObjectView::AnalogOutputs(v@),
            AppObject::Counters(v) => AppObjectView::Counters(v@),
            AppObject::DoubleBitBinaryInputs(v) => AppObjectView::DoubleBitBinaryInputs(v@),
            AppObject::Time(t) => AppObjectView::Time(t@),
            AppObject::ClassScan(c) => AppObjectView::ClassScan(*c),
            AppObject::IntegrityPoll => AppObjectView::IntegrityPoll,
        }
    }
}

/// The padding body of a group 0 object at `p`, and where it ends.
pub open spec fn spec_skip_object_body(q: Qualifier, s: Seq<u8>, p: int) -> Result<int, ProtocolError> {
    match q {
        Qualifier::Range8 { start, stop } => {
            let count = (if stop >= start {
                stop - start
            } else {
                0
            }) + 1;
            if p + count > s.len() {
                Err(ProtocolError::UnexpectedEof)
            } else {
                Ok(p + count)
            }
        },
        Qualifier::AllObjects => Ok(p),
        _ => Err(
            ProtocolError::UnknownValue {
                field: "unsupported padding object qualifier",
                value: q.spec_code(),
            },
        ),
    }
}

fn skip_object_body(qualifier: Qualifier, input: &mut Reader<'_>) -> (r: Result<(), ProtocolError>)
    ensures
        prim::decoded(
            *old(input),
            *final(input),
            r,
            match spec_skip_object_body(qualifier, old(input).data(), old(input).pos()) {
                Ok(end) => Ok(((), end)),
                Err(e) => Err(e),
            },
        ),
{
    proof {
        use_type_invariant(&*input);
        Reader::lemma_in_bounds(*input);
    }
    let ghost s = input.data();
    let ghost p = input.pos();
    match qualifier {
        Qualifier::Range8 { start, stop } => {
            let count = stop.saturating_sub(start) as usize + 1;
            let mut i: usize = 0;
            while i < count
                invariant
                    i <= count,
                    input.data() == s,
                    s == old(input).data(),
                    p == old(input).pos(),
                    p >= 0,
                    input.pos() == p + i,
                    p + i <= s.len(),
                    count == (if stop >= start {
                        stop - start
                    } else {
                        0
                    }) + 1,
                    qualifier == (Qualifier::Range8 { start, stop }),
                decreases count - i,
            {
                input.read_u8()?;
                i = i + 1;
            }
        },
        Qualifier::AllObjects => {},
        _ => {
            return Err(
                ProtocolError::UnknownValue {
                    field: "unsupported padding object qualifier",
                    value: qualifier.code(),
                },
            );
        },
    }
    Ok(())
}

/// The binary outputs that binary input points stand for.
pub open spec fn outputs_of(v: Seq<BinaryInput>) -> Seq<BinaryOutput> {
    v.map_values(|x: BinaryInput| output_of(x))
}

/// The analog outputs that analog input points stand for.
pub open spec fn analog_outputs_of(v: Seq<AnalogInput>) -> Seq<AnalogOutput> {
    v.map_values(|x: AnalogInput| analog_output_of(x))
}

/// The binary inputs that binary output points stand for.
pub open spec fn inputs_of(v: Seq<BinaryOutput>) -> Seq<BinaryInput> {
    v.map_values(|x: BinaryOutput| input_of(x))
}

/// The analog inputs that analog output points stand for.
pub open spec fn analog_inputs_of(v: Seq<AnalogOutput>) -> Seq<AnalogInput> {
    v.map_values(|x: AnalogOutput| analog_input_of(x))
}

/// `r` with its value turned into an object by `f`.
pub open spec fn map_points<T>(
    r: Result<(Seq<T>, int), ProtocolError>,
    f: spec_fn(Seq<T>) -> AppObjectView,
) -> Result<(AppObjectView, int), ProtocolError> {
    match r {
        Ok((v, end)) => Ok((f(v), end)),
        Err(e) => Err(e),
    }
}

/// The object that an object body with header `h` holds at `p`, and where it ends.
pub open spec fn spec_decode_object(h: ObjectHeader, s: Seq<u8>, p: int) -> Result<
    (AppObjectView, int),
    ProtocolError,
> {
    let g = h.group;
    let v = h.variation;
    let q = h.qualifier;
    if g == 0 {
        match spec_skip_object_body(q, s, p) {
            Ok(end) => Ok((AppObjectView::BinaryInputs(seq![]), end)),
            Err(e) => Err(e),
        }
    } else if g == 1 || g == 2 {
        map_points(
            if g == 1 && v == 1 {
                spec_decode_binary_packed(q, s, p)
            } else {
                spec_decode_binary_points(g, v, q, s, p)
            },
            |x: Seq<BinaryInput>| AppObjectView::BinaryInputs(x),
        )
    } else if g == 3 || g == 4 {
        map_points(
            if g == 3 && v == 1 {
                spec_decode_double_bit_packed(q, s, p)
            } else {
                spec_decode_binary_points(g, v, q, s, p)
            },
            |x: Seq<BinaryInput>| AppObjectView::DoubleBitBinaryInputs(x),
        )
    } else if g == 10 {
        map_points(
            spec_decode_binary_points(1, 2, q, s, p),
            |x: Seq<BinaryInput>| AppObjectView::BinaryOutputs(outputs_of(x)),
        )
    } else if g == 20 || g == 21 || g == 22 {
        map_points(
            spec_decode_counter_points(g, v, q, s, p),
            |x: Seq<Counter>| AppObjectView::Counters(x),
        )
    } else if g == 30 || g == 32 {
        map_points(
            spec_decode_analog_points(g, v, q, s, p),
            |x: Seq<AnalogInput>| AppObjectView::AnalogInputs(x),
        )
    } else if g == 40 || g == 42 {
        map_points(
            spec_decode_analog_points(g, v, q, s, p),
            |x: Seq<AnalogInput>| AppObjectView::AnalogOutputs(analog_outputs_of(x)),
        )
    } else if g == 50 && v == 1 {
        match q.spec_count() {
            Err(e) => Err(e),
            Ok(c) => if c != 1 {
                Err(ProtocolError::InvalidLength { expected: 1, actual: c })
            } else {
                match prim::take_at(s, p, 6) {
                    Ok((b, end)) => Ok((AppObjectView::Time(prim::le_value(b) as u64), end)),
                    Err(e) => Err(e),
                }
            },
        }
    } else if g == 60 && v == 1 {
        Ok((AppObjectView::IntegrityPoll, p))
    } else if g == 60 {
        match DataClass::spec_parse(v) {
            Ok(c) => Ok((AppObjectView::ClassScan(c), p)),
            Err(e) => Err(e),
        }
    } else {
        Err(ProtocolError::UnknownValue { field: "object group", value: g })
    }
}

fn to_binary_outputs(values: Vec<BinaryInput>) -> (r: Vec<BinaryOutput>)
    ensures
        r@ == outputs_of(values@),
{
    let mut out: Vec<BinaryOutput> = Vec::new();
    let mut i: usize = 0;
    while i < values.len()
        invariant
            i <= values.len(),
            out@ == outputs_of(values@.take(i as int)),
        decreases values.len() - i,
    {
        let v = values[i];
        out.push(BinaryOutput { index: v.index, flags: v.flags });
        i = i + 1;
        proof {
            assert(outputs_of(values@.take(i as int)) =~= outputs_of(values@.take(i - 1)).push(
                output_of(v),
            ));
        }
    }
    proof {
        assert(values@.take(i as int) =~= values@);
    }
    out
}

fn to_analog_outputs(values: Vec<AnalogInput>) -> (r: Vec<AnalogOutput>)
    ensures
        r@ == analog_outputs_of(values@),
{
    let mut out: Vec<AnalogOutput> = Vec::new();
    let mut i: usize = 0;
    while i < values.len()
        invariant
            i <= values.len(),
            out@ == analog_outputs_of(values@.take(i as int)),
        decreases values.len() - i,
    {
        let v = values[i];
        out.push(AnalogOutput { index: v.index, flags: v.flags, value: v.value });
        i = i + 1;
        proof {
            assert(analog_outputs_of(values@.take(i as int)) =~= analog_outputs_of(
                values@.take(i - 1),
            ).push(analog_output_of(v)));
        }
    }
    proof {
        assert(values@.take(i as int) =~= values@);
    }
    out
}

fn decode_binary_group(group: u8, variation: u8, qualifier: Qualifier, input: &mut Reader<'_>) -> (r:
    Result<Vec<BinaryInput>, ProtocolError>)
    ensures
        prim::decoded(
            *old(input),
            *final(input),
            r,
            if group == 1 && variation == 1 {
                spec_decode_binary_packed(qualifier, old(input).data(), old(input).pos())
            } else {
                spec_decode_binary_points(
                    group,
                    variation,
                    qualifier,
                    old(input).data(),
                    old(input).pos(),
                )
            },
        ),
{
    if group == 1 && variation == 1 {
        decode_binary_packed(qualifier, input)
    } else {
        decode_binary_points(group, variation, qualifier, input)
    }
}

fn decode_double_bit_group(
    group: u8,
    variation: u8,
    qualifier: Qualifier,
    input: &mut Reader<'_>,
) -> (r: Result<Vec<BinaryInput>, ProtocolError>)
    ensures
        prim::decoded(
            *old(input),
            *final(input),
            r,
            if group == 3 && variation == 1 {
                spec_decode_double_bit_packed(qualifier, old(input).data(), old(input).pos())
            } else {
                spec_decode_binary_points(
                    group,
                    variation,
                    qualifier,
                    old(input).data(),
                    old(input).pos(),
                )
            },
        ),
{
    if group == 3 && variation == 1 {
        decode_double_bit_packed(qualifier, input)
    } else {
        decode_binary_points(group, variation, qualifier, input)
    }
}

fn decode_binary_output_packed(qualifier: Qualifier, input: &mut Reader<'_>) -> (r: Result<
    Vec<BinaryOutput>,
    ProtocolError,
>)
    ensures
        prim::decoded(
            *old(input),
            *final(input),
            r,
            match spec_decode_binary_points(1, 2, qualifier, old(input).data(), old(input).pos()) {
                Ok((v, end)) => Ok((outputs_of(v), end)),
                Err(e) => Err(e),
            },
        ),
{
    proof {
        use_type_invariant(&*input);
        Reader::lemma_in_bounds(*input);
    }
    match qualifier {
        Qualifier::Indexed32(index) => {
            let ghost s = input.data();
            let ghost p = input.pos();
            let ghost m = PointIndexing::Fixed32(index);
            assert(binary_width(m, 1, 2) == 1);
            assert(spec_point_layout(qualifier, true) == Ok::<(PointIndexing, nat), ProtocolError>(
                (m, 1),
            ));
            let flags = input.read_u8()?;
            let mut out: Vec<BinaryOutput> = Vec::new();
            out.push(BinaryOutput { index: clamp_index(index), flags });
            proof {
                let pts = Seq::new(1, |k: int| binary_point_at(m, k, s, p + k * 1));
                assert(pts[0] == binary_point_at(m, 0, s, p));
                assert(out@ =~= outputs_of(pts));
                assert(spec_decode_binary_points(1, 2, qualifier, s, p) == Ok::<
                    (Seq<BinaryInput>, int),
                    ProtocolError,
                >((pts, p + 1)));
            }
            Ok(out)
        },
        _ => {
            let values = decode_binary_points(1, 2, qualifier, input)?;
            Ok(to_binary_outputs(values))
        },
    }
}

impl AppObject {
    /// Decodes one object body after its header.
    pub fn decode(header: ObjectHeader, input: &mut Reader<'_>) -> (r: Result<AppObject, ProtocolError>)
        ensures
            prim::decoded(
                *old(input),
                *final(input),
                r,
                spec_decode_object(header, old(input).data(), old(input).pos()),
            ),
    {
        proof {
            use_type_invariant(&*input);
            Reader::lemma_in_bounds(*input);
        }
        match header.group {
            0 => {
                skip_object_body(header.qualifier, input)?;
                Ok(AppObject::BinaryInputs(Vec::new()))
            },
            1 | 2 => {
                let values = decode_binary_group(
                    header.group,
                    header.variation,
                    header.qualifier,
                    input,
                )?;
                Ok(AppObject::BinaryInputs(values))
            },
            3 | 4 => {
                let values = decode_double_bit_group(
                    header.group,
                    header.variation,
                    header.qualifier,
                    input,
                )?;
                Ok(AppObject::DoubleBitBinaryInputs(values))
            },
            10 => {
                let values = if header.variation == 1 {
                    decode_binary_output_packed(header.qualifier, input)?
                } else {
                    let points = decode_binary_points(1, 2, header.qualifier, input)?;
                    to_binary_outputs(points)
                };
                Ok(AppObject::BinaryOutputs(values))
            },
            20 | 21 | 22 => {
                let values = decode_counter_points(
                    header.group,
                    header.variation,
                    header.qualifier,
                    input,
                )?;
                Ok(AppObject::Counters(values))
            },
            30 | 32 => {
                let values = decode_analog_points(
                    header.group,
                    header.variation,
                    header.qualifier,
                    input,
                )?;
                Ok(AppObject::AnalogInputs(values))
            },
            40 | 42 => {
                let points = decode_analog_points(
                    header.group,
                    header.variation,
                    header.qualifier,
                    input,
                )?;
                Ok(AppObject::AnalogOutputs(to_analog_outputs(points)))
            },
            50 | 60 => {
                if header.group == 50 && header.variation == 1 {
                    let count = header.qualifier.count()?;
                    if count != 1 {
                        return Err(ProtocolError::InvalidLength { expected: 1, actual: count });
                    }
                    let time = Timestamp48::decode(input)?;
                    Ok(AppObject::Time(time))
                } else if header.group == 60 && header.variation == 1 {
                    Ok(AppObject::IntegrityPoll)
                } else if header.group == 60 {
                    let class = DataClass::parse(header.variation)?;
                    Ok(AppObject::ClassScan(class))
                } else {
                    Err(ProtocolError::UnknownValue { field: "object group", value: header.group })
                }
            },
            group => Err(ProtocolError::UnknownValue { field: "object group", value: group }),
        }
    }
}

// ---------------------------------------------------------------------------
// Encoding point lists
// ---------------------------------------------------------------------------

/// The contents of each byte vector in `b`.
pub open spec fn byte_views(b: Seq<Vec<u8>>) -> Seq<Seq<u8>> {
    b.map_values(|v: Vec<u8>| v@)
}

/// The byte sequences of `b`, one after another.
pub open spec fn flatten(b: Seq<Seq<u8>>) -> Seq<u8>
    decreases b.len(),
{
    if b.len() == 0 {
        seq![]
    } else {
        flatten(b.drop_last()) + b.last()
    }
}

/// The first and last index when the indices run consecutively upward from the first one
/// without passing 65535, and `None` otherwise or when there are none.
pub open spec fn spec_contiguous_range(idx: Seq<u16>) -> Option<(u16, u16)> {
    if idx.len() == 0 {
        None
    } else if forall|i: int| 0 <= i < idx.len() ==> #[trigger] idx[i] == idx[0] + i {
        Some((idx[0], idx.last()))
    } else {
        None
    }
}

/// An object header followed by point bodies: a range header when the indices run
/// consecutively, otherwise a count with a two-byte index before each body.
pub open spec fn spec_encode_points(group: u8, variation: u8, idx: Seq<u16>, bodies: Seq<Seq<u8>>) -> Result<
    Seq<u8>,
    ProtocolError,
> {
    match spec_contiguous_range(idx) {
        Some((start, stop)) => Ok(
            spec_encode_header(
                ObjectHeader { group, variation, qualifier: Qualifier::Range16 { start, stop } },
            ) + flatten(bodies),
        ),
        None => if idx.len() > 255 {
            Err(ProtocolError::InvalidLength { expected: 255, actual: idx.len() as usize })
        } else {
            Ok(
                spec_encode_header(
                    ObjectHeader {
                        group,
                        variation,
                        qualifier: Qualifier::CountAndPrefix16(idx.len() as u8),
                    },
                ) + flatten(prefixed_bodies(idx, bodies)),
            )
        },
    }
}

/// Each body with the two-byte index of its point before it.
pub open spec fn prefixed_bodies(idx: Seq<u16>, bodies: Seq<Seq<u8>>) -> Seq<Seq<u8>> {
    Seq::new(idx.len(), |i: int| prim::le_bytes(idx[i] as nat, 2) + bodies[i])
}

pub open spec fn binary_indices(v: Seq<BinaryInput>) -> Seq<u16> {
    v.map_values(|p: BinaryInput| p.index)
}

pub open spec fn binary_bodies(v: Seq<BinaryInput>) -> Seq<Seq<u8>> {
    v.map_values(|p: BinaryInput| seq![p.flags])
}

pub open spec fn analog_indices(v: Seq<AnalogInput>) -> Seq<u16> {
    v.map_values(|p: AnalogInput| p.index)
}

pub open spec fn analog_bodies(v: Seq<AnalogInput>) -> Seq<Seq<u8>> {
    v.map_values(|p: AnalogInput| seq![p.flags] + prim::le_bytes((p.value as u32) as nat, 4))
}

pub open spec fn counter_indices(v: Seq<Counter>) -> Seq<u16> {
    v.map_values(|p: Counter| p.index)
}

pub open spec fn counter_bodies(v: Seq<Counter>) -> Seq<Seq<u8>> {
    v.map_values(|p: Counter| seq![p.flags] + prim::le_bytes(p.value as nat, 4))
}

fn checked_count(count: usize) -> (r: Result<u8, ProtocolError>)
    ensures
        count <= 255 ==> r == Ok::<u8, ProtocolError>(count as u8),
        count > 255 ==> r == Err::<u8, ProtocolError>(
            ProtocolError::InvalidLength { expected: 255, actual: count },
        ),
{
    if count <= 255 {
        Ok(count as u8)
    } else {
        Err(ProtocolError::InvalidLength { expected: 255, actual: count })
    }
}

fn range16_count(start: u16, stop: u16) -> (r: Result<usize, ProtocolError>)
    ensures
        stop < start ==> r == Err::<usize, ProtocolError>(
            ProtocolError::InvalidLength { expected: start as usize, actual: stop as usize },
        ),
        stop >= start ==> r == Ok::<usize, ProtocolError>((stop - start + 1) as usize),
{
    if stop < start {
        return Err(ProtocolError::InvalidLength { expected: start as usize, actual: stop as usize });
    }
    Ok((stop - start) as usize + 1)
}

fn contiguous_u16_range(indices: &[u16]) -> (r: Option<(u16, u16)>)
    ensures
        r == spec_contiguous_range(indices@),
{
    if indices.len() == 0 {
        return None;
    }
    let start = indices[0];
    let mut offset: usize = 0;
    while offset < indices.len()
        invariant
            offset <= indices.len(),
            start == indices@[0],
            forall|i: int| 0 <= i < offset ==> #[trigger] indices@[i] == start + i,
        decreases indices.len() - offset,
    {
        let room: usize = (65535 - start) as usize;
        if offset > room {
            return None;
        }
        if indices[offset] != start + offset as u16 {
            return None;
        }
        offset = offset + 1;
    }
    Some((start, indices[indices.len() - 1]))
}

proof fn lemma_flatten_push(b: Seq<Seq<u8>>, k: int)
    requires
        0 <= k < b.len(),
    ensures
        flatten(b.take(k + 1)) == flatten(b.take(k)) + b[k],
{
    assert(b.take(k + 1).drop_last() =~= b.take(k));
}

proof fn lemma_take_all<T>(b: Seq<T>)
    ensures
        b.take(b.len() as int) == b,
{
    assert(b.take(b.len() as int) =~= b);
}

/// Writes `header` and then each body, with its index before it when `prefixed`.
fn encode_bodies(
    header: ObjectHeader,
    indices: &Vec<u16>,
    bodies: &Vec<Vec<u8>>,
    prefixed: bool,
    out: &mut Vec<u8>,
)
    requires
        indices.len() == bodies.len(),
    ensures
        final(out)@ == old(out)@ + spec_encode_header(header) + flatten(
            if prefixed {
                prefixed_bodies(indices@, byte_views(bodies@))
            } else {
                byte_views(bodies@)
            },
        ),
{
    header.encode(out);
    let ghost base = out@;
    let ghost views = byte_views(bodies@);
    let ghost all = if prefixed {
        prefixed_bodies(indices@, views)
    } else {
        views
    };
    let mut k: usize = 0;
    proof {
        assert(all.take(0) =~= Seq::<Seq<u8>>::empty());
        assert(out@ =~= base + flatten(all.take(0)));
    }
    while k < bodies.len()
        invariant
            k <= bodies.len(),
            indices.len() == bodies.len(),
            views == byte_views(bodies@),
            all == (if prefixed {
                prefixed_bodies(indices@, views)
            } else {
                views
            }),
            all.len() == bodies.len(),
            out@ == base + flatten(all.take(k as int)),
            base == old(out)@ + spec_encode_header(header),
        decreases bodies.len() - k,
    {
        let ghost before = out@;
        if prefixed {
            push_u16_le(out, indices[k]);
        }
        prim::extend_bytes(out, bodies[k].as_slice());
        proof {
            lemma_flatten_push(all, k as int);
            assert(out@ =~= base + flatten(all.take(k + 1)));
        }
        k = k + 1;
    }
    proof {
        lemma_take_all(all);
    }
}

fn encode_points(
    group: u8,
    variation: u8,
    indices: &Vec<u16>,
    bodies: &Vec<Vec<u8>>,
    out: &mut Vec<u8>,
) -> (r: Result<(), ProtocolError>)
    requires
        indices.len() == bodies.len(),
    ensures
        match spec_encode_points(
            group,
            variation,
            indices@,
            byte_views(bodies@),
        ) {
            Ok(b) => r is Ok && final(out)@ == old(out)@ + b,
            Err(e) => r == Err::<(), ProtocolError>(e) && final(out)@ == old(out)@,
        },
{
    if let Some((start, stop)) = contiguous_u16_range(indices.as_slice()) {
        encode_bodies(
            ObjectHeader::new(group, variation, Qualifier::Range16 { start, stop }),
            indices,
            bodies,
            false,
            out,
        );
        proof {
            assert(out@ =~= old(out)@ + spec_encode_header(
                ObjectHeader { group, variation, qualifier: Qualifier::Range16 { start, stop } },
            ) + flatten(byte_views(bodies@)));
        }
        return Ok(());
    }
    let count = checked_count(indices.len())?;
    encode_bodies(
        ObjectHeader::new(group, variation, Qualifier::CountAndPrefix16(count)),
        indices,
        bodies,
        true,
        out,
    );
    proof {
        let h = ObjectHeader { group, variation, qualifier: Qualifier::CountAndPrefix16(count) };
        assert(out@ =~= old(out)@ + (spec_encode_header(h) + flatten(
            prefixed_bodies(indices@, byte_views(bodies@)),
        )));
    }
    Ok(())
}

fn binary_layout(values: &[BinaryInput]) -> (r: (Vec<u16>, Vec<Vec<u8>>))
    ensures
        r.0@ == binary_indices(values@),
        byte_views(r.1@) == binary_bodies(values@),
        r.0.len() == r.1.len(),
{
    let mut indices: Vec<u16> = Vec::new();
    let mut bodies: Vec<Vec<u8>> = Vec::new();
    let mut i: usize = 0;
    while i < values.len()
        invariant
            i <= values.len(),
            indices@ == binary_indices(values@.take(i as int)),
            byte_views(bodies@) == binary_bodies(values@.take(i as int)),
            indices.len() == i,
            bodies.len() == i,
        decreases values.len() - i,
    {
        let v = values[i];
        let mut body: Vec<u8> = Vec::new();
        body.push(v.flags);
        proof {
            assert(body@ =~= seq![v.flags]);
        }
        let ghost prev = bodies@;
        indices.push(v.index);
        bodies.push(body);
        i = i + 1;
        proof {
            assert(values@.take(i as int).drop_last() =~= values@.take(i - 1));
            assert(indices@ =~= binary_indices(values@.take(i as int)));
            assert forall|j: int| 0 <= j < i implies #[trigger] byte_views(bodies@)[j] == binary_bodies(values@.take(i as int))[j] by {
                if j < i - 1 {
                    assert(bodies@[j] == prev[j]);
                    assert(byte_views(prev)[j] == binary_bodies(values@.take(i - 1))[j]);
                }
            }
            assert(byte_views(bodies@) =~= binary_bodies(values@.take(i as int)));
        }
    }
    proof {
        lemma_take_all(values@);
    }
    (indices, bodies)
}

fn analog_layout(values: &[AnalogInput]) -> (r: (Vec<u16>, Vec<Vec<u8>>))
    ensures
        r.0@ == analog_indices(values@),
        byte_views(r.1@) == analog_bodies(values@),
        r.0.len() == r.1.len(),
{
    let mut indices: Vec<u16> = Vec::new();
    let mut bodies: Vec<Vec<u8>> = Vec::new();
    let mut i: usize = 0;
    while i < values.len()
        invariant
            i <= values.len(),
            indices@ == analog_indices(values@.take(i as int)),
            byte_views(bodies@) == analog_bodies(values@.take(i as int)),
            indices.len() == i,
            bodies.len() == i,
        decreases values.len() - i,
    {
        let v = values[i];
        let mut body: Vec<u8> = Vec::new();
        body.push(v.flags);
        prim::push_i32_le(&mut body, v.value);
        proof {
            assert(body@ =~= seq![v.flags] + prim::le_bytes((v.value as u32) as nat, 4));
        }
        let ghost prev = bodies@;
        indices.push(v.index);
        bodies.push(body);
        i = i + 1;
        proof {
            assert(values@.take(i as int).drop_last() =~= values@.take(i - 1));
            assert(indices@ =~= analog_indices(values@.take(i as int)));
            assert forall|j: int| 0 <= j < i implies #[trigger] byte_views(bodies@)[j] == analog_bodies(values@.take(i as int))[j] by {
                if j < i - 1 {
                    assert(bodies@[j] == prev[j]);
                    assert(byte_views(prev)[j] == analog_bodies(values@.take(i - 1))[j]);
                }
            }
            assert(byte_views(bodies@) =~= analog_bodies(values@.take(i as int)));
        }
    }
    proof {
        lemma_take_all(values@);
    }
    (indices, bodies)
}

fn counter_layout(values: &[Counter]) -> (r: (Vec<u16>, Vec<Vec<u8>>))
    ensures
        r.0@ == counter_indices(values@),
        byte_views(r.1@) == counter_bodies(values@),
        r.0.len() == r.1.len(),
{
    let mut indices: Vec<u16> = Vec::new();
    let mut bodies: Vec<Vec<u8>> = Vec::new();
    let mut i: usize = 0;
    while i < values.len()
        invariant
            i <= values.len(),
            indices@ == counter_indices(values@.take(i as int)),
            byte_views(bodies@) == counter_bodies(values@.take(i as int)),
            indices.len() == i,
            bodies.len() == i,
        decreases values.len() - i,
    {
        let v = values[i];
        let mut body: Vec<u8> = Vec::new();
        body.push(v.flags);
        push_u32_le(&mut body, v.value);
        proof {
            assert(body@ =~= seq![v.flags] + prim::le_bytes(v.value as nat, 4));
        }
        let ghost prev = bodies@;
        indices.push(v.index);
        bodies.push(body);
        i = i + 1;
        proof {
            assert(values@.take(i as int).drop_last() =~= values@.take(i - 1));
            assert(indices@ =~= counter_indices(values@.take(i as int)));
            assert forall|j: int| 0 <= j < i implies #[trigger] byte_views(bodies@)[j] == counter_bodies(values@.take(i as int))[j] by {
                if j < i - 1 {
                    assert(bodies@[j] == prev[j]);
                    assert(byte_views(prev)[j] == counter_bodies(values@.take(i - 1))[j]);
                }
            }
            assert(byte_views(bodies@) =~= counter_bodies(values@.take(i as int)));
        }
    }
    proof {
        lemma_take_all(values@);
    }
    (indices, bodies)
}

fn encode_binary_like(group: u8, variation: u8, values: &[BinaryInput], out: &mut Vec<u8>) -> (r:
    Result<(), ProtocolError>)
    ensures
        match spec_encode_points(group, variation, binary_indices(values@), binary_bodies(values@)) {
            Ok(b) => r is Ok && final(out)@ == old(out)@ + b,
            Err(e) => r == Err::<(), ProtocolError>(e) && final(out)@ == old(out)@,
        },
{
    let (indices, bodies) = binary_layout(values);
    encode_points(group, variation, &indices, &bodies, out)
}

fn encode_analog_like(group: u8, variation: u8, values: &[AnalogInput], out: &mut Vec<u8>) -> (r:
    Result<(), ProtocolError>)
    ensures
        match spec_encode_points(group, variation, analog_indices(values@), analog_bodies(values@)) {
            Ok(b) => r is Ok && final(out)@ == old(out)@ + b,
            Err(e) => r == Err::<(), ProtocolError>(e) && final(out)@ == old(out)@,
        },
{
    let (indices, bodies) = analog_layout(values);
    encode_points(group, variation, &indices, &bodies, out)
}

fn encode_counter_like(values: &[Counter], out: &mut Vec<u8>) -> (r: Result<(), ProtocolError>)
    ensures
        match spec_encode_points(20, 1, counter_indices(values@), counter_bodies(values@)) {
            Ok(b) => r is Ok && final(out)@ == old(out)@ + b,
            Err(e) => r == Err::<(), ProtocolError>(e) && final(out)@ == old(out)@,
        },
{
    let (indices, bodies) = counter_layout(values);
    encode_points(20, 1, &indices, &bodies, out)
}

fn to_binary_inputs(values: &[BinaryOutput]) -> (r: Vec<BinaryInput>)
    ensures
        r@ == inputs_of(values@),
{
    let mut out: Vec<BinaryInput> = Vec::new();
    let mut i: usize = 0;
    while i < values.len()
        invariant
            i <= values.len(),
            out@ == inputs_of(values@.take(i as int)),
        decreases values.len() - i,
    {
        let v = values[i];
        out.push(BinaryInput { index: v.index, flags: v.flags });
        i = i + 1;
        proof {
            assert(inputs_of(values@.take(i as int)) =~= inputs_of(values@.take(i - 1)).push(
                input_of(v),
            ));
        }
    }
    proof {
        lemma_take_all(values@);
    }
    out
}

fn to_analog_inputs(values: &[AnalogOutput]) -> (r: Vec<AnalogInput>)
    ensures
        r@ == analog_inputs_of(values@),
{
    let mut out: Vec<AnalogInput> = Vec::new();
    let mut i: usize = 0;
    while i < values.len()
        invariant
            i <= values.len(),
            out@ == analog_inputs_of(values@.take(i as int)),
        decreases values.len() - i,
    {
        let v = values[i];
        out.push(AnalogInput { index: v.index, flags: v.flags, value: v.value });
        i = i + 1;
        proof {
            assert(analog_inputs_of(values@.take(i as int)) =~= analog_inputs_of(
                values@.take(i - 1),
            ).push(analog_input_of(v)));
        }
    }
    proof {
        lemma_take_all(values@);
    }
    out
}

/// The bytes of an encoded object, header included, or why it cannot be encoded.
pub open spec fn spec_encode_object(o: AppObjectView) -> Result<Seq<u8>, ProtocolError> {
    match o {
        AppObjectView::BinaryInputs(v) => spec_encode_points(
            1,
            2,
            binary_indices(v),
            binary_bodies(v),
        ),
        AppObjectView::DoubleBitBinaryInputs(v) => spec_encode_points(
            3,
            2,
            binary_indices(v),
            binary_bodies(v),
        ),
        AppObjectView::BinaryOutputs(v) => spec_encode_points(
            10,
            2,
            binary_indices(inputs_of(v)),
            binary_bodies(inputs_of(v)),
        ),
        AppObjectView::AnalogInputs(v) => spec_encode_points(
            30,
            1,
            analog_indices(v),
            analog_bodies(v),
        ),
        AppObjectView::AnalogOutputs(v) => spec_encode_points(
            40,
            1,
            analog_indices(analog_inputs_of(v)),
            analog_bodies(analog_inputs_of(v)),
        ),
        AppObjectView::Counters(v) => spec_encode_points(
            20,
            1,
            counter_indices(v),
            counter_bodies(v),
        ),
        AppObjectView::Time(t) => Ok(
            spec_encode_header(
                ObjectHeader { group: 50, variation: 1, qualifier: Qualifier::Count8(1) },
            ) + prim::le_bytes(t as nat, 6),
        ),
        AppObjectView::ClassScan(c) => Ok(
            spec_encode_header(
                ObjectHeader {
                    group: 60,
                    variation: c.spec_variation(),
                    qualifier: Qualifier::AllObjects,
                },
            ),
        ),
        AppObjectView::IntegrityPoll => Ok(
            spec_encode_header(
                ObjectHeader { group: 60, variation: 1, qualifier: Qualifier::AllObjects },
            ),
        ),
    }
}

impl AppObject {
    /// Encodes one object body with its header.
    pub fn encode(&self, out: &mut Vec<u8>) -> (r: Result<(), ProtocolError>)
        ensures
            match spec_encode_object(self@) {
                Ok(b) => r is Ok && final(out)@ == old(out)@ + b,
                Err(e) => r == Err::<(), ProtocolError>(e) && final(out)@ == old(out)@,
            },
    {
        match self {
            AppObject::BinaryInputs(values) => encode_binary_like(1, 2, values.as_slice(), out),
            AppObject::DoubleBitBinaryInputs(values) => encode_binary_like(
                3,
                2,
                values.as_slice(),
                out,
            ),
            AppObject::BinaryOutputs(values) => {
                let points = to_binary_inputs(values.as_slice());
                encode_binary_like(10, 2, points.as_slice(), out)
            },
            AppObject::AnalogInputs(values) => encode_analog_like(30, 1, values.as_slice(), out),
            AppObject::AnalogOutputs(values) => {
                let points = to_analog_inputs(values.as_slice());
                encode_analog_like(40, 1, points.as_slice(), out)
            },
            AppObject::Counters(values) => encode_counter_like(values.as_slice(), out),
            AppObject::Time(timestamp) => {
                let ghost start = out@;
                ObjectHeader::new(50, 1, Qualifier::Count8(1)).encode(out);
                timestamp.encode(out);
                proof {
                    assert(out@ =~= start + (spec_encode_header(
                        ObjectHeader { group: 50, variation: 1, qualifier: Qualifier::Count8(1) },
                    ) + prim::le_bytes(timestamp@ as nat, 6)));
                }
                Ok(())
            },
            AppObject::ClassScan(class) => {
                ObjectHeader::new(60, class.variation(), Qualifier::AllObjects).encode(out);
                Ok(())
            },
            AppObject::IntegrityPoll => {
                ObjectHeader::new(60, 1, Qualifier::AllObjects).encode(out);
                Ok(())
            },
        }
    }
}

// ---------------------------------------------------------------------------
// Fragments
// ---------------------------------------------------------------------------

/// The abstract views of a list of objects.
pub open spec fn object_views(objects: Seq<AppObject>) -> Seq<AppObjectView> {
    objects.map_values(|o: AppObject| o@)
}

/// The abstract content of an application fragment.
pub struct ApplicationFragmentView {
    pub control: AppControl,
    pub function: FunctionCode,
    pub iin: u16,
    pub objects: Seq<AppObjectView>,
}

/// One application-layer fragment.
#[derive(Debug, Clone, PartialEq, Eq)]
pub struct ApplicationFragment {
    /// Application control field.
    pub control: AppControl,
    /// Function code.
    pub function: FunctionCode,
    /// Internal indication bits included in outstation responses.
    pub iin: u16,
    /// Object payloads.
    pub objects: Vec<AppObject>,
}

impl View for ApplicationFragment {
    type V = ApplicationFragmentView;

    open spec fn view(&self) -> ApplicationFragmentView {
        ApplicationFragmentView {
            control: self.control,
            function: self.function,
            iin: self.iin,
            objects: object_views(self.objects@),
        }
    }
}

/// Functions whose fragments carry the two internal indication bytes.
pub open spec fn spec_includes_iin(function: FunctionCode) -> bool {
    function == FunctionCode::Response || function == FunctionCode::UnsolicitedResponse
}

/// The encoded objects one after another, or the first object that cannot be encoded.
pub open spec fn spec_encode_objects(objects: Seq<AppObjectView>) -> Result<Seq<u8>, ProtocolError>
    decreases objects.len(),
{
    if objects.len() == 0 {
        Ok(seq![])
    } else {
        match spec_encode_objects(objects.drop_last()) {
            Err(e) => Err(e),
            Ok(front) => match spec_encode_object(objects.last()) {
                Err(e) => Err(e),
                Ok(b) => Ok(front + b),
            },
        }
    }
}

/// The two or four bytes before the objects of a fragment.
pub open spec fn fragment_prefix(f: ApplicationFragmentView) -> Seq<u8> {
    seq![f.control.spec_encode(), f.function.spec_encode()] + if spec_includes_iin(f.function) {
        prim::le_bytes(f.iin as nat, 2)
    } else {
        seq![]
    }
}

/// The bytes of an encoded fragment, or why it cannot be encoded.
pub open spec fn spec_encode_fragment(f: ApplicationFragmentView) -> Result<Seq<u8>, ProtocolError> {
    match spec_encode_objects(f.objects) {
        Ok(b) => Ok(fragment_prefix(f) + b),
        Err(e) => Err(e),
    }
}

/// The objects from `p` to the end of `s`: each a header and a body, with runs of four zero
/// bytes skipped before each, until fewer than three bytes are left.
#[verifier::opaque]
pub open spec fn spec_decode_objects(s: Seq<u8>, p: int) -> Result<Seq<AppObjectView>, ProtocolError>
    decreases s.len() - p,
{
    if s.len() - p < 3 {
        Ok(seq![])
    } else {
        let p1 = prim::skip_zero_words(s, p);
        if s.len() - p1 < 3 {
            Ok(seq![])
        } else {
            match spec_decode_header(s, p1) {
                Err(e) => Err(e),
                Ok((h, p2)) => match spec_decode_object(h, s, p2) {
                    Err(e) => Err(e),
                    Ok((o, p3)) => if p3 <= p || p3 > s.len() {
                        Err(ProtocolError::UnexpectedEof)
                    } else {
                        match spec_decode_objects(s, p3) {
                            Ok(rest) => Ok(seq![o] + rest),
                            Err(e) => Err(e),
                        }
                    },
                },
            }
        }
    }
}

/// The fragment that `s` holds, or why it holds none.
pub open spec fn spec_decode_fragment(s: Seq<u8>) -> Result<ApplicationFragmentView, ProtocolError> {
    if s.len() < 2 {
        Err(ProtocolError::UnexpectedEof)
    } else {
        let control = AppControl::spec_decode(s[0]);
        match FunctionCode::spec_decode(s[1]) {
            Err(e) => Err(e),
            Ok(function) => {
                let with_iin = spec_includes_iin(function);
                if with_iin && s.len() < 4 {
                    Err(ProtocolError::UnexpectedEof)
                } else {
                    let iin: u16 = if with_iin {
                        prim::le16(s.subrange(2, 4))
                    } else {
                        0
                    };
                    let p: int = if with_iin {
                        4
                    } else {
                        2
                    };
                    match spec_decode_objects(s, p) {
                        Ok(objects) => Ok(ApplicationFragmentView { control, function, iin, objects }),
                        Err(e) => Err(e),
                    }
                }
            },
        }
    }
}

/// `r` with `front` put before its objects.
pub open spec fn prepend_objects(
    front: Seq<AppObjectView>,
    r: Result<Seq<AppObjectView>, ProtocolError>,
) -> Result<Seq<AppObjectView>, ProtocolError> {
    match r {
        Ok(rest) => Ok(front + rest),
        Err(e) => Err(e),
    }
}

proof fn lemma_encode_objects_prefix_err(objects: Seq<AppObjectView>, k: int)
    requires
        0 <= k <= objects.len(),
        spec_encode_objects(objects.take(k)) is Err,
    ensures
        spec_encode_objects(objects) == spec_encode_objects(objects.take(k)),
    decreases objects.len() - k,
{
    if k < objects.len() {
        assert(objects.take(k + 1).drop_last() =~= objects.take(k));
        lemma_encode_objects_prefix_err(objects, k + 1);
    } else {
        lemma_take_all(objects);
    }
}

proof fn lemma_skip_zero_words_forward(s: Seq<u8>, p: int)
    ensures
        prim::skip_zero_words(s, p) >= p,
        0 <= p <= s.len() ==> prim::skip_zero_words(s, p) <= s.len(),
    decreases s.len() - p,
{
    if 0 <= p && p + 4 <= s.len() && s[p] == 0 && s[p + 1] == 0 && s[p + 2] == 0 && s[p + 3] == 0 {
        lemma_skip_zero_words_forward(s, p + 4);
    }
}

proof fn lemma_objects_stop(s: Seq<u8>, p: int)
    requires
        s.len() - p < 3 || s.len() - prim::skip_zero_words(s, p) < 3,
    ensures
        spec_decode_objects(s, p) == Ok::<Seq<AppObjectView>, ProtocolError>(seq![]),
{
    reveal(spec_decode_objects);
}

proof fn lemma_objects_header_err(s: Seq<u8>, p: int)
    requires
        s.len() - p >= 3,
        s.len() - prim::skip_zero_words(s, p) >= 3,
        spec_decode_header(s, prim::skip_zero_words(s, p)) is Err,
    ensures
        spec_decode_objects(s, p) == Err::<Seq<AppObjectView>, ProtocolError>(
            spec_decode_header(s, prim::skip_zero_words(s, p))->Err_0,
        ),
{
    reveal(spec_decode_objects);
}

proof fn lemma_objects_object_err(s: Seq<u8>, p: int, h: ObjectHeader, p2: int)
    requires
        s.len() - p >= 3,
        s.len() - prim::skip_zero_words(s, p) >= 3,
        spec_decode_header(s, prim::skip_zero_words(s, p)) == Ok::<(ObjectHeader, int), ProtocolError>(
            (h, p2),
        ),
        spec_decode_object(h, s, p2) is Err,
    ensures
        spec_decode_objects(s, p) == Err::<Seq<AppObjectView>, ProtocolError>(
            spec_decode_object(h, s, p2)->Err_0,
        ),
{
    reveal(spec_decode_objects);
}

proof fn lemma_objects_step(
    s: Seq<u8>,
    p: int,
    h: ObjectHeader,
    p2: int,
    o: AppObjectView,
    p3: int,
)
    requires
        s.len() - p >= 3,
        s.len() - prim::skip_zero_words(s, p) >= 3,
        spec_decode_header(s, prim::skip_zero_words(s, p)) == Ok::<(ObjectHeader, int), ProtocolError>(
            (h, p2),
        ),
        spec_decode_object(h, s, p2) == Ok::<(AppObjectView, int), ProtocolError>((o, p3)),
        p < p3 <= s.len(),
    ensures
        spec_decode_objects(s, p) == prepend_objects(seq![o], spec_decode_objects(s, p3)),
{
    reveal(spec_decode_objects);
}

proof fn lemma_header_len(s: Seq<u8>, p: int)
    ensures
        spec_decode_header(s, p) matches Ok((h, end)) ==> end >= p + 3,
{
}

impl ApplicationFragment {
    /// Creates a new application fragment.
    pub fn new(control: AppControl, function: FunctionCode, objects: Vec<AppObject>) -> (r:
        ApplicationFragment)
        ensures
            r.control == control,
            r.function == function,
            r.iin == 0,
            r.objects@ == objects@,
    {
        ApplicationFragment { control, function, iin: 0, objects }
    }

    /// Creates an integrity poll request.
    pub fn integrity_poll(sequence: u8) -> (r: ApplicationFragment)
        ensures
            r@ == (ApplicationFragmentView {
                control: AppControl {
                    fir: true,
                    fin: true,
                    con: false,
                    uns: false,
                    sequence: sequence % 16,
                },
                function: FunctionCode::Read,
                iin: 0,
                objects: seq![AppObjectView::IntegrityPoll],
            }),
    {
        let mut objects: Vec<AppObject> = Vec::new();
        objects.push(AppObject::IntegrityPoll);
        let r = ApplicationFragment::new(AppControl::single(sequence), FunctionCode::Read, objects);
        proof {
            assert(object_views(r.objects@) =~= seq![AppObjectView::IntegrityPoll]);
        }
        r
    }

    /// Creates a class scan request matching common Windows simulator clients.
    pub fn simulator_class_scan(sequence: u8) -> (r: ApplicationFragment)
        ensures
            r@ == (ApplicationFragmentView {
                control: AppControl {
                    fir: true,
                    fin: true,
                    con: false,
                    uns: false,
                    sequence: sequence % 16,
                },
                function: FunctionCode::Read,
                iin: 0,
                objects: seq![
                    AppObjectView::IntegrityPoll,
                    AppObjectView::ClassScan(DataClass::Class1),
                    AppObjectView::ClassScan(DataClass::Class2),
                    AppObjectView::ClassScan(DataClass::Class3),
                ],
            }),
    {
        let mut objects: Vec<AppObject> = Vec::new();
        objects.push(AppObject::IntegrityPoll);
        objects.push(AppObject::ClassScan(DataClass::Class1));
        objects.push(AppObject::ClassScan(DataClass::Class2));
        objects.push(AppObject::ClassScan(DataClass::Class3));
        let r = ApplicationFragment::new(AppControl::single(sequence), FunctionCode::Read, objects);
        proof {
            assert(object_views(r.objects@) =~= seq![
                AppObjectView::IntegrityPoll,
                AppObjectView::ClassScan(DataClass::Class1),
                AppObjectView::ClassScan(DataClass::Class2),
                AppObjectView::ClassScan(DataClass::Class3),
            ]);
        }
        r
    }

    /// Creates a follow-up class scan without the class-0 integrity object.
    pub fn simulator_event_scan(sequence: u8) -> (r: ApplicationFragment)
        ensures
            r@ == (ApplicationFragmentView {
                control: AppControl {
                    fir: true,
                    fin: true,
                    con: false,
                    uns: false,
                    sequence: sequence % 16,
                },
                function: FunctionCode::Read,
                iin: 0,
                objects: seq![
                    AppObjectView::ClassScan(DataClass::Class1),
                    AppObjectView::ClassScan(DataClass::Class2),
                    AppObjectView::ClassScan(DataClass::Class3),
                ],
            }),
    {
        let mut objects: Vec<AppObject> = Vec::new();
        objects.push(AppObject::ClassScan(DataClass::Class1));
        objects.push(AppObject::ClassScan(DataClass::Class2));
        objects.push(AppObject::ClassScan(DataClass::Class3));
        let r = ApplicationFragment::new(AppControl::single(sequence), FunctionCode::Read, objects);
        proof {
            assert(object_views(r.objects@) =~= seq![
                AppObjectView::ClassScan(DataClass::Class1),
                AppObjectView::ClassScan(DataClass::Class2),
                AppObjectView::ClassScan(DataClass::Class3),
            ]);
        }
        r
    }

    fn includes_iin(function: FunctionCode) -> (r: bool)
        ensures
            r == spec_includes_iin(function),
    {
        match function {
            FunctionCode::Response | FunctionCode::UnsolicitedResponse => true,
            _ => false,
        }
    }

    /// Encodes the fragment.
    pub fn encode(&self) -> (r: Result<Vec<u8>, ProtocolError>)
        ensures
            match spec_encode_fragment(self@) {
                Ok(b) => r matches Ok(v) && v@ == b,
                Err(e) => r == Err::<Vec<u8>, ProtocolError>(e),
            },
    {
        let mut out: Vec<u8> = Vec::new();
        out.push(self.control.encode());
        out.push(self.function.encode());
        if ApplicationFragment::includes_iin(self.function) {
            push_u16_le(&mut out, self.iin);
        }
        let ghost prefix = out@;
        let ghost views = object_views(self.objects@);
        proof {
            assert(prefix =~= fragment_prefix(self@));
            assert(views.take(0) =~= Seq::<AppObjectView>::empty());
            assert(out@ =~= prefix + Seq::<u8>::empty());
        }
        let mut k: usize = 0;
        while k < self.objects.len()
            invariant
                k <= self.objects.len(),
                views == object_views(self.objects@),
                prefix == fragment_prefix(self@),
                spec_encode_objects(views.take(k as int)) matches Ok(b) && out@ == prefix + b,
            decreases self.objects.len() - k,
        {
            let ghost before = out@;
            let ghost front = spec_encode_objects(views.take(k as int))->Ok_0;
            let result = self.objects[k].encode(&mut out);
            proof {
                assert(views.take(k + 1).drop_last() =~= views.take(k as int));
                assert(views.take(k + 1).last() == self.objects@[k as int]@);
            }
            if let Err(e) = result {
                proof {
                    lemma_encode_objects_prefix_err(views, k + 1);
                }
                return Err(e);
            }
            proof {
                let b = spec_encode_object(self.objects@[k as int]@)->Ok_0;
                assert(out@ =~= prefix + (front + b));
            }
            k = k + 1;
        }
        proof {
            lemma_take_all(views);
        }
        Ok(out)
    }

    /// Decodes a fragment.
    pub fn decode(input: &[u8]) -> (r: Result<ApplicationFragment, ProtocolError>)
        ensures
            match spec_decode_fragment(input@) {
                Ok(v) => r matches Ok(f) && f@ == v,
                Err(e) => r == Err::<ApplicationFragment, ProtocolError>(e),
            },
    {
        let ghost s = input@;
        let mut reader = Reader::new(input);
        let control_byte = reader.read_u8()?;
        let control = AppControl::decode(control_byte);
        let function_byte = reader.read_u8()?;
        let function = FunctionCode::decode(function_byte)?;
        let iin = if ApplicationFragment::includes_iin(function) {
            reader.read_u16_le()?
        } else {
            0
        };
        let ghost start = reader.pos();
        let mut objects: Vec<AppObject> = Vec::new();
        proof {
            match spec_decode_objects(s, start) {
                Ok(rest) => {
                    assert(Seq::<AppObjectView>::empty() + rest =~= rest);
                },
                Err(e) => {},
            }
            assert(object_views(objects@) =~= Seq::<AppObjectView>::empty());
            if s.len() - start < 3 {
                lemma_objects_stop(s, start);
            }
            assert(spec_decode_fragment(s) == match spec_decode_objects(s, start) {
                Ok(objs) => Ok(ApplicationFragmentView { control, function, iin, objects: objs }),
                Err(e) => Err(e),
            });
        }
        while reader.remaining() >= 3
            invariant
                spec_decode_fragment(s) == match spec_decode_objects(s, start) {
                    Ok(objs) => Ok(ApplicationFragmentView { control, function, iin, objects: objs }),
                    Err(e) => Err(e),
                },
                s == input@,
                reader.data() == s,
                0 <= reader.pos() <= s.len(),
                start <= reader.pos(),
                spec_decode_objects(s, start) == prepend_objects(
                    object_views(objects@),
                    spec_decode_objects(s, reader.pos()),
                ),
                s.len() - reader.pos() < 3 ==> spec_decode_objects(s, reader.pos()) == Ok::<
                    Seq<AppObjectView>,
                    ProtocolError,
                >(seq![]),
            ensures
                s.len() - reader.pos() < 3,
            decreases s.len() - reader.pos(),
        {
            let ghost p = reader.pos();
            reader.skip_padding_zeros();
            proof {
                lemma_skip_zero_words_forward(s, p);
            }
            if reader.remaining() < 3 {
                proof {
                    lemma_objects_stop(s, p);
                    lemma_objects_stop(s, reader.pos());
                }
                break;
            }
            let ghost p1 = reader.pos();
            let header = match ObjectHeader::decode(&mut reader) {
                Ok(h) => h,
                Err(e) => {
                    proof {
                        lemma_objects_header_err(s, p);
                    }
                    return Err(e);
                },
            };
            let ghost p2 = reader.pos();
            proof {
                lemma_header_len(s, p1);
            }
            let object = match AppObject::decode(header, &mut reader) {
                Ok(o) => o,
                Err(e) => {
                    proof {
                        lemma_objects_object_err(s, p, header, p2);
                    }
                    return Err(e);
                },
            };
            let ghost p3 = reader.pos();
            proof {
                use_type_invariant(&reader);
                Reader::lemma_in_bounds(reader);
                lemma_objects_step(s, p, header, p2, object@, p3);
                if s.len() - p3 < 3 {
                    lemma_objects_stop(s, p3);
                }
            }
            let ghost before = objects@;
            objects.push(object);
            proof {
                assert(object_views(objects@) =~= object_views(before).push(object@));
                match spec_decode_objects(s, p3) {
                    Ok(rest) => {
                        assert(object_views(before) + (seq![object@] + rest) =~= object_views(
                            before,
                        ).push(object@) + rest);
                    },
                    Err(e) => {},
                }
            }
        }
        proof {
            assert(object_views(objects@) + Seq::<AppObjectView>::empty() =~= object_views(
                objects@,
            ));
        }
        Ok(ApplicationFragment { control, function, iin, objects })
    }
}

// ---------------------------------------------------------------------------
// Round trips
// ---------------------------------------------------------------------------

proof fn lemma_flatten_fixed(b: Seq<Seq<u8>>, w: int)
    requires
        w >= 0,
        forall|i: int| 0 <= i < b.len() ==> (#[trigger] b[i]).len() == w,
    ensures
        flatten(b).len() == b.len() * w,
        forall|k: int|
            0 <= k < b.len() ==> #[trigger] flatten(b).subrange(k * w, k * w + w) == b[k],
    decreases b.len(),
{
    if b.len() > 0 {
        let front = b.drop_last();
        let n = b.len() as int;
        lemma_flatten_fixed(front, w);
        assert((n - 1) * w + w == n * w) by (nonlinear_arith);
        assert forall|k: int| 0 <= k < b.len() implies #[trigger] flatten(b).subrange(
            k * w,
            k * w + w,
        ) == b[k] by {
            if k < n - 1 {
                assert(k * w + w <= (n - 1) * w) by (nonlinear_arith)
                    requires
                        k < n - 1,
                        w >= 0,
                ;
                assert(k * w >= 0) by (nonlinear_arith)
                    requires
                        k >= 0,
                        w >= 0,
                ;
                assert(flatten(b).subrange(k * w, k * w + w) =~= flatten(front).subrange(
                    k * w,
                    k * w + w,
                ));
            } else {
                assert(flatten(b).subrange(k * w, k * w + w) =~= b.last());
            }
        }
    }
}

proof fn lemma_pow256_small()
    ensures
        prim::pow256(2) == 65536,
        prim::pow256(4) == 0x1_0000_0000,
        prim::pow256(6) == 0x1_0000_0000_0000,
{
    reveal_with_fuel(prim::pow256, 7);
}

/// What an encoded point list holds once its header is read: where the header ends, how the
/// points are indexed, and where each body lies.
pub open spec fn points_laid_out(
    s: Seq<u8>,
    p: int,
    end: int,
    h: ObjectHeader,
    p2: int,
    m: PointIndexing,
    wb: int,
    idx: Seq<u16>,
    bodies: Seq<Seq<u8>>,
) -> bool {
    let w = prefix_width(m) + wb;
    &&& spec_decode_header(s, p) == Ok::<(ObjectHeader, int), ProtocolError>((h, p2))
    &&& spec_point_layout(h.qualifier, true) == Ok::<(PointIndexing, nat), ProtocolError>(
        (m, idx.len()),
    )
    &&& spec_point_layout(h.qualifier, false) == Ok::<(PointIndexing, nat), ProtocolError>(
        (m, idx.len()),
    )
    &&& p2 + idx.len() * w == end
    &&& p < p2
    &&& end <= s.len()
    &&& forall|k: int|
        0 <= k < idx.len() ==> {
            &&& #[trigger] spec_index_at(m, k, s, p2 + k * w) == idx[k]
            &&& 0 <= k * w
            &&& k * w + w <= idx.len() * w
            &&& s.subrange(p2 + k * w + prefix_width(m), p2 + k * w + w) == bodies[k]
        }
}

proof fn lemma_slot_bounds(k: int, n: int, w: int)
    requires
        0 <= k < n,
        w >= 1,
    ensures
        0 <= k * w,
        k * w + w <= n * w,
{
    assert(0 <= k * w && k * w + w <= n * w) by (nonlinear_arith)
        requires
            0 <= k < n,
            w >= 1,
    ;
}

#[verifier::rlimit(40)]
#[verifier::spinoff_prover]
proof fn lemma_range_layout(
    group: u8,
    variation: u8,
    idx: Seq<u16>,
    bodies: Seq<Seq<u8>>,
    wb: int,
    front: Seq<u8>,
    tail: Seq<u8>,
) -> (r: (ObjectHeader, int, PointIndexing))
    requires
        spec_contiguous_range(idx) is Some,
        idx.len() == bodies.len(),
        wb >= 1,
        forall|i: int| 0 <= i < bodies.len() ==> (#[trigger] bodies[i]).len() == wb,
    ensures
        r.0.group == group && r.0.variation == variation,
        points_laid_out(
            front + spec_encode_points(group, variation, idx, bodies)->Ok_0 + tail,
            front.len() as int,
            (front.len() + spec_encode_points(group, variation, idx, bodies)->Ok_0.len()) as int,
            r.0,
            r.1,
            r.2,
            wb,
            idx,
            bodies,
        ),
{
    let enc = spec_encode_points(group, variation, idx, bodies)->Ok_0;
    let s = front + enc + tail;
    let p = front.len() as int;
    let n = idx.len() as int;
    let (start, stop) = spec_contiguous_range(idx)->Some_0;
    let h = ObjectHeader { group, variation, qualifier: Qualifier::Range16 { start, stop } };
    let he = spec_encode_header(h);
    lemma_header_round_trip(h, front, flatten(bodies) + tail);
    assert(enc == he + flatten(bodies));
    assert(s =~= front + he + (flatten(bodies) + tail));
    let p2 = p + he.len();
    let m = PointIndexing::FromStart16(start);
    lemma_flatten_fixed(bodies, wb);
    assert(idx[n - 1] == start + n - 1);
    assert(stop == start + n - 1);
    assert(flatten(bodies).len() == n * wb);
    assert(spec_decode_header(s, p) == Ok::<(ObjectHeader, int), ProtocolError>((h, p2)));
    assert(spec_point_layout(h.qualifier, true) == Ok::<(PointIndexing, nat), ProtocolError>(
        (m, idx.len()),
    ));
    assert(spec_point_layout(h.qualifier, false) == Ok::<(PointIndexing, nat), ProtocolError>(
        (m, idx.len()),
    ));
    assert(p2 + idx.len() * wb == p + enc.len());
    assert forall|k: int| 0 <= k < idx.len() implies {
        &&& #[trigger] spec_index_at(m, k, s, p2 + k * wb) == idx[k]
        &&& 0 <= k * wb
        &&& k * wb + wb <= idx.len() * wb
        &&& s.subrange(p2 + k * wb + prefix_width(m), p2 + k * wb + wb) == bodies[k]
    } by {
        assert(idx[k] == start + k);
        assert((start + k) % 65536 == start + k);
        lemma_slot_bounds(k, n, wb);
        assert(s.subrange(p2 + k * wb, p2 + k * wb + wb) =~= flatten(bodies).subrange(
            k * wb,
            k * wb + wb,
        ));
    }
    (h, p2, m)
}

/// Point `k` of a prefixed list laid out from `p2`: its index prefix and its body.
proof fn lemma_prefix_slot(
    idx: Seq<u16>,
    bodies: Seq<Seq<u8>>,
    wb: int,
    s: Seq<u8>,
    p2: int,
    k: int,
)
    requires
        idx.len() == bodies.len(),
        wb >= 1,
        forall|i: int| 0 <= i < bodies.len() ==> (#[trigger] bodies[i]).len() == wb,
        0 <= k < idx.len(),
        0 <= p2,
        p2 + flatten(prefixed_bodies(idx, bodies)).len() <= s.len(),
        s.subrange(p2, p2 + flatten(prefixed_bodies(idx, bodies)).len()) == flatten(
            prefixed_bodies(idx, bodies),
        ),
    ensures
        spec_index_at(PointIndexing::Prefix16, k, s, p2 + k * (wb + 2)) == idx[k],
        0 <= k * (wb + 2),
        k * (wb + 2) + (wb + 2) <= idx.len() * (wb + 2),
        s.subrange(p2 + k * (wb + 2) + 2, p2 + k * (wb + 2) + (wb + 2)) == bodies[k],
{
    let pb = prefixed_bodies(idx, bodies);
    let w = wb + 2;
    let n = idx.len() as int;
    lemma_pow256_small();
    assert forall|i: int| 0 <= i < pb.len() implies (#[trigger] pb[i]).len() == w by {
        prim::lemma_le_bytes_len(idx[i] as nat, 2);
    }
    lemma_flatten_fixed(pb, w);
    lemma_slot_bounds(k, n, w);
    let fl = flatten(pb);
    let q = p2 + k * w;
    assert(s.subrange(q, q + w) =~= fl.subrange(k * w, k * w + w));
    assert(pb[k] == prim::le_bytes(idx[k] as nat, 2) + bodies[k]);
    prim::lemma_le_round_trip(idx[k] as nat, 2);
    prim::lemma_le_bytes_len(idx[k] as nat, 2);
    assert(s.subrange(q, q + 2) =~= pb[k].subrange(0, 2));
    assert(pb[k].subrange(0, 2) =~= prim::le_bytes(idx[k] as nat, 2));
    assert(s.subrange(q + 2, q + w) =~= pb[k].subrange(2, w));
    assert(pb[k].subrange(2, w) =~= bodies[k]);
}

#[verifier::rlimit(40)]
#[verifier::spinoff_prover]
proof fn lemma_prefix_layout(
    group: u8,
    variation: u8,
    idx: Seq<u16>,
    bodies: Seq<Seq<u8>>,
    wb: int,
    front: Seq<u8>,
    tail: Seq<u8>,
) -> (r: (ObjectHeader, int, PointIndexing))
    requires
        spec_contiguous_range(idx) is None,
        idx.len() <= 255,
        idx.len() == bodies.len(),
        wb >= 1,
        forall|i: int| 0 <= i < bodies.len() ==> (#[trigger] bodies[i]).len() == wb,
    ensures
        r.0.group == group && r.0.variation == variation,
        points_laid_out(
            front + spec_encode_points(group, variation, idx, bodies)->Ok_0 + tail,
            front.len() as int,
            (front.len() + spec_encode_points(group, variation, idx, bodies)->Ok_0.len()) as int,
            r.0,
            r.1,
            r.2,
            wb,
            idx,
            bodies,
        ),
{
    let enc = spec_encode_points(group, variation, idx, bodies)->Ok_0;
    let s = front + enc + tail;
    let p = front.len() as int;
    let n = idx.len() as int;
    let h = ObjectHeader {
        group,
        variation,
        qualifier: Qualifier::CountAndPrefix16(n as u8),
    };
    let he = spec_encode_header(h);
    let pb = prefixed_bodies(idx, bodies);
    let fl = flatten(pb);
    let w = wb + 2;
    lemma_header_round_trip(h, front, fl + tail);
    assert(enc == he + fl);
    assert(s =~= front + he + (fl + tail));
    let p2 = p + he.len();
    let m = PointIndexing::Prefix16;
    lemma_pow256_small();
    assert forall|i: int| 0 <= i < pb.len() implies (#[trigger] pb[i]).len() == w by {
        prim::lemma_le_bytes_len(idx[i] as nat, 2);
    }
    lemma_flatten_fixed(pb, w);
    assert(fl.len() == n * w);
    assert(s.subrange(p2, p2 + fl.len()) =~= fl);
    assert(spec_decode_header(s, p) == Ok::<(ObjectHeader, int), ProtocolError>((h, p2)));
    assert(spec_point_layout(h.qualifier, true) == Ok::<(PointIndexing, nat), ProtocolError>(
        (m, idx.len()),
    ));
    assert(spec_point_layout(h.qualifier, false) == Ok::<(PointIndexing, nat), ProtocolError>(
        (m, idx.len()),
    ));
    assert(p2 + idx.len() * w == p + enc.len());
    assert forall|k: int| 0 <= k < idx.len() implies {
        &&& #[trigger] spec_index_at(m, k, s, p2 + k * w) == idx[k]
        &&& 0 <= k * w
        &&& k * w + w <= idx.len() * w
        &&& s.subrange(p2 + k * w + prefix_width(m), p2 + k * w + w) == bodies[k]
    } by {
        lemma_prefix_slot(idx, bodies, wb, s, p2, k);
    }
    (h, p2, m)
}

/// Where the header of an encoded point list ends, how its points are indexed, and where each
/// body lies.
proof fn lemma_points_layout(
    group: u8,
    variation: u8,
    idx: Seq<u16>,
    bodies: Seq<Seq<u8>>,
    wb: int,
    front: Seq<u8>,
    tail: Seq<u8>,
) -> (r: (ObjectHeader, int, PointIndexing))
    requires
        spec_encode_points(group, variation, idx, bodies) is Ok,
        idx.len() == bodies.len(),
        wb >= 1,
        forall|i: int| 0 <= i < bodies.len() ==> (#[trigger] bodies[i]).len() == wb,
    ensures
        r.0.group == group && r.0.variation == variation,
        points_laid_out(
            front + spec_encode_points(group, variation, idx, bodies)->Ok_0 + tail,
            front.len() as int,
            (front.len() + spec_encode_points(group, variation, idx, bodies)->Ok_0.len()) as int,
            r.0,
            r.1,
            r.2,
            wb,
            idx,
            bodies,
        ),
{
    if spec_contiguous_range(idx) is Some {
        lemma_range_layout(group, variation, idx, bodies, wb, front, tail)
    } else {
        lemma_prefix_layout(group, variation, idx, bodies, wb, front, tail)
    }
}

/// Objects that decode back to themselves: all but timestamps beyond 48 bits and the class 0
/// scan, whose header reads as an integrity poll.
pub open spec fn object_round_trips(o: AppObjectView) -> bool {
    match o {
        AppObjectView::Time(t) => t <= prim::TIMESTAMP48_MAX,
        AppObjectView::ClassScan(c) => c != DataClass::Class0,
        _ => true,
    }
}

proof fn lemma_binary_points_round_trip(
    group: u8,
    g2: u8,
    v2: u8,
    values: Seq<BinaryInput>,
    front: Seq<u8>,
    tail: Seq<u8>,
) -> (r: (ObjectHeader, int))
    requires
        spec_encode_points(group, 2, binary_indices(values), binary_bodies(values)) is Ok,
        spec_event_suffix(g2, v2) == 0,
    ensures
        ({
            let enc = spec_encode_points(group, 2, binary_indices(values), binary_bodies(values))->Ok_0;
            let s = front + enc + tail;
            let p = front.len() as int;
            &&& spec_decode_header(s, p) == Ok::<(ObjectHeader, int), ProtocolError>(r)
            &&& r.0.group == group && r.0.variation == 2
            &&& p < r.1
            &&& spec_decode_binary_points(g2, v2, r.0.qualifier, s, r.1) == Ok::<
                (Seq<BinaryInput>, int),
                ProtocolError,
            >((values, p + enc.len()))
        }),
{
    let idx = binary_indices(values);
    let bodies = binary_bodies(values);
    let enc = spec_encode_points(group, 2, idx, bodies)->Ok_0;
    let s = front + enc + tail;
    let (h, p2, m) = lemma_points_layout(group, 2, idx, bodies, 1, front, tail);
    let w = prefix_width(m) + 1;
    assert(binary_width(m, g2, v2) == w);
    let decoded = Seq::new(values.len(), |k: int| binary_point_at(m, k, s, p2 + k * w));
    assert forall|k: int| 0 <= k < values.len() implies decoded[k] == values[k] by {
        assert(spec_index_at(m, k, s, p2 + k * w) == idx[k]);
        let q = p2 + k * w + prefix_width(m);
        assert(s.subrange(q, q + 1) == bodies[k]);
        assert(s.subrange(q, q + 1)[0] == s[q]);
    }
    assert(decoded =~= values);
    (h, p2)
}

proof fn lemma_analog_points_round_trip(
    group: u8,
    g2: u8,
    values: Seq<AnalogInput>,
    front: Seq<u8>,
    tail: Seq<u8>,
) -> (r: (ObjectHeader, int))
    requires
        spec_encode_points(group, 1, analog_indices(values), analog_bodies(values)) is Ok,
        spec_event_suffix(g2, 1) == 0,
    ensures
        ({
            let enc = spec_encode_points(group, 1, analog_indices(values), analog_bodies(values))->Ok_0;
            let s = front + enc + tail;
            let p = front.len() as int;
            &&& spec_decode_header(s, p) == Ok::<(ObjectHeader, int), ProtocolError>(r)
            &&& r.0.group == group && r.0.variation == 1
            &&& p < r.1
            &&& spec_decode_analog_points(g2, 1, r.0.qualifier, s, r.1) == Ok::<
                (Seq<AnalogInput>, int),
                ProtocolError,
            >((values, p + enc.len()))
        }),
{
    let idx = analog_indices(values);
    let bodies = analog_bodies(values);
    let enc = spec_encode_points(group, 1, idx, bodies)->Ok_0;
    let s = front + enc + tail;
    lemma_pow256_small();
    assert forall|i: int| 0 <= i < bodies.len() implies (#[trigger] bodies[i]).len() == 5 by {
        prim::lemma_le_bytes_len((values[i].value as u32) as nat, 4);
    }
    let (h, p2, m) = lemma_points_layout(group, 1, idx, bodies, 5, front, tail);
    let w = prefix_width(m) + 5;
    assert(analog_width(m, g2, 1) == w);
    let decoded = Seq::new(values.len(), |k: int| analog_point_at(m, 1, k, s, p2 + k * w));
    assert forall|k: int| 0 <= k < values.len() implies decoded[k] == values[k] by {
        assert(spec_index_at(m, k, s, p2 + k * w) == idx[k]);
        let q = p2 + k * w + prefix_width(m);
        let v = values[k];
        let b = s.subrange(q, q + 5);
        assert(b == bodies[k]);
        assert(b[0] == s[q]);
        assert(s.subrange(q + 1, q + 5) =~= b.subrange(1, 5));
        assert(b.subrange(1, 5) =~= prim::le_bytes((v.value as u32) as nat, 4));
        prim::lemma_le_round_trip((v.value as u32) as nat, 4);
        prim::lemma_i32_round_trip(v.value);
    }
    assert(decoded =~= values);
    (h, p2)
}

proof fn lemma_counter_points_round_trip(
    values: Seq<Counter>,
    front: Seq<u8>,
    tail: Seq<u8>,
) -> (r: (ObjectHeader, int))
    requires
        spec_encode_points(20, 1, counter_indices(values), counter_bodies(values)) is Ok,
    ensures
        ({
            let enc = spec_encode_points(20, 1, counter_indices(values), counter_bodies(values))->Ok_0;
            let s = front + enc + tail;
            let p = front.len() as int;
            &&& spec_decode_header(s, p) == Ok::<(ObjectHeader, int), ProtocolError>(r)
            &&& r.0.group == 20 && r.0.variation == 1
            &&& p < r.1
            &&& spec_decode_counter_points(20, 1, r.0.qualifier, s, r.1) == Ok::<
                (Seq<Counter>, int),
                ProtocolError,
            >((values, p + enc.len()))
        }),
{
    let idx = counter_indices(values);
    let bodies = counter_bodies(values);
    let enc = spec_encode_points(20, 1, idx, bodies)->Ok_0;
    let s = front + enc + tail;
    lemma_pow256_small();
    assert forall|i: int| 0 <= i < bodies.len() implies (#[trigger] bodies[i]).len() == 5 by {
        prim::lemma_le_bytes_len(values[i].value as nat, 4);
    }
    let (h, p2, m) = lemma_points_layout(20, 1, idx, bodies, 5, front, tail);
    let w = prefix_width(m) + 5;
    assert(counter_width(m, 20, 1) == w);
    let decoded = Seq::new(values.len(), |k: int| counter_point_at(m, k, s, p2 + k * w));
    assert forall|k: int| 0 <= k < values.len() implies decoded[k] == values[k] by {
        assert(spec_index_at(m, k, s, p2 + k * w) == idx[k]);
        let q = p2 + k * w + prefix_width(m);
        let v = values[k];
        let b = s.subrange(q, q + 5);
        assert(b == bodies[k]);
        assert(b[0] == s[q]);
        assert(s.subrange(q + 1, q + 5) =~= b.subrange(1, 5));
        assert(b.subrange(1, 5) =~= prim::le_bytes(v.value as nat, 4));
        prim::lemma_le_round_trip(v.value as nat, 4);
    }
    assert(decoded =~= values);
    (h, p2)
}

/// Decoding an encoded object, with anything before and after it, gives the object back and
/// stops right after it.
#[verifier::rlimit(40)]
proof fn lemma_object_round_trip(o: AppObjectView, front: Seq<u8>, tail: Seq<u8>) -> (r: (
    ObjectHeader,
    int,
))
    requires
        spec_encode_object(o) is Ok,
        object_round_trips(o),
    ensures
        ({
            let enc = spec_encode_object(o)->Ok_0;
            let s = front + enc + tail;
            let p = front.len() as int;
            &&& enc.len() >= 3
            &&& enc[0] != 0
            &&& spec_decode_header(s, p) == Ok::<(ObjectHeader, int), ProtocolError>(r)
            &&& spec_decode_object(r.0, s, r.1) == Ok::<(AppObjectView, int), ProtocolError>(
                (o, p + enc.len()),
            )
        }),
{
    let enc = spec_encode_object(o)->Ok_0;
    let s = front + enc + tail;
    let p = front.len() as int;
    lemma_header_len(s, p);
    match o {
        AppObjectView::BinaryInputs(v) => {
            let r = lemma_binary_points_round_trip(1, 1, 2, v, front, tail);
            assert(s[p] == enc[0]);
            r
        },
        AppObjectView::DoubleBitBinaryInputs(v) => {
            let r = lemma_binary_points_round_trip(3, 3, 2, v, front, tail);
            assert(s[p] == enc[0]);
            r
        },
        AppObjectView::BinaryOutputs(v) => {
            let r = lemma_binary_points_round_trip(10, 1, 2, inputs_of(v), front, tail);
            assert(outputs_of(inputs_of(v)) =~= v);
            assert(s[p] == enc[0]);
            r
        },
        AppObjectView::AnalogInputs(v) => {
            let r = lemma_analog_points_round_trip(30, 30, v, front, tail);
            assert(s[p] == enc[0]);
            r
        },
        AppObjectView::AnalogOutputs(v) => {
            let r = lemma_analog_points_round_trip(40, 40, analog_inputs_of(v), front, tail);
            assert(analog_outputs_of(analog_inputs_of(v)) =~= v);
            assert(s[p] == enc[0]);
            r
        },
        AppObjectView::Counters(v) => {
            let r = lemma_counter_points_round_trip(v, front, tail);
            assert(s[p] == enc[0]);
            r
        },
        AppObjectView::Time(t) => {
            let h = ObjectHeader { group: 50, variation: 1, qualifier: Qualifier::Count8(1) };
            let he = spec_encode_header(h);
            let body = prim::le_bytes(t as nat, 6);
            lemma_header_round_trip(h, front, body + tail);
            assert(s =~= front + he + (body + tail));
            lemma_pow256_small();
            prim::lemma_le_bytes_len(t as nat, 6);
            prim::lemma_le_round_trip(t as nat, 6);
            let p2 = p + he.len();
            assert(s.subrange(p2, p2 + 6) =~= body);
            (h, p2)
        },
        AppObjectView::ClassScan(c) => {
            let h = ObjectHeader {
                group: 60,
                variation: c.spec_variation(),
                qualifier: Qualifier::AllObjects,
            };
            lemma_header_round_trip(h, front, tail);
            (h, p + spec_encode_header(h).len())
        },
        AppObjectView::IntegrityPoll => {
            let h = ObjectHeader { group: 60, variation: 1, qualifier: Qualifier::AllObjects };
            lemma_header_round_trip(h, front, tail);
            (h, p + spec_encode_header(h).len())
        },
    }
}

/// The encoding of a nonempty object list is that of its first object followed by that of the
/// rest.
proof fn lemma_encode_objects_first(objects: Seq<AppObjectView>)
    requires
        objects.len() > 0,
        spec_encode_objects(objects) is Ok,
    ensures
        spec_encode_object(objects[0]) is Ok,
        spec_encode_objects(objects.drop_first()) is Ok,
        spec_encode_objects(objects)->Ok_0 == spec_encode_object(objects[0])->Ok_0
            + spec_encode_objects(objects.drop_first())->Ok_0,
    decreases objects.len(),
{
    if objects.len() == 1 {
        assert(objects.drop_last() =~= Seq::<AppObjectView>::empty());
        assert(objects.drop_first() =~= Seq::<AppObjectView>::empty());
        assert(spec_encode_objects(objects)->Ok_0 =~= spec_encode_object(objects[0])->Ok_0);
    } else {
        let front = objects.drop_last();
        lemma_encode_objects_first(front);
        assert(front.drop_first() =~= objects.drop_first().drop_last());
        assert(objects.drop_first().last() == objects.last());
        assert(spec_encode_objects(objects)->Ok_0 =~= spec_encode_object(objects[0])->Ok_0
            + spec_encode_objects(objects.drop_first())->Ok_0);
    }
}

/// Decoding the encoding of objects that each round-trip, after any bytes, gives them back.
proof fn lemma_objects_round_trip(objects: Seq<AppObjectView>, front: Seq<u8>)
    requires
        spec_encode_objects(objects) is Ok,
        forall|i: int| 0 <= i < objects.len() ==> object_round_trips(#[trigger] objects[i]),
    ensures
        spec_decode_objects(front + spec_encode_objects(objects)->Ok_0, front.len() as int)
            == Ok::<Seq<AppObjectView>, ProtocolError>(objects),
    decreases objects.len(),
{
    let s = front + spec_encode_objects(objects)->Ok_0;
    let p = front.len() as int;
    if objects.len() == 0 {
        assert(s =~= front);
        lemma_objects_stop(s, p);
        assert(objects =~= seq![]);
    } else {
        lemma_encode_objects_first(objects);
        let o = objects[0];
        let e0 = spec_encode_object(o)->Ok_0;
        let rest = objects.drop_first();
        let er = spec_encode_objects(rest)->Ok_0;
        assert(object_round_trips(objects[0]));
        let (h, p2) = lemma_object_round_trip(o, front, er);
        assert(s =~= front + e0 + er);
        assert(s[p] == e0[0]);
        assert(prim::skip_zero_words(s, p) == p);
        lemma_objects_step(s, p, h, p2, o, p + e0.len());
        assert forall|i: int| 0 <= i < rest.len() implies object_round_trips(#[trigger] rest[i]) by {
            assert(rest[i] == objects[i + 1]);
        }
        lemma_objects_round_trip(rest, front + e0);
        assert(s =~= (front + e0) + er);
        assert(seq![o] + rest =~= objects);
    }
}

/// Decoding an encoded fragment gives the fragment back, when its application sequence fits
/// the control byte's four bits, it carries internal indications only where its function
/// sends them, and each object round-trips.
pub proof fn lemma_fragment_round_trip(f: ApplicationFragmentView)
    requires
        spec_encode_fragment(f) is Ok,
        f.control.sequence < 16,
        !spec_includes_iin(f.function) ==> f.iin == 0,
        forall|i: int| 0 <= i < f.objects.len() ==> object_round_trips(#[trigger] f.objects[i]),
    ensures
        spec_decode_fragment(spec_encode_fragment(f)->Ok_0) == Ok::<
            ApplicationFragmentView,
            ProtocolError,
        >(f),
{
    let pre = fragment_prefix(f);
    let b = spec_encode_objects(f.objects)->Ok_0;
    let s = pre + b;
    lemma_objects_round_trip(f.objects, pre);
    lemma_app_control_round_trip(f.control);
    lemma_function_code_round_trip(f.function);
    if spec_includes_iin(f.function) {
        lemma_pow256_small();
        prim::lemma_le_bytes_len(f.iin as nat, 2);
        prim::lemma_le_round_trip(f.iin as nat, 2);
        assert(s.subrange(2, 4) =~= prim::le_bytes(f.iin as nat, 2));
    }
    assert(s[0] == f.control.spec_encode());
    assert(s[1] == f.function.spec_encode());
}

/// A fragment that carries one list of at most 255 binary inputs, with any indices and
/// flags, can be encoded, and decoding its encoding gives it back, when its application
/// sequence fits four bits and it carries internal indications only where its function
/// sends them.
pub proof fn lemma_binary_inputs_round_trip(
    control: AppControl,
    function: FunctionCode,
    iin: u16,
    values: Seq<BinaryInput>,
)
    requires
        values.len() <= 255,
        control.sequence < 16,
        !spec_includes_iin(function) ==> iin == 0,
    ensures
        ({
            let f = ApplicationFragmentView {
                control,
                function,
                iin,
                objects: seq![AppObjectView::BinaryInputs(values)],
            };
            &&& spec_encode_fragment(f) is Ok
            &&& spec_decode_fragment(spec_encode_fragment(f)->Ok_0) == Ok::<
                ApplicationFragmentView,
                ProtocolError,
            >(f)
        }),
{
    let o = AppObjectView::BinaryInputs(values);
    let f = ApplicationFragmentView { control, function, iin, objects: seq![o] };
    assert(binary_indices(values).len() == values.len());
    assert(spec_encode_object(o) is Ok);
    assert(f.objects.drop_last() =~= Seq::<AppObjectView>::empty());
    assert(spec_encode_objects(f.objects.drop_last()) == Ok::<Seq<u8>, ProtocolError>(seq![]));
    assert(f.objects.last() == o);
    assert(spec_encode_objects(f.objects) is Ok);
    lemma_fragment_round_trip(f);
}

/// Whether bit `i` of `b` is set, bit 0 being the least significant.
pub open spec fn bit_is_set(b: u8, i: int) -> bool {
    (b as int / vstd::arithmetic::power2::pow2(i as nat) as int) % 2 == 1
}

proof fn lemma_packed_flag_bit(b: u8, offset: u8)
    requires
        offset < 8,
    ensures
        spec_packed_binary_flags(b, offset) == 0x81 <==> bit_is_set(b, offset as int),
        spec_packed_binary_flags(b, offset) == 0x81 || spec_packed_binary_flags(b, offset)
            == 0x00,
{
    vstd::arithmetic::power2::lemma2_to64();
    if offset == 0 {
        assert(((b >> 0u8) & 1u8 != 0) == ((b / 1) % 2 == 1)) by (bit_vector);
    } else if offset == 1 {
        assert(((b >> 1u8) & 1u8 != 0) == ((b / 2) % 2 == 1)) by (bit_vector);
    } else if offset == 2 {
        assert(((b >> 2u8) & 1u8 != 0) == ((b / 4) % 2 == 1)) by (bit_vector);
    } else if offset == 3 {
        assert(((b >> 3u8) & 1u8 != 0) == ((b / 8) % 2 == 1)) by (bit_vector);
    } else if offset == 4 {
        assert(((b >> 4u8) & 1u8 != 0) == ((b / 16) % 2 == 1)) by (bit_vector);
    } else if offset == 5 {
        assert(((b >> 5u8) & 1u8 != 0) == ((b / 32) % 2 == 1)) by (bit_vector);
    } else if offset == 6 {
        assert(((b >> 6u8) & 1u8 != 0) == ((b / 64) % 2 == 1)) by (bit_vector);
    } else {
        assert(((b >> 7u8) & 1u8 != 0) == ((b / 128) % 2 == 1)) by (bit_vector);
    }
}

/// A packed binary input object (group 1 variation 1) with a range qualifier holds one bit
/// per point, eight to a byte, the first point in the least significant bit: decoded point
/// `k` is on (flags 0x81) exactly when bit `k mod 8` of body byte `k div 8` is set, and
/// reads 0x00 otherwise.
pub proof fn lemma_packed_binary_bits(h: ObjectHeader, s: Seq<u8>, p: int)
    requires
        h.group == 1,
        h.variation == 1,
        h.qualifier is Range16 || h.qualifier is Range8,
        0 <= p,
    ensures
        spec_decode_object(h, s, p) matches Ok((AppObjectView::BinaryInputs(points), end)) ==> {
            &&& end == p + (points.len() + 7) / 8
            &&& end <= s.len()
            &&& forall|k: int|
                0 <= k < points.len() ==> {
                    &&& (#[trigger] points[k]).flags == 0x81 <==> bit_is_set(s[p + k / 8], k % 8)
                    &&& !bit_is_set(s[p + k / 8], k % 8) ==> points[k].flags == 0x00
                }
        },
{
    match spec_decode_object(h, s, p) {
        Ok((AppObjectView::BinaryInputs(points), end)) => {
            let (m, count) = spec_point_layout(h.qualifier, true)->Ok_0;
            assert(points.len() == count);
            assert forall|k: int| 0 <= k < points.len() implies {
                &&& (#[trigger] points[k]).flags == 0x81 <==> bit_is_set(s[p + k / 8], k % 8)
                &&& !bit_is_set(s[p + k / 8], k % 8) ==> points[k].flags == 0x00
            } by {
                assert(k / 8 < (count + 7) / 8) by (nonlinear_arith)
                    requires
                        0 <= k < count,
                ;
                lemma_packed_flag_bit(s[p + k / 8], (k % 8) as u8);
            }
        },
        _ => {},
    }
}

/// Responses and unsolicited responses carry their internal indications: the encoding of such
/// a fragment has, right after the function code (0x81 or 0x82), the two little-endian bytes
/// of its `iin` field.
pub proof fn lemma_response_iin_encoded(f: ApplicationFragmentView)
    requires
        f.function == FunctionCode::Response || f.function == FunctionCode::UnsolicitedResponse,
        spec_encode_fragment(f) is Ok,
    ensures
        ({
            let b = spec_encode_fragment(f)->Ok_0;
            &&& b.len() >= 4
            &&& b[1] == (if f.function == FunctionCode::Response {
                0x81u8
            } else {
                0x82u8
            })
            &&& b[2] == f.iin % 256
            &&& b[3] == f.iin / 256
        }),
{
    let b = spec_encode_fragment(f)->Ok_0;
    prim::lemma_le_bytes_2(f.iin as nat);
    assert(b[2] == fragment_prefix(f)[2]);
    assert(b[3] == fragment_prefix(f)[3]);
}

/// Decoding a response (0x81) or an unsolicited response (0x82) reads the two bytes after the
/// function code as its little-endian internal indications.
pub proof fn lemma_response_iin_decoded(s: Seq<u8>)
    requires
        s.len() >= 2,
        s[1] == 0x81 || s[1] == 0x82,
        spec_decode_fragment(s) is Ok,
    ensures
        s.len() >= 4,
        spec_decode_fragment(s)->Ok_0.iin == s[2] + 256 * s[3],
        spec_decode_fragment(s)->Ok_0.function == (if s[1] == 0x81 {
            FunctionCode::Response
        } else {
            FunctionCode::UnsolicitedResponse
        }),
{
    prim::lemma_le_value_2(s.subrange(2, 4));
}

} // verus!
