use vstd::prelude::*;

verus! {

/// Number of payload bytes covered by one data CRC.
pub const CRC_BLOCK_SIZE: usize = 16;

/// Errors produced while parsing, encoding, or validating protocol data.
#[allow(inconsistent_fields)]
#[derive(Debug, Clone, PartialEq, Eq)]
pub enum ProtocolError {
    /// The input ended before the requested field could be read.
    UnexpectedEof,
    /// A length field or buffer size was outside the allowed range.
    InvalidLength { expected: usize, actual: usize },
    /// A CRC did not match the bytes it protected.
    InvalidCrc,
    /// A start byte sequence was not recognized.
    InvalidStartBytes,
    /// A numeric enum discriminant is not supported.
    UnknownValue { field: &'static str, value: u8 },
    /// A sequence number did not match the expected value.
    InvalidSequence { expected: u8, actual: u8 },
    /// A fragment arrived in an invalid order.
    InvalidFragment,
    /// A timeout elapsed.
    Timeout,
    /// A transport endpoint was closed.
    Closed,
}

// ---------------------------------------------------------------------------
// Little-endian integers as byte sequences
// ---------------------------------------------------------------------------

/// The `n` low-order bytes of `v`, least significant first.
pub open spec fn le_bytes(v: nat, n: nat) -> Seq<u8>
    decreases n,
{
    if n == 0 {
        seq![]
    } else {
        seq![(v % 256) as u8] + le_bytes(v / 256, (n - 1) as nat)
    }
}

/// The unsigned integer whose little-endian bytes are `b`.
pub open spec fn le_value(b: Seq<u8>) -> nat
    decreases b.len(),
{
    if b.len() == 0 {
        0
    } else {
        b[0] as nat + 256 * le_value(b.drop_first())
    }
}

/// `256` raised to `n`.
pub open spec fn pow256(n: nat) -> nat
    decreases n,
{
    if n == 0 {
        1
    } else {
        256 * pow256((n - 1) as nat)
    }
}

pub proof fn lemma_le_bytes_len(v: nat, n: nat)
    ensures
        le_bytes(v, n).len() == n,
    decreases n,
{
    if n > 0 {
        lemma_le_bytes_len(v / 256, (n - 1) as nat);
    }
}

pub proof fn lemma_pow256_pos(n: nat)
    ensures
        pow256(n) >= 1,
    decreases n,
{
    if n > 0 {
        lemma_pow256_pos((n - 1) as nat);
    }
}

/// Reading back the little-endian bytes of a value that fits gives the value.
pub proof fn lemma_le_round_trip(v: nat, n: nat)
    requires
        v < pow256(n),
    ensures
        le_value(le_bytes(v, n)) == v,
        le_bytes(v, n).len() == n,
    decreases n,
{
    lemma_le_bytes_len(v, n);
    if n > 0 {
        let rest = le_bytes(v / 256, (n - 1) as nat);
        assert(le_bytes(v, n).drop_first() =~= rest);
        assert(v / 256 < pow256((n - 1) as nat));
        lemma_le_round_trip(v / 256, (n - 1) as nat);
    }
}

/// A little-endian value of `n` bytes is below `256^n`.
pub proof fn lemma_le_value_bound(b: Seq<u8>)
    ensures
        le_value(b) < pow256(b.len()),
    decreases b.len(),
{
    if b.len() > 0 {
        lemma_le_value_bound(b.drop_first());
    }
}

pub proof fn lemma_le_value_2(b: Seq<u8>)
    requires
        b.len() == 2,
    ensures
        le_value(b) == b[0] as nat + 256 * (b[1] as nat),
{
    reveal_with_fuel(le_value, 3);
    assert(b.drop_first().drop_first().len() == 0);
}

pub proof fn lemma_le_value_4(b: Seq<u8>)
    requires
        b.len() == 4,
    ensures
        le_value(b) == b[0] as nat + 256 * (b[1] as nat + 256 * (b[2] as nat + 256 * (b[3] as nat))),
{
    reveal_with_fuel(le_value, 5);
    let b1 = b.drop_first();
    let b2 = b1.drop_first();
    let b3 = b2.drop_first();
    assert(b3.drop_first().len() == 0);
}

pub proof fn lemma_le_value_6(b: Seq<u8>)
    requires
        b.len() == 6,
    ensures
        le_value(b) == b[0] as nat + 256 * (b[1] as nat + 256 * (b[2] as nat + 256 * (b[3] as nat
            + 256 * (b[4] as nat + 256 * (b[5] as nat))))),
{
    reveal_with_fuel(le_value, 7);
    let b1 = b.drop_first();
    let b2 = b1.drop_first();
    let b3 = b2.drop_first();
    let b4 = b3.drop_first();
    let b5 = b4.drop_first();
    assert(b5.drop_first().len() == 0);
}

pub proof fn lemma_le_bytes_2(v: nat)
    ensures
        le_bytes(v, 2) =~= seq![(v % 256) as u8, ((v / 256) % 256) as u8],
{
    reveal_with_fuel(le_bytes, 3);
}

proof fn lemma_le_bytes_6(v: nat)
    ensures
        le_bytes(v, 6) =~= seq![(v % 256) as u8, ((v / 256) % 256) as u8,
            ((v / 65536) % 256) as u8, ((v / 16777216) % 256) as u8,
            ((v / 4294967296) % 256) as u8, ((v / 1099511627776) % 256) as u8],
{
    reveal_with_fuel(le_bytes, 7);
    assert(v / 256 / 256 == v / 65536);
    assert(v / 256 / 256 / 256 == v / 16777216);
    assert(v / 256 / 256 / 256 / 256 == v / 4294967296);
    assert(v / 256 / 256 / 256 / 256 / 256 == v / 1099511627776);
}

proof fn lemma_le_bytes_4(v: nat)
    ensures
        le_bytes(v, 4) =~= seq![(v % 256) as u8, ((v / 256) % 256) as u8,
            ((v / 65536) % 256) as u8, ((v / 16777216) % 256) as u8],
{
    reveal_with_fuel(le_bytes, 5);
    assert(v / 256 / 256 == v / 65536);
    assert(v / 256 / 256 / 256 == v / 16777216);
}

/// Appends `bytes` to `out`.
pub fn extend_bytes(out: &mut Vec<u8>, bytes: &[u8])
    ensures
        final(out)@ == old(out)@ + bytes@,
{
    let mut i: usize = 0;
    while i < bytes.len()
        invariant
            i <= bytes.len(),
            out@ == old(out)@ + bytes@.subrange(0, i as int),
        decreases bytes.len() - i,
    {
        out.push(bytes[i]);
        i = i + 1;
        assert(out@ =~= old(out)@ + bytes@.subrange(0, i as int));
    }
    assert(bytes@.subrange(0, i as int) =~= bytes@);
}

/// Appends the two little-endian bytes of `v`.
pub fn push_u16_le(out: &mut Vec<u8>, v: u16)
    ensures
        final(out)@ == old(out)@ + le_bytes(v as nat, 2),
{
    out.push((v % 256) as u8);
    out.push((v / 256) as u8);
    proof {
        lemma_le_bytes_2(v as nat);
        assert(final(out)@ =~= old(out)@ + le_bytes(v as nat, 2));
    }
}

/// Appends the four little-endian bytes of `v`.
pub fn push_u32_le(out: &mut Vec<u8>, v: u32)
    ensures
        final(out)@ == old(out)@ + le_bytes(v as nat, 4),
{
    out.push((v % 256) as u8);
    out.push(((v / 256) % 256) as u8);
    out.push(((v / 65536) % 256) as u8);
    out.push((v / 16777216) as u8);
    proof {
        lemma_le_bytes_4(v as nat);
        assert(final(out)@ =~= old(out)@ + le_bytes(v as nat, 4));
    }
}

/// The `u16` read from two little-endian bytes.
pub open spec fn le16(b: Seq<u8>) -> u16 {
    le_value(b) as u16
}

/// The `u32` read from four little-endian bytes.
pub open spec fn le32(b: Seq<u8>) -> u32 {
    le_value(b) as u32
}

/// Two's complement reinterpretation of a `u16`.
pub open spec fn i16_of(v: u16) -> i16 {
    v as i16
}

/// Two's complement reinterpretation of a `u32`.
pub open spec fn i32_of(v: u32) -> i32 {
    v as i32
}

/// Appends the four little-endian two's complement bytes of `v`.
pub fn push_i32_le(out: &mut Vec<u8>, v: i32)
    ensures
        final(out)@ == old(out)@ + le_bytes((v as u32) as nat, 4),
{
    push_u32_le(out, v as u32);
}

pub proof fn lemma_i32_round_trip(v: i32)
    ensures
        i32_of(v as u32) == v,
{
    assert(((v as u32) as i32) == v) by (bit_vector);
}

// ---------------------------------------------------------------------------
// Address
// ---------------------------------------------------------------------------

/// A DNP3 endpoint address.
#[derive(Debug, Clone, Copy, PartialEq, Eq, Hash, PartialOrd, Ord, Structural)]
pub struct Address(u16);

impl View for Address {
    type V = u16;

    closed spec fn view(&self) -> u16 {
        self.0
    }
}

/// Two addresses with the same value are the same address.
pub proof fn lemma_address_view_injective(a: Address, b: Address)
    ensures
        a@ == b@ <==> a == b,
{
}

/// Reading an encoded address back, wherever it stands, gives the address.
pub proof fn lemma_address_round_trip(a: Address, front: Seq<u8>, tail: Seq<u8>)
    ensures
        le16(
            (front + le_bytes(a@ as nat, 2) + tail).subrange(
                front.len() as int,
                front.len() + 2int,
            ),
        ) == a@,
{
    assert(pow256(2) == 65536) by {
        reveal_with_fuel(pow256, 3);
    }
    lemma_le_round_trip(a@ as nat, 2);
    assert((front + le_bytes(a@ as nat, 2) + tail).subrange(front.len() as int, front.len() + 2int)
        =~= le_bytes(a@ as nat, 2));
}

impl Address {
    /// The broadcast address, which reaches all stations.
    pub fn broadcast() -> (r: Address)
        ensures
            r@ == 0xffff,
    {
        Address(0xffff)
    }

    /// Creates a new address.
    pub fn new(value: u16) -> (r: Address)
        ensures
            r@ == value,
    {
        Address(value)
    }

    /// Returns the raw 16-bit address.
    pub fn value(self) -> (r: u16)
        ensures
            r == self@,
    {
        self.0
    }

    /// Encodes the address in little-endian order.
    pub fn encode(self, out: &mut Vec<u8>)
        ensures
            final(out)@ == old(out)@ + le_bytes(self@ as nat, 2),
    {
        push_u16_le(out, self.0);
    }

    /// Decodes an address from little-endian bytes.
    pub fn decode(input: &mut Reader<'_>) -> (r: Result<Address, ProtocolError>)
        ensures
            final(input).data() == old(input).data(),
            old(input).pos() + 2 <= old(input).data().len() ==> {
                &&& r matches Ok(a)
                &&& a@ == le16(old(input).data().subrange(old(input).pos(), old(input).pos() + 2))
                &&& final(input).pos() == old(input).pos() + 2
            },
            old(input).pos() + 2 > old(input).data().len() ==> r == Err::<Address, ProtocolError>(
                ProtocolError::UnexpectedEof,
            ) && final(input).pos() == old(input).pos(),
    {
        let v = input.read_u16_le()?;
        Ok(Address(v))
    }
}

/// The decimal digits of `v`, most significant first, without leading zeros.
pub open spec fn spec_decimal(v: nat) -> Seq<char>
    decreases v,
{
    if v < 10 {
        seq![(48 + v) as char]
    } else {
        spec_decimal(v / 10).push((48 + v % 10) as char)
    }
}

/// Formats a number in decimal through `ToString`, which integers implement by printing
/// their decimal digits without sign or leading zeros.
#[verifier::external_body]
fn decimal_string(value: u16) -> (r: String)
    ensures
        r@ == spec_decimal(value as nat),
{
    value.to_string()
}

impl Address {
    /// The address in decimal, as it is shown to users.
    pub fn to_string(&self) -> (r: String)
        ensures
            r@ == spec_decimal(self@ as nat),
    {
        decimal_string(self.0)
    }
}

impl From<u16> for Address {
    fn from(value: u16) -> (r: Address) {
        Self::new(value)
    }
}

impl vstd::std_specs::convert::FromSpecImpl<u16> for Address {
    open spec fn obeys_from_spec() -> bool {
        true
    }

    closed spec fn from_spec(v: u16) -> Address {
        Address(v)
    }
}

// ---------------------------------------------------------------------------
// Timestamp48
// ---------------------------------------------------------------------------

/// Largest millisecond value that fits in the 48-bit wire format.
pub const TIMESTAMP48_MAX: u64 = 0x0000_ffff_ffff_ffff;

/// A millisecond timestamp encoded as 48-bit little-endian time.
#[derive(Debug, Clone, Copy, PartialEq, Eq, Hash, PartialOrd, Ord, Structural)]
pub struct Timestamp48(u64);

impl View for Timestamp48 {
    type V = u64;

    closed spec fn view(&self) -> u64 {
        self.0
    }
}

/// Two timestamps with the same value are the same timestamp.
pub proof fn lemma_timestamp_view_injective(a: Timestamp48, b: Timestamp48)
    ensures
        a@ == b@ <==> a == b,
{
}

/// Reading an encoded timestamp back, wherever it stands, gives the timestamp.
pub proof fn lemma_timestamp_round_trip(t: Timestamp48, front: Seq<u8>, tail: Seq<u8>)
    requires
        t@ <= TIMESTAMP48_MAX,
    ensures
        le_value(
            (front + le_bytes(t@ as nat, 6) + tail).subrange(
                front.len() as int,
                front.len() + 6int,
            ),
        ) == t@,
{
    assert(pow256(6) == 0x1_0000_0000_0000) by {
        reveal_with_fuel(pow256, 7);
    }
    lemma_le_round_trip(t@ as nat, 6);
    assert((front + le_bytes(t@ as nat, 6) + tail).subrange(front.len() as int, front.len() + 6int)
        =~= le_bytes(t@ as nat, 6));
}

impl Timestamp48 {
    /// Largest value that fits in the 48-bit wire format.
    pub const MAX_VALUE: u64 = 0x0000_ffff_ffff_ffff;

    #[verifier::type_invariant]
    spec fn fits(self) -> bool {
        self.0 <= TIMESTAMP48_MAX
    }

    /// Creates a timestamp from milliseconds since the Unix epoch.
    pub fn from_millis(value: u64) -> (r: Result<Timestamp48, ProtocolError>)
        ensures
            value <= TIMESTAMP48_MAX ==> (r matches Ok(t) && t@ == value),
            value > TIMESTAMP48_MAX ==> r == Err::<Timestamp48, ProtocolError>(
                ProtocolError::InvalidLength {
                    expected: TIMESTAMP48_MAX as usize,
                    actual: value as usize,
                },
            ),
    {
        if value <= TIMESTAMP48_MAX {
            Ok(Timestamp48(value))
        } else {
            Err(ProtocolError::InvalidLength {
                expected: TIMESTAMP48_MAX as usize,
                actual: value as usize,
            })
        }
    }

    /// Returns the timestamp value in milliseconds.
    pub fn millis(self) -> (r: u64)
        ensures
            r == self@,
            r <= TIMESTAMP48_MAX,
    {
        proof {
            use_type_invariant(&self);
        }
        self.0
    }

    /// Builds a timestamp from a millisecond count, keeping its low 48 bits.
    pub fn from_millis_truncated(value: u64) -> (r: Timestamp48)
        ensures
            r@ == value % 0x1_0000_0000_0000,
    {
        let v = value % 0x1_0000_0000_0000;
        Timestamp48(v)
    }

    /// Encodes the timestamp in 6 little-endian bytes.
    pub fn encode(self, out: &mut Vec<u8>)
        ensures
            final(out)@ == old(out)@ + le_bytes(self@ as nat, 6),
    {
        let v = self.0;
        out.push((v % 256) as u8);
        out.push(((v / 256) % 256) as u8);
        out.push(((v / 65536) % 256) as u8);
        out.push(((v / 16777216) % 256) as u8);
        out.push(((v / 4294967296) % 256) as u8);
        out.push(((v / 1099511627776) % 256) as u8);
        proof {
            lemma_le_bytes_6(v as nat);
            assert(final(out)@ =~= old(out)@ + le_bytes(self@ as nat, 6));
        }
    }

    /// Decodes the timestamp from 6 little-endian bytes.
    pub fn decode(input: &mut Reader<'_>) -> (r: Result<Timestamp48, ProtocolError>)
        ensures
            final(input).data() == old(input).data(),
            old(input).pos() + 6 <= old(input).data().len() ==> {
                &&& r matches Ok(t)
                &&& t@ == le_value(
                    old(input).data().subrange(old(input).pos(), old(input).pos() + 6),
                )
                &&& final(input).pos() == old(input).pos() + 6
            },
            old(input).pos() + 6 > old(input).data().len() ==> r == Err::<
                Timestamp48,
                ProtocolError,
            >(ProtocolError::UnexpectedEof) && final(input).pos() == old(input).pos(),
    {
        let bytes = input.read_exact(6)?;
        let v: u64 = bytes[0] as u64 + 256 * (bytes[1] as u64 + 256 * (bytes[2] as u64 + 256 * (
        bytes[3] as u64 + 256 * (bytes[4] as u64 + 256 * (bytes[5] as u64)))));
        proof {
            lemma_le_value_6(bytes@);
        }
        Ok(Timestamp48(v))
    }
}

// ---------------------------------------------------------------------------
// Reader
// ---------------------------------------------------------------------------

/// A small deterministic byte reader for protocol parsers.
#[derive(Debug)]
pub struct Reader<'a> {
    input: &'a [u8],
    cursor: usize,
}

impl<'a> Clone for Reader<'a> {
    fn clone(&self) -> (r: Reader<'a>)
        ensures
            r.data() == self.data(),
            r.pos() == self.pos(),
    {
        proof {
            use_type_invariant(self);
        }
        Reader { input: self.input, cursor: self.cursor }
    }
}

impl<'a> Reader<'a> {
    #[verifier::type_invariant]
    pub closed spec fn in_bounds(self) -> bool {
        self.cursor <= self.input@.len()
    }

    /// The whole input the reader walks over.
    pub closed spec fn data(self) -> Seq<u8> {
        self.input@
    }

    /// The index of the next unread byte.
    pub closed spec fn pos(self) -> int {
        self.cursor as int
    }

    /// A reader's cursor lies within its input.
    pub proof fn lemma_in_bounds(r: Reader<'a>)
        requires
            r.in_bounds(),
        ensures
            0 <= r.pos() <= r.data().len(),
    {
    }

    /// Creates a new reader over a byte slice.
    pub fn new(input: &'a [u8]) -> (r: Reader<'a>)
        ensures
            r.data() == input@,
            r.pos() == 0,
    {
        Reader { input, cursor: 0 }
    }

    /// Returns the number of unread bytes.
    pub fn remaining(&self) -> (r: usize)
        ensures
            r == self.data().len() - self.pos(),
    {
        proof {
            use_type_invariant(self);
        }
        self.input.len() - self.cursor
    }

    /// Returns true if there are no unread bytes.
    pub fn is_empty(&self) -> (r: bool)
        ensures
            r == (self.pos() == self.data().len()),
    {
        self.remaining() == 0
    }

    /// Skips runs of four zero bytes used as padding in some vendor responses.
    pub fn skip_padding_zeros(&mut self)
        ensures
            final(self).data() == old(self).data(),
            final(self).pos() == skip_zero_words(old(self).data(), old(self).pos()),
    {
        proof {
            use_type_invariant(&*self);
        }
        while self.input.len() - self.cursor >= 4
            invariant
                self.cursor <= self.input@.len(),
                self.input@ == old(self).data(),
                skip_zero_words(self.input@, self.cursor as int) == skip_zero_words(
                    old(self).data(),
                    old(self).pos(),
                ),
            ensures
                self.input@ == old(self).data(),
                self.cursor as int == skip_zero_words(old(self).data(), old(self).pos()),
            decreases self.input@.len() - self.cursor,
        {
            let start = self.cursor;
            if self.input[start] == 0 && self.input[start + 1] == 0 && self.input[start + 2] == 0
                && self.input[start + 3] == 0 {
                self.cursor = start + 4;
            } else {
                break;
            }
        }
    }

    /// Reads exactly `len` bytes.
    pub fn read_exact(&mut self, len: usize) -> (r: Result<&'a [u8], ProtocolError>)
        ensures
            final(self).data() == old(self).data(),
            old(self).pos() + len <= old(self).data().len() ==> {
                &&& r matches Ok(bytes)
                &&& bytes@ == old(self).data().subrange(old(self).pos(), old(self).pos() + len)
                &&& final(self).pos() == old(self).pos() + len
            },
            old(self).pos() + len > old(self).data().len() ==> r == Err::<&'a [u8], ProtocolError>(
                ProtocolError::UnexpectedEof,
            ) && final(self).pos() == old(self).pos(),
    {
        proof {
            use_type_invariant(&*self);
        }
        if self.input.len() - self.cursor < len {
            return Err(ProtocolError::UnexpectedEof);
        }
        let start = self.cursor;
        self.cursor = self.cursor + len;
        Ok(&self.input[start..self.cursor])
    }

    /// Reads one byte.
    pub fn read_u8(&mut self) -> (r: Result<u8, ProtocolError>)
        ensures
            final(self).data() == old(self).data(),
            old(self).pos() + 1 <= old(self).data().len() ==> {
                &&& r == Ok::<u8, ProtocolError>(old(self).data()[old(self).pos()])
                &&& final(self).pos() == old(self).pos() + 1
            },
            old(self).pos() + 1 > old(self).data().len() ==> r == Err::<u8, ProtocolError>(
                ProtocolError::UnexpectedEof,
            ) && final(self).pos() == old(self).pos(),
    {
        let bytes = self.read_exact(1)?;
        Ok(bytes[0])
    }

    /// Reads a little-endian `u16`.
    pub fn read_u16_le(&mut self) -> (r: Result<u16, ProtocolError>)
        ensures
            final(self).data() == old(self).data(),
            old(self).pos() + 2 <= old(self).data().len() ==> {
                &&& r == Ok::<u16, ProtocolError>(
                    le16(old(self).data().subrange(old(self).pos(), old(self).pos() + 2)),
                )
                &&& final(self).pos() == old(self).pos() + 2
            },
            old(self).pos() + 2 > old(self).data().len() ==> r == Err::<u16, ProtocolError>(
                ProtocolError::UnexpectedEof,
            ) && final(self).pos() == old(self).pos(),
    {
        let bytes = self.read_exact(2)?;
        proof {
            lemma_le_value_2(bytes@);
        }
        Ok(bytes[0] as u16 + 256 * (bytes[1] as u16))
    }

    /// Reads a little-endian `u32`.
    pub fn read_u32_le(&mut self) -> (r: Result<u32, ProtocolError>)
        ensures
            final(self).data() == old(self).data(),
            old(self).pos() + 4 <= old(self).data().len() ==> {
                &&& r == Ok::<u32, ProtocolError>(
                    le32(old(self).data().subrange(old(self).pos(), old(self).pos() + 4)),
                )
                &&& final(self).pos() == old(self).pos() + 4
            },
            old(self).pos() + 4 > old(self).data().len() ==> r == Err::<u32, ProtocolError>(
                ProtocolError::UnexpectedEof,
            ) && final(self).pos() == old(self).pos(),
    {
        let bytes = self.read_exact(4)?;
        proof {
            lemma_le_value_4(bytes@);
        }
        Ok(bytes[0] as u32 + 256 * (bytes[1] as u32 + 256 * (bytes[2] as u32 + 256 * (
        bytes[3] as u32))))
    }

    /// Reads a little-endian `i16`.
    pub fn read_i16_le(&mut self) -> (r: Result<i16, ProtocolError>)
        ensures
            final(self).data() == old(self).data(),
            old(self).pos() + 2 <= old(self).data().len() ==> {
                &&& r == Ok::<i16, ProtocolError>(
                    i16_of(le16(old(self).data().subrange(old(self).pos(), old(self).pos() + 2))),
                )
                &&& final(self).pos() == old(self).pos() + 2
            },
            old(self).pos() + 2 > old(self).data().len() ==> r == Err::<i16, ProtocolError>(
                ProtocolError::UnexpectedEof,
            ) && final(self).pos() == old(self).pos(),
    {
        let v = self.read_u16_le()?;
        Ok(v as i16)
    }

    /// Reads a little-endian `i32`.
    pub fn read_i32_le(&mut self) -> (r: Result<i32, ProtocolError>)
        ensures
            final(self).data() == old(self).data(),
            old(self).pos() + 4 <= old(self).data().len() ==> {
                &&& r == Ok::<i32, ProtocolError>(
                    i32_of(le32(old(self).data().subrange(old(self).pos(), old(self).pos() + 4))),
                )
                &&& final(self).pos() == old(self).pos() + 4
            },
            old(self).pos() + 4 > old(self).data().len() ==> r == Err::<i32, ProtocolError>(
                ProtocolError::UnexpectedEof,
            ) && final(self).pos() == old(self).pos(),
    {
        let v = self.read_u32_le()?;
        Ok(v as i32)
    }
}

/// A parser that read from `before` to `after` and returned `r` did what `expected` says: on
/// success it returned the expected value and stopped where expected, on failure it returned the
/// expected error; either way it only moved forward over the same input.
pub open spec fn decoded<T: View>(
    before: Reader,
    after: Reader,
    r: Result<T, ProtocolError>,
    expected: Result<(T::V, int), ProtocolError>,
) -> bool {
    &&& after.data() == before.data()
    &&& before.pos() <= after.pos()
    &&& match expected {
        Ok((v, p)) => (r matches Ok(x) && x@ == v) && after.pos() == p,
        Err(e) => r matches Err(e2) && e2 == e,
    }
}

/// The `n` bytes at `p`, if there are that many.
pub open spec fn take_at(s: Seq<u8>, p: int, n: int) -> Result<(Seq<u8>, int), ProtocolError> {
    if 0 <= p && p + n <= s.len() {
        Ok((s.subrange(p, p + n), p + n))
    } else {
        Err(ProtocolError::UnexpectedEof)
    }
}

/// Where the cursor stands after skipping every run of four zero bytes from `p`.
pub open spec fn skip_zero_words(s: Seq<u8>, p: int) -> int
    decreases s.len() - p,
{
    if 0 <= p && p + 4 <= s.len() && s[p] == 0 && s[p + 1] == 0 && s[p + 2] == 0 && s[p + 3]
        == 0 {
        skip_zero_words(s, p + 4)
    } else {
        p
    }
}

// ---------------------------------------------------------------------------
// CRC
// ---------------------------------------------------------------------------

/// One bit step of the reflected CRC register (polynomial 0xa6bc).
pub open spec fn crc_shift(crc: u16) -> u16 {
    if crc & 1 != 0 {
        (crc >> 1) ^ 0xa6bc
    } else {
        crc >> 1
    }
}

/// `n` bit steps of the CRC register.
pub open spec fn crc_shifts(crc: u16, n: nat) -> u16
    decreases n,
{
    if n == 0 {
        crc
    } else {
        crc_shift(crc_shifts(crc, (n - 1) as nat))
    }
}

/// The CRC register after taking in one more byte.
pub open spec fn crc_update(crc: u16, byte: u8) -> u16 {
    crc_shifts(crc ^ (byte as u16), 8)
}

/// The CRC register after taking in all of `s`, starting from zero.
pub open spec fn crc_register(s: Seq<u8>) -> u16
    decreases s.len(),
{
    if s.len() == 0 {
        0
    } else {
        crc_update(crc_register(s.drop_last()), s.last())
    }
}

/// The DNP3 CRC of one protected block: the complemented register.
pub open spec fn spec_crc16(s: Seq<u8>) -> u16 {
    !crc_register(s)
}

/// Computes the DNP3 CRC for one protected block.
pub fn crc16(block: &[u8]) -> (r: u16)
    ensures
        r == spec_crc16(block@),
{
    let mut crc: u16 = 0;
    let mut i: usize = 0;
    while i < block.len()
        invariant
            i <= block.len(),
            crc == crc_register(block@.take(i as int)),
        decreases block.len() - i,
    {
        let byte = block[i];
        crc = crc ^ (byte as u16);
        let ghost start = crc;
        let mut k: usize = 0;
        while k < 8
            invariant
                k <= 8,
                crc == crc_shifts(start, k as nat),
            decreases 8 - k,
        {
            if crc & 1 != 0 {
                crc = (crc >> 1) ^ 0xa6bc;
            } else {
                crc = crc >> 1;
            }
            k = k + 1;
        }
        i = i + 1;
        proof {
            assert(block@.take(i as int).drop_last() =~= block@.take(i - 1));
        }
    }
    proof {
        assert(block@.take(i as int) =~= block@);
    }
    !crc
}

/// Appends the little-endian CRC for a protected block.
pub fn append_crc(block: &[u8], out: &mut Vec<u8>)
    ensures
        final(out)@ == old(out)@ + le_bytes(spec_crc16(block@) as nat, 2),
{
    push_u16_le(out, crc16(block));
}

/// Verifies a little-endian CRC for a protected block.
pub fn verify_crc(block: &[u8], crc: &[u8]) -> (r: Result<(), ProtocolError>)
    ensures
        r == spec_verify_crc(block@, crc@),
{
    if crc.len() != 2 {
        return Err(ProtocolError::InvalidLength { expected: 2, actual: crc.len() });
    }
    proof {
        lemma_le_value_2(crc@);
    }
    let actual: u16 = crc[0] as u16 + 256 * (crc[1] as u16);
    let expected = crc16(block);
    if actual == expected {
        Ok(())
    } else {
        Err(ProtocolError::InvalidCrc)
    }
}

/// The outcome of checking the two CRC bytes `crc` against `block`.
pub open spec fn spec_verify_crc(block: Seq<u8>, crc: Seq<u8>) -> Result<(), ProtocolError> {
    if crc.len() != 2 {
        Err(ProtocolError::InvalidLength { expected: 2, actual: crc.len() as usize })
    } else if le16(crc) == spec_crc16(block) {
        Ok(())
    } else {
        Err(ProtocolError::InvalidCrc)
    }
}

/// The length of the next CRC-protected chunk when `remaining` payload bytes are left.
pub open spec fn chunk_len(remaining: nat) -> nat {
    if remaining < 16 {
        remaining
    } else {
        16
    }
}

/// `data` split into chunks of 16 bytes, each followed by its little-endian CRC.
pub open spec fn crc_blocks(data: Seq<u8>) -> Seq<u8>
    decreases data.len(),
{
    if data.len() == 0 {
        seq![]
    } else {
        let n = chunk_len(data.len());
        let chunk = data.take(n as int);
        chunk + le_bytes(spec_crc16(chunk) as nat, 2) + crc_blocks(data.skip(n as int))
    }
}

/// Encodes data with one CRC after every 16 payload bytes.
pub fn encode_crc_blocks(data: &[u8], out: &mut Vec<u8>)
    ensures
        final(out)@ == old(out)@ + crc_blocks(data@),
{
    let mut offset: usize = 0;
    proof {
        assert(data@.skip(0) =~= data@);
    }
    while offset < data.len()
        invariant
            offset <= data.len(),
            old(out)@ + crc_blocks(data@) == out@ + crc_blocks(data@.skip(offset as int)),
        decreases data.len() - offset,
    {
        let n = if data.len() - offset < CRC_BLOCK_SIZE {
            data.len() - offset
        } else {
            CRC_BLOCK_SIZE
        };
        let chunk = &data[offset..offset + n];
        let ghost before = out@;
        extend_bytes(out, chunk);
        append_crc(chunk, out);
        proof {
            let rest = data@.skip(offset as int);
            assert(chunk@ =~= rest.take(n as int));
            assert(rest.skip(n as int) =~= data@.skip(offset + n));
            assert(crc_blocks(rest) == chunk@ + le_bytes(spec_crc16(chunk@) as nat, 2)
                + crc_blocks(data@.skip(offset + n)));
            assert(before + crc_blocks(rest) =~= out@ + crc_blocks(data@.skip(offset + n)));
        }
        offset = offset + n;
    }
    proof {
        assert(data@.skip(offset as int) =~= Seq::<u8>::empty());
        assert(out@ + crc_blocks(data@.skip(offset as int)) =~= out@);
    }
}

/// Decodes `remaining` payload bytes from the front of `enc`: the payload and the number of
/// encoded bytes it took.
pub open spec fn decode_blocks(enc: Seq<u8>, remaining: nat) -> Result<(Seq<u8>, nat), ProtocolError>
    decreases remaining,
{
    if remaining == 0 {
        Ok((seq![], 0))
    } else {
        let n = chunk_len(remaining);
        if enc.len() < n + 2 {
            Err(ProtocolError::UnexpectedEof)
        } else if le16(enc.subrange(n as int, n + 2int)) != spec_crc16(enc.take(n as int)) {
            Err(ProtocolError::InvalidCrc)
        } else {
            match decode_blocks(enc.skip(n + 2int), (remaining - n) as nat) {
                Ok((rest, used)) => Ok((enc.take(n as int) + rest, used + n + 2)),
                Err(e) => Err(e),
            }
        }
    }
}

/// The payload of `payload_len` bytes protected by CRC blocks in `enc`, which must hold
/// nothing else.
pub open spec fn spec_decode_crc_blocks(enc: Seq<u8>, payload_len: nat) -> Result<
    Seq<u8>,
    ProtocolError,
> {
    match decode_blocks(enc, payload_len) {
        Ok((data, used)) => if used == enc.len() {
            Ok(data)
        } else {
            Err(ProtocolError::InvalidLength { expected: used as usize, actual: enc.len() as usize })
        },
        Err(e) => Err(e),
    }
}

/// `r` with `front` put before its payload and `skipped` added to its length.
pub open spec fn prepend_decoded(
    front: Seq<u8>,
    skipped: nat,
    r: Result<(Seq<u8>, nat), ProtocolError>,
) -> Result<(Seq<u8>, nat), ProtocolError> {
    match r {
        Ok((rest, used)) => Ok((front + rest, used + skipped)),
        Err(e) => Err(e),
    }
}

proof fn lemma_prepend_decoded_assoc(
    a: Seq<u8>,
    na: nat,
    b: Seq<u8>,
    nb: nat,
    r: Result<(Seq<u8>, nat), ProtocolError>,
)
    ensures
        prepend_decoded(a, na, prepend_decoded(b, nb, r)) == prepend_decoded(a + b, na + nb, r),
{
    match r {
        Ok((rest, used)) => {
            assert(a + (b + rest) =~= (a + b) + rest);
        },
        Err(e) => {},
    }
}

/// Decodes data protected by one CRC after every 16 payload bytes.
pub fn decode_crc_blocks(encoded: &[u8], payload_len: usize) -> (r: Result<Vec<u8>, ProtocolError>)
    ensures
        match spec_decode_crc_blocks(encoded@, payload_len as nat) {
            Ok(data) => r matches Ok(v) && v@ == data,
            Err(e) => r == Err::<Vec<u8>, ProtocolError>(e),
        },
{
    let mut decoded: Vec<u8> = Vec::with_capacity(payload_len);
    let mut offset: usize = 0;
    proof {
        match decode_blocks(encoded@, payload_len as nat) {
            Ok((rest, used)) => {
                assert(Seq::<u8>::empty() + rest =~= rest);
            },
            Err(e) => {},
        }
        assert(encoded@.skip(0) =~= encoded@);
    }
    while decoded.len() < payload_len
        invariant
            decoded.len() <= payload_len,
            offset <= encoded.len(),
            decode_blocks(encoded@, payload_len as nat) == prepend_decoded(
                decoded@,
                offset as nat,
                decode_blocks(encoded@.skip(offset as int), (payload_len - decoded.len()) as nat),
            ),
        decreases payload_len - decoded.len(),
    {
        let remaining = payload_len - decoded.len();
        let block_len = if remaining < CRC_BLOCK_SIZE {
            remaining
        } else {
            CRC_BLOCK_SIZE
        };
        let ghost rest = encoded@.skip(offset as int);
        if encoded.len() - offset < block_len + 2 {
            return Err(ProtocolError::UnexpectedEof);
        }
        let block = &encoded[offset..offset + block_len];
        let crc = &encoded[offset + block_len..offset + block_len + 2];
        proof {
            assert(block@ =~= rest.take(block_len as int));
            assert(crc@ =~= rest.subrange(block_len as int, block_len + 2));
        }
        if let Err(e) = verify_crc(block, crc) {
            return Err(e);
        }
        let ghost prev = decoded@;
        extend_bytes(&mut decoded, block);
        proof {
            assert(rest.skip(block_len + 2) =~= encoded@.skip(offset + block_len + 2));
            assert(decode_blocks(rest, remaining as nat) == prepend_decoded(
                block@,
                (block_len + 2) as nat,
                decode_blocks(rest.skip(block_len + 2), (remaining - block_len) as nat),
            ));
            lemma_prepend_decoded_assoc(
                prev,
                offset as nat,
                block@,
                (block_len + 2) as nat,
                decode_blocks(encoded@.skip(offset + block_len + 2), (remaining - block_len) as nat),
            );
        }
        offset = offset + block_len + 2;
    }
    if offset != encoded.len() {
        return Err(ProtocolError::InvalidLength { expected: offset, actual: encoded.len() });
    }
    proof {
        assert(decoded@ + Seq::<u8>::empty() =~= decoded@);
    }
    Ok(decoded)
}

/// Decoding what [`encode_crc_blocks`] wrote, followed by anything, takes back the data and
/// exactly the bytes that encoding wrote.
pub proof fn lemma_decode_blocks_of_crc_blocks(data: Seq<u8>, tail: Seq<u8>)
    ensures
        decode_blocks(crc_blocks(data) + tail, data.len()) == Ok::<(Seq<u8>, nat), ProtocolError>(
            (data, crc_blocks(data).len()),
        ),
    decreases data.len(),
{
    if data.len() == 0 {
        assert(crc_blocks(data) =~= Seq::<u8>::empty());
        assert(data =~= Seq::<u8>::empty());
    } else {
        let n = chunk_len(data.len());
        let chunk = data.take(n as int);
        let c = spec_crc16(chunk);
        let crc_bytes = le_bytes(c as nat, 2);
        let rest = data.skip(n as int);
        let enc = crc_blocks(data) + tail;
        assert(pow256(2) == 65536) by {
            reveal_with_fuel(pow256, 3);
        }
        lemma_le_round_trip(c as nat, 2);
        lemma_decode_blocks_of_crc_blocks(rest, tail);
        assert(crc_blocks(data) == chunk + crc_bytes + crc_blocks(rest));
        assert(enc =~= chunk + crc_bytes + (crc_blocks(rest) + tail));
        assert(enc.take(n as int) =~= chunk);
        assert(enc.subrange(n as int, n + 2int) =~= crc_bytes);
        assert(le16(enc.subrange(n as int, n + 2int)) == c);
        assert(enc.skip(n + 2int) =~= crc_blocks(rest) + tail);
        assert(chunk + rest =~= data);
        assert(rest.len() == (data.len() - n) as nat);
        assert(crc_blocks(data).len() == crc_blocks(rest).len() + n + 2);
        assert(decode_blocks(enc, data.len()) == prepend_decoded(
            chunk,
            n + 2,
            decode_blocks(enc.skip(n + 2int), rest.len()),
        ));
    }
}

/// Decoding what [`encode_crc_blocks`] wrote gives back the data.
pub proof fn lemma_crc_blocks_round_trip(data: Seq<u8>)
    ensures
        spec_decode_crc_blocks(crc_blocks(data), data.len()) == Ok::<Seq<u8>, ProtocolError>(data),
{
    lemma_decode_blocks_of_crc_blocks(data, seq![]);
    assert(crc_blocks(data) + Seq::<u8>::empty() =~= crc_blocks(data));
}

} // verus!
