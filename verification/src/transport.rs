use vstd::prelude::*;

use crate::primitives::{extend_bytes, ProtocolError};

verus! {

/// Maximum transport payload carried by one link payload.
pub const MAX_TRANSPORT_PAYLOAD: usize = 249;

/// Transport header flags and sequence number.
#[derive(Debug, Clone, Copy, PartialEq, Eq, Structural)]
pub struct TransportHeader {
    /// First segment in an application fragment.
    pub fir: bool,
    /// Final segment in an application fragment.
    pub fin: bool,
    /// Six-bit sequence number.
    pub sequence: u8,
}

impl TransportHeader {
    pub open spec fn spec_encode(self) -> u8 {
        ((if self.fir {
            128int
        } else {
            0int
        }) + (if self.fin {
            64int
        } else {
            0int
        }) + self.sequence % 64) as u8
    }

    pub open spec fn spec_decode(value: u8) -> TransportHeader {
        TransportHeader { fir: value >= 128, fin: (value / 64) % 2 == 1, sequence: value % 64 }
    }

    /// Creates a new transport header.
    pub fn new(fir: bool, fin: bool, sequence: u8) -> (r: TransportHeader)
        ensures
            r == (TransportHeader { fir, fin, sequence: sequence % 64 }),
    {
        TransportHeader { fir, fin, sequence: sequence % 64 }
    }

    /// Encodes the header into one byte.
    pub fn encode(self) -> (r: u8)
        ensures
            r == self.spec_encode(),
    {
        (if self.fir {
            0x80u8
        } else {
            0u8
        }) + (if self.fin {
            0x40u8
        } else {
            0u8
        }) + self.sequence % 64
    }

    /// Decodes one byte into a transport header.
    pub fn decode(value: u8) -> (r: TransportHeader)
        ensures
            r == TransportHeader::spec_decode(value),
    {
        TransportHeader { fir: value >= 0x80, fin: (value / 64) % 2 == 1, sequence: value % 64 }
    }
}

/// Decoding an encoded header gives back the header, when its sequence number fits six bits.
pub proof fn lemma_header_round_trip(h: TransportHeader)
    requires
        h.sequence < 64,
    ensures
        TransportHeader::spec_decode(h.spec_encode()) == h,
{
}

/// The abstract content of a transport segment.
pub struct TransportSegmentView {
    pub header: TransportHeader,
    pub payload: Seq<u8>,
}

/// A transport segment.
#[derive(Debug, Clone, PartialEq, Eq)]
pub struct TransportSegment {
    /// Segment header.
    pub header: TransportHeader,
    /// Segment payload.
    pub payload: Vec<u8>,
}

impl View for TransportSegment {
    type V = TransportSegmentView;

    open spec fn view(&self) -> TransportSegmentView {
        TransportSegmentView { header: self.header, payload: self.payload@ }
    }
}

/// The bytes of an encoded segment: the header byte, then the payload.
pub open spec fn spec_encode_segment(s: TransportSegmentView) -> Seq<u8> {
    seq![s.header.spec_encode()] + s.payload
}

/// The segment that `input` holds, or why it holds none.
pub open spec fn spec_decode_segment(input: Seq<u8>) -> Result<TransportSegmentView, ProtocolError> {
    if input.len() == 0 {
        Err(ProtocolError::UnexpectedEof)
    } else if input.len() > MAX_TRANSPORT_PAYLOAD + 1 {
        Err(
            ProtocolError::InvalidLength {
                expected: (MAX_TRANSPORT_PAYLOAD + 1) as usize,
                actual: input.len() as usize,
            },
        )
    } else {
        Ok(
            TransportSegmentView {
                header: TransportHeader::spec_decode(input[0]),
                payload: input.drop_first(),
            },
        )
    }
}

impl TransportSegment {
    /// Encodes a segment into bytes.
    pub fn encode(&self) -> (r: Vec<u8>)
        ensures
            r@ == spec_encode_segment(self@),
    {
        let mut out: Vec<u8> = Vec::new();
        out.push(self.header.encode());
        extend_bytes(&mut out, self.payload.as_slice());
        proof {
            assert(out@ =~= spec_encode_segment(self@));
        }
        out
    }

    /// Decodes bytes into one segment.
    pub fn decode(input: &[u8]) -> (r: Result<TransportSegment, ProtocolError>)
        ensures
            match spec_decode_segment(input@) {
                Ok(v) => r matches Ok(s) && s@ == v,
                Err(e) => r == Err::<TransportSegment, ProtocolError>(e),
            },
    {
        if input.len() == 0 {
            return Err(ProtocolError::UnexpectedEof);
        }
        if input.len() > MAX_TRANSPORT_PAYLOAD + 1 {
            return Err(
                ProtocolError::InvalidLength {
                    expected: MAX_TRANSPORT_PAYLOAD + 1,
                    actual: input.len(),
                },
            );
        }
        let mut payload: Vec<u8> = Vec::new();
        extend_bytes(&mut payload, &input[1..input.len()]);
        proof {
            assert(payload@ =~= input@.drop_first());
        }
        Ok(TransportSegment { header: TransportHeader::decode(input[0]), payload })
    }
}

/// Decoding an encoded segment gives back the segment, when its payload fits one link frame
/// and its sequence number fits six bits.
pub proof fn lemma_segment_round_trip(s: TransportSegmentView)
    requires
        s.payload.len() <= MAX_TRANSPORT_PAYLOAD,
        s.header.sequence < 64,
    ensures
        spec_decode_segment(spec_encode_segment(s)) == Ok::<TransportSegmentView, ProtocolError>(s),
{
    assert(spec_encode_segment(s).drop_first() =~= s.payload);
}

/// How many segments an application fragment of `len` bytes is split into.
pub open spec fn fragment_count(len: nat) -> nat {
    if len == 0 {
        1
    } else {
        (len + 248) / 249
    }
}

/// The `i`-th segment that [`fragment`] produces.
pub open spec fn fragment_segment(app: Seq<u8>, start: u8, i: int) -> TransportSegmentView {
    let end = if 249 * (i + 1) < app.len() {
        249 * (i + 1)
    } else {
        app.len() as int
    };
    TransportSegmentView {
        header: TransportHeader {
            fir: i == 0,
            fin: i + 1 == fragment_count(app.len()),
            sequence: ((start + i) % 64) as u8,
        },
        payload: app.subrange(249 * i, end),
    }
}

/// The segments that [`fragment`] produces.
pub open spec fn spec_fragment(app: Seq<u8>, start: u8) -> Seq<TransportSegmentView> {
    Seq::new(fragment_count(app.len()), |i: int| fragment_segment(app, start, i))
}

/// Splits application bytes into transport segments.
pub fn fragment(application: &[u8], start_sequence: u8) -> (r: Vec<TransportSegment>)
    ensures
        r.len() == spec_fragment(application@, start_sequence).len(),
        forall|i: int|
            0 <= i < r.len() ==> #[trigger] r@[i]@ == spec_fragment(application@, start_sequence)[i],
{
    let len = application.len();
    let mut out: Vec<TransportSegment> = Vec::new();
    let mut offset: usize = 0;
    let mut index: usize = 0;
    let ghost count = fragment_count(len as nat);
    loop
        invariant_except_break
            index < count,
            offset < len || (len == 0 && index == 0),
            out.len() == index,
            forall|i: int|
                0 <= i < index ==> #[trigger] out@[i]@ == fragment_segment(
                    application@,
                    start_sequence,
                    i,
                ),
        invariant
            offset == 249 * index,
            len == application@.len(),
            count == fragment_count(len as nat),
        ensures
            out.len() == count,
            forall|i: int|
                0 <= i < count ==> #[trigger] out@[i]@ == fragment_segment(
                    application@,
                    start_sequence,
                    i,
                ),
        decreases len - offset,
    {
        let end = if len - offset <= MAX_TRANSPORT_PAYLOAD {
            len
        } else {
            offset + MAX_TRANSPORT_PAYLOAD
        };
        let mut payload: Vec<u8> = Vec::new();
        extend_bytes(&mut payload, &application[offset..end]);
        let last = end == len;
        proof {
            assert(payload@ =~= application@.subrange(offset as int, end as int));
            if len > 0 {
                assert(last == (index + 1 == count));
            }
        }
        let sequence = start_sequence.wrapping_add((index % 256) as u8);
        proof {
            assert(sequence % 64 == ((start_sequence + index) % 64) as u8) by (nonlinear_arith)
                requires
                    sequence == (start_sequence + index % 256) % 256,
            ;
        }
        let header = TransportHeader::new(index == 0, last, sequence);
        let segment = TransportSegment { header, payload };
        proof {
            assert(segment@ == fragment_segment(application@, start_sequence, index as int));
        }
        out.push(segment);
        if last {
            break;
        }
        offset = end;
        index = index + 1;
    }
    proof {
        assert forall|i: int| 0 <= i < out.len() implies #[trigger] out@[i]@ == spec_fragment(
            application@,
            start_sequence,
        )[i] by {
            assert(out@[i]@ == fragment_segment(application@, start_sequence, i));
        }
    }
    out
}

/// The abstract state of a [`Reassembler`].
pub struct ReassemblerView {
    pub expected: Option<u8>,
    pub buffer: Seq<u8>,
}

/// The state a reassembler is in before any segment and after a reset.
pub open spec fn idle_reassembler() -> ReassemblerView {
    ReassemblerView { expected: None, buffer: seq![] }
}

/// The state after pushing `seg` into `st`, and what the push returns.
pub open spec fn spec_push(st: ReassemblerView, seg: TransportSegmentView) -> (
    ReassemblerView,
    Result<Option<Seq<u8>>, ProtocolError>,
) {
    let (expected, buffer) = if seg.header.fir {
        (Some(seg.header.sequence), Seq::<u8>::empty())
    } else {
        (st.expected, st.buffer)
    };
    match expected {
        None => (st, Err(ProtocolError::InvalidFragment)),
        Some(e) => if seg.header.sequence != e {
            (
                idle_reassembler(),
                Err(ProtocolError::InvalidSequence { expected: e, actual: seg.header.sequence }),
            )
        } else if seg.header.fin {
            (idle_reassembler(), Ok(Some(buffer + seg.payload)))
        } else {
            (
                ReassemblerView {
                    expected: Some(((e + 1) % 64) as u8),
                    buffer: buffer + seg.payload,
                },
                Ok(None),
            )
        },
    }
}

/// Reassembles transport segments into application fragments.
#[derive(Debug)]
pub struct Reassembler {
    expected_sequence: Option<u8>,
    buffer: Vec<u8>,
}

impl View for Reassembler {
    type V = ReassemblerView;

    closed spec fn view(&self) -> ReassemblerView {
        ReassemblerView { expected: self.expected_sequence, buffer: self.buffer@ }
    }
}

impl Default for Reassembler {
    fn default() -> (r: Reassembler)
        ensures
            r@ == idle_reassembler(),
    {
        Reassembler::new()
    }
}

impl Reassembler {
    #[verifier::type_invariant]
    spec fn expected_fits(self) -> bool {
        match self.expected_sequence {
            Some(e) => e < 64,
            None => true,
        }
    }

    /// Creates an empty reassembler.
    pub fn new() -> (r: Reassembler)
        ensures
            r@ == idle_reassembler(),
    {
        let r = Reassembler { expected_sequence: None, buffer: Vec::new() };
        proof {
            assert(r@ =~= idle_reassembler());
        }
        r
    }

    /// Clears all partial state.
    pub fn reset(&mut self)
        ensures
            final(self)@ == idle_reassembler(),
    {
        self.expected_sequence = None;
        self.buffer = Vec::new();
    }

    /// Pushes one segment. Returns `Ok(Some(fragment))` when reassembly completes.
    pub fn push(&mut self, segment: TransportSegment) -> (r: Result<Option<Vec<u8>>, ProtocolError>)
        requires
            !(segment.header.fir && segment.header.sequence == 255),
        ensures
            final(self)@ == spec_push(old(self)@, segment@).0,
            match spec_push(old(self)@, segment@).1 {
                Ok(Some(bytes)) => r matches Ok(Some(v)) && v@ == bytes,
                Ok(None) => r matches Ok(None),
                Err(e) => r == Err::<Option<Vec<u8>>, ProtocolError>(e),
            },
    {
        proof {
            use_type_invariant(&*self);
        }
        let mut buffer: Vec<u8> = Vec::new();
        std::mem::swap(&mut buffer, &mut self.buffer);
        let current = if segment.header.fir {
            buffer = Vec::new();
            Some(segment.header.sequence)
        } else {
            self.expected_sequence
        };
        let expected = match current {
            Some(e) => e,
            None => {
                self.buffer = buffer;
                return Err(ProtocolError::InvalidFragment);
            },
        };
        if segment.header.sequence != expected {
            self.reset();
            return Err(ProtocolError::InvalidSequence { expected, actual: segment.header.sequence });
        }
        extend_bytes(&mut buffer, segment.payload.as_slice());
        self.expected_sequence = Some((expected + 1) % 64);
        if segment.header.fin {
            self.expected_sequence = None;
            Ok(Some(buffer))
        } else {
            self.buffer = buffer;
            Ok(None)
        }
    }
}

/// Pushes `segs` one after another into a reassembler in state `st`: the final state and
/// what each push returned.
pub open spec fn feed(st: ReassemblerView, segs: Seq<TransportSegmentView>) -> (
    ReassemblerView,
    Seq<Result<Option<Seq<u8>>, ProtocolError>>,
)
    decreases segs.len(),
{
    if segs.len() == 0 {
        (st, seq![])
    } else {
        let (before, results) = feed(st, segs.drop_last());
        let (after, r) = spec_push(before, segs.last());
        (after, results.push(r))
    }
}

/// The segments of a fragment each fit one link frame, carry a six-bit sequence number, and
/// there is at least one of them.
pub proof fn lemma_fragment_segments_fit(app: Seq<u8>, start: u8)
    ensures
        spec_fragment(app, start).len() >= 1,
        forall|i: int|
            0 <= i < spec_fragment(app, start).len() ==> {
                &&& (#[trigger] spec_fragment(app, start)[i]).payload.len() <= MAX_TRANSPORT_PAYLOAD
                &&& spec_fragment(app, start)[i].header.sequence < 64
            },
{
}

/// Pushing the segments of a fragment, in order, into a reassembler in any state completes
/// the fragment at the last segment and at no earlier one, without error.
pub proof fn lemma_fragment_reassembles(st: ReassemblerView, app: Seq<u8>, start: u8)
    ensures
        ({
            let segs = spec_fragment(app, start);
            let results = feed(st, segs).1;
            &&& results.len() == segs.len()
            &&& forall|i: int|
                0 <= i < segs.len() - 1 ==> #[trigger] results[i] == Ok::<
                    Option<Seq<u8>>,
                    ProtocolError,
                >(None)
            &&& results[segs.len() - 1] == Ok::<Option<Seq<u8>>, ProtocolError>(Some(app))
            &&& feed(st, segs).0 == idle_reassembler()
        }),
{
    let segs = spec_fragment(app, start);
    let n = segs.len();
    lemma_feed_prefix_upto(st, app, start, n as int);
    assert(segs.take(n as int) =~= segs);
}

proof fn lemma_feed_prefix_upto(st: ReassemblerView, app: Seq<u8>, start: u8, k: int)
    requires
        1 <= k <= spec_fragment(app, start).len(),
    ensures
        feed_prefix_ok(st, app, start, k),
    decreases k,
{
    if k > 1 {
        lemma_feed_prefix_upto(st, app, start, k - 1);
    }
    lemma_feed_prefix(st, app, start, k);
}

/// After the first `k` segments of a fragment (all but the last), the reassembler holds the
/// bytes so far and expects the next sequence number, and every push returned `Ok(None)`.
pub open spec fn feed_prefix_ok(st: ReassemblerView, app: Seq<u8>, start: u8, k: int) -> bool {
    let segs = spec_fragment(app, start);
    let (state, results) = feed(st, segs.take(k));
    &&& results.len() == k
    &&& forall|i: int| 0 <= i < k && i < segs.len() - 1 ==> #[trigger] results[i] == Ok::<
        Option<Seq<u8>>,
        ProtocolError,
    >(None)
    &&& k < segs.len() ==> state == (ReassemblerView {
        expected: Some(((start + k) % 64) as u8),
        buffer: app.subrange(0, 249 * k),
    })
    &&& k == segs.len() ==> state == idle_reassembler() && results[k - 1] == Ok::<
        Option<Seq<u8>>,
        ProtocolError,
    >(Some(app))
}

proof fn lemma_feed_prefix(st: ReassemblerView, app: Seq<u8>, start: u8, k: int)
    requires
        1 <= k <= spec_fragment(app, start).len(),
        k > 1 ==> feed_prefix_ok(st, app, start, k - 1),
    ensures
        feed_prefix_ok(st, app, start, k),
{
    let segs = spec_fragment(app, start);
    let n = segs.len();
    let pre = segs.take(k);
    assert(pre.drop_last() =~= segs.take(k - 1));
    assert(pre.last() == segs[k - 1]);
    let seg = segs[k - 1];
    assert(seg == fragment_segment(app, start, k - 1));
    let (before, results) = feed(st, segs.take(k - 1));
    let end = if 249 * k < app.len() {
        249 * k
    } else {
        app.len() as int
    };
    if k == 1 {
        assert(segs.take(0) =~= Seq::<TransportSegmentView>::empty());
        assert(seg.header.fir);
        assert(Seq::<u8>::empty() + seg.payload =~= app.subrange(0, end));
    } else {
        assert(!seg.header.fir);
        assert(before.expected == Some(((start + (k - 1)) % 64) as u8));
        assert(app.subrange(0, 249 * (k - 1)) + seg.payload =~= app.subrange(0, end));
        assert(((start + (k - 1)) % 64 + 1) % 64 == (start + k) % 64);
    }
    if k < n {
        assert(249 * k < app.len());
    } else {
        assert(app.subrange(0, end) =~= app);
    }
}

} // verus!
