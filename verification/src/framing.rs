use vstd::prelude::*;

use crate::link::{
    lemma_frame_round_trip, plain_primary, spec_decode_frame, spec_encode_frame, Direction,
    LinkFrame, LinkFrameView, PrimaryFunction,
};
use crate::primitives::ProtocolError;
use crate::primitives::Address;
use crate::transport::{
    fragment, fragment_count, lemma_fragment_segments_fit, spec_encode_segment, spec_fragment,
    TransportSegmentView,
};

verus! {

/// The abstract views of a list of link frames.
pub open spec fn frame_views(frames: Seq<LinkFrame>) -> Seq<LinkFrameView> {
    frames.map_values(|f: LinkFrame| f@)
}

/// The unconfirmed user data frame that carries one transport segment.
pub open spec fn user_data_frame(
    direction: Direction,
    destination: u16,
    source: u16,
    segment: TransportSegmentView,
) -> LinkFrameView {
    LinkFrameView {
        control: plain_primary(direction, PrimaryFunction::UnconfirmedUserData),
        destination,
        source,
        payload: spec_encode_segment(segment),
    }
}

/// The frames that carry the segments of `application`, numbered from `start`.
pub open spec fn spec_fragment_frames(
    application: Seq<u8>,
    start: u8,
    direction: Direction,
    destination: u16,
    source: u16,
) -> Seq<LinkFrameView> {
    spec_fragment(application, start).map_values(
        |s: TransportSegmentView| user_data_frame(direction, destination, source, s),
    )
}

/// The transport sequence number after the segments of `application`, numbered from `start`,
/// have been sent.
pub open spec fn next_transport_sequence(start: u8, application_len: nat) -> u8 {
    ((start + fragment_count(application_len)) % 64) as u8
}

/// Splits `application` into transport segments numbered from `start` and wraps each in an
/// unconfirmed user data frame; returns the frames and the next transport sequence number.
pub fn fragment_frames(
    application: &[u8],
    start: u8,
    direction: Direction,
    destination: Address,
    source: Address,
) -> (r: (Vec<LinkFrame>, u8))
    ensures
        frame_views(r.0@) == spec_fragment_frames(
            application@,
            start,
            direction,
            destination@,
            source@,
        ),
        r.1 == next_transport_sequence(start, application@.len()),
{
    let segments = fragment(application, start);
    let ghost segs = spec_fragment(application@, start);
    proof {
        lemma_fragment_segments_fit(application@, start);
    }
    let mut frames: Vec<LinkFrame> = Vec::new();
    let mut i: usize = 0;
    while i < segments.len()
        invariant
            i <= segments.len(),
            segments.len() == segs.len(),
            segs == spec_fragment(application@, start),
            forall|k: int| 0 <= k < segments.len() ==> #[trigger] segments@[k]@ == segs[k],
            forall|k: int|
                0 <= k < segs.len() ==> (#[trigger] segs[k]).payload.len() <= 249,
            frames.len() == i,
            forall|k: int|
                0 <= k < i ==> #[trigger] frames@[k]@ == user_data_frame(
                    direction,
                    destination@,
                    source@,
                    segs[k],
                ),
        decreases segments.len() - i,
    {
        let payload = segments[i].encode();
        assert(segments@[i as int]@ == segs[i as int]);
        let built = match direction {
            Direction::MasterToOutstation => LinkFrame::unconfirmed_user_data(
                destination,
                source,
                payload,
            ),
            Direction::OutstationToMaster => LinkFrame::outstation_unconfirmed_user_data(
                destination,
                source,
                payload,
            ),
        };
        match built {
            Ok(frame) => {
                frames.push(frame);
            },
            Err(_) => {
                proof {
                    assert(false);
                }
            },
        }
        i = i + 1;
    }
    proof {
        assert(frame_views(frames@) =~= spec_fragment_frames(
            application@,
            start,
            direction,
            destination@,
            source@,
        ));
    }
    let count: usize = segments.len() % 64;
    let next: usize = ((start % 64) as usize + count) % 64;
    proof {
        vstd::arithmetic::div_mod::lemma_add_mod_noop(start as int, segments.len() as int, 64);
    }
    (frames, next as u8)
}

/// Every frame that carries a segment of a fragment decodes from its own encoding, so the
/// frames survive being written to and read from the wire unchanged.
pub proof fn lemma_fragment_frames_round_trip(
    application: Seq<u8>,
    start: u8,
    direction: Direction,
    destination: u16,
    source: u16,
)
    ensures
        forall|i: int|
            0 <= i < spec_fragment_frames(application, start, direction, destination, source).len()
                ==> spec_decode_frame(
                spec_encode_frame(
                    #[trigger] spec_fragment_frames(
                        application,
                        start,
                        direction,
                        destination,
                        source,
                    )[i],
                ),
            ) == Ok::<LinkFrameView, ProtocolError>(
                spec_fragment_frames(application, start, direction, destination, source)[i],
            ),
{
    let frames = spec_fragment_frames(application, start, direction, destination, source);
    lemma_fragment_segments_fit(application, start);
    assert forall|i: int| 0 <= i < frames.len() implies spec_decode_frame(
        spec_encode_frame(#[trigger] frames[i]),
    ) == Ok::<LinkFrameView, ProtocolError>(frames[i]) by {
        let seg = spec_fragment(application, start)[i];
        assert(frames[i].payload == spec_encode_segment(seg));
        lemma_frame_round_trip(frames[i]);
    }
}

} // verus!
