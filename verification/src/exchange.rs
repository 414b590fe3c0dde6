use vstd::prelude::*;

use crate::app::{
    lemma_fragment_round_trip, object_round_trips, spec_decode_fragment, spec_encode_fragment,
    spec_encode_object, spec_includes_iin,
    spec_encode_objects, AppObjectView, ApplicationFragmentView, DataClass, FunctionCode,
};
use crate::primitives::ProtocolError;
use crate::framing::spec_fragment_frames;
use crate::link::{Direction, LinkFrameView};
use crate::master::{
    accept_frames, spec_accept_frame, spec_poll_request, spec_request_frames, style_direction,
    with_reassembler, MasterSessionView,
};
use crate::outstation::{
    answer_direction, handle_frames, requests_static, response_control, spec_answer,
    spec_handle_frame, spec_integrity_objects, OutstationSessionView,
};
use crate::transport::{
    feed, fragment_segment, idle_reassembler, lemma_fragment_reassembles,
    lemma_fragment_segments_fit, lemma_segment_round_trip, spec_encode_segment, spec_fragment,
    spec_push,
    ReassemblerView, TransportSegmentView,
};

verus! {

/// The response an outstation gives to an integrity poll numbered `sequence`: a single
/// fragment that echoes the sequence and carries the integrity objects of its database.
pub open spec fn poll_response(o: OutstationSessionView, sequence: u8) -> ApplicationFragmentView {
    ApplicationFragmentView {
        control: response_control(sequence),
        function: FunctionCode::Response,
        iin: 0,
        objects: spec_integrity_objects(o.database),
    }
}

proof fn lemma_encode_objects_step(objects: Seq<AppObjectView>, k: int)
    requires
        0 <= k < objects.len(),
        spec_encode_objects(objects.take(k)) is Ok,
        spec_encode_object(objects[k]) is Ok,
    ensures
        spec_encode_objects(objects.take(k + 1)) == Ok::<Seq<u8>, ProtocolError>(
            spec_encode_objects(objects.take(k))->Ok_0 + spec_encode_object(objects[k])->Ok_0,
        ),
{
    assert(objects.take(k + 1).drop_last() =~= objects.take(k));
}

/// Request objects that each encode into a three-byte header.
spec fn scan_objects(objects: Seq<AppObjectView>) -> bool {
    forall|i: int|
        0 <= i < objects.len() ==> {
            &&& object_round_trips(#[trigger] objects[i])
            &&& spec_encode_object(objects[i]) is Ok
            &&& spec_encode_object(objects[i])->Ok_0.len() == 3
        }
}

proof fn lemma_scan_objects_encode(objects: Seq<AppObjectView>, k: int)
    requires
        scan_objects(objects),
        0 <= k <= objects.len(),
    ensures
        spec_encode_objects(objects.take(k)) is Ok,
        spec_encode_objects(objects.take(k))->Ok_0.len() == 3 * k,
    decreases k,
{
    if k == 0 {
        assert(objects.take(0) =~= Seq::<AppObjectView>::empty());
    } else {
        lemma_scan_objects_encode(objects, k - 1);
        assert(object_round_trips(objects[k - 1]));
        lemma_encode_objects_step(objects, k - 1);
    }
}

proof fn lemma_scan_object(o: AppObjectView)
    requires
        o is IntegrityPoll || (o is ClassScan && o->ClassScan_0 != DataClass::Class0),
    ensures
        object_round_trips(o),
        spec_encode_object(o) is Ok,
        spec_encode_object(o)->Ok_0.len() == 3,
{
}

#[verifier::rlimit(30)]
proof fn lemma_poll_request_encodes(m: MasterSessionView)
    ensures
        spec_encode_fragment(spec_poll_request(m.config.link_style, m.app_sequence)) is Ok,
        spec_encode_fragment(spec_poll_request(m.config.link_style, m.app_sequence))->Ok_0.len()
            <= 14,
        forall|i: int|
            0 <= i < spec_poll_request(m.config.link_style, m.app_sequence).objects.len()
                ==> object_round_trips(
                #[trigger] spec_poll_request(m.config.link_style, m.app_sequence).objects[i],
            ),
{
    let request = spec_poll_request(m.config.link_style, m.app_sequence);
    let objects = request.objects;
    assert forall|i: int| 0 <= i < objects.len() implies {
        &&& object_round_trips(#[trigger] objects[i])
        &&& spec_encode_object(objects[i]) is Ok
        &&& spec_encode_object(objects[i])->Ok_0.len() == 3
    } by {
        lemma_scan_object(objects[i]);
    }
    lemma_scan_objects_encode(objects, objects.len() as int);
    assert(objects.take(objects.len() as int) =~= objects);
    assert(objects.len() <= 4);
}

/// An outstation answers the request frame of a master's integrity poll addressed to it with
/// the frames of the response that echoes the poll's sequence number and carries the
/// integrity objects of its database, numbered from its own transport sequence and sent back
/// to the master; its reassembly ends idle. The poll fits one frame.
pub proof fn lemma_outstation_answers_poll(m: MasterSessionView, o: OutstationSessionView)
    requires
        m.config.outstation == o.config.outstation,
    ensures
        ({
            let request = spec_poll_request(m.config.link_style, m.app_sequence);
            let bytes = spec_encode_fragment(request)->Ok_0;
            let frames = spec_request_frames(m.config, bytes, m.transport_sequence);
            let response = poll_response(o, m.app_sequence);
            let (o2, answer) = spec_handle_frame(o, frames[0]);
            &&& spec_encode_fragment(request) is Ok
            &&& frames.len() == 1
            &&& o2.reassembler == idle_reassembler()
            &&& o2.database == o.database
            &&& answer == match spec_encode_fragment(response) {
                Ok(encoded) => Ok(
                    spec_fragment_frames(
                        encoded,
                        o.transport_sequence,
                        answer_direction(style_direction(m.config.link_style)),
                        m.config.master@,
                        o.config.outstation@,
                    ),
                ),
                Err(e) => Err(e),
            }
        }),
{
    let request = spec_poll_request(m.config.link_style, m.app_sequence);
    lemma_poll_request_encodes(m);
    let bytes = spec_encode_fragment(request)->Ok_0;
    let segs = spec_fragment(bytes, m.transport_sequence);
    let seg = fragment_segment(bytes, m.transport_sequence, 0);
    assert(segs.len() == 1);
    assert(segs[0] == seg);
    assert(seg.payload =~= bytes);
    lemma_segment_round_trip(seg);
    assert(request.control.sequence < 16);
    lemma_fragment_round_trip(request);
    assert(request.objects[0] is IntegrityPoll);
    assert(requests_static(request.objects));
}

/// What the master makes of the bytes that a push gave back, when the push did not fail.
pub open spec fn decoded_push(r: Result<Option<Seq<u8>>, ProtocolError>) -> Result<
    Option<ApplicationFragmentView>,
    ProtocolError,
> {
    match r {
        Ok(Some(bytes)) => match spec_decode_fragment(bytes) {
            Ok(f) => Ok(Some(f)),
            Err(e) => Err(e),
        },
        Ok(None) => Ok(None),
        Err(e) => Err(e),
    }
}

proof fn lemma_feed_take(st: ReassemblerView, segs: Seq<TransportSegmentView>, k: int)
    requires
        0 <= k <= segs.len(),
    ensures
        feed(st, segs.take(k)).1 == feed(st, segs).1.take(k),
        feed(st, segs).1.len() == segs.len(),
    decreases segs.len(),
{
    if segs.len() == 0 {
        assert(segs.take(k) =~= segs);
    } else if k == segs.len() {
        assert(segs.take(k) =~= segs);
        lemma_feed_take(st, segs.drop_last(), k - 1);
        assert(feed(st, segs).1.take(k) =~= feed(st, segs).1);
    } else {
        lemma_feed_take(st, segs.drop_last(), k);
        assert(segs.drop_last().take(k) =~= segs.take(k));
        assert(feed(st, segs).1.take(k) =~= feed(st, segs.drop_last()).1.take(k));
    }
}

/// Taking the frames of a fragment's segments one by one follows the reassembler fed with
/// those segments, as long as no push fails.
proof fn lemma_accept_follows_feed(
    m: MasterSessionView,
    app: Seq<u8>,
    start: u8,
    direction: Direction,
    source: u16,
    k: int,
)
    requires
        0 <= k <= spec_fragment(app, start).len(),
        forall|i: int|
            0 <= i < k ==> (#[trigger] feed(m.reassembler, spec_fragment(app, start)).1[i]) is Ok,
    ensures
        ({
            let segs = spec_fragment(app, start);
            let frames = spec_fragment_frames(app, start, direction, m.config.master@, source);
            let (fs, fr) = feed(m.reassembler, segs.take(k));
            let (ms, mr) = accept_frames(m, frames.take(k));
            &&& ms == with_reassembler(m, fs)
            &&& mr.len() == k
            &&& forall|i: int| 0 <= i < k ==> #[trigger] mr[i] == decoded_push(fr[i])
        }),
    decreases k,
{
    let segs = spec_fragment(app, start);
    let frames = spec_fragment_frames(app, start, direction, m.config.master@, source);
    if k == 0 {
        assert(frames.take(0) =~= Seq::<LinkFrameView>::empty());
        assert(segs.take(0) =~= Seq::<TransportSegmentView>::empty());
    } else {
        lemma_accept_follows_feed(m, app, start, direction, source, k - 1);
        assert(frames.take(k).drop_last() =~= frames.take(k - 1));
        assert(segs.take(k).drop_last() =~= segs.take(k - 1));
        lemma_fragment_segments_fit(app, start);
        let seg = segs[k - 1];
        lemma_segment_round_trip(seg);
        assert(frames.take(k).last() == frames[k - 1]);
        assert(segs.take(k).last() == seg);
        lemma_feed_take(m.reassembler, segs, k);
        let full = feed(m.reassembler, segs).1;
        assert(full[k - 1] is Ok);
        assert(feed(m.reassembler, segs.take(k)).1[k - 1] == full[k - 1]);
        let (fs, fr) = feed(m.reassembler, segs.take(k - 1));
        let (ms, mr) = accept_frames(m, frames.take(k - 1));
        let (fs2, fr2) = feed(m.reassembler, segs.take(k));
        let (ms2, mr2) = accept_frames(m, frames.take(k));
        assert(fr2 == fr.push(spec_push(fs, seg).1));
        assert(mr2 == mr.push(spec_accept_frame(ms, frames[k - 1]).1));
        lemma_feed_take(m.reassembler, segs.take(k - 1), 0);
        assert(fr.len() == k - 1);
        assert(frames[k - 1].payload == spec_encode_segment(seg));
        assert(frames[k - 1].destination == m.config.master@);
        assert(mr2[k - 1] == decoded_push(fr2[k - 1]));
        assert forall|i: int| 0 <= i < k implies #[trigger] mr2[i] == decoded_push(fr2[i]) by {
            if i < k - 1 {
                assert(mr2[i] == mr[i]);
                assert(fr2[i] == fr[i]);
            }
        }
    }
}

/// The frames that carry an encoded fragment to a master, taken in order, complete that
/// fragment at the last frame and at no earlier one, whatever reassembly held before; the
/// master's reassembly ends idle and nothing else in its state changes. This holds of every
/// fragment that round-trips: one whose application sequence fits four bits, that carries
/// internal indications only where its function sends them, and whose objects each
/// round-trip.
pub proof fn lemma_master_receives(
    m: MasterSessionView,
    f: ApplicationFragmentView,
    start: u8,
    direction: Direction,
    source: u16,
)
    requires
        spec_encode_fragment(f) is Ok,
        f.control.sequence < 16,
        !spec_includes_iin(f.function) ==> f.iin == 0,
        forall|i: int| 0 <= i < f.objects.len() ==> object_round_trips(#[trigger] f.objects[i]),
    ensures
        ({
            let frames = spec_fragment_frames(
                spec_encode_fragment(f)->Ok_0,
                start,
                direction,
                m.config.master@,
                source,
            );
            let (m2, results) = accept_frames(m, frames);
            &&& frames.len() >= 1
            &&& results.len() == frames.len()
            &&& forall|i: int|
                0 <= i < frames.len() - 1 ==> #[trigger] results[i] == Ok::<
                    Option<ApplicationFragmentView>,
                    ProtocolError,
                >(None)
            &&& results[frames.len() - 1] == Ok::<Option<ApplicationFragmentView>, ProtocolError>(
                Some(f),
            )
            &&& m2 == with_reassembler(m, idle_reassembler())
        }),
{
    let app = spec_encode_fragment(f)->Ok_0;
    let segs = spec_fragment(app, start);
    let frames = spec_fragment_frames(app, start, direction, m.config.master@, source);
    let n = segs.len() as int;
    lemma_fragment_segments_fit(app, start);
    lemma_fragment_reassembles(m.reassembler, app, start);
    let full = feed(m.reassembler, segs).1;
    assert forall|i: int| 0 <= i < n implies (#[trigger] full[i]) is Ok by {
        if i < n - 1 {
            assert(full[i] == Ok::<Option<Seq<u8>>, ProtocolError>(None));
        }
    }
    lemma_accept_follows_feed(m, app, start, direction, source, n);
    assert(segs.take(n) =~= segs);
    assert(frames.take(n) =~= frames);
    lemma_fragment_round_trip(f);
    let results = accept_frames(m, frames).1;
    assert forall|i: int| 0 <= i < frames.len() - 1 implies #[trigger] results[i] == Ok::<
        Option<ApplicationFragmentView>,
        ProtocolError,
    >(None) by {
        assert(full[i] == Ok::<Option<Seq<u8>>, ProtocolError>(None));
    }
    assert(results[n - 1] == decoded_push(full[n - 1]));
}

/// A master's integrity poll gets back, from an outstation at the address it polls, the
/// response that echoes the poll's sequence number and carries the integrity objects of the
/// outstation's database: the outstation answers the poll's frame, and the master, taking
/// the answer's frames in order, completes that response at the last one and at no earlier
/// one. This holds whenever the response can be encoded.
pub proof fn lemma_integrity_poll_exchange(m: MasterSessionView, o: OutstationSessionView)
    requires
        m.config.outstation == o.config.outstation,
        spec_encode_fragment(poll_response(o, m.app_sequence)) is Ok,
    ensures
        ({
            let request = spec_poll_request(m.config.link_style, m.app_sequence);
            let frames = spec_request_frames(
                m.config,
                spec_encode_fragment(request)->Ok_0,
                m.transport_sequence,
            );
            let (o2, answer) = spec_handle_frame(o, frames[0]);
            let (m2, results) = accept_frames(m, answer->Ok_0);
            &&& frames.len() == 1
            &&& answer is Ok
            &&& answer->Ok_0.len() >= 1
            &&& results.len() == answer->Ok_0.len()
            &&& forall|i: int|
                0 <= i < results.len() - 1 ==> #[trigger] results[i] == Ok::<
                    Option<ApplicationFragmentView>,
                    ProtocolError,
                >(None)
            &&& results[results.len() - 1] == Ok::<Option<ApplicationFragmentView>, ProtocolError>(
                Some(poll_response(o, m.app_sequence)),
            )
            &&& m2 == with_reassembler(m, idle_reassembler())
            &&& o2.reassembler == idle_reassembler()
        }),
{
    lemma_outstation_answers_poll(m, o);
    let response = poll_response(o, m.app_sequence);
    assert forall|i: int| 0 <= i < response.objects.len() implies object_round_trips(
        #[trigger] response.objects[i],
    ) by {
        assert(!(response.objects[i] is Time) && !(response.objects[i] is ClassScan));
    }
    lemma_master_receives(
        m,
        response,
        o.transport_sequence,
        answer_direction(style_direction(m.config.link_style)),
        o.config.outstation@,
    );
}

/// Handling the frames of all but the last segment of a fragment leaves the outstation as it
/// was but for its reassembly, which follows the segments, and answers none of them.
proof fn lemma_handle_follows_feed(
    o: OutstationSessionView,
    app: Seq<u8>,
    start: u8,
    direction: Direction,
    source: u16,
    k: int,
)
    requires
        0 <= k < spec_fragment(app, start).len(),
    ensures
        ({
            let segs = spec_fragment(app, start);
            let frames = spec_fragment_frames(app, start, direction, o.config.outstation@, source);
            let (os, rs) = handle_frames(o, frames.take(k));
            &&& os == (OutstationSessionView {
                reassembler: feed(o.reassembler, segs.take(k)).0,
                ..o
            })
            &&& rs.len() == k
            &&& forall|i: int|
                0 <= i < k ==> #[trigger] rs[i] == Ok::<Seq<LinkFrameView>, ProtocolError>(
                    seq![],
                )
        }),
    decreases k,
{
    let segs = spec_fragment(app, start);
    let frames = spec_fragment_frames(app, start, direction, o.config.outstation@, source);
    if k == 0 {
        assert(frames.take(0) =~= Seq::<LinkFrameView>::empty());
        assert(segs.take(0) =~= Seq::<TransportSegmentView>::empty());
    } else {
        lemma_handle_follows_feed(o, app, start, direction, source, k - 1);
        assert(frames.take(k).drop_last() =~= frames.take(k - 1));
        assert(segs.take(k).drop_last() =~= segs.take(k - 1));
        lemma_fragment_segments_fit(app, start);
        lemma_fragment_reassembles(o.reassembler, app, start);
        let seg = segs[k - 1];
        lemma_segment_round_trip(seg);
        assert(frames.take(k).last() == frames[k - 1]);
        assert(segs.take(k).last() == seg);
        lemma_feed_take(o.reassembler, segs, k);
        let full = feed(o.reassembler, segs).1;
        assert(full[k - 1] == Ok::<Option<Seq<u8>>, ProtocolError>(None));
        assert(feed(o.reassembler, segs.take(k)).1[k - 1] == full[k - 1]);
        let (fs, fr) = feed(o.reassembler, segs.take(k - 1));
        let (os, rs) = handle_frames(o, frames.take(k - 1));
        let (os2, rs2) = handle_frames(o, frames.take(k));
        assert(feed(o.reassembler, segs.take(k)).1 == fr.push(spec_push(fs, seg).1));
        lemma_feed_take(o.reassembler, segs.take(k - 1), 0);
        assert(spec_push(fs, seg).1 == Ok::<Option<Seq<u8>>, ProtocolError>(None));
        assert(frames[k - 1].payload == spec_encode_segment(seg));
        assert(frames[k - 1].destination == o.config.outstation@);
        assert(rs2 == rs.push(spec_handle_frame(os, frames[k - 1]).1));
        assert forall|i: int| 0 <= i < k implies #[trigger] rs2[i] == Ok::<
            Seq<LinkFrameView>,
            ProtocolError,
        >(seq![]) by {
            if i < k - 1 {
                assert(rs2[i] == rs[i]);
            }
        }
    }
}

/// An outstation that is sent, in order, the frames carrying an encoded request answers
/// none but the last, and answers the last as its application layer answers the request,
/// whatever its reassembly held before; its reassembly ends idle, its database is unchanged,
/// and its transport sequence moves only past the frames of its answer. This holds of every
/// request that round-trips.
pub proof fn lemma_outstation_receives(
    o: OutstationSessionView,
    request: ApplicationFragmentView,
    start: u8,
    direction: Direction,
    source: u16,
)
    requires
        spec_encode_fragment(request) is Ok,
        request.control.sequence < 16,
        !spec_includes_iin(request.function) ==> request.iin == 0,
        forall|i: int|
            0 <= i < request.objects.len() ==> object_round_trips(#[trigger] request.objects[i]),
    ensures
        ({
            let frames = spec_fragment_frames(
                spec_encode_fragment(request)->Ok_0,
                start,
                direction,
                o.config.outstation@,
                source,
            );
            let (o2, results) = handle_frames(o, frames);
            let (next, answer) = spec_answer(o, request, direction, source);
            &&& frames.len() >= 1
            &&& results.len() == frames.len()
            &&& forall|i: int|
                0 <= i < frames.len() - 1 ==> #[trigger] results[i] == Ok::<
                    Seq<LinkFrameView>,
                    ProtocolError,
                >(seq![])
            &&& results[frames.len() - 1] == answer
            &&& o2 == (OutstationSessionView {
                reassembler: idle_reassembler(),
                transport_sequence: next,
                ..o
            })
        }),
{
    let app = spec_encode_fragment(request)->Ok_0;
    let segs = spec_fragment(app, start);
    let frames = spec_fragment_frames(app, start, direction, o.config.outstation@, source);
    let n = segs.len() as int;
    lemma_fragment_segments_fit(app, start);
    lemma_fragment_reassembles(o.reassembler, app, start);
    lemma_handle_follows_feed(o, app, start, direction, source, n - 1);
    let (os, rs) = handle_frames(o, frames.take(n - 1));
    assert(frames.drop_last() =~= frames.take(n - 1));
    assert(segs.drop_last() =~= segs.take(n - 1));
    let seg = segs[n - 1];
    lemma_segment_round_trip(seg);
    assert(frames[n - 1].payload == spec_encode_segment(seg));
    assert(frames[n - 1].destination == o.config.outstation@);
    let (fs, fr) = feed(o.reassembler, segs.take(n - 1));
    assert(feed(o.reassembler, segs).1 == fr.push(spec_push(fs, seg).1));
    lemma_feed_take(o.reassembler, segs.take(n - 1), 0);
    assert(spec_push(fs, seg).1 == Ok::<Option<Seq<u8>>, ProtocolError>(Some(app)));
    assert(spec_push(fs, seg).0 == idle_reassembler());
    lemma_fragment_round_trip(request);
    let (o2, results) = handle_frames(o, frames);
    assert(results == rs.push(spec_handle_frame(os, frames[n - 1]).1));
    assert forall|i: int| 0 <= i < frames.len() - 1 implies #[trigger] results[i] == Ok::<
        Seq<LinkFrameView>,
        ProtocolError,
    >(seq![]) by {
        assert(results[i] == rs[i]);
    }
}

} // verus!
