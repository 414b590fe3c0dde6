use vstd::prelude::*;

use crate::app::{
    object_views, spec_decode_fragment, spec_encode_fragment, AnalogInput, AnalogOutput,
    AppControl, AppObject, AppObjectView, ApplicationFragment, ApplicationFragmentView,
    BinaryInput, BinaryOutput, Counter, FunctionCode,
};
use crate::framing::{fragment_frames, frame_views, next_transport_sequence, spec_fragment_frames};
use crate::link::{
    empty_frame, ControlField, Direction, LinkFrame, LinkFrameView, LinkFunction,
    PrimaryFunction, SecondaryFunction,
};
use crate::primitives as prim;
use crate::primitives::{Address, ProtocolError};
use crate::transport::{
    idle_reassembler, spec_decode_segment, spec_push, Reassembler, ReassemblerView,
    TransportSegment,
};

verus! {

/// Errors returned by the outstation role.
#[derive(Debug)]
pub enum OutstationError {
    /// Protocol validation failed.
    Protocol(ProtocolError),
    /// Transport I/O failed.
    Transport(String),
}

/// Outstation endpoint configuration.
#[derive(Debug, Clone, Copy, PartialEq, Eq, Structural)]
pub struct OutstationConfig {
    /// Local outstation address.
    pub outstation: Address,
}

impl Default for OutstationConfig {
    fn default() -> (r: OutstationConfig)
        ensures
            r.outstation@ == 1024,
    {
        OutstationConfig { outstation: Address::new(1024) }
    }
}

/// The abstract content of a [`Database`].
pub struct DatabaseView {
    pub binary_inputs: Seq<BinaryInput>,
    pub binary_outputs: Seq<BinaryOutput>,
    pub analog_inputs: Seq<AnalogInput>,
    pub analog_outputs: Seq<AnalogOutput>,
    pub counters: Seq<Counter>,
}

/// In-memory outstation data set.
#[derive(Debug, Clone, PartialEq, Eq)]
pub struct Database {
    /// Binary inputs.
    pub binary_inputs: Vec<BinaryInput>,
    /// Binary outputs.
    pub binary_outputs: Vec<BinaryOutput>,
    /// Analog inputs.
    pub analog_inputs: Vec<AnalogInput>,
    /// Analog outputs.
    pub analog_outputs: Vec<AnalogOutput>,
    /// Counters.
    pub counters: Vec<Counter>,
}

impl View for Database {
    type V = DatabaseView;

    open spec fn view(&self) -> DatabaseView {
        DatabaseView {
            binary_inputs: self.binary_inputs@,
            binary_outputs: self.binary_outputs@,
            analog_inputs: self.analog_inputs@,
            analog_outputs: self.analog_outputs@,
            counters: self.counters@,
        }
    }
}

impl Default for Database {
    fn default() -> (r: Database)
        ensures
            r@.binary_inputs.len() == 0,
            r@.binary_outputs.len() == 0,
            r@.analog_inputs.len() == 0,
            r@.analog_outputs.len() == 0,
            r@.counters.len() == 0,
    {
        Database {
            binary_inputs: Vec::new(),
            binary_outputs: Vec::new(),
            analog_inputs: Vec::new(),
            analog_outputs: Vec::new(),
            counters: Vec::new(),
        }
    }
}

/// `object` when `points` is not empty, nothing otherwise.
pub open spec fn unless_empty<T>(points: Seq<T>, object: AppObjectView) -> Seq<AppObjectView> {
    if points.len() > 0 {
        seq![object]
    } else {
        seq![]
    }
}

/// The objects of an integrity response: one object per nonempty point list, in the order
/// binary inputs, binary outputs, analog inputs, analog outputs, counters.
pub open spec fn spec_integrity_objects(db: DatabaseView) -> Seq<AppObjectView> {
    unless_empty(db.binary_inputs, AppObjectView::BinaryInputs(db.binary_inputs)) + unless_empty(
        db.binary_outputs,
        AppObjectView::BinaryOutputs(db.binary_outputs),
    ) + unless_empty(db.analog_inputs, AppObjectView::AnalogInputs(db.analog_inputs))
        + unless_empty(db.analog_outputs, AppObjectView::AnalogOutputs(db.analog_outputs))
        + unless_empty(db.counters, AppObjectView::Counters(db.counters))
}

fn copy_points<T: Copy>(points: &Vec<T>) -> (r: Vec<T>)
    ensures
        r@ == points@,
{
    let mut out: Vec<T> = Vec::new();
    let mut i: usize = 0;
    while i < points.len()
        invariant
            i <= points.len(),
            out@ == points@.take(i as int),
        decreases points.len() - i,
    {
        let p = points[i];
        out.push(p);
        i = i + 1;
        proof {
            assert(out@ =~= points@.take(i as int));
        }
    }
    proof {
        assert(points@.take(i as int) =~= points@);
    }
    out
}

impl Database {
    /// Creates response objects for an integrity poll.
    pub fn integrity_objects(&self) -> (r: Vec<AppObject>)
        ensures
            object_views(r@) == spec_integrity_objects(self@),
    {
        let mut objects: Vec<AppObject> = Vec::new();
        let ghost db = self@;
        if self.binary_inputs.len() > 0 {
            objects.push(AppObject::BinaryInputs(copy_points(&self.binary_inputs)));
        }
        let ghost step1 = object_views(objects@);
        assert(step1 =~= unless_empty(
            db.binary_inputs,
            AppObjectView::BinaryInputs(db.binary_inputs),
        ));
        if self.binary_outputs.len() > 0 {
            objects.push(AppObject::BinaryOutputs(copy_points(&self.binary_outputs)));
        }
        let ghost step2 = object_views(objects@);
        assert(step2 =~= step1 + unless_empty(
            db.binary_outputs,
            AppObjectView::BinaryOutputs(db.binary_outputs),
        ));
        if self.analog_inputs.len() > 0 {
            objects.push(AppObject::AnalogInputs(copy_points(&self.analog_inputs)));
        }
        let ghost step3 = object_views(objects@);
        assert(step3 =~= step2 + unless_empty(
            db.analog_inputs,
            AppObjectView::AnalogInputs(db.analog_inputs),
        ));
        if self.analog_outputs.len() > 0 {
            objects.push(AppObject::AnalogOutputs(copy_points(&self.analog_outputs)));
        }
        let ghost step4 = object_views(objects@);
        assert(step4 =~= step3 + unless_empty(
            db.analog_outputs,
            AppObjectView::AnalogOutputs(db.analog_outputs),
        ));
        if self.counters.len() > 0 {
            objects.push(AppObject::Counters(copy_points(&self.counters)));
        }
        assert(object_views(objects@) =~= step4 + unless_empty(
            db.counters,
            AppObjectView::Counters(db.counters),
        ));
        objects
    }
}

/// Whether a read request asks for static data: it holds an integrity poll or a class scan.
pub open spec fn requests_static(objects: Seq<AppObjectView>) -> bool {
    exists|i: int|
        0 <= i < objects.len() && ((#[trigger] objects[i]) is IntegrityPoll || objects[i] is ClassScan)
}

/// The single-fragment response control that echoes a request's sequence number.
pub open spec fn response_control(sequence: u8) -> AppControl {
    AppControl { fir: true, fin: true, con: false, uns: false, sequence: sequence % 16 }
}

/// The response to an application request: reads are answered with the integrity objects
/// when they ask for static data and with no objects otherwise; time records and writes are
/// acknowledged with an empty response; other functions are refused.
pub open spec fn spec_handle_application(db: DatabaseView, request: ApplicationFragmentView) -> Result<
    ApplicationFragmentView,
    ProtocolError,
> {
    let control = response_control(request.control.sequence);
    match request.function {
        FunctionCode::Read => Ok(
            ApplicationFragmentView {
                control,
                function: FunctionCode::Response,
                iin: 0,
                objects: if requests_static(request.objects) {
                    spec_integrity_objects(db)
                } else {
                    seq![]
                },
            },
        ),
        FunctionCode::RecordCurrentTime | FunctionCode::Write => Ok(
            ApplicationFragmentView {
                control,
                function: FunctionCode::Response,
                iin: 0,
                objects: seq![],
            },
        ),
        _ => Err(
            ProtocolError::UnknownValue {
                field: "unsupported outstation function",
                value: request.function.spec_encode(),
            },
        ),
    }
}

/// The abstract state of an [`OutstationSession`].
pub struct OutstationSessionView {
    pub config: OutstationConfig,
    pub database: DatabaseView,
    pub transport_sequence: u8,
    pub reassembler: ReassemblerView,
}

/// The direction of the frames that answer a request frame: tool-style requests, which set
/// the direction bit, get frames without it, and the others get frames with it.
pub open spec fn answer_direction(request: Direction) -> Direction {
    match request {
        Direction::OutstationToMaster => Direction::MasterToOutstation,
        Direction::MasterToOutstation => Direction::OutstationToMaster,
    }
}

/// What a user data frame does: the next state and the frames that answer it.
pub open spec fn spec_handle_user_data(st: OutstationSessionView, frame: LinkFrameView) -> (
    OutstationSessionView,
    Result<Seq<LinkFrameView>, ProtocolError>,
) {
    match spec_decode_segment(frame.payload) {
        Err(e) => (st, Err(e)),
        Ok(segment) => {
            let (r, pushed) = spec_push(st.reassembler, segment);
            let st2 = OutstationSessionView { reassembler: r, ..st };
            match pushed {
                Err(e) => (st2, Err(e)),
                Ok(None) => (st2, Ok(seq![])),
                Ok(Some(bytes)) => match spec_decode_fragment(bytes) {
                    Err(e) => (st2, Err(e)),
                    Ok(request) => match spec_handle_application(st.database, request) {
                        Err(e) => (st2, Err(e)),
                        Ok(response) => match spec_encode_fragment(response) {
                            Err(e) => (st2, Err(e)),
                            Ok(encoded) => (
                                OutstationSessionView {
                                    transport_sequence: next_transport_sequence(
                                        st.transport_sequence,
                                        encoded.len(),
                                    ),
                                    ..st2
                                },
                                Ok(
                                    spec_fragment_frames(
                                        encoded,
                                        st.transport_sequence,
                                        answer_direction(frame.control.direction),
                                        frame.source,
                                        st.config.outstation@,
                                    ),
                                ),
                            ),
                        },
                    },
                },
            }
        },
    }
}

/// The acknowledgement frame with the given control fields.
pub open spec fn ack_frame(direction: Direction, fcb: bool, destination: u16, source: u16) -> LinkFrameView {
    LinkFrameView {
        control: ControlField {
            direction,
            fcb,
            fcv: false,
            function: LinkFunction::Secondary(SecondaryFunction::Ack),
        },
        destination,
        source,
        payload: seq![],
    }
}

/// What one incoming frame does: the next state and the frames that answer it. Frames for
/// other addresses and secondary or unsupported primary functions get no answer.
pub open spec fn spec_handle_frame(st: OutstationSessionView, frame: LinkFrameView) -> (
    OutstationSessionView,
    Result<Seq<LinkFrameView>, ProtocolError>,
) {
    let local = st.config.outstation@;
    if frame.destination != local {
        (st, Ok(seq![]))
    } else {
        match frame.control.function {
            LinkFunction::Primary(PrimaryFunction::ResetLinkStates) => (
                OutstationSessionView {
                    reassembler: idle_reassembler(),
                    transport_sequence: 0,
                    ..st
                },
                Ok(
                    seq![
                        ack_frame(
                            answer_direction(frame.control.direction),
                            false,
                            frame.source,
                            local,
                        ),
                    ],
                ),
            ),
            LinkFunction::Primary(PrimaryFunction::TestLinkStates) => (
                st,
                Ok(
                    seq![
                        ack_frame(
                            Direction::MasterToOutstation,
                            frame.control.fcb,
                            frame.source,
                            local,
                        ),
                    ],
                ),
            ),
            LinkFunction::Primary(PrimaryFunction::RequestLinkStatus) => (
                st,
                Ok(
                    seq![
                        LinkFrameView {
                            control: ControlField {
                                direction: Direction::OutstationToMaster,
                                fcb: false,
                                fcv: false,
                                function: LinkFunction::Secondary(SecondaryFunction::LinkStatus),
                            },
                            destination: frame.source,
                            source: local,
                            payload: seq![0xffu8],
                        },
                    ],
                ),
            ),
            LinkFunction::Primary(PrimaryFunction::UnconfirmedUserData) => spec_handle_user_data(
                st,
                frame,
            ),
            LinkFunction::Primary(PrimaryFunction::ConfirmedUserData) => {
                let (st2, r) = spec_handle_user_data(st, frame);
                let ack = ack_frame(
                    Direction::OutstationToMaster,
                    frame.control.fcb,
                    frame.source,
                    local,
                );
                match r {
                    Ok(frames) => (st2, Ok(seq![ack] + frames)),
                    Err(e) => (st2, Err(e)),
                }
            },
            _ => (st, Ok(seq![])),
        }
    }
}

/// Handles `frames` one after another: the final state and what each frame was answered.
pub open spec fn handle_frames(st: OutstationSessionView, frames: Seq<LinkFrameView>) -> (
    OutstationSessionView,
    Seq<Result<Seq<LinkFrameView>, ProtocolError>>,
)
    decreases frames.len(),
{
    if frames.len() == 0 {
        (st, seq![])
    } else {
        let (before, results) = handle_frames(st, frames.drop_last());
        let (after, r) = spec_handle_frame(before, frames.last());
        (after, results.push(r))
    }
}

/// The frames that answer a complete request, and the transport sequence after them.
pub open spec fn spec_answer(
    st: OutstationSessionView,
    request: ApplicationFragmentView,
    direction: Direction,
    destination: u16,
) -> (u8, Result<Seq<LinkFrameView>, ProtocolError>) {
    match spec_handle_application(st.database, request) {
        Err(e) => (st.transport_sequence, Err(e)),
        Ok(response) => match spec_encode_fragment(response) {
            Err(e) => (st.transport_sequence, Err(e)),
            Ok(encoded) => (
                next_transport_sequence(st.transport_sequence, encoded.len()),
                Ok(
                    spec_fragment_frames(
                        encoded,
                        st.transport_sequence,
                        answer_direction(direction),
                        destination,
                        st.config.outstation@,
                    ),
                ),
            ),
        },
    }
}

/// Outstation/server session state.
#[derive(Debug)]
pub struct OutstationSession {
    config: OutstationConfig,
    database: Database,
    transport_sequence: u8,
    reassembler: Reassembler,
}

impl View for OutstationSession {
    type V = OutstationSessionView;

    closed spec fn view(&self) -> OutstationSessionView {
        OutstationSessionView {
            config: self.config,
            database: self.database@,
            transport_sequence: self.transport_sequence,
            reassembler: self.reassembler@,
        }
    }
}

impl OutstationSession {
    /// Creates a new outstation session.
    pub fn new(config: OutstationConfig, database: Database) -> (r: OutstationSession)
        ensures
            r@ == (OutstationSessionView {
                config,
                database: database@,
                transport_sequence: 0,
                reassembler: idle_reassembler(),
            }),
    {
        OutstationSession {
            config,
            database,
            transport_sequence: 0,
            reassembler: Reassembler::new(),
        }
    }

    /// Returns the local outstation address.
    pub fn outstation_address(&self) -> (r: Address)
        ensures
            r == self@.config.outstation,
    {
        self.config.outstation
    }

    /// Returns the backing database.
    pub fn database(&self) -> (r: &Database)
        ensures
            r@ == self@.database,
    {
        &self.database
    }

    /// Returns the backing database for changes.
    pub fn database_mut(&mut self) -> (r: &mut Database)
        ensures
            r@ == old(self)@.database,
            final(self)@ == (OutstationSessionView { database: final(r)@, ..old(self)@ }),
    {
        &mut self.database
    }

    /// Handles one incoming frame and returns response frames, if any.
    pub fn handle_frame(&mut self, frame: LinkFrame) -> (r: Result<Vec<LinkFrame>, OutstationError>)
        ensures
            final(self)@ == spec_handle_frame(old(self)@, frame@).0,
            match spec_handle_frame(old(self)@, frame@).1 {
                Ok(frames) => r matches Ok(v) && frame_views(v@) == frames,
                Err(e) => r matches Err(OutstationError::Protocol(x)) && x == e,
            },
    {
        proof {
            prim::lemma_address_view_injective(frame.destination, self.config.outstation);
        }
        if frame.destination != self.config.outstation {
            return Ok(Vec::new());
        }
        match frame.control.function {
            LinkFunction::Primary(PrimaryFunction::ResetLinkStates) => {
                self.reassembler = Reassembler::new();
                self.transport_sequence = 0;
                // Wire byte 0xC0 decodes as outstation-to-master reset; reply with legacy ACK 0x00.
                let ack = match frame.control.direction {
                    Direction::OutstationToMaster => LinkFrame::legacy_ack(
                        frame.source,
                        self.config.outstation,
                    ),
                    Direction::MasterToOutstation => LinkFrame::ack(
                        frame.source,
                        self.config.outstation,
                    ),
                };
                let mut out: Vec<LinkFrame> = Vec::new();
                out.push(ack);
                proof {
                    assert(frame_views(out@) =~= spec_handle_frame(old(self)@, frame@).1->Ok_0);
                }
                Ok(out)
            },
            LinkFunction::Primary(PrimaryFunction::TestLinkStates) => {
                let mut out: Vec<LinkFrame> = Vec::new();
                out.push(
                    LinkFrame::legacy_ack_with_fcb(
                        frame.source,
                        self.config.outstation,
                        frame.control.fcb,
                    ),
                );
                proof {
                    assert(frame_views(out@) =~= spec_handle_frame(old(self)@, frame@).1->Ok_0);
                }
                Ok(out)
            },
            LinkFunction::Primary(PrimaryFunction::RequestLinkStatus) => {
                let mut out: Vec<LinkFrame> = Vec::new();
                out.push(LinkFrame::link_status(frame.source, self.config.outstation));
                proof {
                    assert(frame_views(out@) =~= spec_handle_frame(old(self)@, frame@).1->Ok_0);
                }
                Ok(out)
            },
            LinkFunction::Primary(PrimaryFunction::UnconfirmedUserData) => {
                self.handle_user_data(frame)
            },
            LinkFunction::Primary(PrimaryFunction::ConfirmedUserData) => {
                let ack = LinkFrame::ack_with_fcb(
                    frame.source,
                    self.config.outstation,
                    frame.control.fcb,
                );
                let rest = self.handle_user_data(frame);
                match rest {
                    Ok(frames) => {
                        let mut out: Vec<LinkFrame> = Vec::new();
                        out.push(ack);
                        let ghost rest_frames = frames@;
                        let mut frames = frames;
                        out.append(&mut frames);
                        proof {
                            assert(out@ =~= seq![ack] + rest_frames);
                            assert(frame_views(out@) =~= seq![ack@] + frame_views(rest_frames));
                        }
                        Ok(out)
                    },
                    Err(e) => Err(e),
                }
            },
            _ => Ok(Vec::new()),
        }
    }

    fn handle_user_data(&mut self, frame: LinkFrame) -> (r: Result<Vec<LinkFrame>, OutstationError>)
        ensures
            final(self)@ == spec_handle_user_data(old(self)@, frame@).0,
            match spec_handle_user_data(old(self)@, frame@).1 {
                Ok(frames) => r matches Ok(v) && frame_views(v@) == frames,
                Err(e) => r matches Err(OutstationError::Protocol(x)) && x == e,
            },
    {
        // Tool-style clients set DIR=1 on primary frames (0xC0 reset, 0xC4 user data).
        let tool_style = match frame.control.direction {
            Direction::OutstationToMaster => true,
            Direction::MasterToOutstation => false,
        };
        let segment = match TransportSegment::decode(frame.payload.as_slice()) {
            Ok(s) => s,
            Err(e) => {
                return Err(OutstationError::Protocol(e));
            },
        };
        let mut reassembler = Reassembler::new();
        std::mem::swap(&mut reassembler, &mut self.reassembler);
        let pushed = reassembler.push(segment);
        self.reassembler = reassembler;
        let application_bytes = match pushed {
            Ok(Some(bytes)) => bytes,
            Ok(None) => {
                return Ok(Vec::new());
            },
            Err(e) => {
                return Err(OutstationError::Protocol(e));
            },
        };
        let request = match ApplicationFragment::decode(application_bytes.as_slice()) {
            Ok(f) => f,
            Err(e) => {
                return Err(OutstationError::Protocol(e));
            },
        };
        let response = match self.handle_application(request) {
            Ok(f) => f,
            Err(e) => {
                return Err(OutstationError::Protocol(e));
            },
        };
        self.encode_response(frame.source, response, tool_style)
    }

    fn handle_application(&self, request: ApplicationFragment) -> (r: Result<
        ApplicationFragment,
        ProtocolError,
    >)
        ensures
            match spec_handle_application(self@.database, request@) {
                Ok(v) => r matches Ok(f) && f@ == v,
                Err(e) => r == Err::<ApplicationFragment, ProtocolError>(e),
            },
    {
        match request.function {
            FunctionCode::Read => {
                let mut include_static = false;
                let mut i: usize = 0;
                while i < request.objects.len()
                    invariant
                        i <= request.objects.len(),
                        include_static <==> exists|k: int|
                            0 <= k < i && ((#[trigger] object_views(request.objects@)[k]) is IntegrityPoll
                                || object_views(request.objects@)[k] is ClassScan),
                    decreases request.objects.len() - i,
                {
                    let found = match &request.objects[i] {
                        AppObject::IntegrityPoll => true,
                        AppObject::ClassScan(_) => true,
                        _ => false,
                    };
                    proof {
                        assert(object_views(request.objects@)[i as int] == request.objects@[i as int]@);
                    }
                    include_static = include_static || found;
                    i = i + 1;
                }
                let objects = if include_static {
                    self.database.integrity_objects()
                } else {
                    Vec::new()
                };
                let r = ApplicationFragment::new(
                    AppControl::new(true, true, false, false, request.control.sequence),
                    FunctionCode::Response,
                    objects,
                );
                proof {
                    assert(object_views(objects@) =~= r@.objects);
                    if !include_static {
                        assert(r@.objects =~= Seq::<AppObjectView>::empty());
                    }
                }
                Ok(r)
            },
            FunctionCode::RecordCurrentTime | FunctionCode::Write => {
                let r = ApplicationFragment::new(
                    AppControl::single(request.control.sequence),
                    FunctionCode::Response,
                    Vec::new(),
                );
                proof {
                    assert(r@.objects =~= Seq::<AppObjectView>::empty());
                }
                Ok(r)
            },
            other => Err(
                ProtocolError::UnknownValue {
                    field: "unsupported outstation function",
                    value: other.encode(),
                },
            ),
        }
    }

    fn encode_response(&mut self, destination: Address, response: ApplicationFragment, tool_style: bool) -> (r:
        Result<Vec<LinkFrame>, OutstationError>)
        ensures
            match spec_encode_fragment(response@) {
                Ok(encoded) => {
                    &&& r matches Ok(v) && frame_views(v@) == spec_fragment_frames(
                        encoded,
                        old(self)@.transport_sequence,
                        if tool_style {
                            Direction::MasterToOutstation
                        } else {
                            Direction::OutstationToMaster
                        },
                        destination@,
                        old(self)@.config.outstation@,
                    )
                    &&& final(self)@ == (OutstationSessionView {
                        transport_sequence: next_transport_sequence(
                            old(self)@.transport_sequence,
                            encoded.len(),
                        ),
                        ..old(self)@
                    })
                },
                Err(e) => r matches Err(OutstationError::Protocol(x)) && x == e && final(self)@
                    == old(self)@,
            },
    {
        let encoded = match response.encode() {
            Ok(bytes) => bytes,
            Err(e) => {
                return Err(OutstationError::Protocol(e));
            },
        };
        let direction = if tool_style {
            Direction::MasterToOutstation
        } else {
            Direction::OutstationToMaster
        };
        let (frames, next) = fragment_frames(
            encoded.as_slice(),
            self.transport_sequence,
            direction,
            destination,
            self.config.outstation,
        );
        self.transport_sequence = next;
        Ok(frames)
    }
}

/// Each point list of the database is answered by its own object: the integrity objects hold
/// a binary input, binary output, analog input, analog output or counter object exactly when
/// the database's list of that kind is nonempty, and every such object carries that whole
/// list.
pub proof fn lemma_integrity_objects_per_list(db: DatabaseView)
    ensures
        ({
            let objects = spec_integrity_objects(db);
            &&& objects.contains(AppObjectView::BinaryInputs(db.binary_inputs))
                <==> db.binary_inputs.len() > 0
            &&& objects.contains(AppObjectView::BinaryOutputs(db.binary_outputs))
                <==> db.binary_outputs.len() > 0
            &&& objects.contains(AppObjectView::AnalogInputs(db.analog_inputs))
                <==> db.analog_inputs.len() > 0
            &&& objects.contains(AppObjectView::AnalogOutputs(db.analog_outputs))
                <==> db.analog_outputs.len() > 0
            &&& objects.contains(AppObjectView::Counters(db.counters)) <==> db.counters.len() > 0
            &&& forall|i: int|
                0 <= i < objects.len() ==> {
                    &&& (#[trigger] objects[i]) is BinaryInputs ==> objects[i]
                        == AppObjectView::BinaryInputs(db.binary_inputs)
                    &&& objects[i] is BinaryOutputs ==> objects[i] == AppObjectView::BinaryOutputs(
                        db.binary_outputs,
                    )
                    &&& objects[i] is AnalogInputs ==> objects[i] == AppObjectView::AnalogInputs(
                        db.analog_inputs,
                    )
                    &&& objects[i] is AnalogOutputs ==> objects[i] == AppObjectView::AnalogOutputs(
                        db.analog_outputs,
                    )
                    &&& objects[i] is Counters ==> objects[i] == AppObjectView::Counters(
                        db.counters,
                    )
                    &&& !(objects[i] is Time || objects[i] is ClassScan || objects[i] is IntegrityPoll
                        || objects[i] is DoubleBitBinaryInputs)
                }
        }),
{
    let a = unless_empty(db.binary_inputs, AppObjectView::BinaryInputs(db.binary_inputs));
    let b = unless_empty(db.binary_outputs, AppObjectView::BinaryOutputs(db.binary_outputs));
    let c = unless_empty(db.analog_inputs, AppObjectView::AnalogInputs(db.analog_inputs));
    let d = unless_empty(db.analog_outputs, AppObjectView::AnalogOutputs(db.analog_outputs));
    let e = unless_empty(db.counters, AppObjectView::Counters(db.counters));
    let objects = spec_integrity_objects(db);
    assert(objects == a + b + c + d + e);
    let ab = a + b;
    let abc = ab + c;
    let abcd = abc + d;
    assert forall|i: int| 0 <= i < objects.len() implies {
        ||| objects[i] == AppObjectView::BinaryInputs(db.binary_inputs) && db.binary_inputs.len() > 0
        ||| objects[i] == AppObjectView::BinaryOutputs(db.binary_outputs) && db.binary_outputs.len()
            > 0
        ||| objects[i] == AppObjectView::AnalogInputs(db.analog_inputs) && db.analog_inputs.len() > 0
        ||| objects[i] == AppObjectView::AnalogOutputs(db.analog_outputs) && db.analog_outputs.len()
            > 0
        ||| objects[i] == AppObjectView::Counters(db.counters) && db.counters.len() > 0
    } by {
        if i < ab.len() {
            if i < a.len() {
                assert(objects[i] == a[i]);
            } else {
                assert(objects[i] == b[i - a.len()]);
            }
        } else if i < abc.len() {
            assert(objects[i] == c[i - ab.len()]);
        } else if i < abcd.len() {
            assert(objects[i] == d[i - abc.len()]);
        } else {
            assert(objects[i] == e[i - abcd.len()]);
        }
    }
    if db.binary_inputs.len() > 0 {
        assert(objects[0] == AppObjectView::BinaryInputs(db.binary_inputs));
    }
    if db.binary_outputs.len() > 0 {
        assert(objects[a.len() as int] == AppObjectView::BinaryOutputs(db.binary_outputs));
    }
    if db.analog_inputs.len() > 0 {
        assert(objects[ab.len() as int] == AppObjectView::AnalogInputs(db.analog_inputs));
    }
    if db.analog_outputs.len() > 0 {
        assert(objects[abc.len() as int] == AppObjectView::AnalogOutputs(db.analog_outputs));
    }
    if db.counters.len() > 0 {
        assert(objects[abcd.len() as int] == AppObjectView::Counters(db.counters));
    }
}

} // verus!
