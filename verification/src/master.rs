use vstd::prelude::*;

use crate::app::{
    spec_decode_fragment, spec_encode_fragment, ApplicationFragment, ApplicationFragmentView,
    FunctionCode,
};
use crate::framing::{
    fragment_frames, frame_views, next_transport_sequence, spec_fragment_frames,
};
use crate::link::{Direction, LinkFrame, LinkFrameView};
use crate::primitives as prim;
use crate::primitives::{Address, ProtocolError};
use crate::transport::{
    idle_reassembler, spec_decode_segment, spec_push, Reassembler, ReassemblerView,
    TransportSegment,
};

verus! {

/// Errors returned by the master role.
#[derive(Debug)]
pub enum MasterError {
    /// Protocol validation failed.
    Protocol(ProtocolError),
    /// Transport I/O failed.
    Transport(String),
}

/// Link-layer dialect used by the master.
#[derive(Debug, Clone, Copy, PartialEq, Eq, Structural)]
pub enum LinkStyle {
    /// IEEE-style controls (0x40 reset, 0x44 user data).
    Standard,
    /// Windows tool-style controls (0xC0 reset, 0xC4 user data).
    Tool,
}

impl Default for LinkStyle {
    fn default() -> (r: LinkStyle)
        ensures
            r == LinkStyle::Tool,
    {
        LinkStyle::Tool
    }
}

/// The direction bit that a link style puts on the master's primary frames.
pub open spec fn style_direction(style: LinkStyle) -> Direction {
    match style {
        LinkStyle::Standard => Direction::MasterToOutstation,
        LinkStyle::Tool => Direction::OutstationToMaster,
    }
}

/// Master endpoint configuration.
#[derive(Debug, Clone, Copy, PartialEq, Eq, Structural)]
pub struct MasterConfig {
    /// Local master address.
    pub master: Address,
    /// Remote outstation address.
    pub outstation: Address,
    /// Link-layer frame dialect.
    pub link_style: LinkStyle,
}

impl Default for MasterConfig {
    fn default() -> (r: MasterConfig)
        ensures
            r.master@ == 1,
            r.outstation@ == 1024,
            r.link_style == LinkStyle::Tool,
    {
        MasterConfig {
            master: Address::new(1),
            outstation: Address::new(1024),
            link_style: LinkStyle::default(),
        }
    }
}

/// The abstract state of a [`MasterSession`].
pub struct MasterSessionView {
    pub config: MasterConfig,
    pub transport_sequence: u8,
    pub app_sequence: u8,
    pub polls_sent: u64,
    pub reassembler: ReassemblerView,
}

/// Master/client session state.
#[derive(Debug)]
pub struct MasterSession {
    config: MasterConfig,
    transport_sequence: u8,
    app_sequence: u8,
    polls_sent: u64,
    reassembler: Reassembler,
}

impl View for MasterSession {
    type V = MasterSessionView;

    closed spec fn view(&self) -> MasterSessionView {
        MasterSessionView {
            config: self.config,
            transport_sequence: self.transport_sequence,
            app_sequence: self.app_sequence,
            polls_sent: self.polls_sent,
            reassembler: self.reassembler@,
        }
    }
}

/// The request an integrity poll sends: the simulator class scan in the tool dialect, the
/// plain integrity poll otherwise.
pub open spec fn spec_poll_request(style: LinkStyle, sequence: u8) -> ApplicationFragmentView {
    ApplicationFragmentView {
        control: crate::app::AppControl {
            fir: true,
            fin: true,
            con: false,
            uns: false,
            sequence: sequence % 16,
        },
        function: FunctionCode::Read,
        iin: 0,
        objects: match style {
            LinkStyle::Tool => seq![
                crate::app::AppObjectView::IntegrityPoll,
                crate::app::AppObjectView::ClassScan(crate::app::DataClass::Class1),
                crate::app::AppObjectView::ClassScan(crate::app::DataClass::Class2),
                crate::app::AppObjectView::ClassScan(crate::app::DataClass::Class3),
            ],
            LinkStyle::Standard => seq![crate::app::AppObjectView::IntegrityPoll],
        },
    }
}

/// The state with its application sequence advanced and one more poll counted.
pub open spec fn after_poll(st: MasterSessionView) -> MasterSessionView {
    MasterSessionView {
        app_sequence: ((st.app_sequence + 1) % 16) as u8,
        polls_sent: if st.polls_sent < u64::MAX {
            (st.polls_sent + 1) as u64
        } else {
            0
        },
        ..st
    }
}

/// The state with its reassembler replaced.
pub open spec fn with_reassembler(st: MasterSessionView, r: ReassemblerView) -> MasterSessionView {
    MasterSessionView { reassembler: r, ..st }
}

/// The frames that carry encoded request bytes from this master.
pub open spec fn spec_request_frames(config: MasterConfig, bytes: Seq<u8>, start: u8) -> Seq<
    LinkFrameView,
> {
    spec_fragment_frames(
        bytes,
        start,
        style_direction(config.link_style),
        config.outstation@,
        config.master@,
    )
}

/// What taking one received frame does: the next state, and the fragment it completes.
/// Frames for other addresses are ignored; a sequence or fragment error clears reassembly and
/// is otherwise ignored.
pub open spec fn spec_accept_frame(st: MasterSessionView, frame: LinkFrameView) -> (
    MasterSessionView,
    Result<Option<ApplicationFragmentView>, ProtocolError>,
) {
    if frame.destination != st.config.master@ {
        (st, Ok(None))
    } else {
        match spec_decode_segment(frame.payload) {
            Err(e) => (st, Err(e)),
            Ok(segment) => {
                let (r, pushed) = spec_push(st.reassembler, segment);
                let st2 = with_reassembler(st, r);
                match pushed {
                    Ok(Some(bytes)) => match spec_decode_fragment(bytes) {
                        Ok(f) => (st2, Ok(Some(f))),
                        Err(e) => (st2, Err(e)),
                    },
                    Ok(None) => (st2, Ok(None)),
                    Err(e) => if e is InvalidSequence || e is InvalidFragment {
                        (with_reassembler(st, idle_reassembler()), Ok(None))
                    } else {
                        (st2, Err(e))
                    },
                }
            },
        }
    }
}

/// Takes `frames` one after another: the final state and what each frame gave.
pub open spec fn accept_frames(st: MasterSessionView, frames: Seq<LinkFrameView>) -> (
    MasterSessionView,
    Seq<Result<Option<ApplicationFragmentView>, ProtocolError>>,
)
    decreases frames.len(),
{
    if frames.len() == 0 {
        (st, seq![])
    } else {
        let (before, results) = accept_frames(st, frames.drop_last());
        let (after, r) = spec_accept_frame(before, frames.last());
        (after, results.push(r))
    }
}

/// Whether a fragment answers a poll: a solicited or unsolicited response.
pub open spec fn spec_is_response(function: FunctionCode) -> bool {
    function == FunctionCode::Response || function == FunctionCode::UnsolicitedResponse
}

impl MasterSession {
    /// Creates a new master session.
    pub fn new(config: MasterConfig) -> (r: MasterSession)
        ensures
            r@ == (MasterSessionView {
                config,
                transport_sequence: 0,
                app_sequence: 0,
                polls_sent: 0,
                reassembler: idle_reassembler(),
            }),
    {
        MasterSession {
            config,
            transport_sequence: 0,
            app_sequence: 0,
            polls_sent: 0,
            reassembler: Reassembler::new(),
        }
    }

    /// Returns the configured master address.
    pub fn master_address(&self) -> (r: Address)
        ensures
            r == self@.config.master,
    {
        self.config.master
    }

    /// Returns the configured outstation address.
    pub fn outstation_address(&self) -> (r: Address)
        ensures
            r == self@.config.outstation,
    {
        self.config.outstation
    }

    /// Clears transport reassembly state after link loss or parse errors.
    pub fn reset_transport(&mut self)
        ensures
            final(self)@ == with_reassembler(old(self)@, idle_reassembler()),
    {
        self.reassembler = Reassembler::new();
    }

    fn next_app_sequence(&mut self) -> (r: u8)
        ensures
            r == old(self)@.app_sequence,
            final(self)@ == (MasterSessionView {
                app_sequence: ((old(self)@.app_sequence + 1) % 16) as u8,
                ..old(self)@
            }),
    {
        let current: u8 = self.app_sequence;
        self.app_sequence = ((current % 16 + 1) % 16) as u8;
        current
    }

    /// Chooses the request of the next integrity poll and counts the poll: the simulator class
    /// scan in the tool dialect, the plain integrity poll otherwise, numbered with the current
    /// application sequence.
    pub fn integrity_poll_request(&mut self) -> (r: ApplicationFragment)
        ensures
            r@ == spec_poll_request(old(self)@.config.link_style, old(self)@.app_sequence),
            final(self)@ == after_poll(old(self)@),
    {
        let sequence: u8 = self.next_app_sequence();
        let request = match self.config.link_style {
            LinkStyle::Tool => ApplicationFragment::simulator_class_scan(sequence),
            LinkStyle::Standard => ApplicationFragment::integrity_poll(sequence),
        };
        self.polls_sent = self.polls_sent.wrapping_add(1);
        request
    }

    /// Encodes a request into the link frames that carry it to the outstation, and advances
    /// the transport sequence past its segments. A request that cannot be encoded changes
    /// nothing.
    pub fn request_frames(&mut self, request: &ApplicationFragment) -> (r: Result<
        Vec<LinkFrame>,
        MasterError,
    >)
        ensures
            match spec_encode_fragment(request@) {
                Ok(bytes) => {
                    &&& r matches Ok(frames) && frame_views(frames@) == spec_request_frames(
                        old(self)@.config,
                        bytes,
                        old(self)@.transport_sequence,
                    )
                    &&& final(self)@ == (MasterSessionView {
                        transport_sequence: next_transport_sequence(
                            old(self)@.transport_sequence,
                            bytes.len(),
                        ),
                        ..old(self)@
                    })
                },
                Err(e) => r matches Err(MasterError::Protocol(x)) && x == e && final(self)@ == old(
                    self,
                )@,
            },
    {
        let encoded = match request.encode() {
            Ok(bytes) => bytes,
            Err(e) => {
                return Err(MasterError::Protocol(e));
            },
        };
        let direction = match self.config.link_style {
            LinkStyle::Standard => Direction::MasterToOutstation,
            LinkStyle::Tool => Direction::OutstationToMaster,
        };
        let (frames, next) = fragment_frames(
            encoded.as_slice(),
            self.transport_sequence,
            direction,
            self.config.outstation,
            self.config.master,
        );
        self.transport_sequence = next;
        Ok(frames)
    }

    /// Takes one received frame and returns the application fragment it completes, if any.
    /// Frames for other addresses are ignored; a sequence or fragment error clears
    /// reassembly and the frame is dropped.
    pub fn accept_frame(&mut self, frame: &LinkFrame) -> (r: Result<
        Option<ApplicationFragment>,
        MasterError,
    >)
        ensures
            final(self)@ == spec_accept_frame(old(self)@, frame@).0,
            match spec_accept_frame(old(self)@, frame@).1 {
                Ok(Some(f)) => r matches Ok(Some(g)) && g@ == f,
                Ok(None) => r matches Ok(None),
                Err(e) => r matches Err(MasterError::Protocol(x)) && x == e,
            },
    {
        proof {
            prim::lemma_address_view_injective(frame.destination, self.config.master);
        }
        if frame.destination != self.config.master {
            return Ok(None);
        }
        let segment = match TransportSegment::decode(frame.payload.as_slice()) {
            Ok(s) => s,
            Err(e) => {
                return Err(MasterError::Protocol(e));
            },
        };
        let mut reassembler = Reassembler::new();
        std::mem::swap(&mut reassembler, &mut self.reassembler);
        let pushed = reassembler.push(segment);
        self.reassembler = reassembler;
        match pushed {
            Ok(Some(bytes)) => match ApplicationFragment::decode(bytes.as_slice()) {
                Ok(f) => Ok(Some(f)),
                Err(e) => Err(MasterError::Protocol(e)),
            },
            Ok(None) => Ok(None),
            Err(e) => {
                let recoverable = match e {
                    ProtocolError::InvalidSequence { .. } => true,
                    ProtocolError::InvalidFragment => true,
                    _ => false,
                };
                if recoverable {
                    self.reassembler = Reassembler::new();
                    Ok(None)
                } else {
                    Err(MasterError::Protocol(e))
                }
            },
        }
    }

    /// Decides what an integrity poll does with a received fragment: a response ends the
    /// poll and is handed back; anything else clears reassembly and the poll waits on.
    pub fn accept_poll_response(&mut self, response: ApplicationFragment) -> (r: Option<
        ApplicationFragment,
    >)
        ensures
            spec_is_response(response.function) ==> r == Some(response) && final(self)@ == old(
                self,
            )@,
            !spec_is_response(response.function) ==> r is None && final(self)@
                == with_reassembler(old(self)@, idle_reassembler()),
    {
        match response.function {
            FunctionCode::Response | FunctionCode::UnsolicitedResponse => Some(response),
            _ => {
                self.reset_transport();
                None
            },
        }
    }
}

} // verus!
