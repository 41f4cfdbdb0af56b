//! The per-connection intake driver.
//!
//! A connection is accepted elsewhere, handshaken as a WebSocket, and read as
//! a stream of frames. The driver owns the decisions: a binary frame is
//! decoded as a [`Packet`] and dispatched; any other message kind, a transport
//! failure, or a payload that does not parse terminates the connection with
//! the matching [`ConnectionError`]. The loop that awaits frames lives with
//! the I/O; the functions here are its verified core, one call per event
//! ([`Server::handle_frame`]) or one call per connection
//! ([`Server::accept_connection`]).

use crate::wire::dec_message;
use crate::wire::decode_packet;
use crate::wire::DecodeError;
use crate::wire::FieldV;
use crate::wire::Packet;
use vstd::prelude::*;

verus! {

/// The kind of a non-binary inbound message, named by the error that rejects
/// it.
#[derive(Clone, Copy, Debug, PartialEq, Eq, Structural)]
pub enum FrameKind {
    Text,
    Ping,
    Pong,
    Close,
    Raw,
}

/// One discrete message delivered by the WebSocket layer: a binary payload,
/// any other message kind, or a transport failure with its report.
#[derive(Clone, Debug, PartialEq, Eq)]
pub enum Frame {
    Binary(Vec<u8>),
    Other(FrameKind),
    TransportError(String),
}

/// The mathematical value of a [`Frame`].
pub enum FrameV {
    Binary(Seq<u8>),
    Other(FrameKind),
    TransportError(Seq<char>),
}

impl View for Frame {
    type V = FrameV;

    open spec fn view(&self) -> FrameV {
        match self {
            Frame::Binary(b) => FrameV::Binary(b@),
            Frame::Other(k) => FrameV::Other(*k),
            Frame::TransportError(m) => FrameV::TransportError(m@),
        }
    }
}

impl DeepView for Frame {
    type V = FrameV;

    open spec fn deep_view(&self) -> FrameV {
        self.view()
    }
}

/// Why a connection terminated, each kind fatal to that connection only.
#[derive(Clone, Debug, PartialEq, Eq)]
pub enum ConnectionError {
    /// The WebSocket upgrade was refused or malformed; carries the report.
    HandshakeFailed(String),
    /// A read failed at the transport; carries the report.
    TransportError(String),
    /// A non-binary frame reached the driver; names the offending kind.
    UnexpectedMessage(FrameKind),
    /// A binary payload did not parse as a packet.
    DecodeFailed(DecodeError),
}

/// The mathematical value of a [`ConnectionError`].
pub enum ConnectionErrorV {
    HandshakeFailed(Seq<char>),
    TransportError(Seq<char>),
    UnexpectedMessage(FrameKind),
    DecodeFailed(DecodeError),
}

impl View for ConnectionError {
    type V = ConnectionErrorV;

    open spec fn view(&self) -> ConnectionErrorV {
        match self {
            ConnectionError::HandshakeFailed(m) => ConnectionErrorV::HandshakeFailed(m@),
            ConnectionError::TransportError(m) => ConnectionErrorV::TransportError(m@),
            ConnectionError::UnexpectedMessage(k) => ConnectionErrorV::UnexpectedMessage(*k),
            ConnectionError::DecodeFailed(e) => ConnectionErrorV::DecodeFailed(*e),
        }
    }
}

impl DeepView for ConnectionError {
    type V = ConnectionErrorV;

    open spec fn deep_view(&self) -> ConnectionErrorV {
        self.view()
    }
}

/// What one frame decides: a binary payload either decodes to a packet or
/// fails the connection; every other frame fails it at once.
pub open spec fn frame_outcome(f: FrameV) -> Result<Seq<FieldV>, ConnectionErrorV> {
    match f {
        FrameV::Binary(b) => match dec_message(b) {
            Ok(fields) => Ok(fields),
            Err(e) => Err(ConnectionErrorV::DecodeFailed(e)),
        },
        FrameV::Other(k) => Err(ConnectionErrorV::UnexpectedMessage(k)),
        FrameV::TransportError(m) => Err(ConnectionErrorV::TransportError(m)),
    }
}

/// The packets the handler observes: the decoded payloads of the longest
/// all-binary, all-decodable prefix, in arrival order.
pub open spec fn intake_dispatches(frames: Seq<FrameV>) -> Seq<Seq<FieldV>>
    decreases frames.len(),
{
    if frames.len() == 0 {
        Seq::empty()
    } else {
        match frame_outcome(frames[0]) {
            Ok(p) => seq![p] + intake_dispatches(frames.drop_first()),
            Err(_) => Seq::empty(),
        }
    }
}

/// How the intake loop ends: `None` on an exhausted frame source (the peer
/// closed cleanly), or the first frame's error.
pub open spec fn intake_result(frames: Seq<FrameV>) -> Option<ConnectionErrorV>
    decreases frames.len(),
{
    if frames.len() == 0 {
        None
    } else {
        match frame_outcome(frames[0]) {
            Ok(_) => intake_result(frames.drop_first()),
            Err(e) => Some(e),
        }
    }
}

/// Empty close: a peer that completes the handshake and closes without
/// sending any frame causes no dispatch, and the intake ends in success.
pub proof fn lemma_empty_close()
    ensures
        intake_dispatches(Seq::<FrameV>::empty()) == Seq::<Seq<FieldV>>::empty(),
        intake_result(Seq::<FrameV>::empty()) is None,
{
}

/// Single packet: exactly one binary frame holding a valid packet causes
/// exactly one dispatch, of exactly that packet, and the intake then ends in
/// success.
pub proof fn lemma_single_packet(bytes: Seq<u8>, fields: Seq<FieldV>)
    requires
        dec_message(bytes) == Ok::<Seq<FieldV>, DecodeError>(fields),
    ensures
        intake_dispatches(seq![FrameV::Binary(bytes)]) == seq![fields],
        intake_result(seq![FrameV::Binary(bytes)]) is None,
{
    let frames = seq![FrameV::Binary(bytes)];
    reveal_with_fuel(intake_dispatches, 2);
    reveal_with_fuel(intake_result, 2);
    assert(frames[0] == FrameV::Binary(bytes));
    assert(frames.drop_first() =~= Seq::<FrameV>::empty());
    assert(seq![fields] + Seq::<Seq<FieldV>>::empty() =~= seq![fields]);
}

/// Order preservation: when every frame is a binary, decodable payload, the
/// intake ends in success and the handler observes the decoded packets in
/// arrival order, one per frame.
pub proof fn lemma_order_preservation(frames: Seq<FrameV>)
    requires
        forall|i: int| 0 <= i < frames.len() ==> (#[trigger] frame_outcome(frames[i])) is Ok,
    ensures
        intake_result(frames) is None,
        intake_dispatches(frames) == Seq::new(
            frames.len(),
            |i: int| frame_outcome(frames[i])->Ok_0,
        ),
    decreases frames.len(),
{
    if frames.len() == 0 {
        assert(intake_dispatches(frames) =~= Seq::new(
            frames.len(),
            |i: int| frame_outcome(frames[i])->Ok_0,
        ));
    } else {
        let rest = frames.drop_first();
        assert(forall|i: int| 0 <= i < rest.len() ==> #[trigger] rest[i] == frames[i + 1]);
        lemma_order_preservation(rest);
        assert(intake_dispatches(frames) =~= Seq::new(
            frames.len(),
            |i: int| frame_outcome(frames[i])->Ok_0,
        ));
    }
}

/// The first fatal frame ends the intake with its own error, and the handler
/// observes exactly the packets of the frames before it, in order.
pub proof fn lemma_terminates_on_error(frames: Seq<FrameV>, i: int)
    requires
        0 <= i < frames.len(),
        forall|j: int| 0 <= j < i ==> (#[trigger] frame_outcome(frames[j])) is Ok,
        frame_outcome(frames[i]) is Err,
    ensures
        intake_result(frames) == Some(frame_outcome(frames[i])->Err_0),
        intake_dispatches(frames) == Seq::new(i as nat, |j: int| frame_outcome(frames[j])->Ok_0),
    decreases i,
{
    if i == 0 {
        assert(intake_dispatches(frames) =~= Seq::new(
            0,
            |j: int| frame_outcome(frames[j])->Ok_0,
        ));
    } else {
        let rest = frames.drop_first();
        assert(forall|j: int| 0 <= j < rest.len() ==> #[trigger] rest[j] == frames[j + 1]);
        lemma_terminates_on_error(rest, i - 1);
        assert(intake_dispatches(frames) =~= Seq::new(i as nat, |j: int| frame_outcome(frames[j])->Ok_0));
    }
}

/// Rejection of non-binary frames: the first text, ping, pong, close or raw
/// frame that reaches the driver terminates the connection with
/// `UnexpectedMessage` naming that kind.
pub proof fn lemma_non_binary_rejected(frames: Seq<FrameV>, i: int, kind: FrameKind)
    requires
        0 <= i < frames.len(),
        forall|j: int| 0 <= j < i ==> (#[trigger] frame_outcome(frames[j])) is Ok,
        frames[i] == FrameV::Other(kind),
    ensures
        intake_result(frames) == Some(ConnectionErrorV::UnexpectedMessage(kind)),
{
    lemma_terminates_on_error(frames, i);
}

/// Rejection of malformed payloads: the first binary frame whose payload is
/// not a valid packet encoding terminates the connection with `DecodeFailed`
/// carrying the decoder's error.
pub proof fn lemma_malformed_rejected(frames: Seq<FrameV>, i: int, bytes: Seq<u8>, e: DecodeError)
    requires
        0 <= i < frames.len(),
        forall|j: int| 0 <= j < i ==> (#[trigger] frame_outcome(frames[j])) is Ok,
        frames[i] == FrameV::Binary(bytes),
        dec_message(bytes) == Err::<Seq<FieldV>, DecodeError>(e),
    ensures
        intake_result(frames) == Some(ConnectionErrorV::DecodeFailed(e)),
{
    lemma_terminates_on_error(frames, i);
}

/// A process-wide factory for connection drivers. Stateless today; the
/// construction point is kept so that shared state can be added without
/// rewiring callers.
pub struct Server {}

impl Server {
    pub fn new() -> (s: Server)
        ensures
            s == (Server {  }),
    {
        Server {}
    }

    /// Decides one inbound frame: the decoded packet to dispatch, or the
    /// error that terminates the connection.
    pub fn handle_frame(&self, frame: &Frame) -> (r: Result<Packet, ConnectionError>)
        ensures
            match r {
                Ok(p) => frame_outcome(frame@) == Ok::<Seq<FieldV>, ConnectionErrorV>(p@),
                Err(e) => frame_outcome(frame@) == Err::<Seq<FieldV>, ConnectionErrorV>(e@),
            },
    {
        match frame {
            Frame::Binary(bytes) => match decode_packet(bytes.as_slice()) {
                Ok(p) => Ok(p),
                Err(e) => Err(ConnectionError::DecodeFailed(e)),
            },
            Frame::Other(kind) => Err(ConnectionError::UnexpectedMessage(*kind)),
            Frame::TransportError(m) => Err(ConnectionError::TransportError(m.clone())),
        }
    }

    /// Drives one accepted connection to termination. The handshake outcome
    /// comes first: a failure terminates at once with `HandshakeFailed`. On
    /// success the inbound frames are taken in arrival order; each decoded
    /// packet is dispatched (returned, in order), and the first fatal frame
    /// ends the intake with its error. An exhausted frame source is an
    /// orderly close and returns success.
    pub fn accept_connection(self, handshake: Result<Vec<Frame>, String>) -> (r: (
        Vec<Packet>,
        Result<(), ConnectionError>,
    ))
        ensures
            match handshake {
                Ok(frames) => {
                    &&& r.0.deep_view() == intake_dispatches(frames.deep_view())
                    &&& match r.1 {
                        Ok(_) => intake_result(frames.deep_view()) is None,
                        Err(e) => intake_result(frames.deep_view()) == Some(e@),
                    }
                },
                Err(cause) => {
                    &&& r.0@.len() == 0
                    &&& r.1 == Err::<(), ConnectionError>(ConnectionError::HandshakeFailed(cause))
                },
            },
    {
        let frames = match handshake {
            Ok(frames) => frames,
            Err(cause) => {
                return (Vec::new(), Err(ConnectionError::HandshakeFailed(cause)));
            },
        };
        let ghost fv = frames.deep_view();
        let mut dispatched: Vec<Packet> = Vec::new();
        let mut i: usize = 0;
        proof {
            assert(fv.skip(0) =~= fv);
        }
        while i < frames.len()
            invariant
                i <= frames@.len(),
                fv == frames.deep_view(),
                handshake matches Ok(hs) && hs.deep_view() == fv,
                intake_result(fv) == intake_result(fv.skip(i as int)),
                intake_dispatches(fv) == dispatched.deep_view() + intake_dispatches(
                    fv.skip(i as int),
                ),
            decreases frames@.len() - i,
        {
            let ghost rest = fv.skip(i as int);
            proof {
                assert(rest[0] == fv[i as int]);
                assert(rest.drop_first() =~= fv.skip(i + 1));
            }
            match self.handle_frame(&frames[i]) {
                Ok(packet) => {
                    proof {
                        assert(dispatched@.push(packet).map_values(|p: Packet| p.deep_view())
                            =~= dispatched.deep_view().push(packet@));
                        assert(dispatched.deep_view().push(packet@) + intake_dispatches(
                            fv.skip(i + 1),
                        ) =~= dispatched.deep_view() + (seq![packet@] + intake_dispatches(
                            fv.skip(i + 1),
                        )));
                    }
                    dispatched.push(packet);
                    i = i + 1;
                },
                Err(e) => {
                    proof {
                        assert(intake_dispatches(rest) =~= Seq::<Seq<FieldV>>::empty());
                        assert(dispatched.deep_view() + Seq::<Seq<FieldV>>::empty()
                            =~= dispatched.deep_view());
                    }
                    return (dispatched, Err(e));
                },
            }
        }
        proof {
            assert(fv.skip(frames@.len() as int) =~= Seq::<FrameV>::empty());
            assert(dispatched.deep_view() + Seq::<Seq<FieldV>>::empty() =~= dispatched.deep_view());
        }
        (dispatched, Ok(()))
    }
}

impl Default for Server {
    fn default() -> (s: Server)
        ensures
            s == (Server {  }),
    {
        Self::new()
    }
}

} // verus!
