//! Messages and their reassembly from frames: one or more frames sharing
//! an opcode fold into one application-visible message; a Close frame ends
//! the connection instead.

use vstd::prelude::*;
use crate::frame::{
    Frame, FrameModel, FrameReadState, Opcode, ProtocolError, init_frame, spec_frame_bytes,
    spec_run,
};

verus! {

broadcast use vstd::seq_lib::group_seq_properties;

/// The application-visible type of a message.
#[derive(Clone, Copy, PartialEq, Eq, Structural, Debug)]
pub enum MessageType {
    Text,
    Binary,
    Ping,
    Pong,
}

/// One reassembled application-data unit.
pub struct Message {
    pub data: Vec<u8>,
    pub kind: MessageType,
}

/// The mathematical model of a message.
#[verifier::ext_equal]
pub ghost struct MessageModel {
    pub data: Seq<u8>,
    pub kind: MessageType,
}

impl View for Message {
    type V = MessageModel;

    open spec fn view(&self) -> MessageModel {
        MessageModel { data: self.data@, kind: self.kind }
    }
}

/// The opcode a message of this type goes out under.
pub open spec fn kind_opcode(k: MessageType) -> Opcode {
    match k {
        MessageType::Text => Opcode::Text,
        MessageType::Binary => Opcode::Binary,
        MessageType::Ping => Opcode::Ping,
        MessageType::Pong => Opcode::Pong,
    }
}

/// The message type an opcode names; Continuation and Close name none.
pub open spec fn opcode_kind(op: Opcode) -> Option<MessageType> {
    match op {
        Opcode::Text => Some(MessageType::Text),
        Opcode::Binary => Some(MessageType::Binary),
        Opcode::Ping => Some(MessageType::Ping),
        Opcode::Pong => Some(MessageType::Pong),
        Opcode::Continuation => None,
        Opcode::Close => None,
    }
}

/// What one fed frame does to an assembler.
#[verifier::ext_equal]
pub ghost enum FeedOutcome {
    /// The message is not finished; more frames are wanted.
    More,
    /// A frame with the fin flag completed this message.
    Complete(MessageModel),
    /// The message ended with a Close opcode: the connection is over.
    Closed,
    /// The frame was rejected as malformed.
    Rejected(ProtocolError),
}

/// The mathematical model of an assembler: the payload bytes gathered so
/// far and the opcode the message started with, if one has been seen.
#[verifier::ext_equal]
pub ghost struct AsmModel {
    pub data: Seq<u8>,
    pub opcode: Option<Opcode>,
}

/// The model of an assembler with nothing gathered.
pub open spec fn empty_asm() -> AsmModel {
    AsmModel { data: Seq::empty(), opcode: None }
}

/// What feeding one frame (its fin flag, opcode and unmasked payload) does:
/// the payload is appended; a non-Continuation opcode must agree with the
/// opcode that began the message and is remembered; a fin flag finishes the
/// message — as data, as a close, or as an error when no frame named an
/// opcode — and resets the assembler for the next message.
pub open spec fn spec_feed(a: AsmModel, fin: bool, op: Opcode, payload: Seq<u8>) -> (
    AsmModel,
    FeedOutcome,
) {
    let data2 = a.data + payload;
    if !(op is Continuation) && a.opcode is Some && a.opcode->Some_0 != op {
        (
            AsmModel { data: data2, opcode: a.opcode },
            FeedOutcome::Rejected(ProtocolError::InconsistentOpcode),
        )
    } else {
        let op2 = if op is Continuation {
            a.opcode
        } else {
            Some(op)
        };
        if !fin {
            (AsmModel { data: data2, opcode: op2 }, FeedOutcome::More)
        } else {
            match op2 {
                None => (empty_asm(), FeedOutcome::Rejected(ProtocolError::MissingOpcode)),
                Some(o) => match opcode_kind(o) {
                    None => (empty_asm(), FeedOutcome::Closed),
                    Some(k) => (
                        empty_asm(),
                        FeedOutcome::Complete(MessageModel { data: data2, kind: k }),
                    ),
                },
            }
        }
    }
}

/// Maps an exec feed result onto the model outcome.
pub open spec fn outcome_of(r: Result<FeedResult, ProtocolError>) -> FeedOutcome {
    match r {
        Ok(FeedResult::More) => FeedOutcome::More,
        Ok(FeedResult::Complete(msg)) => FeedOutcome::Complete(msg@),
        Ok(FeedResult::Closed) => FeedOutcome::Closed,
        Err(e) => FeedOutcome::Rejected(e),
    }
}

/// What `MessageAssembler::feed` reports back.
pub enum FeedResult {
    /// More frames are wanted before the message is whole.
    More,
    /// The fed frame completed this message.
    Complete(Message),
    /// A Close opcode ended the connection; no message is produced.
    Closed,
}

/// Reassembles messages from parsed frames.
pub struct MessageAssembler {
    data: Vec<u8>,
    opcode: Option<Opcode>,
}

impl View for MessageAssembler {
    type V = AsmModel;

    closed spec fn view(&self) -> AsmModel {
        AsmModel { data: self.data@, opcode: self.opcode }
    }
}

impl MessageAssembler {
    /// The remembered opcode is never Continuation.
    pub open spec fn wf(&self) -> bool {
        self@.opcode matches Some(o) ==> !(o is Continuation)
    }

    /// An assembler with nothing gathered yet.
    pub fn new() -> (r: MessageAssembler)
        ensures
            r@ == empty_asm(),
            r.wf(),
    {
        let r = MessageAssembler { data: Vec::new(), opcode: None };
        proof {
            assert(r@ =~= empty_asm());
        }
        r
    }

    /// Feeds one parsed frame: its fin flag, opcode, and unmasked payload.
    pub fn feed(&mut self, fin: bool, opcode: Opcode, payload: &[u8]) -> (r: Result<
        FeedResult,
        ProtocolError,
    >)
        requires
            old(self).wf(),
        ensures
            final(self).wf(),
            final(self)@ == spec_feed(old(self)@, fin, opcode, payload@).0,
            outcome_of(r) == spec_feed(old(self)@, fin, opcode, payload@).1,
    {
        self.data.extend_from_slice(payload);
        if opcode != Opcode::Continuation {
            match self.opcode {
                Some(prev) => {
                    if prev != opcode {
                        return Err(ProtocolError::InconsistentOpcode);
                    }
                },
                None => {},
            }
            self.opcode = Some(opcode);
        }
        if !fin {
            return Ok(FeedResult::More);
        }
        let op = match self.opcode {
            None => {
                self.data = Vec::new();
                self.opcode = None;
                proof {
                    assert(self@ =~= empty_asm());
                }
                return Err(ProtocolError::MissingOpcode);
            },
            Some(o) => o,
        };
        let data = self.data.clone();
        proof {
            assert(data@ =~= self@.data);
        }
        self.data = Vec::new();
        self.opcode = None;
        proof {
            assert(self@ =~= empty_asm());
        }
        match op {
            Opcode::Close => Ok(FeedResult::Closed),
            Opcode::Text => Ok(FeedResult::Complete(Message { data, kind: MessageType::Text })),
            Opcode::Binary => Ok(
                FeedResult::Complete(Message { data, kind: MessageType::Binary }),
            ),
            Opcode::Ping => Ok(FeedResult::Complete(Message { data, kind: MessageType::Ping })),
            Opcode::Pong => Ok(FeedResult::Complete(Message { data, kind: MessageType::Pong })),
            Opcode::Continuation => {
                proof {
                    assert(false);
                }
                Err(ProtocolError::MissingOpcode)
            },
        }
    }
}

/// All payloads of a frame sequence, concatenated in order.
pub open spec fn concat_all(ps: Seq<Seq<u8>>) -> Seq<u8>
    decreases ps.len(),
{
    if ps.len() == 0 {
        Seq::empty()
    } else {
        ps[0] + concat_all(ps.skip(1))
    }
}

/// Feeds a sequence of frames — each a (fin, opcode, payload) triple — into
/// an assembler, reporting the final state and the last frame's outcome.
pub open spec fn feed_many(a: AsmModel, frames: Seq<(bool, Opcode, Seq<u8>)>) -> (
    AsmModel,
    FeedOutcome,
)
    decreases frames.len(),
{
    if frames.len() == 0 {
        (a, FeedOutcome::More)
    } else {
        let r = spec_feed(a, frames[0].0, frames[0].1, frames[0].2);
        if frames.len() == 1 {
            r
        } else {
            feed_many(r.0, frames.skip(1))
        }
    }
}

/// The frames a message is fragmented into: the first carries the real
/// opcode, the rest Continuation, and only the last has fin set.
pub open spec fn fragment_frames(op: Opcode, ps: Seq<Seq<u8>>) -> Seq<(bool, Opcode, Seq<u8>)> {
    Seq::new(
        ps.len(),
        |i: int|
            (
                i == ps.len() - 1,
                if i == 0 {
                    op
                } else {
                    Opcode::Continuation
                },
                ps[i],
            ),
    )
}

/// Continuation fragments after the first frame of a message.
pub open spec fn cont_frames(ps: Seq<Seq<u8>>) -> Seq<(bool, Opcode, Seq<u8>)> {
    Seq::new(ps.len(), |i: int| (i == ps.len() - 1, Opcode::Continuation, ps[i]))
}

/// Feeding continuation fragments onto a started message accumulates their
/// payloads and completes with everything gathered.
proof fn lemma_cont_frames(d: Seq<u8>, op: Opcode, ps: Seq<Seq<u8>>)
    requires
        ps.len() >= 1,
        opcode_kind(op) is Some,
    ensures
        feed_many(AsmModel { data: d, opcode: Some(op) }, cont_frames(ps)) == (
            empty_asm(),
            FeedOutcome::Complete(
                MessageModel { data: d + concat_all(ps), kind: opcode_kind(op)->Some_0 },
            ),
        ),
    decreases ps.len(),
{
    let a = AsmModel { data: d, opcode: Some(op) };
    let frames = cont_frames(ps);
    if ps.len() == 1 {
        assert(concat_all(ps.skip(1)) =~= Seq::<u8>::empty());
        assert(d + concat_all(ps) =~= d + ps[0]);
        assert(feed_many(a, frames).1 =~~= FeedOutcome::Complete(
            MessageModel { data: d + concat_all(ps), kind: opcode_kind(op)->Some_0 },
        ));
    } else {
        let r = spec_feed(a, false, Opcode::Continuation, ps[0]);
        assert(r.1 is More);
        assert(r.0 == AsmModel { data: d + ps[0], opcode: Some(op) });
        lemma_cont_frames(d + ps[0], op, ps.skip(1));
        assert(frames.skip(1) =~= cont_frames(ps.skip(1)));
        assert((d + ps[0]) + concat_all(ps.skip(1)) =~= d + concat_all(ps));
        assert(feed_many(a, frames) == feed_many(r.0, frames.skip(1)));
        assert(feed_many(a, frames).1 =~~= FeedOutcome::Complete(
            MessageModel { data: d + concat_all(ps), kind: opcode_kind(op)->Some_0 },
        ));
    }
}

/// Fragmentation: a message split into frames F1…Fn — F1 carrying the real
/// opcode, F2…Fn Continuation, only Fn with fin set — reassembles, from a
/// fresh assembler, to exactly what the equivalent single-frame message
/// reassembles to: one message holding the payloads' concatenation.
pub proof fn lemma_fragmentation(op: Opcode, ps: Seq<Seq<u8>>)
    requires
        ps.len() >= 1,
        opcode_kind(op) is Some,
    ensures
        feed_many(empty_asm(), fragment_frames(op, ps)) == spec_feed(
            empty_asm(),
            true,
            op,
            concat_all(ps),
        ),
        feed_many(empty_asm(), fragment_frames(op, ps)).1 == FeedOutcome::Complete(
            MessageModel { data: concat_all(ps), kind: opcode_kind(op)->Some_0 },
        ),
{
    let frames = fragment_frames(op, ps);
    let single = spec_feed(empty_asm(), true, op, concat_all(ps));
    assert(Seq::<u8>::empty() + concat_all(ps) =~= concat_all(ps));
    assert(single.1 =~~= FeedOutcome::Complete(
        MessageModel { data: concat_all(ps), kind: opcode_kind(op)->Some_0 },
    ));
    if ps.len() == 1 {
        assert(concat_all(ps.skip(1)) =~= Seq::<u8>::empty());
        assert(concat_all(ps) =~= ps[0]);
        assert(Seq::<u8>::empty() + ps[0] =~= ps[0]);
        assert(feed_many(empty_asm(), frames) == spec_feed(empty_asm(), true, op, ps[0]));
        assert(feed_many(empty_asm(), frames).1 =~~= single.1);
        assert(feed_many(empty_asm(), frames).0 =~~= single.0);
    } else {
        let r = spec_feed(empty_asm(), false, op, ps[0]);
        assert(r.1 is More);
        assert(Seq::<u8>::empty() + ps[0] =~= ps[0]);
        assert(r.0 =~~= AsmModel { data: ps[0], opcode: Some(op) });
        lemma_cont_frames(ps[0], op, ps.skip(1));
        assert(frames.skip(1) =~= cont_frames(ps.skip(1)));
        assert(ps[0] + concat_all(ps.skip(1)) =~= concat_all(ps));
        assert(feed_many(empty_asm(), frames) == feed_many(r.0, frames.skip(1)));
        assert(feed_many(empty_asm(), frames).1 =~~= single.1);
        assert(feed_many(empty_asm(), frames).0 =~~= single.0);
    }
}

/// The model of a frame a client sends a whole message in: fin set, masked
/// with `key`, carrying the message's opcode and payload.
pub open spec fn client_frame(m: MessageModel, key: Seq<u8>) -> FrameModel {
    FrameModel {
        state: FrameReadState::BitsOpcodePayloadLength,
        fin: true,
        rsv: 0,
        opcode: kind_opcode(m.kind),
        mask: true,
        payload_len: m.data.len() as u64,
        masking_key: key,
        payload: m.data,
    }
}

/// Round trip: for any message and any masking key, the wire bytes of the
/// masked single-frame encoding parse back — from a fresh parser — to a
/// finished frame whose payload is the message's data, and feeding that
/// frame to a fresh assembler completes exactly the original message.
/// Together with `lemma_run_append`, this holds under arbitrarily small
/// delivery chunks as well.
pub proof fn lemma_message_round_trip(m: MessageModel, key: Seq<u8>)
    requires
        key.len() == 4,
        m.data.len() <= u64::MAX,
    ensures
        spec_run(init_frame(), spec_frame_bytes(client_frame(m, key))) == Ok::<
            FrameModel,
            ProtocolError,
        >(FrameModel { state: FrameReadState::Done, ..client_frame(m, key) }),
        spec_feed(empty_asm(), true, kind_opcode(m.kind), client_frame(m, key).payload).1
            =~~= FeedOutcome::Complete(m),
{
    crate::frame::lemma_frame_round_trip(client_frame(m, key));
    assert(Seq::<u8>::empty() + m.data =~= m.data);
}

/// Whether a received message is relayed to the room: data messages are,
/// Ping and Pong are answered locally and never republished.
pub fn should_publish(kind: &MessageType) -> (r: bool)
    ensures
        r == (kind is Text || kind is Binary),
{
    match kind {
        MessageType::Text => true,
        MessageType::Binary => true,
        MessageType::Ping => false,
        MessageType::Pong => false,
    }
}

/// The frame a server sends a message in: one unfragmented, unmasked frame
/// carrying the message's opcode and whole payload.
pub open spec fn outbound_frame(m: MessageModel) -> FrameModel {
    FrameModel {
        state: FrameReadState::Done,
        fin: true,
        rsv: 0,
        opcode: kind_opcode(m.kind),
        mask: false,
        payload_len: m.data.len() as u64,
        masking_key: seq![0u8, 0u8, 0u8, 0u8],
        payload: m.data,
    }
}

/// Serializes one message the way the server sends it: a single frame,
/// fin set, mask clear, payload unmodified.
pub fn encode_message(msg: &Message) -> (r: Vec<u8>)
    ensures
        r@ == spec_frame_bytes(outbound_frame(msg@)),
{
    let mut key: Vec<u8> = Vec::new();
    key.push(0);
    key.push(0);
    key.push(0);
    key.push(0);
    let opcode = match msg.kind {
        MessageType::Text => Opcode::Text,
        MessageType::Binary => Opcode::Binary,
        MessageType::Ping => Opcode::Ping,
        MessageType::Pong => Opcode::Pong,
    };
    let frame = Frame {
        state: FrameReadState::Done,
        fin: true,
        rsv: 0,
        opcode,
        mask: false,
        payload_len: msg.data.len() as u64,
        masking_key: key,
        payload: msg.data.clone(),
    };
    proof {
        assert(frame@.masking_key =~= outbound_frame(msg@).masking_key);
        assert(frame@.payload =~= outbound_frame(msg@).payload);
        assert(frame@ =~= outbound_frame(msg@));
    }
    frame.to_bytes()
}

} // verus!
