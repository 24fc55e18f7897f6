//! The WebSocket frame wire format: opcodes, masking, the three payload
//! length regimes, an incremental frame parser and a frame serializer.

use vstd::prelude::*;

verus! {

broadcast use vstd::seq_lib::group_seq_properties;

use vstd::pervasive::VecAdditionalExecFns;

/// The frame-type tag carried in the low four bits of a frame's first byte.
#[derive(Clone, Copy, PartialEq, Eq, Structural, Debug)]
pub enum Opcode {
    Continuation,
    Text,
    Binary,
    Close,
    Ping,
    Pong,
}

/// A malformed-frame or malformed-message condition; terminates only the
/// connection that produced it.
#[derive(Clone, Copy, PartialEq, Eq, Structural, Debug)]
pub enum ProtocolError {
    /// The low four bits of the first header byte name no known opcode.
    BadOpcode,
    /// The three reserved bits of the first header byte were not all zero.
    ReservedBits,
    /// An inbound frame did not have the mask bit set.
    Unmasked,
    /// A frame's opcode disagrees with the opcode that began the message.
    InconsistentOpcode,
    /// A message ended without any frame having named an opcode.
    MissingOpcode,
}

impl Opcode {
    /// The numeric wire value of this opcode.
    pub closed spec fn spec_num(self) -> u8 {
        match self {
            Opcode::Continuation => 0,
            Opcode::Text => 1,
            Opcode::Binary => 2,
            Opcode::Close => 8,
            Opcode::Ping => 9,
            Opcode::Pong => 10,
        }
    }

    /// The opcode a numeric wire value names, if any.
    pub open spec fn spec_from_num(v: u8) -> Option<Opcode> {
        if v == 0 {
            Some(Opcode::Continuation)
        } else if v == 1 {
            Some(Opcode::Text)
        } else if v == 2 {
            Some(Opcode::Binary)
        } else if v == 8 {
            Some(Opcode::Close)
        } else if v == 9 {
            Some(Opcode::Ping)
        } else if v == 10 {
            Some(Opcode::Pong)
        } else {
            None
        }
    }

    pub fn as_num(&self) -> (r: u8)
        ensures
            r == self.spec_num(),
    {
        match self {
            Opcode::Continuation => 0,
            Opcode::Text => 1,
            Opcode::Binary => 2,
            Opcode::Close => 8,
            Opcode::Ping => 9,
            Opcode::Pong => 10,
        }
    }

    pub fn from_num(v: u8) -> (r: Result<Opcode, ProtocolError>)
        ensures
            match Opcode::spec_from_num(v) {
                Some(op) => r == Ok::<Opcode, ProtocolError>(op),
                None => r == Err::<Opcode, ProtocolError>(ProtocolError::BadOpcode),
            },
    {
        match v {
            0 => Ok(Opcode::Continuation),
            1 => Ok(Opcode::Text),
            2 => Ok(Opcode::Binary),
            8 => Ok(Opcode::Close),
            9 => Ok(Opcode::Ping),
            10 => Ok(Opcode::Pong),
            _ => Err(ProtocolError::BadOpcode),
        }
    }
}

/// XOR of a payload with a repeating 4-byte masking key: byte `i` of the
/// result is byte `i` of the payload XORed with key byte `i mod 4`.
pub open spec fn mask_seq(payload: Seq<u8>, key: Seq<u8>) -> Seq<u8>
    recommends
        key.len() == 4,
{
    Seq::new(payload.len(), |i: int| payload[i] ^ key[i % 4])
}

/// Masking twice with the same key gives the payload back.
pub proof fn lemma_mask_self_inverse(payload: Seq<u8>, key: Seq<u8>)
    requires
        key.len() == 4,
    ensures
        mask_seq(mask_seq(payload, key), key) == payload,
{
    assert forall|i: int| 0 <= i < payload.len() implies mask_seq(mask_seq(payload, key), key)[i]
        == payload[i] by {
        let b = payload[i];
        let k = key[i % 4];
        assert((b ^ k) ^ k == b) by (bit_vector);
    }
    assert(mask_seq(mask_seq(payload, key), key) =~= payload);
}

/// A big-endian 16-bit length.
pub open spec fn be16(s: Seq<u8>) -> u64
    recommends
        s.len() == 2,
{
    ((s[0] as u64) << 8) | (s[1] as u64)
}

/// A big-endian 64-bit length.
pub open spec fn be64(s: Seq<u8>) -> u64
    recommends
        s.len() == 8,
{
    ((s[0] as u64) << 56) | ((s[1] as u64) << 48) | ((s[2] as u64) << 40) | ((s[3] as u64) << 32)
        | ((s[4] as u64) << 24) | ((s[5] as u64) << 16) | ((s[6] as u64) << 8) | (s[7] as u64)
}

/// The parse phase an incoming frame is in.
#[derive(Clone, Copy, PartialEq, Eq, Structural, Debug)]
pub enum FrameReadState {
    BitsOpcodePayloadLength,
    ExtendedPayloadLength16,
    ExtendedPayloadLength64,
    MaskingKey,
    Payload,
    Done,
}

/// The mathematical model of a frame under construction: the parse phase
/// plus every header field gathered so far, with byte strings as sequences.
pub ghost struct FrameModel {
    pub state: FrameReadState,
    pub fin: bool,
    pub rsv: u8,
    pub opcode: Opcode,
    pub mask: bool,
    pub payload_len: u64,
    pub masking_key: Seq<u8>,
    pub payload: Seq<u8>,
}

/// The model of a frame parser that has seen no bytes yet.
pub open spec fn init_frame() -> FrameModel {
    FrameModel {
        state: FrameReadState::BitsOpcodePayloadLength,
        fin: false,
        rsv: 0,
        opcode: Opcode::Continuation,
        mask: false,
        payload_len: 0,
        masking_key: seq![0u8, 0u8, 0u8, 0u8],
        payload: Seq::empty(),
    }
}

/// How many further bytes the parse phase needs before it can advance.
pub open spec fn spec_want(m: FrameModel) -> nat {
    match m.state {
        FrameReadState::BitsOpcodePayloadLength => 2,
        FrameReadState::ExtendedPayloadLength16 => 2,
        FrameReadState::ExtendedPayloadLength64 => 8,
        FrameReadState::MaskingKey => 4,
        FrameReadState::Payload => m.payload_len as nat,
        FrameReadState::Done => 0,
    }
}

/// One advance of the parser: consumes exactly the bytes the current phase
/// wants and yields the next phase, or a protocol error.
pub open spec fn spec_step(m: FrameModel, chunk: Seq<u8>) -> Result<FrameModel, ProtocolError>
    recommends
        chunk.len() == spec_want(m),
{
    match m.state {
        FrameReadState::BitsOpcodePayloadLength => {
            let b0 = chunk[0];
            let b1 = chunk[1];
            let fin = b0 & 0x80 != 0;
            let rsv = (b0 & 0x70) >> 4;
            let mask = b1 & 0x80 != 0;
            let base = (b1 & 0x7F) as u64;
            match Opcode::spec_from_num(b0 & 0x0F) {
                None => Err(ProtocolError::BadOpcode),
                Some(op) => if rsv != 0 {
                    Err(ProtocolError::ReservedBits)
                } else if !mask {
                    Err(ProtocolError::Unmasked)
                } else {
                    Ok(
                        FrameModel {
                            state: if base <= 125 {
                                FrameReadState::MaskingKey
                            } else if base == 126 {
                                FrameReadState::ExtendedPayloadLength16
                            } else {
                                FrameReadState::ExtendedPayloadLength64
                            },
                            fin,
                            rsv,
                            opcode: op,
                            mask,
                            payload_len: base,
                            ..m
                        },
                    )
                },
            }
        },
        FrameReadState::ExtendedPayloadLength16 => Ok(
            FrameModel { state: FrameReadState::MaskingKey, payload_len: be16(chunk), ..m },
        ),
        FrameReadState::ExtendedPayloadLength64 => Ok(
            FrameModel { state: FrameReadState::MaskingKey, payload_len: be64(chunk), ..m },
        ),
        FrameReadState::MaskingKey => Ok(
            FrameModel { state: FrameReadState::Payload, masking_key: chunk, ..m },
        ),
        FrameReadState::Payload => Ok(
            FrameModel {
                state: FrameReadState::Done,
                payload: mask_seq(chunk, m.masking_key),
                ..m
            },
        ),
        FrameReadState::Done => Ok(m),
    }
}

/// Ranks the phases so that the one advance that consumes no bytes (an
/// empty payload) still makes progress.
pub open spec fn state_rank(s: FrameReadState) -> nat {
    match s {
        FrameReadState::Done => 0,
        FrameReadState::Payload => 1,
        _ => 2,
    }
}

/// Runs the parser over `bytes` as far as whole phases fit, leaving the
/// rest unconsumed: the resumable parse that `Frame::read` implements.
pub open spec fn spec_run(m: FrameModel, bytes: Seq<u8>) -> Result<FrameModel, ProtocolError>
    decreases bytes.len(), state_rank(m.state),
{
    if m.state is Done || bytes.len() < spec_want(m) {
        Ok(m)
    } else {
        match spec_step(m, bytes.take(spec_want(m) as int)) {
            Err(e) => Err(e),
            Ok(m2) => spec_run(m2, bytes.skip(spec_want(m) as int)),
        }
    }
}

/// How many bytes of `bytes` the run consumes before it stops.
pub open spec fn spec_consumed(m: FrameModel, bytes: Seq<u8>) -> nat
    decreases bytes.len(), state_rank(m.state),
{
    if m.state is Done || bytes.len() < spec_want(m) {
        0
    } else {
        match spec_step(m, bytes.take(spec_want(m) as int)) {
            Err(e) => 0,
            Ok(m2) => spec_want(m) + spec_consumed(m2, bytes.skip(spec_want(m) as int)),
        }
    }
}

/// How many length-extension bytes a payload length needs on the wire:
/// none up to 125, two up to 65535, eight above that.
pub open spec fn spec_ext_len(len: u64) -> nat {
    if len <= 125 {
        0
    } else if len <= 0xFFFF {
        2
    } else {
        8
    }
}

/// The value carried in the low seven bits of the second header byte.
pub open spec fn spec_len_code(len: u64) -> u8 {
    if len <= 125 {
        len as u8
    } else if len <= 0xFFFF {
        126
    } else {
        127
    }
}

/// The length-extension bytes themselves, big endian.
pub open spec fn len_ext_bytes(len: u64) -> Seq<u8> {
    if len <= 125 {
        Seq::empty()
    } else if len <= 0xFFFF {
        seq![((len >> 8) & 0xFF) as u8, (len & 0xFF) as u8]
    } else {
        seq![
            ((len >> 56) & 0xFF) as u8,
            ((len >> 48) & 0xFF) as u8,
            ((len >> 40) & 0xFF) as u8,
            ((len >> 32) & 0xFF) as u8,
            ((len >> 24) & 0xFF) as u8,
            ((len >> 16) & 0xFF) as u8,
            ((len >> 8) & 0xFF) as u8,
            (len & 0xFF) as u8,
        ]
    }
}

/// The first header byte: fin bit, reserved bits, opcode.
pub open spec fn spec_byte0(m: FrameModel) -> u8 {
    (if m.fin {
        0x80u8
    } else {
        0u8
    }) | (m.rsv << 4) | m.opcode.spec_num()
}

/// The second header byte: mask bit and the base length code.
pub open spec fn spec_byte1(m: FrameModel) -> u8 {
    (if m.mask {
        0x80u8
    } else {
        0u8
    }) | spec_len_code(m.payload_len)
}

/// The complete wire form of a frame: two header bytes, the length
/// extension, then — when masked — the key followed by the masked payload,
/// otherwise the payload itself.
pub open spec fn spec_frame_bytes(m: FrameModel) -> Seq<u8>
    recommends
        m.payload.len() == m.payload_len,
        m.masking_key.len() == 4,
{
    seq![spec_byte0(m), spec_byte1(m)] + len_ext_bytes(m.payload_len) + (if m.mask {
        m.masking_key + mask_seq(m.payload, m.masking_key)
    } else {
        m.payload
    })
}

/// The serialized size of a frame.
pub open spec fn spec_write_len(m: FrameModel) -> int {
    2 + spec_ext_len(m.payload_len) + (if m.mask {
        4int
    } else {
        0int
    }) + m.payload_len
}

/// The wire form is exactly as long as `spec_write_len` says.
pub proof fn lemma_frame_bytes_len(m: FrameModel)
    requires
        m.payload.len() == m.payload_len,
        m.masking_key.len() == 4,
    ensures
        spec_frame_bytes(m).len() == spec_write_len(m),
{
}

/// One byte picked out of a 64-bit length, big-endian style.
fn byte_at(x: u64, sh: u64) -> (r: u8)
    requires
        sh < 64,
    ensures
        r == ((x >> sh) & 0xFF) as u8,
{
    proof {
        assert((x >> sh) & 0xFF < 256) by (bit_vector);
    }
    ((x >> sh) & 0xFF) as u8
}

/// A run never consumes more bytes than it was given.
pub proof fn lemma_consumed_le(m: FrameModel, bytes: Seq<u8>)
    ensures
        spec_consumed(m, bytes) <= bytes.len(),
    decreases bytes.len(), state_rank(m.state),
{
    if !(m.state is Done) && bytes.len() >= spec_want(m) {
        let w = spec_want(m) as int;
        match spec_step(m, bytes.take(w)) {
            Err(e) => {},
            Ok(m2) => {
                lemma_consumed_le(m2, bytes.skip(w));
            },
        }
    }
}

/// A run stops only at a finished frame or for want of bytes: whatever is
/// left unconsumed is shorter than what the next phase needs.
pub proof fn lemma_run_blocked(m: FrameModel, bytes: Seq<u8>)
    ensures
        match spec_run(m, bytes) {
            Ok(m2) => m2.state is Done || bytes.len() - spec_consumed(m, bytes) < spec_want(m2),
            Err(e) => true,
        },
    decreases bytes.len(), state_rank(m.state),
{
    if !(m.state is Done) && bytes.len() >= spec_want(m) {
        let w = spec_want(m) as int;
        match spec_step(m, bytes.take(w)) {
            Err(e) => {},
            Ok(m2) => {
                lemma_run_blocked(m2, bytes.skip(w));
            },
        }
    }
}

/// Accumulates raw socket bytes and hands out whole frames: the resumable
/// reader around the incremental parser, fed chunks of any size. By
/// `lemma_run_append`, feeding a byte stream chunk by chunk — however it is
/// cut — parses exactly as feeding it whole would.
pub struct FrameReader {
    frame: Frame,
    buf: Vec<u8>,
}

impl View for FrameReader {
    type V = (FrameModel, Seq<u8>);

    closed spec fn view(&self) -> (FrameModel, Seq<u8>) {
        (self.frame@, self.buf@)
    }
}

impl FrameReader {
    /// The inner parser's representation invariant.
    pub open spec fn wf(&self) -> bool {
        self@.0.masking_key.len() == 4
    }

    /// A reader with nothing buffered, ready for a frame's first byte.
    pub fn new() -> (r: FrameReader)
        ensures
            r@ == (init_frame(), Seq::<u8>::empty()),
            r.wf(),
    {
        let r = FrameReader { frame: Frame::new(), buf: Vec::new() };
        proof {
            assert(r@ =~~= (init_frame(), Seq::<u8>::empty()));
        }
        r
    }

    /// Buffers one chunk as it arrived off the wire.
    pub fn push_bytes(&mut self, chunk: &[u8])
        requires
            old(self).wf(),
        ensures
            final(self).wf(),
            final(self)@.0 == old(self)@.0,
            final(self)@.1 == old(self)@.1 + chunk@,
    {
        self.buf.extend_from_slice(chunk);
    }

    /// Drives the parser as far as the buffered bytes reach: a whole frame
    /// once its last byte is buffered — leaving any surplus buffered for
    /// the next frame — or nothing yet, or the malformed frame's error.
    pub fn next_frame(&mut self) -> (r: Result<Option<Frame>, ProtocolError>)
        requires
            old(self).wf(),
        ensures
            final(self).wf(),
            match spec_run(old(self)@.0, old(self)@.1) {
                Err(e) => r == Err::<Option<Frame>, ProtocolError>(e),
                Ok(m2) => {
                    let rest = old(self)@.1.skip(spec_consumed(old(self)@.0, old(self)@.1) as int);
                    if m2.state is Done {
                        &&& r matches Ok(f) && f matches Some(f) && f@ == m2
                        &&& final(self)@ == (init_frame(), rest)
                    } else {
                        &&& r == Ok::<Option<Frame>, ProtocolError>(None)
                        &&& final(self)@ == (m2, rest)
                    }
                },
            },
    {
        proof {
            lemma_consumed_le(self@.0, self@.1);
            lemma_run_blocked(self@.0, self@.1);
        }
        let outcome = self.frame.read(self.buf.as_slice());
        let (consumed, want) = match outcome {
            Err(e) => {
                return Err(e);
            },
            Ok(p) => p,
        };
        let len = self.buf.len();
        let rest = vstd::slice::slice_to_vec(
            vstd::slice::slice_subrange(self.buf.as_slice(), consumed, len),
        );
        proof {
            assert(rest@ =~= old(self)@.1.skip(consumed as int));
        }
        self.buf = rest;
        if want == 0 {
            let done = Frame {
                state: self.frame.state,
                fin: self.frame.fin,
                rsv: self.frame.rsv,
                opcode: self.frame.opcode,
                mask: self.frame.mask,
                payload_len: self.frame.payload_len,
                masking_key: vstd::slice::slice_to_vec(self.frame.masking_key.as_slice()),
                payload: vstd::slice::slice_to_vec(self.frame.payload.as_slice()),
            };
            self.frame = Frame::new();
            proof {
                let m2 = spec_run(old(self)@.0, old(self)@.1)->Ok_0;
                assert(done@ =~~= m2);
                assert(m2.state is Done);
            }
            Ok(Some(done))
        } else {
            proof {
                let m2 = spec_run(old(self)@.0, old(self)@.1)->Ok_0;
                assert(spec_want(m2) == want as nat);
                assert(!(m2.state is Done));
            }
            Ok(None)
        }
    }
}

/// An opcode's wire value names that opcode and no other.
pub proof fn lemma_opcode_num_round(op: Opcode)
    ensures
        Opcode::spec_from_num(op.spec_num()) == Some(op),
{
}

/// Resumability: parsing a byte stream in two chunks — carrying the
/// unconsumed tail of the first chunk over to the second — reaches exactly
/// the state that parsing the concatenation reaches. Hence a frame may be
/// delivered in arbitrarily small pieces without changing the outcome.
pub proof fn lemma_run_append(m: FrameModel, a: Seq<u8>, b: Seq<u8>)
    ensures
        spec_run(m, a + b) == (match spec_run(m, a) {
            Ok(m2) => spec_run(m2, a.skip(spec_consumed(m, a) as int) + b),
            Err(e) => Err(e),
        }),
    decreases a.len(), state_rank(m.state),
{
    let w = spec_want(m) as int;
    if m.state is Done || a.len() < w {
        assert(a.skip(0) =~= a);
    } else {
        assert((a + b).len() >= w);
        assert((a + b).take(w) =~= a.take(w));
        match spec_step(m, a.take(w)) {
            Err(e) => {},
            Ok(m2) => {
                assert((a + b).skip(w) =~= a.skip(w) + b);
                lemma_run_append(m2, a.skip(w), b);
                let c2 = spec_consumed(m2, a.skip(w)) as int;
                lemma_consumed_le(m2, a.skip(w));
                assert(spec_consumed(m, a) == w + c2);
                assert(a.skip(w).skip(c2) =~= a.skip(w + c2));
            },
        }
    }
}

/// Round trip: the wire form of any well-formed masked frame parses back,
/// from a fresh parser, to the very same frame with its payload unmasked —
/// whatever its opcode, fin flag, key, or length regime.
pub proof fn lemma_frame_round_trip(m: FrameModel)
    requires
        m.mask,
        m.rsv == 0,
        m.payload.len() == m.payload_len,
        m.masking_key.len() == 4,
    ensures
        spec_run(init_frame(), spec_frame_bytes(m)) == Ok::<FrameModel, ProtocolError>(
            FrameModel { state: FrameReadState::Done, ..m },
        ),
{
    let len = m.payload_len;
    let num = m.opcode.spec_num();
    let fb: u8 = if m.fin {
        0x80
    } else {
        0
    };
    let b0 = spec_byte0(m);
    let code = spec_len_code(len);
    let b1 = spec_byte1(m);
    let ext = len_ext_bytes(len);
    let masked = mask_seq(m.payload, m.masking_key);
    let tail = m.masking_key + masked;
    let wire = spec_frame_bytes(m);
    assert(wire =~= seq![b0, b1] + (ext + tail));

    // Header byte facts.
    assert(num <= 15);
    assert(b0 == fb | (0u8 << 4) | num);
    assert((fb | (0u8 << 4) | num) & 0x0F == num && ((fb | (0u8 << 4) | num) & 0x70) >> 4 == 0
        && ((fb | (0u8 << 4) | num) & 0x80 != 0) == (fb == 0x80)) by (bit_vector)
        requires
            num <= 15,
            fb == 0x80 || fb == 0u8,
    ;
    lemma_opcode_num_round(m.opcode);
    assert(code <= 127);
    assert(((0x80u8 | code) & 0x7F) == code && ((0x80u8 | code) & 0x80) != 0) by (bit_vector)
        requires
            code <= 127,
    ;
    assert(b1 == 0x80u8 | code);

    // Step one: the two header bytes.
    let m0 = init_frame();
    assert(wire.len() >= 2);
    assert(wire.take(2) =~= seq![b0, b1]);
    let base = (b1 & 0x7F) as u64;
    let step1 = spec_step(m0, wire.take(2));
    let rest1 = ext + tail;
    assert(wire.skip(2) =~= rest1);

    if len <= 125 {
        assert(code == len as u8);
        assert(base == len);
        let m1 = step1->Ok_0;
        assert(m1.state is MaskingKey && m1.payload_len == len && m1.fin == m.fin && m1.opcode
            == m.opcode && m1.mask && m1.rsv == 0);
        assert(ext =~= Seq::<u8>::empty());
        assert(rest1 =~= tail);
        lemma_tail_parses(m1, m);
        assert(spec_run(m0, wire) == spec_run(m1, rest1));
    } else if len <= 0xFFFF {
        assert(code == 126);
        assert(base == 126);
        let m1 = step1->Ok_0;
        assert(m1.state is ExtendedPayloadLength16 && m1.fin == m.fin && m1.opcode == m.opcode
            && m1.mask && m1.rsv == 0);
        // Step two: the 16-bit length extension.
        let e0 = ((len >> 8) & 0xFF) as u8;
        let e1 = (len & 0xFF) as u8;
        assert(ext =~= seq![e0, e1]);
        assert(rest1.len() >= 2);
        assert(rest1.take(2) =~= seq![e0, e1]);
        assert((((e0 as u64) << 8) | (e1 as u64)) == len) by (bit_vector)
            requires
                e0 == ((len >> 8) & 0xFF) as u8,
                e1 == (len & 0xFF) as u8,
                125 < len <= 0xFFFF,
        ;
        assert(be16(rest1.take(2)) == len);
        let m2 = spec_step(m1, rest1.take(2))->Ok_0;
        assert(m2.state is MaskingKey && m2.payload_len == len && m2.fin == m.fin && m2.opcode
            == m.opcode && m2.mask && m2.rsv == 0);
        assert(rest1.skip(2) =~= tail);
        lemma_tail_parses(m2, m);
        assert(spec_run(m0, wire) == spec_run(m1, rest1));
        assert(spec_run(m1, rest1) == spec_run(m2, tail));
    } else {
        assert(code == 127);
        assert(base == 127);
        let m1 = step1->Ok_0;
        assert(m1.state is ExtendedPayloadLength64 && m1.fin == m.fin && m1.opcode == m.opcode
            && m1.mask && m1.rsv == 0);
        let e0 = ((len >> 56) & 0xFF) as u8;
        let e1 = ((len >> 48) & 0xFF) as u8;
        let e2 = ((len >> 40) & 0xFF) as u8;
        let e3 = ((len >> 32) & 0xFF) as u8;
        let e4 = ((len >> 24) & 0xFF) as u8;
        let e5 = ((len >> 16) & 0xFF) as u8;
        let e6 = ((len >> 8) & 0xFF) as u8;
        let e7 = (len & 0xFF) as u8;
        assert(ext =~= seq![e0, e1, e2, e3, e4, e5, e6, e7]);
        assert(rest1.len() >= 8);
        assert(rest1.take(8) =~= seq![e0, e1, e2, e3, e4, e5, e6, e7]);
        assert((((e0 as u64) << 56) | ((e1 as u64) << 48) | ((e2 as u64) << 40) | ((e3 as u64)
            << 32) | ((e4 as u64) << 24) | ((e5 as u64) << 16) | ((e6 as u64) << 8) | (
        e7 as u64)) == len) by (bit_vector)
            requires
                e0 == ((len >> 56) & 0xFF) as u8,
                e1 == ((len >> 48) & 0xFF) as u8,
                e2 == ((len >> 40) & 0xFF) as u8,
                e3 == ((len >> 32) & 0xFF) as u8,
                e4 == ((len >> 24) & 0xFF) as u8,
                e5 == ((len >> 16) & 0xFF) as u8,
                e6 == ((len >> 8) & 0xFF) as u8,
                e7 == (len & 0xFF) as u8,
        ;
        assert(be64(rest1.take(8)) == len);
        let m2 = spec_step(m1, rest1.take(8))->Ok_0;
        assert(m2.state is MaskingKey && m2.payload_len == len && m2.fin == m.fin && m2.opcode
            == m.opcode && m2.mask && m2.rsv == 0);
        assert(rest1.skip(8) =~= tail);
        lemma_tail_parses(m2, m);
        assert(spec_run(m0, wire) == spec_run(m1, rest1));
        assert(spec_run(m1, rest1) == spec_run(m2, tail));
    }
}

/// From the masking-key phase on, the key then the masked payload parse
/// back to the original frame fields with the payload unmasked.
proof fn lemma_tail_parses(m1: FrameModel, m: FrameModel)
    requires
        m.mask,
        m.rsv == 0,
        m.payload.len() == m.payload_len,
        m.masking_key.len() == 4,
        m1.state is MaskingKey,
        m1.fin == m.fin,
        m1.rsv == 0,
        m1.opcode == m.opcode,
        m1.mask,
        m1.payload_len == m.payload_len,
    ensures
        spec_run(m1, m.masking_key + mask_seq(m.payload, m.masking_key)) == Ok::<FrameModel, ProtocolError>(
            FrameModel { state: FrameReadState::Done, ..m },
        ),
{
    let masked = mask_seq(m.payload, m.masking_key);
    let tail = m.masking_key + masked;
    assert(tail.len() == 4 + m.payload_len);
    assert(tail.take(4) =~= m.masking_key);
    let m2 = spec_step(m1, tail.take(4))->Ok_0;
    assert(m2.state is Payload && m2.masking_key == m.masking_key && m2.payload_len
        == m.payload_len);
    assert(tail.skip(4) =~= masked);
    assert(masked.len() == spec_want(m2));
    assert(masked.take(masked.len() as int) =~= masked);
    lemma_mask_self_inverse(m.payload, m.masking_key);
    let m3 = spec_step(m2, masked)->Ok_0;
    assert(m3.state is Done && m3.payload == m.payload);
    assert(m3 =~= FrameModel { state: FrameReadState::Done, ..m });
    assert(spec_run(m1, tail) == spec_run(m2, tail.skip(4)));
    assert(spec_run(m2, masked) == spec_run(m3, masked.skip(masked.len() as int)));
}

/// One WebSocket frame, parsed incrementally: header fields plus the
/// unmasked payload once the parse reaches `Done`.
pub struct Frame {
    pub state: FrameReadState,
    pub fin: bool,
    pub rsv: u8,
    pub opcode: Opcode,
    pub mask: bool,
    pub payload_len: u64,
    pub masking_key: Vec<u8>,
    pub payload: Vec<u8>,
}

impl View for Frame {
    type V = FrameModel;

    open spec fn view(&self) -> FrameModel {
        FrameModel {
            state: self.state,
            fin: self.fin,
            rsv: self.rsv,
            opcode: self.opcode,
            mask: self.mask,
            payload_len: self.payload_len,
            masking_key: self.masking_key@,
            payload: self.payload@,
        }
    }
}

impl Frame {
    /// The representation invariant: the masking key always holds 4 bytes.
    pub open spec fn wf(&self) -> bool {
        self.masking_key@.len() == 4
    }

    /// A parser ready for the first header byte of a new frame.
    pub fn new() -> (r: Frame)
        ensures
            r@ == init_frame(),
            r.wf(),
    {
        let mut key: Vec<u8> = Vec::new();
        key.push(0);
        key.push(0);
        key.push(0);
        key.push(0);
        let f = Frame {
            state: FrameReadState::BitsOpcodePayloadLength,
            fin: false,
            rsv: 0,
            opcode: Opcode::Continuation,
            mask: false,
            payload_len: 0,
            masking_key: key,
            payload: Vec::new(),
        };
        proof {
            assert(f@.masking_key =~= init_frame().masking_key);
            assert(f@.payload =~= init_frame().payload);
            assert(f@ =~= init_frame());
        }
        f
    }

    /// How many further bytes the current parse phase needs.
    pub fn want_bytes(&self) -> (r: usize)
        requires
            self.state is Payload ==> self.payload_len <= usize::MAX as u64,
        ensures
            r as nat == spec_want(self@),
    {
        match self.state {
            FrameReadState::BitsOpcodePayloadLength => 2,
            FrameReadState::ExtendedPayloadLength16 => 2,
            FrameReadState::ExtendedPayloadLength64 => 8,
            FrameReadState::MaskingKey => 4,
            FrameReadState::Payload => self.payload_len as usize,
            FrameReadState::Done => 0,
        }
    }

    /// One advance: consumes exactly the bytes the current phase wants.
    fn step(&mut self, bytes: &[u8]) -> (r: Result<(), ProtocolError>)
        requires
            old(self).wf(),
            !(old(self)@.state is Done),
            bytes@.len() == spec_want(old(self)@),
        ensures
            final(self).wf(),
            match spec_step(old(self)@, bytes@) {
                Ok(m2) => r is Ok && final(self)@ == m2,
                Err(e) => r == Err::<(), ProtocolError>(e),
            },
    {
        match self.state {
            FrameReadState::BitsOpcodePayloadLength => {
                let b0 = bytes[0];
                let b1 = bytes[1];
                self.fin = b0 & 0x80 != 0;
                self.rsv = (b0 & 0x70) >> 4;
                self.opcode = match Opcode::from_num(b0 & 0x0F) {
                    Ok(op) => op,
                    Err(e) => {
                        return Err(e);
                    },
                };
                self.mask = b1 & 0x80 != 0;
                self.payload_len = (b1 & 0x7F) as u64;
                if self.rsv != 0 {
                    return Err(ProtocolError::ReservedBits);
                }
                if !self.mask {
                    return Err(ProtocolError::Unmasked);
                }
                self.state = if self.payload_len <= 125 {
                    FrameReadState::MaskingKey
                } else if self.payload_len == 126 {
                    FrameReadState::ExtendedPayloadLength16
                } else {
                    FrameReadState::ExtendedPayloadLength64
                };
                Ok(())
            },
            FrameReadState::ExtendedPayloadLength16 => {
                self.payload_len = ((bytes[0] as u64) << 8) | (bytes[1] as u64);
                self.state = FrameReadState::MaskingKey;
                Ok(())
            },
            FrameReadState::ExtendedPayloadLength64 => {
                self.payload_len = ((bytes[0] as u64) << 56) | ((bytes[1] as u64) << 48) | ((
                bytes[2] as u64) << 40) | ((bytes[3] as u64) << 32) | ((bytes[4] as u64) << 24) | ((
                bytes[5] as u64) << 16) | ((bytes[6] as u64) << 8) | (bytes[7] as u64);
                self.state = FrameReadState::MaskingKey;
                Ok(())
            },
            FrameReadState::MaskingKey => {
                let mut key: Vec<u8> = Vec::new();
                key.push(bytes[0]);
                key.push(bytes[1]);
                key.push(bytes[2]);
                key.push(bytes[3]);
                proof {
                    assert(key@ =~= bytes@);
                }
                self.masking_key = key;
                self.state = FrameReadState::Payload;
                Ok(())
            },
            FrameReadState::Payload => {
                let n = bytes.len();
                let mut payload: Vec<u8> = Vec::new();
                let mut i: usize = 0;
                while i < n
                    invariant
                        i <= n,
                        n == bytes@.len(),
                        self.masking_key@.len() == 4,
                        payload@.len() == i,
                        forall|j: int|
                            0 <= j < i ==> payload@[j] == bytes@[j] ^ self.masking_key@[j % 4],
                    decreases n - i,
                {
                    let k = self.masking_key[i % 4];
                    payload.push(bytes[i] ^ k);
                    i = i + 1;
                }
                proof {
                    assert(payload@ =~= mask_seq(bytes@, self.masking_key@));
                }
                self.payload = payload;
                self.state = FrameReadState::Done;
                Ok(())
            },
            FrameReadState::Done => Ok(()),
        }
    }

    /// How many length-extension bytes a payload of length `len` needs.
    pub fn payload_size(len: u64) -> (r: usize)
        ensures
            r == spec_ext_len(len),
    {
        if len <= 125 {
            0
        } else if len <= 0xFFFF {
            2
        } else {
            8
        }
    }

    /// The total serialized size of this frame: two header bytes, the
    /// length extension, the masking key when masked, and the payload.
    pub fn write_len(&self) -> (r: usize)
        requires
            spec_write_len(self@) <= usize::MAX,
        ensures
            r == spec_write_len(self@),
    {
        let ext = Self::payload_size(self.payload_len);
        let key = if self.mask {
            4
        } else {
            0
        };
        2 + ext + key + (self.payload_len as usize)
    }

    /// The complete wire form of this frame. When the mask flag is set the
    /// payload goes out XORed with the masking key, as a client would send
    /// it; unmasked frames carry the payload bytes unmodified.
    pub fn to_bytes(&self) -> (r: Vec<u8>)
        requires
            self.wf(),
            self.payload@.len() == self.payload_len,
        ensures
            r@ == spec_frame_bytes(self@),
    {
        let mut out: Vec<u8> = Vec::new();
        let fin_bit: u8 = if self.fin {
            0x80
        } else {
            0
        };
        let b0: u8 = fin_bit | (self.rsv << 4) | self.opcode.as_num();
        let mask_bit: u8 = if self.mask {
            0x80
        } else {
            0
        };
        out.push(b0);
        if self.payload_len <= 125 {
            out.push(mask_bit | (self.payload_len as u8));
        } else if self.payload_len <= 0xFFFF {
            out.push(mask_bit | 126);
            out.push(byte_at(self.payload_len, 8));
            out.push(byte_at(self.payload_len, 0));
        } else {
            out.push(mask_bit | 127);
            out.push(byte_at(self.payload_len, 56));
            out.push(byte_at(self.payload_len, 48));
            out.push(byte_at(self.payload_len, 40));
            out.push(byte_at(self.payload_len, 32));
            out.push(byte_at(self.payload_len, 24));
            out.push(byte_at(self.payload_len, 16));
            out.push(byte_at(self.payload_len, 8));
            out.push(byte_at(self.payload_len, 0));
        }
        proof {
            let pl = self.payload_len;
            assert((pl >> 0) & 0xFF == pl & 0xFF) by (bit_vector);
            assert(out@ =~= seq![spec_byte0(self@), spec_byte1(self@)] + len_ext_bytes(
                self.payload_len,
            ));
        }
        let ghost head = out@;
        if self.mask {
            out.push(self.masking_key[0]);
            out.push(self.masking_key[1]);
            out.push(self.masking_key[2]);
            out.push(self.masking_key[3]);
            proof {
                assert(out@ =~= head + self@.masking_key);
            }
            let ghost mid = out@;
            let n = self.payload.len();
            let mut i: usize = 0;
            while i < n
                invariant
                    i <= n,
                    n == self.payload@.len(),
                    self.masking_key@.len() == 4,
                    out@ == mid + mask_seq(self@.payload, self@.masking_key).take(i as int),
                decreases n - i,
            {
                let k = self.masking_key[i % 4];
                out.push(self.payload[i] ^ k);
                proof {
                    let ms = mask_seq(self@.payload, self@.masking_key);
                    assert(ms.take(i + 1) =~= ms.take(i as int).push(ms[i as int]));
                    assert(out@ =~= mid + ms.take(i + 1));
                }
                i = i + 1;
            }
            proof {
                let ms = mask_seq(self@.payload, self@.masking_key);
                assert(ms.take(n as int) =~= ms);
                assert(out@ =~= spec_frame_bytes(self@));
            }
        } else {
            out.extend_from_slice(self.payload.as_slice());
            proof {
                assert(out@ =~= spec_frame_bytes(self@));
            }
        }
        out
    }

    /// Serializes this frame into the front of `buf`, which the caller must
    /// have sized to at least the frame's serialized size; bytes past the
    /// frame are left untouched.
    pub fn write(&self, buf: &mut Vec<u8>) -> (n: usize)
        requires
            self.wf(),
            self.payload@.len() == self.payload_len,
            spec_write_len(self@) <= old(buf)@.len(),
        ensures
            n == spec_write_len(self@),
            final(buf)@.len() == old(buf)@.len(),
            final(buf)@.subrange(0, n as int) == spec_frame_bytes(self@),
            final(buf)@.skip(n as int) == old(buf)@.skip(n as int),
    {
        proof {
            lemma_frame_bytes_len(self@);
        }
        let tmp = self.to_bytes();
        let ghost orig = buf@;
        let n = tmp.len();
        let mut i: usize = 0;
        while i < n
            invariant
                i <= n,
                n == tmp@.len(),
                n <= buf@.len(),
                buf@.len() == orig.len(),
                forall|j: int| 0 <= j < i ==> buf@[j] == tmp@[j],
                forall|j: int| i <= j < orig.len() ==> buf@[j] == orig[j],
            decreases n - i,
        {
            let b = tmp[i];
            buf.set(i, b);
            i = i + 1;
        }
        proof {
            assert(buf@.subrange(0, n as int) =~= tmp@);
            assert(buf@.skip(n as int) =~= orig.skip(n as int));
        }
        n
    }

    /// Feeds a chunk of raw bytes to the parser. Consumes as many whole
    /// parse phases as the chunk allows and returns how many bytes were
    /// consumed together with how many more the next phase still wants;
    /// state is kept so the next call resumes where this one stopped.
    pub fn read(&mut self, chunk: &[u8]) -> (r: Result<(usize, u64), ProtocolError>)
        requires
            old(self).wf(),
        ensures
            final(self).wf(),
            match spec_run(old(self)@, chunk@) {
                Ok(m2) => r matches Ok(p) && final(self)@ == m2 && p.0 == spec_consumed(
                    old(self)@,
                    chunk@,
                ) && p.1 as nat == spec_want(m2),
                Err(e) => r == Err::<(usize, u64), ProtocolError>(e),
            },
    {
        let ghost orig = self@;
        let total: usize = chunk.len();
        let mut pos: usize = 0;
        loop
            invariant
                orig == old(self)@,
                self.wf(),
                pos <= total,
                total == chunk@.len(),
                spec_run(orig, chunk@) == spec_run(self@, chunk@.skip(pos as int)),
                spec_consumed(orig, chunk@) == pos + spec_consumed(self@, chunk@.skip(pos as int)),
            decreases chunk@.len() - pos, state_rank(self@.state),
        {
            let ghost rest = chunk@.skip(pos as int);
            if let FrameReadState::Done = self.state {
                proof {
                    assert(spec_run(self@, rest) == Ok::<FrameModel, ProtocolError>(self@));
                    assert(spec_consumed(self@, rest) == 0);
                }
                return Ok((pos, 0));
            }
            let want64: u64 = match self.state {
                FrameReadState::BitsOpcodePayloadLength => 2,
                FrameReadState::ExtendedPayloadLength16 => 2,
                FrameReadState::ExtendedPayloadLength64 => 8,
                FrameReadState::MaskingKey => 4,
                FrameReadState::Payload => self.payload_len,
                FrameReadState::Done => 0,
            };
            proof {
                assert(want64 as nat == spec_want(self@));
            }
            let avail: usize = total - pos;
            if (avail as u64) < want64 {
                proof {
                    assert(rest.len() < spec_want(self@));
                    assert(spec_run(self@, rest) == Ok::<FrameModel, ProtocolError>(self@));
                    assert(spec_consumed(self@, rest) == 0);
                }
                return Ok((pos, want64));
            }
            let want: usize = want64 as usize;
            let bytes = vstd::slice::slice_subrange(chunk, pos, pos + want);
            proof {
                assert(bytes@ =~= rest.take(spec_want(self@) as int));
            }
            let ghost before = self@;
            match self.step(bytes) {
                Ok(()) => {},
                Err(e) => {
                    proof {
                        assert(spec_run(before, rest) == Err::<FrameModel, ProtocolError>(e));
                    }
                    return Err(e);
                },
            }
            pos = pos + want;
            proof {
                assert(spec_run(before, rest) == spec_run(self@, rest.skip(spec_want(before) as int)));
                assert(spec_consumed(before, rest) == spec_want(before) + spec_consumed(
                    self@,
                    rest.skip(spec_want(before) as int),
                ));
                assert(rest.skip(spec_want(before) as int) =~= chunk@.skip(pos as int));
            }
        }
    }
}

} // verus!

