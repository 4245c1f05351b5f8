//! The length-prefixed wire-frame codec.
//!
//! A frame is `<u32 length prefix, big-endian><optional 1-byte id><payload>`.
//! A length of zero denotes a keep-alive frame with no id and no payload.
//! `parse` reads one frame from the front of a buffer and returns the
//! unconsumed tail; an incomplete frame is not an error.

use crate::utils::{push_u32_be, spec_u32_be, spec_u32_of, u32_from_be};
use vstd::prelude::*;
use vstd::slice::{slice_subrange, slice_to_vec};

verus! {

/// Longest accepted frame length prefix; larger prefixes are rejected.
pub const MAX_FRAME_LEN: u32 = 200000;

/// Error of the codec: a frame whose prefix is oversized, whose fixed-size
/// body has the wrong length, or whose id is unknown.
#[derive(Debug, PartialEq, Eq, Structural, Clone, Copy)]
pub enum CodecError {
    MalformedFrame,
}

#[derive(Debug)]
pub struct KeepAlive {}

#[derive(Debug)]
pub struct Choke {}

#[derive(Debug)]
pub struct Unchoke {}

#[derive(Debug)]
pub struct Interested {}

#[derive(Debug)]
pub struct NotInterested {}

#[derive(Debug)]
pub struct Have {
    pub piece_index: u32,
}

#[derive(Debug)]
pub struct Bitfield {
    pub bitfield: Vec<u8>,
}

#[derive(Debug)]
pub struct Request {
    pub index: u32,
    pub begin: u32,
    pub length: u32,
}

#[derive(Debug)]
pub struct Piece {
    pub index: u32,
    pub begin: u32,
    pub block: Vec<u8>,
}

#[derive(Debug)]
pub struct Cancel {
    pub index: u32,
    pub begin: u32,
    pub length: u32,
}

/// One peer wire message.
#[derive(Debug)]
pub enum Message {
    KeepAlive(KeepAlive),
    Choke(Choke),
    Unchoke(Unchoke),
    Interested(Interested),
    NotInterested(NotInterested),
    Have(Have),
    Bitfield(Bitfield),
    Request(Request),
    Piece(Piece),
    Cancel(Cancel),
}

/// Frame length denoted by a message: the id byte, if any, plus the payload.
pub open spec fn spec_msg_len(id: Option<u8>, payload: Seq<u8>) -> int {
    match id {
        Some(_) => 1 + payload.len() as int,
        None => payload.len() as int,
    }
}

/// The byte encoding of a message: big-endian length prefix, then the id
/// byte if there is one, then the payload.
pub open spec fn spec_frame_of(id: Option<u8>, payload: Seq<u8>) -> Seq<u8> {
    match id {
        Some(i) => spec_u32_be((1 + payload.len()) as u32) + seq![i] + payload,
        None => spec_u32_be(payload.len() as u32),
    }
}

/// A message of the wire protocol: an optional id, a payload, and the frame
/// built from them.
pub trait PeerWireMessage {
    /// The message id, if the message has one.
    spec fn spec_id(&self) -> Option<u8>;

    /// The payload bytes.
    spec fn spec_payload(&self) -> Seq<u8>;

    /// The id byte of the message, or none for a keep-alive.
    fn id(&self) -> (r: Option<u8>)
        ensures
            r == self.spec_id(),
    ;

    /// The payload bytes of the message.
    fn payload(&self) -> (r: Vec<u8>)
        ensures
            r@ == self.spec_payload(),
    ;

    /// The display label of the message.
    fn name(&self) -> String;

    /// The value of the frame's length prefix.
    fn len(&self) -> (r: u32)
        requires
            self.spec_payload().len() + 1 <= u32::MAX,
        ensures
            r == spec_msg_len(self.spec_id(), self.spec_payload()),
    {
        let id_len: usize = match self.id() {
            Some(_) => 1,
            None => 0,
        };
        let payload = self.payload();
        (id_len + payload.len()) as u32
    }

    /// The full frame: length prefix, id byte if any, payload.
    fn serialise(&self) -> (r: Vec<u8>)
        requires
            self.spec_payload().len() + 1 <= u32::MAX,
        ensures
            r@ == spec_frame_of(self.spec_id(), self.spec_payload()),
    {
        let mut out: Vec<u8> = Vec::new();
        push_u32_be(&mut out, self.len());
        match self.id() {
            Some(id) => {
                out.push(id);
                let mut payload = self.payload();
                out.append(&mut payload);
                proof {
                    assert(out@ =~= spec_frame_of(self.spec_id(), self.spec_payload()));
                }
            },
            None => {
                proof {
                    assert(out@ =~= spec_frame_of(self.spec_id(), self.spec_payload()));
                }
            },
        }
        out
    }
}

impl PeerWireMessage for KeepAlive {
    open spec fn spec_id(&self) -> Option<u8> {
        None
    }

    open spec fn spec_payload(&self) -> Seq<u8> {
        Seq::<u8>::empty()
    }

    fn id(&self) -> (r: Option<u8>) {
        None
    }

    fn payload(&self) -> (r: Vec<u8>) {
        Vec::new()
    }

    fn name(&self) -> String {
        String::from_str("keep-alive")
    }
}

impl PeerWireMessage for Choke {
    open spec fn spec_id(&self) -> Option<u8> {
        Some(0u8)
    }

    open spec fn spec_payload(&self) -> Seq<u8> {
        Seq::<u8>::empty()
    }

    fn id(&self) -> (r: Option<u8>) {
        Some(0)
    }

    fn payload(&self) -> (r: Vec<u8>) {
        Vec::new()
    }

    fn name(&self) -> String {
        String::from_str("choke")
    }
}

impl PeerWireMessage for Unchoke {
    open spec fn spec_id(&self) -> Option<u8> {
        Some(1u8)
    }

    open spec fn spec_payload(&self) -> Seq<u8> {
        Seq::<u8>::empty()
    }

    fn id(&self) -> (r: Option<u8>) {
        Some(1)
    }

    fn payload(&self) -> (r: Vec<u8>) {
        Vec::new()
    }

    fn name(&self) -> String {
        String::from_str("unchoke")
    }
}

impl PeerWireMessage for Interested {
    open spec fn spec_id(&self) -> Option<u8> {
        Some(2u8)
    }

    open spec fn spec_payload(&self) -> Seq<u8> {
        Seq::<u8>::empty()
    }

    fn id(&self) -> (r: Option<u8>) {
        Some(2)
    }

    fn payload(&self) -> (r: Vec<u8>) {
        Vec::new()
    }

    fn name(&self) -> String {
        String::from_str("interested")
    }
}

impl PeerWireMessage for NotInterested {
    open spec fn spec_id(&self) -> Option<u8> {
        Some(3u8)
    }

    open spec fn spec_payload(&self) -> Seq<u8> {
        Seq::<u8>::empty()
    }

    fn id(&self) -> (r: Option<u8>) {
        Some(3)
    }

    fn payload(&self) -> (r: Vec<u8>) {
        Vec::new()
    }

    fn name(&self) -> String {
        String::from_str("not interested")
    }
}

impl PeerWireMessage for Have {
    open spec fn spec_id(&self) -> Option<u8> {
        Some(4u8)
    }

    open spec fn spec_payload(&self) -> Seq<u8> {
        spec_u32_be(self.piece_index)
    }

    fn id(&self) -> (r: Option<u8>) {
        Some(4)
    }

    fn payload(&self) -> (r: Vec<u8>) {
        let mut out: Vec<u8> = Vec::new();
        push_u32_be(&mut out, self.piece_index);
        out
    }

    fn name(&self) -> String {
        String::from_str("have")
    }
}

impl PeerWireMessage for Bitfield {
    open spec fn spec_id(&self) -> Option<u8> {
        Some(5u8)
    }

    open spec fn spec_payload(&self) -> Seq<u8> {
        self.bitfield@
    }

    fn id(&self) -> (r: Option<u8>) {
        Some(5)
    }

    fn payload(&self) -> (r: Vec<u8>) {
        slice_to_vec(self.bitfield.as_slice())
    }

    fn name(&self) -> String {
        String::from_str("bitfield")
    }
}

impl PeerWireMessage for Request {
    open spec fn spec_id(&self) -> Option<u8> {
        Some(6u8)
    }

    open spec fn spec_payload(&self) -> Seq<u8> {
        spec_u32_be(self.index) + spec_u32_be(self.begin) + spec_u32_be(self.length)
    }

    fn id(&self) -> (r: Option<u8>) {
        Some(6)
    }

    fn payload(&self) -> (r: Vec<u8>) {
        let mut out: Vec<u8> = Vec::new();
        push_u32_be(&mut out, self.index);
        push_u32_be(&mut out, self.begin);
        push_u32_be(&mut out, self.length);
        out
    }

    fn name(&self) -> String {
        String::from_str("request")
    }
}

impl PeerWireMessage for Piece {
    open spec fn spec_id(&self) -> Option<u8> {
        Some(7u8)
    }

    open spec fn spec_payload(&self) -> Seq<u8> {
        spec_u32_be(self.index) + spec_u32_be(self.begin) + self.block@
    }

    fn id(&self) -> (r: Option<u8>) {
        Some(7)
    }

    fn payload(&self) -> (r: Vec<u8>) {
        let mut out: Vec<u8> = Vec::new();
        push_u32_be(&mut out, self.index);
        push_u32_be(&mut out, self.begin);
        let mut block = slice_to_vec(self.block.as_slice());
        out.append(&mut block);
        out
    }

    fn name(&self) -> String {
        String::from_str("piece")
    }
}

impl PeerWireMessage for Cancel {
    open spec fn spec_id(&self) -> Option<u8> {
        Some(8u8)
    }

    open spec fn spec_payload(&self) -> Seq<u8> {
        spec_u32_be(self.index) + spec_u32_be(self.begin) + spec_u32_be(self.length)
    }

    fn id(&self) -> (r: Option<u8>) {
        Some(8)
    }

    fn payload(&self) -> (r: Vec<u8>) {
        let mut out: Vec<u8> = Vec::new();
        push_u32_be(&mut out, self.index);
        push_u32_be(&mut out, self.begin);
        push_u32_be(&mut out, self.length);
        out
    }

    fn name(&self) -> String {
        String::from_str("cancel")
    }
}

impl PeerWireMessage for Message {
    open spec fn spec_id(&self) -> Option<u8> {
        match self {
            Message::KeepAlive(m) => m.spec_id(),
            Message::Choke(m) => m.spec_id(),
            Message::Unchoke(m) => m.spec_id(),
            Message::Interested(m) => m.spec_id(),
            Message::NotInterested(m) => m.spec_id(),
            Message::Have(m) => m.spec_id(),
            Message::Bitfield(m) => m.spec_id(),
            Message::Request(m) => m.spec_id(),
            Message::Piece(m) => m.spec_id(),
            Message::Cancel(m) => m.spec_id(),
        }
    }

    open spec fn spec_payload(&self) -> Seq<u8> {
        match self {
            Message::KeepAlive(m) => m.spec_payload(),
            Message::Choke(m) => m.spec_payload(),
            Message::Unchoke(m) => m.spec_payload(),
            Message::Interested(m) => m.spec_payload(),
            Message::NotInterested(m) => m.spec_payload(),
            Message::Have(m) => m.spec_payload(),
            Message::Bitfield(m) => m.spec_payload(),
            Message::Request(m) => m.spec_payload(),
            Message::Piece(m) => m.spec_payload(),
            Message::Cancel(m) => m.spec_payload(),
        }
    }

    fn id(&self) -> (r: Option<u8>) {
        match self {
            Message::KeepAlive(m) => m.id(),
            Message::Choke(m) => m.id(),
            Message::Unchoke(m) => m.id(),
            Message::Interested(m) => m.id(),
            Message::NotInterested(m) => m.id(),
            Message::Have(m) => m.id(),
            Message::Bitfield(m) => m.id(),
            Message::Request(m) => m.id(),
            Message::Piece(m) => m.id(),
            Message::Cancel(m) => m.id(),
        }
    }

    fn payload(&self) -> (r: Vec<u8>) {
        match self {
            Message::KeepAlive(m) => m.payload(),
            Message::Choke(m) => m.payload(),
            Message::Unchoke(m) => m.payload(),
            Message::Interested(m) => m.payload(),
            Message::NotInterested(m) => m.payload(),
            Message::Have(m) => m.payload(),
            Message::Bitfield(m) => m.payload(),
            Message::Request(m) => m.payload(),
            Message::Piece(m) => m.payload(),
            Message::Cancel(m) => m.payload(),
        }
    }

    fn name(&self) -> String {
        match self {
            Message::KeepAlive(m) => m.name(),
            Message::Choke(m) => m.name(),
            Message::Unchoke(m) => m.name(),
            Message::Interested(m) => m.name(),
            Message::NotInterested(m) => m.name(),
            Message::Have(m) => m.name(),
            Message::Bitfield(m) => m.name(),
            Message::Request(m) => m.name(),
            Message::Piece(m) => m.name(),
            Message::Cancel(m) => m.name(),
        }
    }
}

/// The frame a message serialises to.
pub open spec fn spec_frame(m: Message) -> Seq<u8> {
    spec_frame_of(m.spec_id(), m.spec_payload())
}

/// The length prefix at the front of a buffer.
pub open spec fn spec_prefix(raw: Seq<u8>) -> int
    recommends
        raw.len() >= 4,
{
    spec_u32_of(raw[0], raw[1], raw[2], raw[3]) as int
}

/// Whether the frame at the front of the buffer has an accepted id and a
/// length consistent with that id.
pub open spec fn spec_body_ok(raw: Seq<u8>) -> bool
    recommends
        raw.len() >= 4,
        4 + spec_prefix(raw) <= raw.len(),
{
    let lp = spec_prefix(raw);
    if lp == 0 {
        true
    } else {
        let id = raw[4];
        if id == 0 || id == 1 || id == 2 || id == 3 {
            lp == 1
        } else if id == 4 {
            lp == 5
        } else if id == 5 {
            true
        } else if id == 6 || id == 8 {
            lp == 13
        } else if id == 7 {
            lp >= 10
        } else {
            false
        }
    }
}

/// The buffer does not yet hold a complete frame: more bytes must arrive.
pub open spec fn parse_needs_more(raw: Seq<u8>) -> bool {
    raw.len() < 4 || (spec_prefix(raw) <= MAX_FRAME_LEN && 4 + spec_prefix(raw) > raw.len())
}

/// The buffer starts with a frame the codec rejects.
pub open spec fn parse_malformed(raw: Seq<u8>) -> bool {
    raw.len() >= 4 && (spec_prefix(raw) > MAX_FRAME_LEN || (4 + spec_prefix(raw) <= raw.len()
        && !spec_body_ok(raw)))
}

/// The message denoted by the complete, valid frame at the front of the
/// buffer.
pub open spec fn spec_msg_matches(m: Message, raw: Seq<u8>) -> bool
    recommends
        raw.len() >= 4,
        4 + spec_prefix(raw) <= raw.len(),
        spec_body_ok(raw),
{
    let lp = spec_prefix(raw);
    if lp == 0 {
        m is KeepAlive
    } else {
        let id = raw[4];
        if id == 0 {
            m is Choke
        } else if id == 1 {
            m is Unchoke
        } else if id == 2 {
            m is Interested
        } else if id == 3 {
            m is NotInterested
        } else if id == 4 {
            m matches Message::Have(h) && h.piece_index == spec_u32_of(
                raw[5],
                raw[6],
                raw[7],
                raw[8],
            )
        } else if id == 5 {
            m matches Message::Bitfield(b) && b.bitfield@ == raw.subrange(5, 4 + lp)
        } else if id == 6 {
            m matches Message::Request(rq) && rq.index == spec_u32_of(raw[5], raw[6], raw[7], raw[8])
                && rq.begin == spec_u32_of(raw[9], raw[10], raw[11], raw[12]) && rq.length
                == spec_u32_of(raw[13], raw[14], raw[15], raw[16])
        } else if id == 7 {
            m matches Message::Piece(p) && p.index == spec_u32_of(raw[5], raw[6], raw[7], raw[8])
                && p.begin == spec_u32_of(raw[9], raw[10], raw[11], raw[12]) && p.block@
                == raw.subrange(13, 4 + lp)
        } else if id == 8 {
            m matches Message::Cancel(c) && c.index == spec_u32_of(raw[5], raw[6], raw[7], raw[8])
                && c.begin == spec_u32_of(raw[9], raw[10], raw[11], raw[12]) && c.length
                == spec_u32_of(raw[13], raw[14], raw[15], raw[16])
        } else {
            false
        }
    }
}

/// Reads one frame from the front of the buffer.
///
/// Returns the parsed message and the unconsumed tail; `(None, raw)` when the
/// buffer does not yet hold a complete frame; `MalformedFrame` when the
/// length prefix exceeds the cap, a fixed-size message has the wrong length,
/// or the id is unknown.
pub fn parse(raw: &Vec<u8>) -> (r: Result<(Option<Message>, Vec<u8>), CodecError>)
    ensures
        match r {
            Ok((m_opt, rem)) => match m_opt {
                Some(m) => !parse_needs_more(raw@) && !parse_malformed(raw@) && spec_msg_matches(
                    m,
                    raw@,
                ) && rem@ == raw@.skip(4 + spec_prefix(raw@)),
                None => parse_needs_more(raw@) && rem@ == raw@,
            },
            Err(e) => parse_malformed(raw@) && e == CodecError::MalformedFrame,
        },
{
    if raw.len() < 4 {
        return Ok((None, slice_to_vec(raw.as_slice())));
    }
    let len_prefix = u32_from_be(raw[0], raw[1], raw[2], raw[3]);
    if len_prefix > MAX_FRAME_LEN {
        return Err(CodecError::MalformedFrame);
    }
    if (len_prefix as usize) + 4 > raw.len() {
        return Ok((None, slice_to_vec(raw.as_slice())));
    }
    let msg_len: usize = (len_prefix as usize) + 4;
    let rem = slice_to_vec(slice_subrange(raw.as_slice(), msg_len, raw.len()));
    proof {
        assert(rem@ =~= raw@.skip(4 + spec_prefix(raw@)));
    }
    if len_prefix == 0 {
        return Ok((Some(Message::KeepAlive(KeepAlive {})), rem));
    }
    let id = raw[4];
    match id {
        0 => {
            if len_prefix != 1 {
                return Err(CodecError::MalformedFrame);
            }
            Ok((Some(Message::Choke(Choke {})), rem))
        },
        1 => {
            if len_prefix != 1 {
                return Err(CodecError::MalformedFrame);
            }
            Ok((Some(Message::Unchoke(Unchoke {})), rem))
        },
        2 => {
            if len_prefix != 1 {
                return Err(CodecError::MalformedFrame);
            }
            Ok((Some(Message::Interested(Interested {})), rem))
        },
        3 => {
            if len_prefix != 1 {
                return Err(CodecError::MalformedFrame);
            }
            Ok((Some(Message::NotInterested(NotInterested {})), rem))
        },
        4 => {
            if len_prefix != 5 {
                return Err(CodecError::MalformedFrame);
            }
            let piece_index = u32_from_be(raw[5], raw[6], raw[7], raw[8]);
            Ok((Some(Message::Have(Have { piece_index })), rem))
        },
        5 => {
            let bitfield = slice_to_vec(slice_subrange(raw.as_slice(), 5, msg_len));
            Ok((Some(Message::Bitfield(Bitfield { bitfield })), rem))
        },
        6 => {
            if len_prefix != 13 {
                return Err(CodecError::MalformedFrame);
            }
            let index = u32_from_be(raw[5], raw[6], raw[7], raw[8]);
            let begin = u32_from_be(raw[9], raw[10], raw[11], raw[12]);
            let length = u32_from_be(raw[13], raw[14], raw[15], raw[16]);
            Ok((Some(Message::Request(Request { index, begin, length })), rem))
        },
        7 => {
            if len_prefix < 10 {
                return Err(CodecError::MalformedFrame);
            }
            let index = u32_from_be(raw[5], raw[6], raw[7], raw[8]);
            let begin = u32_from_be(raw[9], raw[10], raw[11], raw[12]);
            let block = slice_to_vec(slice_subrange(raw.as_slice(), 13, msg_len));
            Ok((Some(Message::Piece(Piece { index, begin, block })), rem))
        },
        8 => {
            if len_prefix != 13 {
                return Err(CodecError::MalformedFrame);
            }
            let index = u32_from_be(raw[5], raw[6], raw[7], raw[8]);
            let begin = u32_from_be(raw[9], raw[10], raw[11], raw[12]);
            let length = u32_from_be(raw[13], raw[14], raw[15], raw[16]);
            Ok((Some(Message::Cancel(Cancel { index, begin, length })), rem))
        },
        _ => Err(CodecError::MalformedFrame),
    }
}

/// Whether two messages are the same message: the same variant with the same
/// fields.
pub open spec fn msg_eq(a: Message, b: Message) -> bool {
    a.spec_id() == b.spec_id() && a.spec_payload() == b.spec_payload() && (match a {
        Message::KeepAlive(_) => b is KeepAlive,
        Message::Choke(_) => b is Choke,
        Message::Unchoke(_) => b is Unchoke,
        Message::Interested(_) => b is Interested,
        Message::NotInterested(_) => b is NotInterested,
        Message::Have(_) => b is Have,
        Message::Bitfield(_) => b is Bitfield,
        Message::Request(_) => b is Request,
        Message::Piece(_) => b is Piece,
        Message::Cancel(_) => b is Cancel,
    })
}

/// A message whose frame the codec accepts back: the frame is within the
/// length cap, and a piece frame carries at least one block byte.
pub open spec fn msg_valid(m: Message) -> bool {
    spec_msg_len(m.spec_id(), m.spec_payload()) <= MAX_FRAME_LEN && (m matches Message::Piece(p)
        ==> p.block@.len() >= 1)
}

/// Round-trip law: the serialised frame of any valid message, followed by any
/// tail, parses back to that same message, and the tail is exactly the
/// unconsumed remainder.
pub proof fn lemma_parse_serialise_roundtrip(m: Message, tail: Seq<u8>)
    requires
        msg_valid(m),
    ensures
        !parse_needs_more(spec_frame(m) + tail),
        !parse_malformed(spec_frame(m) + tail),
        spec_prefix(spec_frame(m) + tail) == spec_msg_len(m.spec_id(), m.spec_payload()),
        (spec_frame(m) + tail).skip(4 + spec_prefix(spec_frame(m) + tail)) == tail,
        spec_msg_matches(m, spec_frame(m) + tail),
        forall|m2: Message| spec_msg_matches(m2, spec_frame(m) + tail) ==> msg_eq(m2, m),
{
    let payload = m.spec_payload();
    let lp = spec_msg_len(m.spec_id(), m.spec_payload());
    let bytes = spec_frame(m) + tail;
    crate::utils::lemma_u32_of_be(lp as u32);
    match m.spec_id() {
        Some(id) => {
            assert(bytes[0] == spec_u32_be(lp as u32)[0] && bytes[1] == spec_u32_be(lp as u32)[1]
                && bytes[2] == spec_u32_be(lp as u32)[2] && bytes[3] == spec_u32_be(lp as u32)[3]);
            assert(spec_prefix(bytes) == lp);
            assert(bytes[4] == id);
            assert(forall|j: int| 0 <= j < payload.len() ==> bytes[5 + j] == payload[j]);
            assert(bytes.skip(4 + lp) =~= tail);
            assert(bytes.subrange(5, 4 + lp) =~= payload);
        },
        None => {
            assert(bytes[0] == spec_u32_be(0u32)[0] && bytes[1] == spec_u32_be(0u32)[1] && bytes[2]
                == spec_u32_be(0u32)[2] && bytes[3] == spec_u32_be(0u32)[3]);
            assert(spec_prefix(bytes) == 0);
            assert(bytes.skip(4) =~= tail);
        },
    }
    match m {
        Message::Have(h) => {
            crate::utils::lemma_u32_be_of(bytes[5], bytes[6], bytes[7], bytes[8]);
            assert(spec_u32_be(h.piece_index) =~= seq![bytes[5], bytes[6], bytes[7], bytes[8]]);
            crate::utils::lemma_u32_of_be(h.piece_index);
        },
        Message::Request(rq) => {
            lemma_triple_decode(rq.index, rq.begin, rq.length, bytes);
        },
        Message::Cancel(c) => {
            lemma_triple_decode(c.index, c.begin, c.length, bytes);
        },
        Message::Piece(p) => {
            assert(spec_u32_be(p.index) =~= seq![bytes[5], bytes[6], bytes[7], bytes[8]]);
            assert(spec_u32_be(p.begin) =~= seq![bytes[9], bytes[10], bytes[11], bytes[12]]);
            crate::utils::lemma_u32_of_be(p.index);
            crate::utils::lemma_u32_of_be(p.begin);
            assert(bytes.subrange(13, 4 + lp) =~= p.block@);
        },
        _ => {},
    }
}

/// For a message whose payload starts with three big-endian words, the words
/// read back from the serialised frame are the fields that produced them.
proof fn lemma_triple_decode(x: u32, y: u32, z: u32, bytes: Seq<u8>)
    requires
        bytes.len() >= 17,
        bytes.subrange(5, 17) == spec_u32_be(x) + spec_u32_be(y) + spec_u32_be(z),
    ensures
        spec_u32_of(bytes[5], bytes[6], bytes[7], bytes[8]) == x,
        spec_u32_of(bytes[9], bytes[10], bytes[11], bytes[12]) == y,
        spec_u32_of(bytes[13], bytes[14], bytes[15], bytes[16]) == z,
{
    let s = spec_u32_be(x) + spec_u32_be(y) + spec_u32_be(z);
    assert(forall|j: int| 0 <= j < 12 ==> #[trigger] bytes.subrange(5, 17)[j] == bytes[5 + j]);
    assert(bytes[5] == s[0] && bytes[6] == s[1] && bytes[7] == s[2] && bytes[8] == s[3] && bytes[9]
        == s[4] && bytes[10] == s[5] && bytes[11] == s[6] && bytes[12] == s[7] && bytes[13] == s[8]
        && bytes[14] == s[9] && bytes[15] == s[10] && bytes[16] == s[11]);
    assert(s[0] == spec_u32_be(x)[0] && s[1] == spec_u32_be(x)[1] && s[2] == spec_u32_be(x)[2]
        && s[3] == spec_u32_be(x)[3]);
    assert(s[4] == spec_u32_be(y)[0] && s[5] == spec_u32_be(y)[1] && s[6] == spec_u32_be(y)[2]
        && s[7] == spec_u32_be(y)[3]);
    assert(s[8] == spec_u32_be(z)[0] && s[9] == spec_u32_be(z)[1] && s[10] == spec_u32_be(z)[2]
        && s[11] == spec_u32_be(z)[3]);
    crate::utils::lemma_u32_of_be(x);
    crate::utils::lemma_u32_of_be(y);
    crate::utils::lemma_u32_of_be(z);
}

/// The buffer drains to exactly these messages, in arrival order, leaving
/// this remainder, which holds no complete frame.
pub open spec fn drains_to(raw: Seq<u8>, msgs: Seq<Message>, rem: Seq<u8>) -> bool
    decreases msgs.len(),
{
    if msgs.len() == 0 {
        rem == raw && parse_needs_more(raw)
    } else {
        &&& !parse_needs_more(raw)
        &&& !parse_malformed(raw)
        &&& spec_msg_matches(msgs[0], raw)
        &&& drains_to(raw.skip(4 + spec_prefix(raw)), msgs.skip(1), rem)
    }
}

/// Draining the buffer runs into a frame the codec rejects.
pub open spec fn drain_rejects(raw: Seq<u8>) -> bool
    decreases raw.len(),
{
    if parse_malformed(raw) {
        true
    } else if parse_needs_more(raw) {
        false
    } else {
        drain_rejects(raw.skip(4 + spec_prefix(raw)))
    }
}

/// Repeatedly parses frames from the front of the buffer until no complete
/// frame remains, returning the messages in arrival order and the
/// unconsumed tail; fails on the first rejected frame.
pub fn drain_frames(buf: Vec<u8>) -> (r: Result<(Vec<Message>, Vec<u8>), CodecError>)
    ensures
        match r {
            Ok((msgs, rem)) => drains_to(buf@, msgs@, rem@),
            Err(e) => drain_rejects(buf@) && e == CodecError::MalformedFrame,
        },
    decreases buf@.len(),
{
    match parse(&buf) {
        Err(e) => Err(e),
        Ok((None, rem)) => {
            let msgs: Vec<Message> = Vec::new();
            Ok((msgs, rem))
        },
        Ok((Some(m), rem)) => {
            proof {
                assert(rem@.len() < buf@.len());
            }
            match drain_frames(rem) {
                Err(e) => Err(e),
                Ok((mut msgs, tail)) => {
                    let ghost sub = msgs@;
                    msgs.insert(0, m);
                    proof {
                        assert(msgs@ =~= seq![m] + sub);
                        assert((seq![m] + sub)[0] == m);
                        assert((seq![m] + sub).skip(1) =~= sub);
                    }
                    Ok((msgs, tail))
                },
            }
        },
    }
}

} // verus!
