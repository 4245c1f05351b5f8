//! The per-peer protocol engine.
//!
//! One engine runs per remote peer.  The caller owns the socket: it feeds
//! each received frame to `on_frame`, answers each `AskAssignment` action by
//! consulting the strategy and calling `on_assignment`, and performs the
//! sends, writes and notifications the returned actions describe, in order.
//! The handshake bytes both sides exchange are built here too.

use crate::bitfield::unpack_bits;
use crate::messages::Message;
use crate::metadata::Metadata;
use crate::storage::spec_overlay;
use crate::BLOCK_LEN;
use sha1::Digest;
use vstd::arithmetic::mul::lemma_mul_inequality;
use vstd::prelude::*;

verus! {

/// The SHA-1 digest of a byte string, named: it depends on the bytes alone.
pub uninterp spec fn sha1_of(data: Seq<u8>) -> Seq<u8>;

/// Relies on sha1::Sha1::digest: the 20-byte SHA-1 digest of the input,
/// a function of the input bytes alone.
#[verifier::external_body]
fn sha1_bytes(data: &Vec<u8>) -> (r: Vec<u8>)
    ensures
        r@ == sha1_of(data@),
        r@.len() == 20,
{
    sha1::Sha1::digest(data.as_slice()).to_vec()
}

/// The stored 20-byte hash of one piece in the descriptor's hash list.
pub open spec fn spec_piece_hash(md: Metadata, index: int) -> Seq<u8> {
    md.info.pieces@.subrange(20 * index, 20 * index + 20)
}

/// Whether a received piece's bytes hash to the descriptor's stored hash
/// for that piece.
pub fn piece_matches_hash(md: &Metadata, index: u32, data: &Vec<u8>) -> (r: bool)
    requires
        md.wf(),
        (index as int) < md.spec_num_pieces(),
    ensures
        r == (sha1_of(data@) == spec_piece_hash(*md, index as int)),
{
    let digest = sha1_bytes(data);
    proof {
        assert(md.info.pieces@.len() == 20 * md.spec_num_pieces()) by {
            let len = md.info.pieces@.len() as int;
            assert(len % 20 == 0);
            assert(md.spec_num_pieces() == len / 20);
            assert(len == 20 * (len / 20) + len % 20) by (nonlinear_arith);
        }
        assert(index as int + 1 <= md.spec_num_pieces());
        assert(20 * (index as int) + 20 <= 20 * md.spec_num_pieces());
    }
    let plen = md.info.pieces.len();
    proof {
        assert(20 * (index as int) + 20 <= plen);
    }
    let base = 20 * (index as usize);
    let mut i: usize = 0;
    let mut same = true;
    proof {
        assert(digest@.subrange(0, 0) =~= spec_piece_hash(*md, index as int).subrange(0, 0));
    }
    while i < 20
        invariant
            i <= 20,
            digest@.len() == 20,
            base == 20 * index,
            plen == md.info.pieces@.len(),
            base + 20 <= md.info.pieces@.len(),
            same == (digest@.subrange(0, i as int) == spec_piece_hash(*md, index as int).subrange(
                0,
                i as int,
            )),
        decreases 20 - i,
    {
        let ghost pre = i as int;
        if digest[i] != md.info.pieces[base + i] {
            proof {
                assert(spec_piece_hash(*md, index as int)[pre] == md.info.pieces@[base + pre]);
            }
            same = false;
        }
        proof {
            let h = spec_piece_hash(*md, index as int);
            if same {
                assert(digest@.subrange(0, pre + 1) =~= h.subrange(0, pre + 1)) by {
                    assert(digest@.subrange(0, pre) == h.subrange(0, pre));
                    assert(forall|j: int|
                        0 <= j < pre ==> digest@.subrange(0, pre + 1)[j] == #[trigger] digest@.subrange(0, pre)[j]);
                    assert(forall|j: int|
                        0 <= j < pre ==> h.subrange(0, pre + 1)[j] == #[trigger] h.subrange(0, pre)[j]);
                    assert(digest@.subrange(0, pre + 1)[pre] == digest@[pre]);
                    assert(h.subrange(0, pre + 1)[pre] == h[pre]);
                    assert(h[pre] == md.info.pieces@[base + pre]);
                }
            } else {
                if digest@.subrange(0, pre + 1) == h.subrange(0, pre + 1) {
                    assert(digest@.subrange(0, pre) =~= digest@.subrange(0, pre + 1).subrange(
                        0,
                        pre,
                    ));
                    assert(h.subrange(0, pre) =~= h.subrange(0, pre + 1).subrange(0, pre));
                    assert(digest@.subrange(0, pre + 1)[pre] == digest@[pre]);
                    assert(h.subrange(0, pre + 1)[pre] == h[pre]);
                    assert(h[pre] == md.info.pieces@[base + pre]);
                }
            }
        }
        i = i + 1;
    }
    proof {
        let h = spec_piece_hash(*md, index as int);
        assert(digest@.subrange(0, 20) =~= digest@);
        assert(h.subrange(0, 20) =~= h);
    }
    same
}

/// The four protocol flags of one peer connection.
pub struct PeerState {
    pub client_choked: bool,
    pub client_interested: bool,
    pub peer_choked: bool,
    pub peer_interested: bool,
}

/// Which request the engine is waiting on the strategy to answer.
pub enum AssignContext {
    /// The assignment that follows a peer's bitfield.
    AfterBitfield,
    /// The assignment that follows a have when none was held.
    AfterHave,
    /// The assignment that follows a completed piece.
    AfterPiece,
}

/// One step the caller must perform, in order.
pub enum Action {
    /// Send an interested frame to the peer.
    SendInterested,
    /// Send a request frame for one block.
    SendRequest { index: u32, begin: u32, length: u32 },
    /// Forward the peer's bitfield to the strategy and await its answer.
    NotifyBitfield { bits: Vec<bool> },
    /// Forward one have announcement to the strategy.
    NotifyHave { index: u32 },
    /// Write the completed piece through the file writer.
    WritePiece { index: u32, data: Vec<u8> },
    /// Tell the strategy the piece is complete.
    NotifyCompleted { index: u32 },
    /// Ask the strategy for a piece assignment, then call `on_assignment`.
    AskAssignment,
    /// Exit cleanly: the peer cancelled.
    Exit,
    /// Tear the connection down and tell the strategy the peer is gone.
    Disconnect,
}

/// The protocol engine of one peer connection.
pub struct PeerHandler {
    /// The torrent description.
    pub md: Metadata,
    /// The connection's protocol flags.
    pub peer_state: PeerState,
    /// The piece currently assigned by the strategy, if any.
    pub piece_index: Option<u32>,
    /// The next block expected within the assigned piece.
    pub block_index: u32,
    /// The assembly buffer of the assigned piece.
    pub data_buf: Vec<u8>,
    /// The outstanding assignment request, if any.
    pub awaiting: Option<AssignContext>,
}

/// A byte vector of the given length, all zero.
fn zero_buf(n: usize) -> (r: Vec<u8>)
    ensures
        r@.len() == n,
        forall|j: int| 0 <= j < n ==> r@[j] == 0,
{
    let mut out: Vec<u8> = Vec::new();
    let mut k: usize = 0;
    while k < n
        invariant
            k <= n,
            out@.len() == k,
            forall|j: int| 0 <= j < k ==> out@[j] == 0,
        decreases n - k,
    {
        out.push(0);
        k = k + 1;
    }
    out
}

impl PeerHandler {
    /// Internal consistency: a well-formed description whose piece count
    /// fits the index type, a buffer of one piece length, a block cursor
    /// within the piece, and an assigned piece within range.
    pub open spec fn wf(&self) -> bool {
        &&& self.md.wf()
        &&& self.md.spec_num_pieces() <= u32::MAX
        &&& self.data_buf@.len() == self.md.info.piece_length
        &&& 0 <= self.block_index < self.md.spec_num_blocks()
        &&& (self.piece_index matches Some(i) ==> (i as int) < self.md.spec_num_pieces())
    }

    /// A fresh engine: both sides choked, neither interested, nothing
    /// assigned, an empty assembly buffer.
    pub fn new(md: Metadata) -> (r: PeerHandler)
        requires
            md.wf(),
            md.spec_num_pieces() <= u32::MAX,
        ensures
            r.wf(),
            r.md == md,
            r.peer_state.client_choked && r.peer_state.peer_choked,
            !r.peer_state.client_interested && !r.peer_state.peer_interested,
            r.piece_index is None,
            r.block_index == 0,
            r.awaiting is None,
            forall|j: int| 0 <= j < r.data_buf@.len() ==> r.data_buf@[j] == 0,
    {
        let n = md.info.piece_length as usize;
        let data_buf = zero_buf(n);
        PeerHandler {
            md,
            peer_state: PeerState {
                client_choked: true,
                client_interested: false,
                peer_choked: true,
                peer_interested: false,
            },
            piece_index: None,
            block_index: 0,
            data_buf,
            awaiting: None,
        }
    }

    /// The peer state is unchanged between two engine values.
    pub open spec fn state_unchanged(&self, other: &PeerHandler) -> bool {
        &&& other.peer_state.client_choked == self.peer_state.client_choked
        &&& other.peer_state.client_interested == self.peer_state.client_interested
        &&& other.peer_state.peer_choked == self.peer_state.peer_choked
        &&& other.peer_state.peer_interested == self.peer_state.peer_interested
    }

    /// The download cursor is unchanged between two engine values.
    pub open spec fn cursor_unchanged(&self, other: &PeerHandler) -> bool {
        &&& other.piece_index == self.piece_index
        &&& other.block_index == self.block_index
        &&& other.data_buf@ == self.data_buf@
    }

    /// A received piece frame is accepted only for the assigned piece at
    /// exactly the expected block offset.
    pub open spec fn accepts_piece(&self, index: u32, begin: u32) -> bool {
        &&& self.piece_index == Some(index)
        &&& begin == self.block_index * BLOCK_LEN
    }

    /// How many bytes of a received block are spliced into the buffer: at
    /// most one block length.
    pub open spec fn spec_blen(block: Seq<u8>) -> int {
        if block.len() < BLOCK_LEN {
            block.len() as int
        } else {
            BLOCK_LEN as int
        }
    }

    /// The assembly buffer after a received block is spliced in at `begin`.
    pub open spec fn spec_spliced(&self, begin: int, block: Seq<u8>) -> Seq<u8> {
        spec_overlay(self.data_buf@, begin, block.take(Self::spec_blen(block)))
    }

    /// Applies one received frame: updates the protocol flags and the
    /// download cursor, and returns the steps the caller must perform, in
    /// order, exactly as the protocol prescribes.
    pub fn on_frame(&mut self, msg: Message) -> (acts: Vec<Action>)
        requires
            old(self).wf(),
            old(self).awaiting is None,
        ensures
            final(self).wf(),
            final(self).md == old(self).md,
            match msg {
                Message::KeepAlive(_) => old(self).state_unchanged(&*final(self)) && old(
                    self,
                ).cursor_unchanged(&*final(self)) && final(self).awaiting is None && acts@.len()
                    == 0,
                Message::Choke(_) => {
                    &&& final(self).peer_state.client_choked
                    &&& final(self).peer_state.client_interested == old(
                        self,
                    ).peer_state.client_interested
                    &&& final(self).peer_state.peer_choked == old(self).peer_state.peer_choked
                    &&& final(self).peer_state.peer_interested == old(
                        self,
                    ).peer_state.peer_interested
                    &&& old(self).cursor_unchanged(&*final(self))
                    &&& final(self).awaiting is None
                    &&& acts@.len() == 0
                },
                Message::Unchoke(_) => {
                    &&& !final(self).peer_state.client_choked
                    &&& final(self).peer_state.client_interested == old(
                        self,
                    ).peer_state.client_interested
                    &&& final(self).peer_state.peer_choked == old(self).peer_state.peer_choked
                    &&& final(self).peer_state.peer_interested == old(
                        self,
                    ).peer_state.peer_interested
                    &&& old(self).cursor_unchanged(&*final(self))
                    &&& final(self).awaiting is None
                    &&& match old(self).piece_index {
                        Some(i) => acts@.len() == 1 && (acts@[0] matches Action::SendRequest {
                            index,
                            begin,
                            length,
                        } && index == i && begin == old(self).block_index * BLOCK_LEN && length
                            == old(self).md.spec_block_len(
                            i as int,
                            old(self).block_index as int,
                        )),
                        None => acts@.len() == 0,
                    }
                },
                Message::Interested(_) => {
                    &&& final(self).peer_state.peer_interested
                    &&& !final(self).peer_state.peer_choked
                    &&& final(self).peer_state.client_choked == old(self).peer_state.client_choked
                    &&& final(self).peer_state.client_interested == old(
                        self,
                    ).peer_state.client_interested
                    &&& old(self).cursor_unchanged(&*final(self))
                    &&& final(self).awaiting is None
                    &&& acts@.len() == 0
                },
                Message::NotInterested(_) => {
                    &&& !final(self).peer_state.peer_interested
                    &&& final(self).peer_state.peer_choked == old(self).peer_state.peer_choked
                    &&& final(self).peer_state.client_choked == old(self).peer_state.client_choked
                    &&& final(self).peer_state.client_interested == old(
                        self,
                    ).peer_state.client_interested
                    &&& old(self).cursor_unchanged(&*final(self))
                    &&& final(self).awaiting is None
                    &&& acts@.len() == 0
                },
                Message::Have(h) => {
                    &&& old(self).state_unchanged(&*final(self))
                    &&& old(self).cursor_unchanged(&*final(self))
                    &&& if (h.piece_index as int) < old(self).md.spec_num_pieces() {
                        &&& (acts@[0] matches Action::NotifyHave { index } && index
                            == h.piece_index)
                        &&& if old(self).piece_index is None {
                            acts@.len() == 2 && acts@[1] is AskAssignment && final(self).awaiting
                                == Some(AssignContext::AfterHave)
                        } else {
                            acts@.len() == 1 && final(self).awaiting is None
                        }
                    } else {
                        acts@.len() == 1 && acts@[0] is Disconnect && final(self).awaiting is None
                    }
                },
                Message::Bitfield(b) => {
                    &&& old(self).state_unchanged(&*final(self))
                    &&& old(self).cursor_unchanged(&*final(self))
                    &&& if 8 * b.bitfield@.len() >= old(self).md.spec_num_pieces() {
                        &&& acts@.len() == 2
                        &&& (acts@[0] matches Action::NotifyBitfield { bits } && bits@.len() == old(
                            self,
                        ).md.spec_num_pieces() && (forall|t: int|
                            0 <= t < bits@.len() ==> bits@[t]
                                == crate::bitfield::spec_packed_bit(b.bitfield@, t)))
                        &&& acts@[1] is AskAssignment
                        &&& final(self).awaiting == Some(AssignContext::AfterBitfield)
                    } else {
                        acts@.len() == 1 && acts@[0] is Disconnect && final(self).awaiting is None
                    }
                },
                Message::Request(_) => old(self).state_unchanged(&*final(self)) && old(
                    self,
                ).cursor_unchanged(&*final(self)) && final(self).awaiting is None && acts@.len()
                    == 0,
                Message::Cancel(_) => old(self).state_unchanged(&*final(self)) && old(
                    self,
                ).cursor_unchanged(&*final(self)) && final(self).awaiting is None && acts@.len()
                    == 1 && acts@[0] is Exit,
                Message::Piece(p) => {
                    &&& old(self).state_unchanged(&*final(self))
                    &&& if old(self).accepts_piece(p.index, p.begin) {
                        let buf2 = old(self).spec_spliced(p.begin as int, p.block@);
                        if old(self).block_index + 1 == old(self).md.spec_num_blocks() {
                            if sha1_of(buf2) == spec_piece_hash(old(self).md, p.index as int) {
                                &&& final(self).piece_index == old(self).piece_index
                                &&& final(self).block_index == 0
                                &&& final(self).data_buf@.len() == old(self).data_buf@.len()
                                &&& (forall|j: int|
                                    0 <= j < final(self).data_buf@.len() ==> final(self).data_buf@[j] == 0)
                                &&& final(self).awaiting == Some(AssignContext::AfterPiece)
                                &&& acts@.len() == 3
                                &&& (acts@[0] matches Action::WritePiece { index, data } && index
                                    == p.index && data@ == buf2)
                                &&& (acts@[1] matches Action::NotifyCompleted { index } && index
                                    == p.index)
                                &&& acts@[2] is AskAssignment
                            } else {
                                &&& final(self).piece_index == old(self).piece_index
                                &&& final(self).block_index == 0
                                &&& final(self).data_buf@.len() == old(self).data_buf@.len()
                                &&& (forall|j: int|
                                    0 <= j < final(self).data_buf@.len() ==> final(self).data_buf@[j] == 0)
                                &&& final(self).awaiting is None
                                &&& acts@.len() == 1
                                &&& if old(self).peer_state.client_choked {
                                    acts@[0] is SendInterested
                                } else {
                                    (acts@[0] matches Action::SendRequest { index, begin, length }
                                        && index == p.index && begin == 0 && length == old(
                                        self,
                                    ).md.spec_block_len(p.index as int, 0))
                                }
                            }
                        } else {
                            &&& final(self).piece_index == old(self).piece_index
                            &&& final(self).block_index == old(self).block_index + 1
                            &&& final(self).data_buf@ == buf2
                            &&& final(self).awaiting is None
                            &&& acts@.len() == 1
                            &&& if old(self).peer_state.client_choked {
                                acts@[0] is SendInterested
                            } else {
                                (acts@[0] matches Action::SendRequest { index, begin, length }
                                    && index == p.index && begin == (old(self).block_index + 1)
                                    * BLOCK_LEN && length == old(self).md.spec_block_len(
                                    p.index as int,
                                    old(self).block_index + 1,
                                ))
                            }
                        }
                    } else {
                        old(self).cursor_unchanged(&*final(self)) && final(self).awaiting is None
                            && acts@.len() == 0
                    }
                },
            },
    {
        let mut acts: Vec<Action> = Vec::new();
        match msg {
            Message::KeepAlive(_) => acts,
            Message::Choke(_) => {
                self.peer_state.client_choked = true;
                acts
            },
            Message::Unchoke(_) => {
                self.peer_state.client_choked = false;
                match self.piece_index {
                    Some(i) => {
                        let begin = self.request_begin();
                        let length = self.md.block_len(i, self.block_index);
                        acts.push(Action::SendRequest { index: i, begin, length });
                        acts
                    },
                    None => acts,
                }
            },
            Message::Interested(_) => {
                self.peer_state.peer_interested = true;
                self.peer_state.peer_choked = false;
                acts
            },
            Message::NotInterested(_) => {
                self.peer_state.peer_interested = false;
                acts
            },
            Message::Have(h) => {
                if (h.piece_index as usize) < self.md.num_pieces() {
                    acts.push(Action::NotifyHave { index: h.piece_index });
                    if self.piece_index.is_none() {
                        acts.push(Action::AskAssignment);
                        self.awaiting = Some(AssignContext::AfterHave);
                    }
                } else {
                    acts.push(Action::Disconnect);
                }
                acts
            },
            Message::Bitfield(b) => {
                let np = self.md.num_pieces();
                let hash_bytes = self.md.info.pieces.len();
                proof {
                    assert(hash_bytes == self.md.info.pieces@.len());
                    assert(self.md.info.pieces@.len() == 20 * self.md.spec_num_pieces()) by {
                        let len = self.md.info.pieces@.len() as int;
                        assert(len % 20 == 0);
                        assert(self.md.spec_num_pieces() == len / 20);
                        assert(len == 20 * (len / 20) + len % 20) by (nonlinear_arith);
                    }
                    assert(20 * self.md.spec_num_pieces() <= usize::MAX);
                }
                if b.bitfield.len() >= (np + 7) / 8 {
                    proof {
                        let blen = b.bitfield@.len() as int;
                        assert(8 * ((np + 7) / 8) >= np);
                        assert(8 * blen >= np);
                    }
                    let bits = unpack_bits(&b.bitfield, np);
                    acts.push(Action::NotifyBitfield { bits });
                    acts.push(Action::AskAssignment);
                    self.awaiting = Some(AssignContext::AfterBitfield);
                } else {
                    proof {
                        let blen = b.bitfield@.len() as int;
                        assert(blen < (np + 7) / 8);
                        assert(8 * blen < np);
                    }
                    acts.push(Action::Disconnect);
                }
                acts
            },
            Message::Request(_) => acts,
            Message::Cancel(_) => {
                acts.push(Action::Exit);
                acts
            },
            Message::Piece(p) => {
                let expected_begin = self.request_begin();
                let accept = match self.piece_index {
                    Some(pi) => pi == p.index && p.begin == expected_begin,
                    None => false,
                };
                if accept {
                    let begin = p.begin as usize;
                    let blen = if p.block.len() < BLOCK_LEN as usize {
                        p.block.len()
                    } else {
                        BLOCK_LEN as usize
                    };
                    proof {
                        self.lemma_block_fits();
                    }
                    splice_block(&mut self.data_buf, begin, &p.block, blen);
                    if self.block_index + 1 == self.md.num_blocks() {
                        let complete = piece_matches_hash(&self.md, p.index, &self.data_buf);
                        self.block_index = 0;
                        let mut fresh = zero_buf(self.md.info.piece_length as usize);
                        core::mem::swap(&mut self.data_buf, &mut fresh);
                        if complete {
                            acts.push(Action::WritePiece { index: p.index, data: fresh });
                            acts.push(Action::NotifyCompleted { index: p.index });
                            acts.push(Action::AskAssignment);
                            self.awaiting = Some(AssignContext::AfterPiece);
                        } else {
                            // the piece failed verification: discard it and
                            // fetch it again from block zero
                            if self.peer_state.client_choked {
                                acts.push(Action::SendInterested);
                            } else {
                                let length = self.md.block_len(p.index, 0);
                                acts.push(
                                    (Action::SendRequest { index: p.index, begin: 0, length }),
                                );
                            }
                        }
                    } else {
                        self.block_index = self.block_index + 1;
                        if self.peer_state.client_choked {
                            acts.push(Action::SendInterested);
                        } else {
                            let begin2 = self.request_begin();
                            let length = self.md.block_len(p.index, self.block_index);
                            acts.push(
                                (Action::SendRequest { index: p.index, begin: begin2, length }),
                            );
                        }
                    }
                }
                acts
            },
        }
    }

    /// The byte offset of the next expected block within the piece.
    fn request_begin(&self) -> (r: u32)
        requires
            self.wf(),
        ensures
            r == self.block_index * BLOCK_LEN,
    {
        proof {
            self.lemma_block_fits();
        }
        self.block_index * BLOCK_LEN
    }

    /// The next expected block lies within the piece buffer.
    proof fn lemma_block_fits(&self)
        requires
            self.wf(),
        ensures
            self.block_index * BLOCK_LEN + BLOCK_LEN <= self.md.info.piece_length,
    {
        let bi = self.block_index as int;
        let nb = self.md.spec_num_blocks();
        let pl = self.md.info.piece_length as int;
        lemma_mul_inequality(bi, nb - 1, BLOCK_LEN as int);
        assert(pl == nb * BLOCK_LEN) by {
            assert(pl % (BLOCK_LEN as int) == 0);
            assert(nb == pl / (BLOCK_LEN as int));
            assert(pl == (BLOCK_LEN as int) * (pl / (BLOCK_LEN as int)) + pl % (
            BLOCK_LEN as int)) by (nonlinear_arith);
            assert((BLOCK_LEN as int) * nb == nb * (BLOCK_LEN as int)) by (nonlinear_arith);
        }
        assert((nb - 1) * BLOCK_LEN == nb * BLOCK_LEN - BLOCK_LEN) by (nonlinear_arith);
    }

    /// Receives the strategy's answer to the outstanding assignment request
    /// and returns the sends it entails.
    pub fn on_assignment(&mut self, reply: Option<u32>) -> (acts: Vec<Action>)
        requires
            old(self).wf(),
            old(self).awaiting is Some,
            (reply matches Some(i) ==> (i as int) < old(self).md.spec_num_pieces()),
        ensures
            final(self).wf(),
            final(self).md == old(self).md,
            final(self).awaiting is None,
            final(self).piece_index == reply,
            final(self).data_buf@ == old(self).data_buf@,
            final(self).peer_state.client_choked == old(self).peer_state.client_choked,
            final(self).peer_state.peer_choked == old(self).peer_state.peer_choked,
            final(self).peer_state.peer_interested == old(self).peer_state.peer_interested,
            match old(self).awaiting {
                Some(AssignContext::AfterHave) => {
                    &&& final(self).peer_state.client_interested == old(
                        self,
                    ).peer_state.client_interested
                    &&& final(self).block_index == old(self).block_index
                    &&& acts@.len() == 0
                },
                Some(AssignContext::AfterBitfield) => {
                    &&& final(self).peer_state.client_interested == (reply is Some)
                    &&& match reply {
                        Some(i) => {
                            &&& final(self).block_index == 0
                            &&& if old(self).peer_state.client_choked {
                                acts@.len() == 1 && acts@[0] is SendInterested
                            } else {
                                &&& acts@.len() == 2
                                &&& acts@[0] is SendInterested
                                &&& (acts@[1] matches Action::SendRequest { index, begin, length }
                                    && index == i && begin == 0 && length == old(
                                    self,
                                ).md.spec_block_len(i as int, 0))
                            }
                        },
                        None => final(self).block_index == old(self).block_index && acts@.len()
                            == 0,
                    }
                },
                Some(AssignContext::AfterPiece) => {
                    &&& final(self).peer_state.client_interested == (reply is Some)
                    &&& match reply {
                        Some(i) => {
                            &&& final(self).block_index == 0
                            &&& acts@.len() == 1
                            &&& if old(self).peer_state.client_choked {
                                acts@[0] is SendInterested
                            } else {
                                (acts@[0] matches Action::SendRequest { index, begin, length }
                                    && index == i && begin == 0 && length == old(
                                    self,
                                ).md.spec_block_len(i as int, 0))
                            }
                        },
                        None => final(self).block_index == old(self).block_index && acts@.len()
                            == 0,
                    }
                },
                None => false,
            },
    {
        let mut acts: Vec<Action> = Vec::new();
        let ctx = match &self.awaiting {
            Some(c) => {
                match c {
                    AssignContext::AfterHave => 0usize,
                    AssignContext::AfterBitfield => 1usize,
                    AssignContext::AfterPiece => 2usize,
                }
            },
            None => {
                proof {
                    assert(false);
                }
                0usize
            },
        };
        self.awaiting = None;
        self.piece_index = reply;
        if ctx == 0 {
            return acts;
        }
        match reply {
            Some(i) => {
                self.peer_state.client_interested = true;
                self.block_index = 0;
                let length = self.md.block_len(i, 0);
                if ctx == 1 {
                    acts.push(Action::SendInterested);
                    if !self.peer_state.client_choked {
                        acts.push(Action::SendRequest { index: i, begin: 0, length });
                    }
                } else {
                    if self.peer_state.client_choked {
                        acts.push(Action::SendInterested);
                    } else {
                        acts.push(Action::SendRequest { index: i, begin: 0, length });
                    }
                }
            },
            None => {
                self.peer_state.client_interested = false;
            },
        }
        acts
    }
}

/// Writes `blen` bytes of a received block into the assembly buffer at
/// `begin`, leaving every other byte unchanged.
fn splice_block(buf: &mut Vec<u8>, begin: usize, block: &Vec<u8>, blen: usize)
    requires
        blen <= block@.len(),
        begin + blen <= old(buf)@.len(),
    ensures
        final(buf)@ == spec_overlay(old(buf)@, begin as int, block@.take(blen as int)),
{
    let cap = buf.len();
    let mut j: usize = 0;
    while j < blen
        invariant
            j <= blen,
            blen <= block@.len(),
            cap == buf@.len(),
            begin + blen <= buf@.len(),
            buf@.len() == old(buf)@.len(),
            forall|t: int| 0 <= t < begin ==> buf@[t] == old(buf)@[t],
            forall|t: int| begin <= t < begin + j ==> buf@[t] == block@[t - begin],
            forall|t: int| begin + j <= t < buf@.len() ==> buf@[t] == old(buf)@[t],
        decreases blen - j,
    {
        let v = block[j];
        buf.set(begin + j, v);
        j = j + 1;
    }
    proof {
        assert(buf@ =~= spec_overlay(old(buf)@, begin as int, block@.take(blen as int)));
    }
}

/// The 19 ASCII bytes of the handshake protocol name.
pub open spec fn spec_pstr() -> Seq<u8> {
    seq![66u8, 105, 116, 84, 111, 114, 114, 101, 110, 116, 32, 112, 114, 111, 116, 111, 99, 111, 108]
}

/// The 68-byte handshake: length 19, the protocol name, eight reserved zero
/// bytes, the content identity hash, the client identity.
pub open spec fn spec_handshake(info_hash: Seq<u8>, peer_id: Seq<u8>) -> Seq<u8> {
    seq![19u8] + spec_pstr() + seq![0u8, 0, 0, 0, 0, 0, 0, 0] + info_hash + peer_id
}

/// The fixed 20-byte client identity: the prefix `-TO0000-` and twelve
/// distinguishing bytes.
pub open spec fn spec_client_peer_id() -> Seq<u8> {
    seq![45u8, 84, 79, 48, 48, 48, 48, 45, 48, 49, 50, 51, 52, 53, 54, 55, 56, 57, 65, 66]
}

/// Builds the fixed client identity used in handshakes and announces.
pub fn client_peer_id() -> (r: Vec<u8>)
    ensures
        r@ == spec_client_peer_id(),
        r@.len() == 20,
        r@[0] == 45 && r@[1] == 84 && r@[2] == 79 && r@[3] == 48 && r@[4] == 48 && r@[5] == 48
            && r@[6] == 48 && r@[7] == 45,
{
    let mut r: Vec<u8> = Vec::new();
    r.push(45);
    r.push(84);
    r.push(79);
    r.push(48);
    r.push(48);
    r.push(48);
    r.push(48);
    r.push(45);
    r.push(48);
    r.push(49);
    r.push(50);
    r.push(51);
    r.push(52);
    r.push(53);
    r.push(54);
    r.push(55);
    r.push(56);
    r.push(57);
    r.push(65);
    r.push(66);
    proof {
        assert(r@ =~= spec_client_peer_id());
    }
    r
}

/// Builds the 68-byte handshake message for one content identity.
pub fn handshake_msg(info_hash: &Vec<u8>, peer_id: &Vec<u8>) -> (r: Vec<u8>)
    requires
        info_hash@.len() == 20,
        peer_id@.len() == 20,
    ensures
        r@ == spec_handshake(info_hash@, peer_id@),
        r@.len() == 68,
{
    let mut out: Vec<u8> = Vec::new();
    out.push(19);
    out.push(66);
    out.push(105);
    out.push(116);
    out.push(84);
    out.push(111);
    out.push(114);
    out.push(114);
    out.push(101);
    out.push(110);
    out.push(116);
    out.push(32);
    out.push(112);
    out.push(114);
    out.push(111);
    out.push(116);
    out.push(111);
    out.push(99);
    out.push(111);
    out.push(108);
    proof {
        assert(out@.len() == 20);
        assert(out@[0] == 19u8);
        assert(forall|j: int| 0 <= j < 19 ==> out@[1 + j] == spec_pstr()[j]) by {
            assert(out@ =~= seq![19u8] + spec_pstr());
        }
    }
    let mut z: usize = 0;
    while z < 8
        invariant
            z <= 8,
            out@.len() == 20 + z,
            out@[0] == 19u8,
            forall|j: int| 0 <= j < 19 ==> out@[1 + j] == spec_pstr()[j],
            forall|j: int| 0 <= j < z ==> #[trigger] out@[20 + j] == 0u8,
        decreases 8 - z,
    {
        out.push(0);
        z = z + 1;
    }
    let mut k: usize = 0;
    while k < info_hash.len()
        invariant
            k <= info_hash@.len(),
            info_hash@.len() == 20,
            out@.len() == 28 + k,
            out@[0] == 19u8,
            forall|j: int| 0 <= j < 19 ==> out@[1 + j] == spec_pstr()[j],
            forall|j: int| 0 <= j < 8 ==> #[trigger] out@[20 + j] == 0u8,
            forall|j: int| 0 <= j < k ==> out@[28 + j] == info_hash@[j],
        decreases info_hash@.len() - k,
    {
        out.push(info_hash[k]);
        k = k + 1;
    }
    let mut k: usize = 0;
    while k < peer_id.len()
        invariant
            k <= peer_id@.len(),
            peer_id@.len() == 20,
            info_hash@.len() == 20,
            out@.len() == 48 + k,
            out@[0] == 19u8,
            forall|j: int| 0 <= j < 19 ==> out@[1 + j] == spec_pstr()[j],
            forall|j: int| 0 <= j < 8 ==> #[trigger] out@[20 + j] == 0u8,
            forall|j: int| 0 <= j < 20 ==> out@[28 + j] == info_hash@[j],
            forall|j: int| 0 <= j < k ==> out@[48 + j] == peer_id@[j],
        decreases peer_id@.len() - k,
    {
        out.push(peer_id[k]);
        k = k + 1;
    }
    proof {
        let hs = spec_handshake(info_hash@, peer_id@);
        assert(out@.len() == 68 && hs.len() == 68);
        assert forall|g: int| 0 <= g < 68 implies out@[g] == hs[g] by {
            if g == 0 {
            } else if g < 20 {
                assert(out@[1 + (g - 1)] == spec_pstr()[g - 1]);
            } else if g < 28 {
                assert(out@[20 + (g - 20)] == 0u8);
            } else if g < 48 {
                assert(out@[28 + (g - 28)] == info_hash@[g - 28]);
            } else {
                assert(out@[48 + (g - 48)] == peer_id@[g - 48]);
            }
        }
        assert(out@ =~= hs);
    }
    out
}

/// Error of the opening exchange: the peer closed early or answered with
/// less than a full 68-byte reply.
#[derive(Debug, PartialEq, Eq, Structural, Clone, Copy)]
pub enum PeerError {
    HandshakeFailed,
}

/// Splits a handshake read: the reply itself is 68 bytes; whatever follows
/// already belongs to the first frames.  A read shorter than a full reply,
/// including an empty read, is a handshake failure.
pub fn split_handshake_reply(buf: &Vec<u8>, n: usize) -> (r: Result<Vec<u8>, PeerError>)
    requires
        n <= buf@.len(),
    ensures
        match r {
            Ok(rem) => n >= 68 && rem@ == buf@.subrange(68, n as int),
            Err(e) => n < 68 && e == PeerError::HandshakeFailed,
        },
{
    if n < 68 {
        return Err(PeerError::HandshakeFailed);
    }
    Ok(vstd::slice::slice_to_vec(vstd::slice::slice_subrange(buf.as_slice(), 68, n)))
}

} // verus!
